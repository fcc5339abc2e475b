//! The device identity key: which tier it comes from, the certificate request
//! of a hardware key, and the machine's own identifier.

use rustls::pki_types::PrivateKeyDer;
use vstd::prelude::*;

use crate::atrest;
use crate::atrest::{ClientWrap, WrapError, WrapErrorView};
use crate::bytes::append;
use crate::certs;
use crate::crypto;
use crate::text;

verus! {

/// Name of the wrapped software key in the state directory.
pub const ATREST_FILE: &'static str = "device-key.atrest";

/// The key file on Windows, which the system protects for the machine.
pub const DPAPI_FILE: &'static str = "device-key.dpapi";

/// What a device key is made of.
#[derive(Debug, Clone, PartialEq, Eq)]
pub enum KeyKind {
    /// Held by the machine's security chip: the public point only.
    Tpm { point: Vec<u8> },
    /// A software key, in memory only.
    Software { key_pem: String },
}

/// The device's identity key.
#[derive(Debug, Clone, PartialEq, Eq)]
pub struct DeviceKey {
    /// `tpm` or `software`.
    pub origin: String,
    pub kind: KeyKind,
}

impl DeviceKey {
    /// A key held by the security chip.
    pub fn hardware(point: Vec<u8>) -> (r: DeviceKey)
        ensures
            r.origin@ == "tpm"@,
            r.kind == (KeyKind::Tpm { point }),
    {
        DeviceKey { origin: "tpm".to_owned(), kind: KeyKind::Tpm { point } }
    }

    /// A software key.
    pub fn software(key_pem: String) -> (r: DeviceKey)
        ensures
            r.origin@ == "software"@,
            r.kind == (KeyKind::Software { key_pem }),
    {
        DeviceKey { origin: "software".to_owned(), kind: KeyKind::Software { key_pem } }
    }

    /// Whether the key is held by hardware.
    pub fn is_tpm(&self) -> (r: bool)
        ensures
            r == (self.kind is Tpm),
    {
        match self.kind {
            KeyKind::Tpm { .. } => true,
            KeyKind::Software { .. } => false,
        }
    }

    /// Certificate and key in one PEM text, for a software key; a hardware key
    /// cannot be written down.
    pub fn tls_identity_pem(&self, cert_pem: &str) -> (r: Option<String>)
        ensures
            match self.kind {
                KeyKind::Software { key_pem } => r matches Some(s) && s@ == cert_pem@ + "\n"@
                    + key_pem@,
                KeyKind::Tpm { .. } => r is None,
            },
    {
        match &self.kind {
            KeyKind::Software { key_pem } => Some(
                cert_pem.to_owned().concat("\n").concat(key_pem.as_str()),
            ),
            KeyKind::Tpm { .. } => None,
        }
    }
}

/// What came of opening the security chip.
#[derive(Debug, Clone, Copy, PartialEq, Eq, Structural)]
pub enum ChipResult {
    /// The key is there.
    Opened,
    /// It could not be opened or used.
    Unusable,
}

/// The host as far as the choice of a tier goes.
#[derive(Debug, Clone, Copy, PartialEq, Eq, Structural)]
pub enum Platform {
    Linux,
    MacOs,
    Windows,
}

/// Which tier the key comes from.
#[derive(Debug, Clone, Copy, PartialEq, Eq, Structural)]
pub enum Tier {
    Hardware,
    Software,
    /// Hardware was asked for and cannot be had: no key at all.
    Refused,
}

/// Whether hardware was asked for: by naming the chip's interface, or by
/// naming the origin.
pub fn tpm_requested(tcti_set: bool, origin: Option<&str>) -> (r: bool)
    ensures
        r == (tcti_set || (origin matches Some(o) && o@ == "tpm"@)),
{
    if tcti_set {
        return true;
    }
    match origin {
        Some(o) => text::str_eq(o, "tpm"),
        None => false,
    }
}

/// Whether the chip is to be tried: not on macOS, and not where the origin is
/// forced.
pub fn asks_chip(platform: Platform, origin: Option<&str>) -> (r: bool)
    ensures
        r == tries_chip(
            platform,
            match origin {
                Some(o) => Some(o@),
                None => None,
            },
        ),
{
    let software = match origin {
        Some(o) => text::str_eq(o, "software"),
        None => false,
    };
    platform != Platform::MacOs && !software
}

/// Whether the chip is tried at all.
pub open spec fn tries_chip(platform: Platform, origin: Option<Seq<char>>) -> bool {
    platform != Platform::MacOs && !(origin matches Some(o) && o == "software"@)
}

/// The tier. `tcti_named` says whether the chip's interface variable exists,
/// `tcti_set` whether it names anything, `chip` what came of trying it (which
/// matters only where it is tried).
pub open spec fn tier(
    platform: Platform,
    tcti_named: bool,
    tcti_set: bool,
    origin: Option<Seq<char>>,
    chip: ChipResult,
) -> Tier {
    if platform == Platform::MacOs && (tcti_named || (origin matches Some(o) && o == "tpm"@)) {
        Tier::Refused
    } else if tries_chip(platform, origin) {
        if chip == ChipResult::Opened {
            Tier::Hardware
        } else if platform == Platform::Linux && tcti_set {
            Tier::Refused
        } else {
            Tier::Software
        }
    } else {
        Tier::Software
    }
}

/// Chooses the tier: hardware where it opens, software where it does not,
/// unless hardware was asked for by name.
pub fn open_or_create(
    platform: Platform,
    tcti_named: bool,
    tcti_set: bool,
    origin: Option<&str>,
    chip: ChipResult,
) -> (r: Tier)
    ensures
        r == tier(
            platform,
            tcti_named,
            tcti_set,
            match origin {
                Some(o) => Some(o@),
                None => None,
            },
            chip,
        ),
{
    if platform == Platform::MacOs {
        return if tpm_requested(tcti_named, origin) {
            Tier::Refused
        } else {
            Tier::Software
        };
    }
    if !asks_chip(platform, origin) {
        return Tier::Software;
    }
    if chip == ChipResult::Opened {
        Tier::Hardware
    } else if platform == Platform::Linux && tcti_set {
        Tier::Refused
    } else {
        Tier::Software
    }
}

/// Law: where hardware was asked for and cannot be had, no software key takes
/// its place unnoticed.
pub proof fn law_no_silent_software_key(
    platform: Platform,
    tcti_set: bool,
    origin: Option<Seq<char>>,
)
    requires
        tcti_set,
        platform == Platform::MacOs || (platform == Platform::Linux && tries_chip(platform, origin)),
    ensures
        tier(platform, true, tcti_set, origin, ChipResult::Unusable) == Tier::Refused,
{
}

// ---------------------------------------------------------------------
// DER
// ---------------------------------------------------------------------

/// A length: one byte below 128, else a count and one or two bytes. Lengths
/// of more than two bytes are cut to two.
pub open spec fn length_bytes(n: nat) -> Seq<u8> {
    if n < 0x80 {
        seq![n as u8]
    } else if n <= 0xff {
        seq![0x81u8, n as u8]
    } else {
        seq![0x82u8, ((n / 256) % 256) as u8, (n % 256) as u8]
    }
}

/// A tagged value: tag, length, content.
pub open spec fn der(tag: u8, content: Seq<u8>) -> Seq<u8> {
    seq![tag] + length_bytes(content.len()) + content
}

/// Appends a length.
pub fn der_len(n: usize, out: &mut Vec<u8>)
    ensures
        final(out)@ == old(out)@ + length_bytes(n as nat),
{
    if n < 0x80 {
        out.push(n as u8);
    } else if n <= 0xff {
        out.push(0x81);
        out.push(n as u8);
    } else {
        out.push(0x82);
        out.push(((n / 256) % 256) as u8);
        out.push((n % 256) as u8);
    }
    assert(out@ =~= old(out)@ + length_bytes(n as nat));
}

/// A tagged value.
pub fn tlv(tag: u8, content: &[u8]) -> (r: Vec<u8>)
    ensures
        r@ == der(tag, content@),
{
    let mut out: Vec<u8> = Vec::new();
    out.push(tag);
    der_len(content.len(), &mut out);
    append(&mut out, content);
    assert(out@ =~= der(tag, content@));
    out
}

/// The content length that a tagged value's header gives, and where the
/// content starts.
pub open spec fn header_of(b: Seq<u8>) -> Option<(nat, int)> {
    if b.len() < 2 {
        None
    } else if b[1] < 0x80 {
        Some((b[1] as nat, 2))
    } else if b[1] == 0x81 && b.len() >= 3 {
        Some((b[2] as nat, 3))
    } else if b[1] == 0x82 && b.len() >= 4 {
        Some(((b[2] * 256 + b[3]) as nat, 4))
    } else {
        None
    }
}

/// Law: a tagged value's header gives back the length of its content, and the
/// content follows the header, for every content of less than 65536 bytes.
pub proof fn law_tlv_reads_back(tag: u8, content: Seq<u8>)
    requires
        content.len() < 65536,
    ensures
        der(tag, content)[0] == tag,
        header_of(der(tag, content)) matches Some((n, at)) && n == content.len() && der(
            tag,
            content,
        ).subrange(at, der(tag, content).len() as int) == content,
{
    let b = der(tag, content);
    let at = header_of(b)->Some_0.1;
    assert(b.subrange(at, b.len() as int) =~= content);
}

/// The tagged value that starts at a place: its tag, its content and where the
/// next one starts; `None` where there is no whole one.
pub open spec fn element_at(b: Seq<u8>, at: int) -> Option<(u8, Seq<u8>, int)> {
    match header_of(b.subrange(at, b.len() as int)) {
        Some((n, skip)) => if at + skip + n <= b.len() {
            Some((b[at], b.subrange(at + skip, at + skip + n), at + skip + n))
        } else {
            None
        },
        None => None,
    }
}

/// Law: a tagged value is read back wherever it stands, and the next one
/// starts right behind it.
pub proof fn law_element_reads_back(before: Seq<u8>, tag: u8, content: Seq<u8>, after: Seq<u8>)
    requires
        content.len() < 65536,
    ensures
        element_at(before + der(tag, content) + after, before.len() as int) == Some(
            (tag, content, (before.len() + der(tag, content).len()) as int),
        ),
        der(tag, content).len() <= content.len() + 4,
{
    let b = before + der(tag, content) + after;
    let at = before.len() as int;
    let t = b.subrange(at, b.len() as int);
    let d = der(tag, content);
    assert(t =~= d + after);
    law_tlv_reads_back(tag, content);
    let skip = header_of(d)->Some_0.1;
    assert(t[0] == d[0] && t[1] == d[1]);
    assert(d.len() == skip + content.len());
    if skip >= 3 {
        assert(t[2] == d[2]);
    }
    if skip >= 4 {
        assert(t[3] == d[3]);
    }
    assert(b.subrange(at + skip, at + skip + content.len()) =~= content);
}

/// The number that bytes spell, the first byte counting most.
pub open spec fn be_value(b: Seq<u8>) -> nat
    decreases b.len(),
{
    if b.len() == 0 {
        0
    } else {
        be_value(b.drop_last()) * 256 + b.last() as nat
    }
}

/// The non-negative integer that stands at a place, and where the next value
/// starts: tag 2, at least one byte, and no byte more than its value and sign
/// need.
pub open spec fn integer_at(b: Seq<u8>, at: int) -> Option<(nat, int)> {
    match element_at(b, at) {
        Some((tag, c, next)) => if tag == 0x02 && c.len() > 0 && c[0] < 0x80 && (c.len() > 1
            && c[0] == 0 ==> c[1] >= 0x80) {
            Some((be_value(c), next))
        } else {
            None
        },
        None => None,
    }
}

/// `b` without leading zero bytes, but for one.
pub open spec fn minimal(b: Seq<u8>) -> Seq<u8>
    decreases b.len(),
{
    if b.len() > 1 && b[0] == 0 {
        minimal(b.drop_first())
    } else {
        b
    }
}

/// A non-negative integer in DER: minimal bytes, with a zero in front where
/// the first would read as a sign.
pub open spec fn uint(b: Seq<u8>) -> Seq<u8> {
    let m = minimal(b);
    der(
        0x02,
        if m[0] >= 0x80 {
            seq![0u8] + m
        } else {
            m
        },
    )
}

/// A non-negative integer from its big-endian bytes.
pub fn der_uint_be(bytes: &[u8]) -> (r: Vec<u8>)
    requires
        bytes@.len() > 0,
    ensures
        r@ == uint(bytes@),
{
    let mut i: usize = 0;
    assert(bytes@.subrange(0, bytes@.len() as int) =~= bytes@);
    while bytes.len() - i > 1 && bytes[i] == 0
        invariant
            i < bytes@.len(),
            minimal(bytes@) == minimal(bytes@.subrange(i as int, bytes@.len() as int)),
        decreases bytes@.len() - i,
    {
        assert(bytes@.subrange(i as int, bytes@.len() as int).drop_first() =~= bytes@.subrange(
            i + 1,
            bytes@.len() as int,
        ));
        i += 1;
    }
    let m = vstd::slice::slice_subrange(bytes, i, bytes.len());
    let mut v: Vec<u8> = Vec::new();
    if m[0] >= 0x80 {
        v.push(0);
    }
    append(&mut v, m);
    proof {
        if m@[0] >= 0x80 {
            assert(v@ =~= seq![0u8] + m@);
        } else {
            assert(v@ =~= m@);
        }
    }
    tlv(0x02, v.as_slice())
}

proof fn lemma_leading_zero(b: Seq<u8>)
    ensures
        be_value(seq![0u8] + b) == be_value(b),
    decreases b.len(),
{
    let z = seq![0u8] + b;
    if b.len() == 0 {
        assert(z.drop_last() =~= Seq::<u8>::empty());
        reveal_with_fuel(be_value, 2);
    } else {
        assert(z.drop_last() =~= seq![0u8] + b.drop_last());
        lemma_leading_zero(b.drop_last());
    }
}

proof fn lemma_minimal_value(b: Seq<u8>)
    requires
        b.len() > 0,
    ensures
        1 <= minimal(b).len() <= b.len(),
        minimal(b).len() > 1 ==> minimal(b)[0] != 0,
        be_value(minimal(b)) == be_value(b),
    decreases b.len(),
{
    if b.len() > 1 && b[0] == 0 {
        lemma_minimal_value(b.drop_first());
        assert(b =~= seq![0u8] + b.drop_first());
        lemma_leading_zero(b.drop_first());
    }
}

/// Law: an integer in DER reads back as the number its bytes spell, wherever
/// it stands.
pub proof fn law_uint_reads_back(before: Seq<u8>, b: Seq<u8>, after: Seq<u8>)
    requires
        0 < b.len() < 65535,
    ensures
        integer_at(before + uint(b) + after, before.len() as int) == Some(
            (be_value(b), (before.len() + uint(b).len()) as int),
        ),
        uint(b).len() <= b.len() + 5,
{
    let m = minimal(b);
    lemma_minimal_value(b);
    lemma_leading_zero(m);
    let c = if m[0] >= 0x80 {
        seq![0u8] + m
    } else {
        m
    };
    law_element_reads_back(before, 0x02, c, after);
}

/// The algorithm of a P-256 public key: the two object identifiers.
pub open spec fn p256_algorithm() -> Seq<u8> {
    der(
        0x30,
        der(0x06, seq![0x2Au8, 0x86u8, 0x48u8, 0xCEu8, 0x3Du8, 0x02u8, 0x01u8]) + der(
            0x06,
            seq![0x2Au8, 0x86u8, 0x48u8, 0xCEu8, 0x3Du8, 0x03u8, 0x01u8, 0x07u8],
        ),
    )
}

/// A P-256 public key around an uncompressed point.
pub open spec fn spki(point: Seq<u8>) -> Seq<u8> {
    der(0x30, p256_algorithm() + der(0x03, seq![0u8] + point))
}

pub(crate) fn concat2(a: &Vec<u8>, b: &Vec<u8>) -> (r: Vec<u8>)
    ensures
        r@ == a@ + b@,
{
    let mut out: Vec<u8> = Vec::new();
    append(&mut out, a.as_slice());
    append(&mut out, b.as_slice());
    assert(out@ =~= a@ + b@);
    out
}

fn bit_string(content: &[u8]) -> (r: Vec<u8>)
    ensures
        r@ == der(0x03, seq![0u8] + content@),
{
    let mut bits: Vec<u8> = Vec::new();
    bits.push(0);
    append(&mut bits, content);
    assert(bits@ =~= seq![0u8] + content@);
    tlv(0x03, bits.as_slice())
}

/// A P-256 public key around an uncompressed point.
pub fn spki_from_point(point: &[u8]) -> (r: Vec<u8>)
    ensures
        r@ == spki(point@),
{
    let ec: [u8; 7] = [0x2Au8, 0x86u8, 0x48u8, 0xCEu8, 0x3Du8, 0x02u8, 0x01u8];
    let p256: [u8; 8] = [0x2Au8, 0x86u8, 0x48u8, 0xCEu8, 0x3Du8, 0x03u8, 0x01u8, 0x07u8];
    assert(ec@ =~= seq![0x2Au8, 0x86u8, 0x48u8, 0xCEu8, 0x3Du8, 0x02u8, 0x01u8]);
    assert(p256@ =~= seq![0x2Au8, 0x86u8, 0x48u8, 0xCEu8, 0x3Du8, 0x03u8, 0x01u8, 0x07u8]);
    let oids = concat2(&tlv(0x06, ec.as_slice()), &tlv(0x06, p256.as_slice()));
    let alg = tlv(0x30, oids.as_slice());
    let body = concat2(&alg, &bit_string(point));
    tlv(0x30, body.as_slice())
}

/// Law: the key of a 65-byte point takes 91 bytes.
pub proof fn law_spki_length(point: Seq<u8>)
    requires
        point.len() == 65,
    ensures
        spki(point).len() == 91,
        spki(point)[0] == 0x30,
        spki(point).subrange(26, 91) == point,
{
    assert(spki(point).subrange(26, 91) =~= point);
}

/// `s` cut into lines of at most 64 characters, each with a line feed.
pub open spec fn folded(s: Seq<char>) -> Seq<char>
    decreases s.len(),
{
    if s.len() == 0 {
        Seq::empty()
    } else if s.len() <= 64 {
        s + seq!['\n']
    } else {
        s.subrange(0, 64) + seq!['\n'] + folded(s.subrange(64, s.len() as int))
    }
}

/// PEM of a byte string.
pub open spec fn pem(tag: Seq<char>, der_bytes: Seq<u8>) -> Seq<char> {
    "-----BEGIN "@ + tag + "-----\n"@ + folded(crypto::b64(der_bytes, false)) + "-----END "@ + tag
        + "-----\n"@
}

fn fold(s: &[char]) -> (r: Vec<char>)
    ensures
        r@ == folded(s@),
{
    let mut out: Vec<char> = Vec::new();
    let mut i: usize = 0;
    assert(text::rest(s@, 0) =~= s@);
    assert(out@ + folded(text::rest(s@, 0)) =~= folded(s@));
    while i < s.len()
        invariant
            i <= s@.len(),
            out@ + folded(text::rest(s@, i as int)) == folded(s@),
        decreases s@.len() - i,
    {
        let end: usize = if s.len() - i <= 64 {
            s.len()
        } else {
            i + 64
        };
        let ghost before = out@;
        let ghost tail = text::rest(s@, i as int);
        let piece = text::cut(s, i, end);
        text::push_all(&mut out, piece.as_slice());
        out.push('\n');
        proof {
            assert(piece@ =~= tail.subrange(0, end - i));
            assert(text::rest(s@, end as int) =~= tail.subrange(end - i, tail.len() as int));
            if tail.len() <= 64 {
                assert(tail.subrange(0, end - i) =~= tail);
                assert(text::rest(s@, end as int) =~= Seq::<char>::empty());
            }
            assert(out@ + folded(text::rest(s@, end as int)) =~= before + folded(tail));
        }
        i = end;
    }
    assert(text::rest(s@, i as int) =~= Seq::<char>::empty());
    assert(out@ =~= folded(s@));
    out
}

/// PEM of a byte string.
pub fn pem_wrap(tag: &str, der_bytes: &[u8]) -> (r: String)
    ensures
        r@ == pem(tag@, der_bytes@),
{
    let b64 = crypto::base64_encode(der_bytes);
    let cs = text::chars(b64.as_str());
    let body = text::string(fold(cs.as_slice()).as_slice());
    "-----BEGIN ".to_owned().concat(tag).concat("-----\n").concat(body.as_str()).concat(
        "-----END ",
    ).concat(tag).concat("-----\n")
}

/// What a certificate request for a hardware key signs: version, name, key,
/// no attributes.
pub open spec fn request_info(hostname: Seq<char>, point: Seq<u8>) -> Seq<u8> {
    let name = der(
        0x30,
        der(
            0x31,
            der(
                0x30,
                der(0x06, seq![0x55u8, 0x04u8, 0x03u8]) + der(
                    0x0C,
                    vstd::utf8::encode_utf8(hostname),
                ),
            ),
        ),
    );
    der(0x30, der(0x02, seq![0u8]) + name + spki(point) + der(0xA0, Seq::empty()))
}

/// The certificate request: what was signed, the algorithm (ECDSA with
/// SHA-256), and the signature from its two halves.
pub open spec fn request(info: Seq<u8>, sig: Seq<u8>) -> Seq<u8> {
    let alg = der(
        0x30,
        der(0x06, seq![0x2Au8, 0x86u8, 0x48u8, 0xCEu8, 0x3Du8, 0x04u8, 0x03u8, 0x02u8]),
    );
    let der_sig = der(0x30, uint(sig.subrange(0, 32)) + uint(sig.subrange(32, 64)));
    der(0x30, info + alg + der(0x03, seq![0u8] + der_sig))
}

/// The bytes a hardware key's certificate request signs, and their digest,
/// which the chip is given.
pub fn tpm_csr_info(hostname: &str, point: &[u8]) -> (r: (Vec<u8>, Vec<u8>))
    ensures
        r.0@ == request_info(hostname@, point@),
        r.1@ == crypto::sha256_of(r.0@),
        r.1@.len() == 32,
{
    let zero: [u8; 1] = [0u8];
    let cn: [u8; 3] = [0x55u8, 0x04u8, 0x03u8];
    let none: [u8; 0] = [];
    assert(zero@ =~= seq![0u8]);
    assert(cn@ =~= seq![0x55u8, 0x04u8, 0x03u8]);
    assert(none@ =~= Seq::<u8>::empty());
    let version = tlv(0x02, zero.as_slice());
    let attr = concat2(&tlv(0x06, cn.as_slice()), &tlv(0x0C, hostname.as_bytes()));
    let rdn = tlv(0x31, tlv(0x30, attr.as_slice()).as_slice());
    let name = tlv(0x30, rdn.as_slice());
    let key = spki_from_point(point);
    let attrs = tlv(0xA0, none.as_slice());
    let body = concat2(&concat2(&concat2(&version, &name), &key), &attrs);
    let info = tlv(0x30, body.as_slice());
    let digest = crypto::sha256(info.as_slice());
    (info, digest)
}

/// The certificate request of a hardware key, in PEM, from what was signed and
/// the chip's signature.
pub fn build_tpm_csr(info: &Vec<u8>, sig: &[u8; 64]) -> (r: String)
    ensures
        r@ == pem("CERTIFICATE REQUEST"@, request(info@, sig@)),
{
    let s = sig.as_slice();
    let halves = concat2(
        &der_uint_be(vstd::slice::slice_subrange(s, 0, 32)),
        &der_uint_be(vstd::slice::slice_subrange(s, 32, 64)),
    );
    let der_sig = tlv(0x30, halves.as_slice());
    let ecdsa: [u8; 8] = [0x2Au8, 0x86u8, 0x48u8, 0xCEu8, 0x3Du8, 0x04u8, 0x03u8, 0x02u8];
    assert(ecdsa@ =~= seq![0x2Au8, 0x86u8, 0x48u8, 0xCEu8, 0x3Du8, 0x04u8, 0x03u8, 0x02u8]);
    let alg = tlv(0x30, tlv(0x06, ecdsa.as_slice()).as_slice());
    let body = concat2(&concat2(info, &alg), &bit_string(der_sig.as_slice()));
    let csr = tlv(0x30, body.as_slice());
    pem_wrap("CERTIFICATE REQUEST", csr.as_slice())
}

/// The uncompressed point of an exported P-256 public key: magic, coordinate
/// length, then the two coordinates. `None` for anything else.
pub fn point_from_ecc_blob(blob: &[u8]) -> (r: Option<Vec<u8>>)
    ensures
        match r {
            Some(p) => blob@.len() == 72 && blob@[0] == 0x50 && p@ == seq![0x04u8] + blob@.subrange(
                8,
                72,
            ),
            None => blob@.len() != 72 || blob@[0] != 0x50,
        },
{
    if blob.len() != 72 || blob[0] != 0x50 {
        return None;
    }
    let mut p: Vec<u8> = Vec::new();
    p.push(0x04);
    append(&mut p, vstd::slice::slice_subrange(blob, 8, 72));
    assert(p@ =~= seq![0x04u8] + blob@.subrange(8, 72));
    Some(p)
}

/// `rcgen::KeyPair::generate` and `serialize_pem`: a fresh P-256 key in PEM,
/// or nothing where the random source fails. Nothing is said of the key: it is
/// random.
#[verifier::external_body]
pub(crate) fn generate_key_pem() -> (r: Option<String>)
{
    Some(rcgen::KeyPair::generate().ok()?.serialize_pem())
}

/// The key in a software key file.
pub open spec fn key_at_rest(blob: Seq<u8>, source: Result<ClientWrap, WrapError>) -> Result<
    Seq<char>,
    WrapErrorView,
> {
    match atrest::held(blob, source) {
        Err(e) => Err(e),
        Ok(p) => if vstd::utf8::valid_utf8(p) {
            Ok(vstd::utf8::decode_utf8(p))
        } else {
            Err(WrapErrorView::NotText)
        },
    }
}

/// Opens the software key in a key file.
pub fn open_software(blob: &[u8], source: Result<ClientWrap, WrapError>) -> (r: Result<
    DeviceKey,
    WrapError,
>)
    ensures
        match r {
            Ok(k) => k.origin@ == "software"@ && (k.kind matches KeyKind::Software { key_pem }
                && key_at_rest(blob@, source) == Ok::<Seq<char>, WrapErrorView>(key_pem@)),
            Err(e) => key_at_rest(blob@, source) == Err::<Seq<char>, WrapErrorView>(e@),
        },
{
    match atrest::unwrap(blob, source) {
        Err(e) => Err(e),
        Ok(p) => match text::from_utf8(p) {
            Some(pem) => Ok(DeviceKey::software(pem)),
            None => Err(WrapError::NotText),
        },
    }
}

/// Wraps a new software key for its file. Where it is encrypted, the file
/// gives the key back under the same source.
pub fn wrap_software(key_pem: String, w: &ClientWrap) -> (r: Result<
    (DeviceKey, Vec<u8>),
    WrapError,
>)
    ensures
        match r {
            Ok((k, blob)) => {
                &&& k.origin@ == "software"@
                &&& k.kind == (KeyKind::Software { key_pem })
                &&& match atrest::secret_of(*w) {
                    None => blob@ == vstd::utf8::encode_utf8(key_pem@),
                    Some(_) => key_at_rest(blob@, Ok(*w)) == Ok::<Seq<char>, WrapErrorView>(
                        key_pem@,
                    ),
                }
            },
            Err(e) => atrest::wrap_fails(*w, vstd::utf8::encode_utf8(key_pem@), e),
        },
{
    match w {
        ClientWrap::Plaintext => wrap_software_drawn(key_pem, w, None, None),
        _ => {
            let salt = crypto::random_bytes::<16>();
            let nonce = crypto::random_bytes::<24>();
            wrap_software_drawn(key_pem, w, salt, nonce)
        },
    }
}

/// Wraps a new software key with the salt and the nonce that were drawn.
pub fn wrap_software_drawn(
    key_pem: String,
    w: &ClientWrap,
    salt: Option<[u8; 16]>,
    nonce: Option<[u8; 24]>,
) -> (r: Result<(DeviceKey, Vec<u8>), WrapError>)
    ensures
        match atrest::wrapped_as(*w, vstd::utf8::encode_utf8(key_pem@), salt, nonce) {
            Ok(b) => r matches Ok((k, blob)) && {
                &&& k.origin@ == "software"@
                &&& k.kind == (KeyKind::Software { key_pem })
                &&& blob@ == b
                &&& atrest::secret_of(*w) is Some ==> key_at_rest(blob@, Ok(*w)) == Ok::<
                    Seq<char>,
                    WrapErrorView,
                >(key_pem@)
            },
            Err(k) => r matches Err(e) && e == WrapError::Key(k),
        },
{
    match atrest::wrap_drawn(w, key_pem.as_str().as_bytes(), salt, nonce) {
        Err(e) => Err(e),
        Ok(blob) => {
            proof {
                vstd::utf8::encode_utf8_valid_utf8(key_pem@);
                vstd::utf8::encode_utf8_decode_utf8(key_pem@);
            }
            Ok((DeviceKey::software(key_pem), blob))
        },
    }
}

/// Makes a software key and its file; nothing where the random source fails.
pub fn create_software(w: &ClientWrap) -> (r: Option<Result<(DeviceKey, Vec<u8>), WrapError>>)
    ensures
        r matches Some(Ok((k, blob))) ==> k.origin@ == "software"@ && (k.kind
            matches KeyKind::Software { key_pem } && match atrest::secret_of(*w) {
            None => blob@ == vstd::utf8::encode_utf8(key_pem@),
            Some(_) => key_at_rest(blob@, Ok(*w)) == Ok::<Seq<char>, WrapErrorView>(key_pem@),
        }),
        r matches Some(Err(e)) ==> exists|plain: Seq<u8>| #[trigger] atrest::wrap_fails(*w, plain, e),
{
    match generate_key_pem() {
        Some(pem) => Some(wrap_software(pem, w)),
        None => None,
    }
}

/// Whether a text is the PEM of a byte string, with the line ends of either
/// kind of system.
pub open spec fn is_pem(t: Seq<char>, tag: Seq<char>, der_bytes: Seq<u8>) -> bool {
    ||| t == pem(tag, der_bytes)
    ||| t == text::replaced(pem(tag, der_bytes), '\n', "\r\n"@)
}

/// The certificate request for a software key and a host name, with the given
/// signature in it.
pub uninterp spec fn software_request(key_pem: Seq<char>, hostname: Seq<char>, sig: Seq<u8>) -> Seq<
    u8,
>;

/// Whether there is a private key in a text that can be read, where the system
/// has randomness.
pub uninterp spec fn key_readable(key_pem: Seq<char>) -> bool;

/// `rcgen::KeyPair::from_pem`, `CertificateParams::new` and
/// `serialize_request`: a certificate request for the key with the host name
/// as common name and alternative name, in PEM. All of it but the signature
/// depends on the key and the name alone; the signature is random, so it is
/// only said that there is one. A name beyond ASCII has no request, and
/// neither has a text in which no key can be read. That a key can be read
/// promises nothing: reading it and signing both fail where the system has no
/// randomness.
#[verifier::external_body]
pub(crate) fn software_csr(key_pem: &str, hostname: &str) -> (r: Option<String>)
    ensures
        r matches Some(p) ==> {
            &&& vstd::utf8::is_ascii_chars(hostname@)
            &&& key_readable(key_pem@)
            &&& exists|sig: Seq<u8>|
                is_pem(
                    p@,
                    "CERTIFICATE REQUEST"@,
                    #[trigger] software_request(key_pem@, hostname@, sig),
                )
        },
{
    let pair = rcgen::KeyPair::from_pem(key_pem).ok()?;
    let mut params = rcgen::CertificateParams::new(vec![hostname.to_string()]).ok()?;
    params.distinguished_name.push(rcgen::DnType::CommonName, hostname);
    params.serialize_request(&pair).ok()?.pem().ok()
}

/// Whether a text asks for a certificate for this key under this host name.
pub open spec fn asks_for(t: Seq<char>, key_pem: Seq<char>, hostname: Seq<char>) -> bool {
    exists|sig: Seq<u8>|
        is_pem(t, "CERTIFICATE REQUEST"@, #[trigger] software_request(key_pem, hostname, sig))
}

impl DeviceKey {
    /// The certificate request of a software key: for this key and this host
    /// name, and none for a name beyond ASCII or a text in which no key can be
    /// read. A hardware key's is built around the chip's signature instead.
    pub fn build_csr_pem(&self, hostname: &str) -> (r: Option<String>)
        ensures
            match self.kind {
                KeyKind::Software { key_pem } => {
                    &&& r matches Some(p) ==> asks_for(p@, key_pem@, hostname@)
                    &&& !key_readable(key_pem@) ==> r is None
                },
                KeyKind::Tpm { .. } => r is None,
            },
            !vstd::utf8::is_ascii_chars(hostname@) ==> r is None,
    {
        match &self.kind {
            KeyKind::Software { key_pem } => software_csr(key_pem.as_str(), hostname),
            KeyKind::Tpm { .. } => None,
        }
    }
}

// ---------------------------------------------------------------------
// Machine identifier
// ---------------------------------------------------------------------

/// The value a line gives the machine identifier: between the quotes after
/// the key, trimmed; none where there is no key, no closing quote, or nothing
/// between.
pub open spec fn uuid_in(line: Seq<char>) -> Option<Seq<char>> {
    let key = "\"IOPlatformUUID\" = \""@;
    match text::find(line, key) {
        None => None,
        Some(i) => {
            let tail = text::rest(line, i + key.len());
            let end = text::until(tail, '"') as int;
            let v = text::trimmed(tail.subrange(0, end));
            if end < tail.len() && v.len() > 0 {
                Some(v)
            } else {
                None
            }
        },
    }
}

/// The first line's value, among those that give one.
pub open spec fn first_uuid(lines: Seq<Seq<char>>) -> Option<Seq<char>>
    decreases lines.len(),
{
    if lines.len() == 0 {
        None
    } else if uuid_in(lines[0]) is Some {
        uuid_in(lines[0])
    } else {
        first_uuid(lines.drop_first())
    }
}

fn uuid_of_line(line: &[char]) -> (r: Option<Vec<char>>)
    ensures
        match r {
            Some(v) => uuid_in(line@) == Some(v@),
            None => uuid_in(line@) is None,
        },
{
    let key = text::chars("\"IOPlatformUUID\" = \"");
    match text::index_of(line, key.as_slice(), 0) {
        None => None,
        Some(i) => {
            assert(i + key.len() <= line.len());
            let tail = text::cut(line, i + key.len(), line.len());
            let end: usize = text::index_of_char(tail.as_slice(), '"', 0);
            assert(text::rest(tail@, 0) =~= tail@);
            if end == tail.len() {
                return None;
            }
            let piece = text::cut(tail.as_slice(), 0, end);
            let v = text::trim(piece.as_slice());
            if v.len() == 0 {
                None
            } else {
                Some(v)
            }
        },
    }
}

/// The machine identifier in a registry listing.
pub fn parse_ioreg_platform_uuid(ioreg_out: &str) -> (r: Option<String>)
    ensures
        match r {
            Some(v) => first_uuid(text::lines(ioreg_out@)) == Some(v@),
            None => first_uuid(text::lines(ioreg_out@)) is None,
        },
{
    let cs = text::chars(ioreg_out);
    let ls = text::split_lines(cs.as_slice());
    let ghost all = text::lines(ioreg_out@);
    let mut i: usize = 0;
    assert(all.subrange(0, all.len() as int) =~= all);
    while i < ls.len()
        invariant
            i <= ls@.len(),
            text::views(ls@) == all,
            all.len() == ls@.len(),
            first_uuid(all) == first_uuid(all.subrange(i as int, all.len() as int)),
            all == text::lines(ioreg_out@),
        decreases ls@.len() - i,
    {
        let ghost tail = all.subrange(i as int, all.len() as int);
        assert(tail[0] == all[i as int]);
        assert(text::views(ls@)[i as int] == ls@[i as int]@);
        if let Some(v) = uuid_of_line(ls[i].as_slice()) {
            return Some(text::string(v.as_slice()));
        }
        assert(tail.drop_first() =~= all.subrange(i + 1, all.len() as int));
        i += 1;
    }
    assert(all.subrange(i as int, all.len() as int) =~= Seq::<Seq<char>>::empty());
    None
}

// ---------------------------------------------------------------------
// What TLS presents
// ---------------------------------------------------------------------

/// A private key, by the format it is in.
#[derive(Debug, Clone, PartialEq, Eq)]
pub enum TlsKey {
    Pkcs1(Vec<u8>),
    Sec1(Vec<u8>),
    Pkcs8(Vec<u8>),
}

/// Model of a [`TlsKey`].
pub enum TlsKeyView {
    Pkcs1(Seq<u8>),
    Sec1(Seq<u8>),
    Pkcs8(Seq<u8>),
}

impl View for TlsKey {
    type V = TlsKeyView;

    open spec fn view(&self) -> TlsKeyView {
        match *self {
            TlsKey::Pkcs1(d) => TlsKeyView::Pkcs1(d@),
            TlsKey::Sec1(d) => TlsKeyView::Sec1(d@),
            TlsKey::Pkcs8(d) => TlsKeyView::Pkcs8(d@),
        }
    }
}

/// What looking for a private key gives, as a value.
pub open spec fn found_view(r: Result<Option<TlsKey>, String>) -> Result<
    Option<TlsKeyView>,
    Seq<char>,
> {
    match r {
        Ok(Some(k)) => Ok(Some(k@)),
        Ok(None) => Ok(None),
        Err(e) => Err(e@),
    }
}

/// The first private key of a PEM text, if there is one, or why the text could
/// not be read up to it.
pub uninterp spec fn key_in(pem: Seq<char>) -> Result<Option<TlsKeyView>, Seq<char>>;

/// `rustls_pemfile::private_key`: the first private key in any of its three
/// formats, or the reader's words for what could not be read. It depends on
/// the text alone.
#[verifier::external_body]
fn pem_private_key(pem: &str) -> (r: Result<Option<TlsKey>, String>)
    ensures
        found_view(r) == key_in(pem@),
{
    Ok(
        match rustls_pemfile::private_key(&mut pem.as_bytes()).map_err(|e| e.to_string())? {
            Some(PrivateKeyDer::Pkcs1(k)) => Some(TlsKey::Pkcs1(k.secret_pkcs1_der().to_vec())),
            Some(PrivateKeyDer::Sec1(k)) => Some(TlsKey::Sec1(k.secret_sec1_der().to_vec())),
            Some(PrivateKeyDer::Pkcs8(k)) => Some(TlsKey::Pkcs8(k.secret_pkcs8_der().to_vec())),
            _ => None,
        },
    )
}

/// What the device presents to a gateway: its chain, and the key that signs,
/// where that is not the chip.
#[derive(Debug, Clone, PartialEq, Eq)]
pub struct TlsIdentity {
    pub certs: Vec<Vec<u8>>,
    pub key: Option<TlsKey>,
}

/// Why there is nothing to present.
#[derive(Debug, Clone, PartialEq, Eq)]
pub enum TlsIdentityError {
    /// The certificates cannot be read (the reader's words).
    BadCertificate(String),
    NoCertificate,
    /// The device's key cannot be read (the reader's words).
    BadKey(String),
    NoKey,
}

impl TlsIdentityError {
    /// What the user is told.
    pub open spec fn text(self) -> Seq<char> {
        match self {
            TlsIdentityError::BadCertificate(e) => e@,
            TlsIdentityError::NoCertificate => "no certificate in identity pem"@,
            TlsIdentityError::BadKey(e) => e@,
            TlsIdentityError::NoKey => "no private key in device pem"@,
        }
    }

    /// What the user is told.
    pub fn message(&self) -> (r: String)
        ensures
            r@ == self.text(),
    {
        match self {
            TlsIdentityError::BadCertificate(e) => e.clone(),
            TlsIdentityError::NoCertificate => "no certificate in identity pem".to_owned(),
            TlsIdentityError::BadKey(e) => e.clone(),
            TlsIdentityError::NoKey => "no private key in device pem".to_owned(),
        }
    }
}

/// Whether this is what a chain and a key come to: the chain, which must not be
/// empty, and the key, which must be there unless the chip signs (`None`).
pub open spec fn presents(
    chain: Result<Seq<Seq<u8>>, Seq<char>>,
    key: Option<Result<Option<TlsKeyView>, Seq<char>>>,
    r: Result<TlsIdentity, TlsIdentityError>,
) -> bool {
    match chain {
        Err(e) => r matches Err(TlsIdentityError::BadCertificate(m)) && m@ == e,
        Ok(c) => if c.len() == 0 {
            r == Err::<TlsIdentity, TlsIdentityError>(TlsIdentityError::NoCertificate)
        } else {
            match key {
                None => r matches Ok(i) && certs::byte_seqs(i.certs@) == c && i.key is None,
                Some(Ok(Some(k))) => r matches Ok(i) && certs::byte_seqs(i.certs@) == c && (
                i.key matches Some(x) && x@ == k),
                Some(Ok(None)) => r == Err::<TlsIdentity, TlsIdentityError>(
                    TlsIdentityError::NoKey,
                ),
                Some(Err(e)) => r matches Err(TlsIdentityError::BadKey(m)) && m@ == e,
            }
        },
    }
}

/// Puts a chain and a key together; no key stands for the chip.
pub fn tls_identity_from(
    chain: Result<Vec<Vec<u8>>, String>,
    key: Option<Result<Option<TlsKey>, String>>,
) -> (r: Result<TlsIdentity, TlsIdentityError>)
    ensures
        presents(
            match chain {
                Ok(c) => Ok(certs::byte_seqs(c@)),
                Err(e) => Err(e@),
            },
            match key {
                Some(k) => Some(found_view(k)),
                None => None,
            },
            r,
        ),
{
    let certs = match chain {
        Ok(c) => c,
        Err(e) => return Err(TlsIdentityError::BadCertificate(e)),
    };
    if certs.len() == 0 {
        return Err(TlsIdentityError::NoCertificate);
    }
    match key {
        None => Ok(TlsIdentity { certs, key: None }),
        Some(Ok(Some(k))) => Ok(TlsIdentity { certs, key: Some(k) }),
        Some(Ok(None)) => Err(TlsIdentityError::NoKey),
        Some(Err(e)) => Err(TlsIdentityError::BadKey(e)),
    }
}

/// What the device presents: the chain of its certificate text, and the key in
/// a software key's text; a hardware key signs on the chip.
pub fn tls_client_identity(device: &DeviceKey, cert_pem: &str) -> (r: Result<
    TlsIdentity,
    TlsIdentityError,
>)
    ensures
        presents(
            certs::chain_of(certs::certs_in(cert_pem@)),
            match device.kind {
                KeyKind::Software { key_pem } => Some(key_in(key_pem@)),
                KeyKind::Tpm { .. } => None,
            },
            r,
        ),
{
    let chain = certs::cert_chain(cert_pem);
    let key = match &device.kind {
        KeyKind::Software { key_pem } => Some(pem_private_key(key_pem.as_str())),
        KeyKind::Tpm { .. } => None,
    };
    tls_identity_from(chain, key)
}

/// Law: the key of a point reads back: the algorithm is an elliptic-curve key
/// on P-256, and the point follows, with no unused bits.
pub proof fn law_spki_reads_back(point: Seq<u8>)
    requires
        point.len() < 65000,
    ensures
        element_at(spki(point), 0) matches Some((tag, body, end)) && {
            &&& tag == 0x30 && end == spki(point).len()
            &&& element_at(body, 0) matches Some((atag, alg, next)) && {
                &&& atag == 0x30
                &&& element_at(alg, 0) == Some(
                    (0x06u8, seq![0x2Au8, 0x86u8, 0x48u8, 0xCEu8, 0x3Du8, 0x02u8, 0x01u8], 9int),
                )
                &&& element_at(alg, 9) == Some(
                    (
                        0x06u8,
                        seq![0x2Au8, 0x86u8, 0x48u8, 0xCEu8, 0x3Du8, 0x03u8, 0x01u8, 0x07u8],
                        alg.len() as int,
                    ),
                )
                &&& element_at(body, next) == Some((0x03u8, seq![0u8] + point, body.len() as int))
            }
        },
{
    let e = Seq::<u8>::empty();
    let ec = seq![0x2Au8, 0x86u8, 0x48u8, 0xCEu8, 0x3Du8, 0x02u8, 0x01u8];
    let p256 = seq![0x2Au8, 0x86u8, 0x48u8, 0xCEu8, 0x3Du8, 0x03u8, 0x01u8, 0x07u8];
    let oids = der(0x06, ec) + der(0x06, p256);
    let bits = der(0x03, seq![0u8] + point);
    let body = p256_algorithm() + bits;
    assert(e + der(0x06, ec) + der(0x06, p256) =~= oids);
    law_element_reads_back(e, 0x06, ec, der(0x06, p256));
    assert(der(0x06, ec) + der(0x06, p256) + e =~= oids);
    law_element_reads_back(der(0x06, ec), 0x06, p256, e);
    assert(e + der(0x30, oids) + bits =~= body);
    law_element_reads_back(e, 0x30, oids, bits);
    assert(p256_algorithm() + bits + e =~= body);
    law_element_reads_back(p256_algorithm(), 0x03, seq![0u8] + point, e);
    assert(e + der(0x30, body) + e =~= spki(point));
    law_element_reads_back(e, 0x30, body, e);
}

/// The name attribute in what a certificate request signs, and where the key
/// starts in it: the first value is the version, then the names.
pub open spec fn common_name_in(body: Seq<u8>) -> Option<(Seq<u8>, int)> {
    match element_at(body, 3) {
        Some((_, name, next)) => match element_at(name, 0) {
            Some((_, rdn, _)) => match element_at(rdn, 0) {
                Some((_, attr, _)) => match element_at(attr, 5) {
                    Some((tag, text, _)) => if tag == 0x0C && element_at(attr, 0) == Some(
                        (0x06u8, seq![0x55u8, 0x04u8, 0x03u8], 5int),
                    ) {
                        Some((text, next))
                    } else {
                        None
                    },
                    None => None,
                },
                None => None,
            },
            None => None,
        },
        None => None,
    }
}

spec fn name_of(host: Seq<u8>) -> Seq<u8> {
    der(
        0x30,
        der(0x31, der(0x30, der(0x06, seq![0x55u8, 0x04u8, 0x03u8]) + der(0x0C, host))),
    )
}

proof fn lemma_common_name(ver: Seq<u8>, host: Seq<u8>, tail: Seq<u8>)
    requires
        ver.len() == 3,
        host.len() < 65100,
    ensures
        common_name_in(ver + name_of(host) + tail) == Some(
            (host, (3 + name_of(host).len()) as int),
        ),
        name_of(host).len() <= host.len() + 30,
{
    let e = Seq::<u8>::empty();
    let cn = seq![0x55u8, 0x04u8, 0x03u8];
    let attr = der(0x06, cn) + der(0x0C, host);
    let rdn = der(0x30, attr);
    let set = der(0x31, rdn);
    assert(e + der(0x06, cn) + der(0x0C, host) =~= attr);
    law_element_reads_back(e, 0x06, cn, der(0x0C, host));
    assert(der(0x06, cn) + der(0x0C, host) + e =~= attr);
    law_element_reads_back(der(0x06, cn), 0x0C, host, e);
    assert(e + rdn + e =~= rdn);
    law_element_reads_back(e, 0x30, attr, e);
    assert(e + set + e =~= set);
    law_element_reads_back(e, 0x31, rdn, e);
    law_element_reads_back(ver, 0x30, set, tail);
}

proof fn lemma_key_element(before: Seq<u8>, point: Seq<u8>, after: Seq<u8>)
    requires
        point.len() < 65100,
    ensures
        ({
            let b = before + spki(point) + after;
            let at = before.len() as int;
            &&& element_at(b, at) matches Some((_, _, next)) && next == at + spki(point).len()
            &&& b.subrange(at, at + spki(point).len()) == spki(point)
            &&& spki(point).len() <= point.len() + 40
        }),
{
    let b = before + spki(point) + after;
    let at = before.len() as int;
    let inner = p256_algorithm() + der(0x03, seq![0u8] + point);
    law_element_reads_back(Seq::empty(), 0x03, seq![0u8] + point, Seq::empty());
    assert(p256_algorithm().len() == 21);
    law_element_reads_back(before, 0x30, inner, after);
    assert(b.subrange(at, at + spki(point).len()) =~= spki(point));
}

/// Law: what a certificate request signs reads back: version 0, one common
/// name with the host's name, the key of the point, and no attributes.
#[verifier::spinoff_prover]
#[verifier::rlimit(60)]
pub proof fn law_request_info_reads_back(hostname: Seq<char>, point: Seq<u8>)
    requires
        vstd::utf8::encode_utf8(hostname).len() + point.len() < 65000,
    ensures
        ({
            let info = request_info(hostname, point);
            element_at(info, 0) matches Some((tag, body, end)) && {
                &&& tag == 0x30 && end == info.len()
                &&& integer_at(body, 0) == Some((0nat, 3int))
                &&& common_name_in(body) matches Some((name, key_at)) && {
                    &&& name == vstd::utf8::encode_utf8(hostname)
                    &&& element_at(body, key_at) matches Some((_, _, next)) && body.subrange(
                        key_at,
                        next,
                    ) == spki(point) && element_at(body, next) == Some(
                        (0xA0u8, Seq::<u8>::empty(), body.len() as int),
                    )
                }
            }
        }),
{
    let e = Seq::<u8>::empty();
    let host = vstd::utf8::encode_utf8(hostname);
    let ver = der(0x02, seq![0u8]);
    let (name, key, attrs) = (name_of(host), spki(point), der(0xA0, e));
    let body = ver + name + key + attrs;
    lemma_common_name(ver, host, key + attrs);
    assert(ver + name + (key + attrs) =~= body);
    assert(e + ver + (name + key + attrs) =~= body);
    law_element_reads_back(e, 0x02, seq![0u8], name + key + attrs);
    assert(be_value(seq![0u8]) == 0) by {
        assert(seq![0u8].drop_last() =~= e);
        reveal_with_fuel(be_value, 2);
    }
    lemma_key_element(ver + name, point, attrs);
    assert(ver + name + key + attrs + e =~= body);
    law_element_reads_back(ver + name + key, 0xA0, e, e);
    assert(e + der(0x30, body) + e =~= request_info(hostname, point));
    law_element_reads_back(e, 0x30, body, e);
}

/// The two numbers of a signature: a sequence of two integers and nothing
/// more.
pub open spec fn signature_numbers(b: Seq<u8>) -> Option<(nat, nat)> {
    match element_at(b, 0) {
        Some((tag, c, end)) => match integer_at(c, 0) {
            Some((r, next)) => match integer_at(c, next) {
                Some((s, last)) => if tag == 0x30 && end == b.len() && last == c.len() {
                    Some((r, s))
                } else {
                    None
                },
                None => None,
            },
            None => None,
        },
        None => None,
    }
}

/// Law: two integers in a sequence read back in their order.
pub proof fn law_integer_pair_reads_back(r: Seq<u8>, s: Seq<u8>)
    requires
        0 < r.len() <= 1000,
        0 < s.len() <= 1000,
    ensures
        signature_numbers(der(0x30, uint(r) + uint(s))) == Some((be_value(r), be_value(s))),
{
    let e = Seq::<u8>::empty();
    let c = uint(r) + uint(s);
    assert(e + uint(r) + uint(s) =~= c);
    law_uint_reads_back(e, r, uint(s));
    assert(uint(r) + uint(s) + e =~= c);
    law_uint_reads_back(uint(r), s, e);
    assert(e + der(0x30, c) + e =~= der(0x30, c));
    law_element_reads_back(e, 0x30, c, e);
}

/// Law: a certificate request reads back. What was signed comes first, as it
/// was; the algorithm is ECDSA with SHA-256; and the signature holds two
/// numbers, the first from the first half of the chip's signature and the
/// second from its second half.
#[verifier::spinoff_prover]
#[verifier::rlimit(60)]
pub proof fn law_request_reads_back(info: Seq<u8>, sig: Seq<u8>)
    requires
        info.len() < 65000,
        sig.len() == 64,
    ensures
        element_at(request(info, sig), 0) matches Some((tag, body, end)) && {
            &&& tag == 0x30 && end == request(info, sig).len()
            &&& body.len() > info.len() && body.subrange(0, info.len() as int) == info
            &&& element_at(body, info.len() as int) matches Some((atag, alg, next)) && {
                &&& atag == 0x30
                &&& element_at(alg, 0) == Some(
                    (
                        0x06u8,
                        seq![0x2Au8, 0x86u8, 0x48u8, 0xCEu8, 0x3Du8, 0x04u8, 0x03u8, 0x02u8],
                        alg.len() as int,
                    ),
                )
                &&& element_at(body, next) matches Some((btag, bits, last)) && {
                    &&& btag == 0x03 && last == body.len()
                    &&& bits.len() > 0 && bits[0] == 0
                    &&& signature_numbers(bits.drop_first()) == Some(
                        (be_value(sig.subrange(0, 32)), be_value(sig.subrange(32, 64))),
                    )
                }
            }
        },
{
    let e = Seq::<u8>::empty();
    let oid = seq![0x2Au8, 0x86u8, 0x48u8, 0xCEu8, 0x3Du8, 0x04u8, 0x03u8, 0x02u8];
    let alg = der(0x30, der(0x06, oid));
    let (r, s) = (sig.subrange(0, 32), sig.subrange(32, 64));
    law_uint_reads_back(e, r, e);
    law_uint_reads_back(e, s, e);
    let halves = uint(r) + uint(s);
    let der_sig = der(0x30, halves);
    let bits = seq![0u8] + der_sig;
    let body = info + alg + der(0x03, bits);
    law_integer_pair_reads_back(r, s);
    assert(bits.drop_first() =~= der_sig);
    assert(e + der(0x06, oid) + e =~= der(0x06, oid));
    law_element_reads_back(e, 0x06, oid, e);
    law_element_reads_back(info, 0x30, der(0x06, oid), der(0x03, bits));
    assert(info + alg + der(0x03, bits) + e =~= body);
    law_element_reads_back(info + alg, 0x03, bits, e);
    assert(body.subrange(0, info.len() as int) =~= info);
    assert(e + der(0x30, body) + e =~= request(info, sig));
    law_element_reads_back(e, 0x30, body, e);
}

/// Law: which key is used. The chip's exactly where it is tried and opens; it
/// is tried everywhere but on macOS and unless the device was enrolled with a
/// software key. A chip that was asked for and does not come is no reason for
/// a software key: that is refused.
pub proof fn law_which_tier(
    platform: Platform,
    tcti_named: bool,
    tcti_set: bool,
    origin: Option<Seq<char>>,
    chip: ChipResult,
)
    ensures
        ({
            let t = tier(platform, tcti_named, tcti_set, origin, chip);
            let soft = origin == Some("software"@);
            &&& t == Tier::Hardware <==> platform != Platform::MacOs && !soft && chip
                == ChipResult::Opened
            &&& platform == Platform::MacOs ==> (t == Tier::Refused <==> tcti_named || origin
                == Some("tpm"@))
            &&& platform == Platform::Linux ==> (t == Tier::Refused <==> tcti_set && !soft && chip
                != ChipResult::Opened)
            &&& platform == Platform::Windows ==> t != Tier::Refused
            &&& soft && platform != Platform::MacOs ==> t == Tier::Software
        }),
        tries_chip(platform, origin) <==> platform != Platform::MacOs && origin != Some(
            "software"@,
        ),
{
}

/// Law: folding only puts line feeds in: without them the text is as it was,
/// and every line but the last has 64 characters, and the last at least one.
pub proof fn law_folded(s: Seq<char>)
    requires
        !s.contains('\n'),
        !s.contains('\r'),
    ensures
        text::replaced(folded(s), '\n', Seq::empty()) == s,
        text::lines(folded(s)).len() == (s.len() + 63) / 64,
        forall|i: int|
            0 <= i < text::lines(folded(s)).len() ==> (#[trigger] text::lines(folded(s))[i]).len()
                == if i + 1 < text::lines(folded(s)).len() {
                64
            } else {
                s.len() - 64 * i
            },
    decreases s.len(),
{
    let none = Seq::<char>::empty();
    if s.len() == 0 {
        assert(folded(s) =~= none);
        text::law_lines(none, none);
        text::law_replaced(none, none, '\n', ' ', none);
        assert(text::replaced(folded(s), '\n', none) =~= s);
    } else {
        let n = if s.len() <= 64 {
            s.len() as int
        } else {
            64
        };
        let (h, t) = (s.subrange(0, n), s.subrange(n, s.len() as int));
        assert(s =~= h + t);
        lemma_kept(h, t);
        assert(!t.contains('\r')) by {
            if t.contains('\r') {
                let i = choose|i: int| 0 <= i < t.len() && t[i] == '\r';
                assert(s[n + i] == '\r');
            }
        }
        assert(h.last() != '\r') by {
            assert(s.contains(s[n - 1]));
        }
        law_folded(t);
        assert(folded(s) =~= h + seq!['\n'] + folded(t));
        text::law_replaced(h + seq!['\n'], folded(t), '\n', ' ', none);
        text::law_replaced(h, seq!['\n'], '\n', ' ', none);
        lemma_unreplaced(h, none);
        assert(text::replaced(folded(s), '\n', none) =~= s);
        let ls = text::lines(folded(t));
        text::law_lines(h, folded(t));
        assert(text::lines(folded(s)).len() == 1 + ls.len());
        let all = text::lines(folded(s));
        assert forall|i: int| 0 <= i < all.len() implies (#[trigger] all[i]).len() == if i + 1
            < all.len() {
            64
        } else {
            s.len() - 64 * i
        } by {
            if i > 0 {
                assert(all[i] == ls[i - 1]);
            }
        }
    }
}

proof fn lemma_kept(h: Seq<char>, t: Seq<char>)
    requires
        !(h + t).contains('\n'),
    ensures
        !h.contains('\n'),
        !t.contains('\n'),
{
    let s = h + t;
    if h.contains('\n') {
        let i = choose|i: int| 0 <= i < h.len() && h[i] == '\n';
        assert(s[i] == '\n');
    }
    if t.contains('\n') {
        let i = choose|i: int| 0 <= i < t.len() && t[i] == '\n';
        assert(s[h.len() + i] == '\n');
    }
}

proof fn lemma_unreplaced(s: Seq<char>, with: Seq<char>)
    requires
        !s.contains('\n'),
    ensures
        text::replaced(s, '\n', with) == s,
    decreases s.len(),
{
    if s.len() > 0 {
        let t = s.drop_last();
        assert(s =~= t + seq![s.last()]);
        lemma_kept(t, seq![s.last()]);
        lemma_unreplaced(t, with);
        assert(s.contains(s[s.len() - 1]));
        assert(text::replaced(s, '\n', with) =~= s);
    } else {
        assert(text::replaced(s, '\n', with) =~= s);
    }
}

/// Law: PEM reads back: its first line names what follows, its last line ends
/// it, and what stands between is, without its line feeds, the base64 of the
/// bytes.
pub proof fn law_pem_reads_back(tag: Seq<char>, b: Seq<u8>)
    ensures
        ({
            let p = pem(tag, b);
            let head = "-----BEGIN "@ + tag + "-----\n"@;
            let foot = "-----END "@ + tag + "-----\n"@;
            let n = head.len() as int;
            let m = p.len() - foot.len();
            &&& text::has_prefix(p, head)
            &&& text::has_suffix(p, foot)
            &&& n <= m && text::replaced(p.subrange(n, m), '\n', Seq::empty()) == crypto::b64(
                b,
                false,
            )
        }),
{
    let p = pem(tag, b);
    let head = "-----BEGIN "@ + tag + "-----\n"@;
    let foot = "-----END "@ + tag + "-----\n"@;
    let n = head.len() as int;
    let m = p.len() - foot.len();
    let body = folded(crypto::b64(b, false));
    assert(p =~= head + body + foot);
    assert(p.subrange(0, n) =~= head);
    assert(p.subrange(m, p.len() as int) =~= foot);
    assert(p.subrange(n, m) =~= body);
    lemma_b64_is_one_line(b);
    law_folded(crypto::b64(b, false));
}

proof fn lemma_b64_is_one_line(b: Seq<u8>)
    ensures
        !crypto::b64(b, false).contains('\n'),
        !crypto::b64(b, false).contains('\r'),
    decreases b.len(),
{
    let s = crypto::b64(b, false);
    if b.len() >= 3 {
        let t = b.subrange(3, b.len() as int);
        lemma_b64_is_one_line(t);
        let u = crypto::b64(t, false);
        assert forall|i: int| 0 <= i < s.len() implies s[i] != '\n' && s[i] != '\r' by {
            if i >= 4 {
                assert(s[i] == u[i - 4]);
                assert(u.contains(u[i - 4]));
            }
        }
    }
}

/// Law: a key file that holds plain text in neither wrapped format is that
/// text, under every source.
pub proof fn law_plain_key_at_rest(pem: Seq<char>, source: Result<ClientWrap, WrapError>)
    requires
        !crate::bytes::has_prefix(vstd::utf8::encode_utf8(pem), crate::keys::azdp2::magic()),
        !crate::bytes::has_prefix(vstd::utf8::encode_utf8(pem), crate::keys::magic1()),
    ensures
        key_at_rest(vstd::utf8::encode_utf8(pem), source) == Ok::<Seq<char>, WrapErrorView>(pem),
{
    atrest::law_what_a_blob_holds(Seq::empty(), vstd::utf8::encode_utf8(pem), source);
    vstd::utf8::encode_utf8_valid_utf8(pem);
    vstd::utf8::encode_utf8_decode_utf8(pem);
}

/// Law: the machine identifier reads back from its line: what stands between
/// the quotes after its key, without white space around it; nothing between
/// them, or no closing quote, is none.
pub proof fn law_uuid_reads_back(before: Seq<char>, v: Seq<char>, after: Seq<char>)
    requires
        !before.contains('"'),
        !v.contains('"'),
    ensures
        ({
            let key = "\"IOPlatformUUID\" = \""@;
            &&& uuid_in(before + key + v + seq!['"'] + after) == if text::trimmed(v).len() > 0 {
                Some(text::trimmed(v))
            } else {
                None
            }
            &&& uuid_in(before + key + v) is None
            &&& uuid_in(before) is None
        }),
{
    reveal_strlit("\"IOPlatformUUID\" = \"");
    let key = "\"IOPlatformUUID\" = \""@;
    let s = before + key + v + seq!['"'] + after;
    let t = v + seq!['"'] + after;
    lemma_key_found(before, key, t);
    assert(s =~= before + key + t);
    assert(text::rest(before + key + t, before.len() as int + key.len()) =~= t);
    crate::addr::law_split_once(v, '"', after);
    assert forall|i: int| 0 <= i < v.len() implies #[trigger] v[i] != '"' by {
        assert(v.contains(v[i]));
    }
    assert forall|i: int| 0 <= i < v.len() implies #[trigger] t[i] != '"' by {
        assert(t[i] == v[i]);
    }
    text::lemma_until_unique(t, '"', v.len() as int);
    assert(t.subrange(0, v.len() as int) =~= v);
    lemma_key_found(before, key, v);
    assert(text::rest(before + key + v, before.len() as int + key.len()) =~= v);
    text::lemma_until_unique(v, '"', v.len() as int);
    text::lemma_contains(before, key);
    if text::contains(before, key) {
        let i = choose|i: int| #[trigger] text::stands_at(before, key, i);
        assert(before.subrange(i, i + key.len())[0] == '"');
        assert(before[i] == '"');
    }
}

proof fn lemma_key_found(before: Seq<char>, key: Seq<char>, t: Seq<char>)
    requires
        !before.contains('"'),
        key.len() > 0,
        key[0] == '"',
    ensures
        text::find(before + key + t, key) == Some(before.len() as int),
{
    let s = before + key + t;
    let n = before.len() as int;
    assert(text::stands_at(s, key, n)) by {
        assert(s.subrange(n, n + key.len()) =~= key);
    }
    assert forall|k: int| 0 <= k < n implies !#[trigger] text::stands_at(s, key, k) by {
        if text::stands_at(s, key, k) {
            lemma_first_char(s, key, k);
            assert(before[k] == s[k]);
            assert(before.contains(before[k]));
        }
    }
    lemma_found_at(s, key, n);
}

proof fn lemma_first_char(s: Seq<char>, p: Seq<char>, k: int)
    requires
        text::stands_at(s, p, k),
        p.len() > 0,
    ensures
        s[k] == p[0],
{
    assert(s.subrange(k, k + p.len())[0] == s[k]);
}

proof fn lemma_found_at(s: Seq<char>, p: Seq<char>, n: int)
    requires
        text::stands_at(s, p, n),
        forall|k: int| 0 <= k < n ==> !#[trigger] text::stands_at(s, p, k),
    ensures
        text::find(s, p) == Some(n),
{
    text::lemma_find_from(s, p, 0);
}

/// Law: the machine identifier is that of the first line that gives one.
pub proof fn law_first_uuid(lines: Seq<Seq<char>>)
    ensures
        match first_uuid(lines) {
            Some(u) => exists|i: int|
                #![trigger lines[i]]
                0 <= i < lines.len() && uuid_in(lines[i]) == Some(u) && forall|j: int|
                    0 <= j < i ==> uuid_in(#[trigger] lines[j]) is None,
            None => forall|j: int| 0 <= j < lines.len() ==> uuid_in(#[trigger] lines[j]) is None,
        },
    decreases lines.len(),
{
    if lines.len() > 0 {
        if uuid_in(lines[0]) is Some {
            assert(uuid_in(lines[0]) == Some(first_uuid(lines)->Some_0));
        } else {
            let t = lines.drop_first();
            law_first_uuid(t);
            match first_uuid(t) {
                Some(u) => {
                    let k = choose|i: int|
                        #![trigger t[i]]
                        0 <= i < t.len() && uuid_in(t[i]) == Some(u) && forall|j: int|
                            0 <= j < i ==> uuid_in(#[trigger] t[j]) is None;
                    assert(uuid_in(lines[k + 1]) == Some(u));
                    assert forall|j: int| 0 <= j < k + 1 implies uuid_in(
                        #[trigger] lines[j],
                    ) is None by {
                        if j > 0 {
                            assert(lines[j] == t[j - 1]);
                        }
                    }
                },
                None => {
                    assert forall|j: int| 0 <= j < lines.len() implies uuid_in(
                        #[trigger] lines[j],
                    ) is None by {
                        if j > 0 {
                            assert(lines[j] == t[j - 1]);
                        }
                    }
                },
            }
        }
    }
}

/// Law: an identity is presented exactly if there is a certificate and, unless
/// the chip signs, a key; it presents the whole chain and that key.
pub proof fn law_identity_needs_cert_and_key(
    chain: Result<Seq<Seq<u8>>, Seq<char>>,
    key: Option<Result<Option<TlsKeyView>, Seq<char>>>,
    r: Result<TlsIdentity, TlsIdentityError>,
)
    requires
        presents(chain, key, r),
    ensures
        r is Ok <==> (chain matches Ok(c) && c.len() > 0) && (key matches Some(k) ==> k matches Ok(
            Some(_),
        )),
        r matches Ok(i) ==> chain == Ok::<Seq<Seq<u8>>, Seq<char>>(certs::byte_seqs(i.certs@)),
        r matches Ok(i) ==> (i.key is Some <==> key is Some),
        r matches Ok(i) ==> (i.key matches Some(x) ==> key == Some(
            Ok::<Option<TlsKeyView>, Seq<char>>(Some(x@)),
        )),
{
}

} // verus!
