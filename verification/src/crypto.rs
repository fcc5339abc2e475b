//! Cryptographic primitives and encodings, taken from their crates.

use base64::Engine;
use chacha20poly1305::aead::{Aead, KeyInit, Payload};
use ed25519_dalek::Signer;
use rand::RngCore;
use sha2::Digest;
use vstd::prelude::*;

verus! {

/// SHA-256 of a byte string.
pub uninterp spec fn sha256_of(data: Seq<u8>) -> Seq<u8>;

/// `sha2::Sha256::digest`: a function of the input alone, 32 bytes long.
#[verifier::external_body]
pub(crate) fn sha256(data: &[u8]) -> (r: Vec<u8>)
    ensures
        r@ == sha256_of(data@),
        r@.len() == 32,
{
    sha2::Sha256::digest(data).to_vec()
}

/// The base64 symbol for a six-bit value.
pub open spec fn b64_symbol(v: int, url: bool) -> char {
    if v < 26 {
        (65 + v) as char
    } else if v < 52 {
        (97 + v - 26) as char
    } else if v < 62 {
        (48 + v - 52) as char
    } else if v == 62 {
        if url {
            '-'
        } else {
            '+'
        }
    } else if url {
        '_'
    } else {
        '/'
    }
}

/// Base64 of a byte string: the standard alphabet padded with `=`, or, for
/// `url`, the URL-safe alphabet without padding.
pub open spec fn b64(data: Seq<u8>, url: bool) -> Seq<char>
    decreases data.len(),
{
    if data.len() == 0 {
        Seq::empty()
    } else if data.len() == 1 {
        let x = data[0] * 16;
        seq![b64_symbol(x / 64, url), b64_symbol(x % 64, url)] + if url {
            Seq::empty()
        } else {
            seq!['=', '=']
        }
    } else if data.len() == 2 {
        let x = (data[0] * 256 + data[1]) * 4;
        seq![b64_symbol(x / 4096, url), b64_symbol(x / 64 % 64, url), b64_symbol(x % 64, url)]
            + if url {
            Seq::empty()
        } else {
            seq!['=']
        }
    } else {
        let x = data[0] * 65536 + data[1] * 256 + data[2];
        seq![
            b64_symbol(x / 262144, url),
            b64_symbol(x / 4096 % 64, url),
            b64_symbol(x / 64 % 64, url),
            b64_symbol(x % 64, url),
        ] + b64(data.subrange(3, data.len() as int), url)
    }
}

/// `Engine::encode` of `base64::engine::general_purpose::STANDARD`: three
/// bytes to four symbols of the standard alphabet, the last group padded.
#[verifier::external_body]
pub(crate) fn base64_encode(data: &[u8]) -> (r: String)
    ensures
        r@ == b64(data@, false),
{
    base64::engine::general_purpose::STANDARD.encode(data)
}

/// `Engine::encode` of `base64::engine::general_purpose::URL_SAFE_NO_PAD`:
/// the URL-safe alphabet, without padding.
#[verifier::external_body]
pub(crate) fn base64url_encode(data: &[u8]) -> (r: String)
    ensures
        r@ == b64(data@, true),
{
    base64::engine::general_purpose::URL_SAFE_NO_PAD.encode(data)
}

/// `Engine::decode` of `base64::engine::general_purpose::STANDARD`: accepts
/// the canonical encodings and nothing else (padding required, no set bits
/// after the last byte), and gives back what was encoded.
#[verifier::external_body]
pub(crate) fn base64_decode(text: &str) -> (r: Option<Vec<u8>>)
    ensures
        match r {
            Some(d) => b64(d@, false) == text@,
            None => forall|d: Seq<u8>| #[trigger] b64(d, false) != text@,
        },
{
    base64::engine::general_purpose::STANDARD.decode(text).ok()
}

/// Distinct byte strings have distinct encodings.
pub proof fn lemma_b64_injective(a: Seq<u8>, b: Seq<u8>)
    requires
        b64(a, false) == b64(b, false),
    ensures
        a == b,
    decreases a.len(),
{
    let (ea, eb) = (b64(a, false), b64(b, false));
    lemma_b64_len(a);
    lemma_b64_len(b);
    if a.len() >= 1 {
        assert(ea[0] == eb[0] && ea[1] == eb[1] && ea[2] == eb[2] && ea[3] == eb[3]);
        lemma_b64_head(a);
        lemma_b64_head(b);
        if a.len() >= 3 {
            let ra = a.subrange(3, a.len() as int);
            let rb = b.subrange(3, b.len() as int);
            assert(b64(ra, false) =~= ea.subrange(4, ea.len() as int));
            assert(b64(rb, false) =~= eb.subrange(4, eb.len() as int));
            lemma_b64_injective(ra, rb);
            assert forall|i: int| 0 <= i < a.len() implies a[i] == b[i] by {
                if i >= 3 {
                    assert(a[i] == ra[i - 3]);
                    assert(b[i] == rb[i - 3]);
                }
            }
        }
    }
    assert(a =~= b);
}

spec fn b64_value(c: char) -> int {
    if 'A' <= c <= 'Z' {
        c as int - 65
    } else if 'a' <= c <= 'z' {
        c as int - 97 + 26
    } else if '0' <= c <= '9' {
        c as int - 48 + 52
    } else if c == '+' {
        62
    } else if c == '/' {
        63
    } else {
        64
    }
}

proof fn lemma_b64_symbol(v: int)
    requires
        0 <= v < 64,
    ensures
        b64_value(b64_symbol(v, false)) == v,
{
}

proof fn lemma_b64_len(d: Seq<u8>)
    ensures
        b64(d, false).len() == (d.len() + 2) / 3 * 4,
    decreases d.len(),
{
    if d.len() >= 3 {
        lemma_b64_len(d.subrange(3, d.len() as int));
    }
}

/// The first group of symbols determines the first bytes and, by its padding,
/// how many there are.
proof fn lemma_b64_head(d: Seq<u8>)
    requires
        d.len() >= 1,
    ensures
        ({
            let e = b64(d, false);
            let (v0, v1, v2, v3) = (
                b64_value(e[0]),
                b64_value(e[1]),
                b64_value(e[2]),
                b64_value(e[3]),
            );
            &&& e.len() >= 4
            &&& d[0] == v0 * 4 + v1 / 16
            &&& d.len() == 1 <==> v2 == 64
            &&& d.len() == 2 <==> v2 != 64 && v3 == 64
            &&& d.len() >= 2 ==> d[1] == (v1 % 16) * 16 + v2 / 4
            &&& d.len() >= 3 ==> d[2] == (v2 % 4) * 64 + v3
        }),
{
    lemma_b64_len(d);
    let e = b64(d, false);
    let a = d[0] as int;
    if d.len() == 1 {
        let x = a * 16;
        assert(x / 64 == a / 4 && x % 64 == (a % 4) * 16);
        assert(e =~= seq![b64_symbol(x / 64, false), b64_symbol(x % 64, false), '=', '=']);
        lemma_b64_symbol(x / 64);
        lemma_b64_symbol(x % 64);
    } else if d.len() == 2 {
        let b = d[1] as int;
        let x = (a * 256 + b) * 4;
        lemma_b64_split2(a, b);
        lemma_b64_symbol(x / 4096);
        lemma_b64_symbol(x / 64 % 64);
        lemma_b64_symbol(x % 64);
        assert(e[0] == b64_symbol(x / 4096, false) && e[1] == b64_symbol(x / 64 % 64, false) && e[2]
            == b64_symbol(x % 64, false) && e[3] == '=');
    } else {
        let (b, c) = (d[1] as int, d[2] as int);
        let x = a * 65536 + b * 256 + c;
        lemma_b64_split3(a, b, c);
        lemma_b64_symbol(x / 262144);
        lemma_b64_symbol(x / 4096 % 64);
        lemma_b64_symbol(x / 64 % 64);
        lemma_b64_symbol(x % 64);
        assert(e[0] == b64_symbol(x / 262144, false) && e[1] == b64_symbol(x / 4096 % 64, false)
            && e[2] == b64_symbol(x / 64 % 64, false) && e[3] == b64_symbol(x % 64, false));
    }
}

proof fn lemma_b64_split2(a: int, b: int)
    requires
        0 <= a < 256,
        0 <= b < 256,
    ensures
        ({
            let x = (a * 256 + b) * 4;
            &&& x / 4096 == a / 4
            &&& x / 64 % 64 == (a % 4) * 16 + b / 16
            &&& x % 64 == (b % 16) * 4
        }),
{
    let x = (a * 256 + b) * 4;
    assert(x / 4096 == a / 4);
    assert(x / 64 == a * 16 + b / 16);
}

proof fn lemma_b64_split3(a: int, b: int, c: int)
    requires
        0 <= a < 256,
        0 <= b < 256,
        0 <= c < 256,
    ensures
        ({
            let x = a * 65536 + b * 256 + c;
            &&& x / 262144 == a / 4
            &&& x / 4096 % 64 == (a % 4) * 16 + b / 16
            &&& x / 64 % 64 == (b % 16) * 4 + c / 64
            &&& x % 64 == c % 64
        }),
{
    let x = a * 65536 + b * 256 + c;
    assert(x / 64 == a * 1024 + b * 4 + c / 64);
    assert(x / 4096 == a * 16 + b / 16);
}

/// The 32-byte Argon2id key for a passphrase and salt, at `m_kib` KiB of
/// memory, `t` passes and one lane.
pub uninterp spec fn argon2id_of(pass: Seq<u8>, salt: Seq<u8>, m_kib: u32, t: u32) -> Seq<u8>;

/// Whether Argon2id takes these parameters.
pub open spec fn argon2id_accepts(pass: Seq<u8>, salt: Seq<u8>, m_kib: u32, t: u32) -> bool {
    m_kib >= 8 && t >= 1 && pass.len() <= 0xffff_ffff && 8 <= salt.len() <= 0xffff_ffff
}

/// `argon2::Params::new` and `argon2::Argon2::hash_password_into` for
/// Argon2id, version 0x13, one lane, 32 bytes out: refuses too little memory,
/// no passes, too short a salt and over-long inputs; otherwise the key is a
/// function of the arguments.
#[verifier::external_body]
pub(crate) fn argon2id(pass: &[u8], salt: &[u8], m_kib: u32, t: u32) -> (r: Option<[u8; 32]>)
    ensures
        r is Some <==> argon2id_accepts(pass@, salt@, m_kib, t),
        r matches Some(k) ==> k@ == argon2id_of(pass@, salt@, m_kib, t),
{
    let params = argon2::Params::new(m_kib, t, 1, Some(32)).ok()?;
    let a2 = argon2::Argon2::new(argon2::Algorithm::Argon2id, argon2::Version::V0x13, params);
    let mut key = [0u8; 32];
    a2.hash_password_into(pass, salt, &mut key).ok()?;
    Some(key)
}

/// XChaCha20-Poly1305 ciphertext and tag of a message.
pub uninterp spec fn xchacha_sealed(key: Seq<u8>, nonce: Seq<u8>, plain: Seq<u8>) -> Seq<u8>;

/// The message an XChaCha20-Poly1305 ciphertext and tag authenticate, if any.
pub uninterp spec fn xchacha_opened(key: Seq<u8>, nonce: Seq<u8>, sealed: Seq<u8>) -> Option<
    Seq<u8>,
>;

/// The longest message that one XChaCha20-Poly1305 nonce reaches: as many
/// blocks of 64 bytes as its counter has left behind the first.
pub const XCHACHA_MAX: u64 = 274_877_906_816;

/// Bytes of the tag behind a ciphertext.
pub const XCHACHA_TAG: u64 = 16;

/// Whether a message is short enough for one XChaCha20-Poly1305 nonce.
pub open spec fn xchacha_fits(plain: Seq<u8>) -> bool {
    plain.len() <= XCHACHA_MAX
}

/// Whether a ciphertext with its tag is short enough for one nonce.
pub open spec fn xchacha_reaches(sealed: Seq<u8>) -> bool {
    sealed.len() <= XCHACHA_MAX + XCHACHA_TAG
}

/// `Aead::encrypt` of `chacha20poly1305::XChaCha20Poly1305`, without
/// associated data, on messages within the counter's reach: it succeeds, the
/// ciphertext is as long as the message, the 16-byte tag follows, and
/// decryption under the same key and nonce gives the message back.
#[verifier::external_body]
pub(crate) fn xchacha_encrypt(key: &[u8; 32], nonce: &[u8; 24], plain: &[u8]) -> (r: Option<
    Vec<u8>,
>)
    requires
        xchacha_fits(plain@),
    ensures
        r is Some,
        r matches Some(ct) ==> {
            &&& ct@ == xchacha_sealed(key@, nonce@, plain@)
            &&& ct@.len() == plain@.len() + 16
            &&& xchacha_opened(key@, nonce@, ct@) == Some(plain@)
        },
{
    let cipher = chacha20poly1305::XChaCha20Poly1305::new(key.into());
    cipher.encrypt(chacha20poly1305::XNonce::from_slice(nonce), Payload::from(plain)).ok()
}

/// `Aead::decrypt` of `chacha20poly1305::XChaCha20Poly1305`, without
/// associated data, on ciphertexts within the counter's reach: the
/// authenticated message, or nothing where the tag does not authenticate the
/// ciphertext under this key and nonce.
#[verifier::external_body]
pub(crate) fn xchacha_decrypt(key: &[u8; 32], nonce: &[u8; 24], sealed: &[u8]) -> (r: Option<
    Vec<u8>,
>)
    requires
        xchacha_reaches(sealed@),
    ensures
        match r {
            Some(p) => xchacha_opened(key@, nonce@, sealed@) == Some(p@),
            None => xchacha_opened(key@, nonce@, sealed@) is None,
        },
{
    let cipher = chacha20poly1305::XChaCha20Poly1305::new(key.into());
    cipher.decrypt(chacha20poly1305::XNonce::from_slice(nonce), Payload::from(sealed)).ok()
}

/// `RngCore::try_fill_bytes` of `rand::rngs::OsRng`: fresh bytes from the
/// operating system, or nothing where its source fails. Nothing is said of
/// the bytes themselves: they are random.
#[verifier::external_body]
pub(crate) fn random_bytes<const N: usize>() -> (r: Option<[u8; N]>)
{
    let mut b = [0u8; N];
    rand::rngs::OsRng.try_fill_bytes(&mut b).ok()?;
    Some(b)
}

/// Ed25519 signature of a message under the key with the given seed.
pub uninterp spec fn ed25519_signature(seed: Seq<u8>, message: Seq<u8>) -> Seq<u8>;

/// `ed25519_dalek::SigningKey::from_bytes` and `Signer::sign`: the 64-byte
/// signature, which depends on the seed and the message alone.
#[verifier::external_body]
pub(crate) fn ed25519_sign(seed: &[u8; 32], message: &[u8]) -> (r: Vec<u8>)
    ensures
        r@ == ed25519_signature(seed@, message@),
        r@.len() == 64,
{
    ed25519_dalek::SigningKey::from_bytes(seed).sign(message).to_bytes().to_vec()
}

/// Ed25519 public key of the key with the given seed.
pub uninterp spec fn ed25519_public_of(seed: Seq<u8>) -> Seq<u8>;

/// `ed25519_dalek::SigningKey::verifying_key`: the 32-byte public key, which
/// depends on the seed alone.
#[verifier::external_body]
pub(crate) fn ed25519_public(seed: &[u8; 32]) -> (r: Vec<u8>)
    ensures
        r@ == ed25519_public_of(seed@),
        r@.len() == 32,
{
    ed25519_dalek::SigningKey::from_bytes(seed).verifying_key().to_bytes().to_vec()
}

/// Law: the alphabet: capitals, small letters and numerals for the first 62
/// values, and two signs that differ between the two forms.
pub proof fn law_b64_alphabet(v: int, url: bool)
    ensures
        0 <= v < 26 ==> b64_symbol(v, url) as int == 'A' as int + v,
        26 <= v < 52 ==> b64_symbol(v, url) as int == 'a' as int + v - 26,
        52 <= v < 62 ==> b64_symbol(v, url) as int == '0' as int + v - 52,
        b64_symbol(62, false) == '+' && b64_symbol(63, false) == '/',
        b64_symbol(62, true) == '-' && b64_symbol(63, true) == '_',
{
}

/// Law: every three bytes are four symbols of six bits each, high bits first;
/// one or two bytes at the end are filled up with zero bits, and padded to four
/// in the standard form alone.
pub proof fn law_b64_groups(a: u8, b: u8, c: u8, rest: Seq<u8>, url: bool)
    ensures
        ({
            let (i, j, k, l) = (
                a as int / 4,
                a as int % 4 * 16 + b as int / 16,
                b as int % 16 * 4 + c as int / 64,
                c as int % 64,
            );
            b64(seq![a, b, c] + rest, url) == seq![
                b64_symbol(i, url),
                b64_symbol(j, url),
                b64_symbol(k, url),
                b64_symbol(l, url),
            ] + b64(rest, url)
        }),
        b64(seq![a, b], url) == seq![
            b64_symbol(a as int / 4, url),
            b64_symbol(a as int % 4 * 16 + b as int / 16, url),
            b64_symbol(b as int % 16 * 4, url),
        ] + (if url {
            Seq::<char>::empty()
        } else {
            seq!['=']
        }),
        b64(seq![a], url) == seq![
            b64_symbol(a as int / 4, url),
            b64_symbol(a as int % 4 * 16, url),
        ] + (if url {
            Seq::<char>::empty()
        } else {
            seq!['=', '=']
        }),
        b64(Seq::empty(), url).len() == 0,
{
    let d = seq![a, b, c] + rest;
    assert(d.subrange(3, d.len() as int) =~= rest);
    assert(d[0] == a && d[1] == b && d[2] == c);
    lemma_six_bits(a as int, b as int, c as int);
    lemma_six_bits_of_two(a as int, b as int);
}

proof fn lemma_six_bits(a: int, b: int, c: int)
    requires
        0 <= a < 256,
        0 <= b < 256,
        0 <= c < 256,
    ensures
        ({
            let x = a * 65536 + b * 256 + c;
            &&& x / 262144 == a / 4
            &&& x / 4096 % 64 == a % 4 * 16 + b / 16
            &&& x / 64 % 64 == b % 16 * 4 + c / 64
            &&& x % 64 == c % 64
        }),
{
    let x = a * 65536 + b * 256 + c;
    let (i, j, k, l) = (a / 4, a % 4 * 16 + b / 16, b % 16 * 4 + c / 64, c % 64);
    let (a0, b0, c0) = (a % 4, b % 16, c % 64);
    let (a1, b1, c1) = (a / 4, b / 16, c / 64);
    assert(a == a1 * 4 + a0 && b == b1 * 16 + b0 && c == c1 * 64 + c0);
    assert(0 <= a0 < 4 && 0 <= b0 < 16 && 0 <= c0 < 64);
    assert(0 <= b1 < 16 && 0 <= c1 < 4);
    lemma_four_places(i, j, k, l);
}

proof fn lemma_four_places(i: int, j: int, k: int, l: int)
    requires
        0 <= i,
        0 <= j < 64,
        0 <= k < 64,
        0 <= l < 64,
    ensures
        ({
            let x = i * 262144 + j * 4096 + k * 64 + l;
            x / 262144 == i && x / 4096 % 64 == j && x / 64 % 64 == k && x % 64 == l
        }),
{
    let x = i * 262144 + j * 4096 + k * 64 + l;
    vstd::arithmetic::div_mod::lemma_fundamental_div_mod_converse(
        x,
        64,
        i * 4096 + j * 64 + k,
        l,
    );
    vstd::arithmetic::div_mod::lemma_fundamental_div_mod_converse(
        x,
        4096,
        i * 64 + j,
        k * 64 + l,
    );
    vstd::arithmetic::div_mod::lemma_fundamental_div_mod_converse(
        x,
        262144,
        i,
        j * 4096 + k * 64 + l,
    );
    vstd::arithmetic::div_mod::lemma_fundamental_div_mod_converse(
        i * 4096 + j * 64 + k,
        64,
        i * 64 + j,
        k,
    );
    vstd::arithmetic::div_mod::lemma_fundamental_div_mod_converse(i * 64 + j, 64, i, j);
}

proof fn lemma_six_bits_of_two(a: int, b: int)
    requires
        0 <= a < 256,
        0 <= b < 256,
    ensures
        ({
            let y = (a * 256 + b) * 4;
            &&& y / 4096 == a / 4
            &&& y / 64 % 64 == a % 4 * 16 + b / 16
            &&& y % 64 == b % 16 * 4
            &&& (a * 16) / 64 == a / 4
            &&& (a * 16) % 64 == a % 4 * 16
        }),
{
    let y = (a * 256 + b) * 4;
    let (i, j, k) = (a / 4, a % 4 * 16 + b / 16, b % 16 * 4);
    assert(0 <= j < 64 && 0 <= k < 64);
    assert(y == i * 4096 + j * 64 + k);
    assert(y / 64 == i * 64 + j);
}

/// Law: the length of the standard form is four symbols for every three bytes
/// begun.
pub proof fn law_b64_length(data: Seq<u8>)
    ensures
        b64(data, false).len() == (data.len() + 2) / 3 * 4,
        b64(data, true).len() == (data.len() * 4 + 2) / 3,
    decreases data.len(),
{
    if data.len() >= 3 {
        law_b64_length(data.subrange(3, data.len() as int));
    }
}

/// Law: the URL-safe form needs no escaping in an address: letters, numerals,
/// hyphens and underscores alone.
pub proof fn law_url_safe(data: Seq<u8>, i: int)
    requires
        0 <= i < b64(data, true).len(),
    ensures
        ({
            let c = b64(data, true)[i];
            'A' <= c <= 'Z' || 'a' <= c <= 'z' || '0' <= c <= '9' || c == '-' || c == '_'
        }),
    decreases data.len(),
{
    if data.len() >= 3 && i >= 4 {
        let t = data.subrange(3, data.len() as int);
        law_url_safe(t, i - 4);
        assert(b64(data, true)[i] == b64(t, true)[i - 4]);
    }
}

} // verus!
