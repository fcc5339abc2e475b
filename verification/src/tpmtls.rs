//! What a TLS handshake asks of a key that the security chip holds.

use vstd::prelude::*;

use crate::bytes::copy_range;
use crate::crypto;
use crate::identity;
use crate::identity::{concat2, der_uint_be, tlv};

verus! {

/// Code point of the one scheme the chip signs with: ECDSA on P-256 with
/// SHA-256.
pub const SCHEME: u16 = 0x0403;

/// Whether the chip's scheme is among those on offer.
pub fn choose_scheme(offered: &Vec<u16>) -> (r: bool)
    ensures
        r == offered@.contains(SCHEME),
{
    let mut i: usize = 0;
    while i < offered.len()
        invariant
            i <= offered@.len(),
            forall|j: int| 0 <= j < i ==> offered@[j] != SCHEME,
        decreases offered@.len() - i,
    {
        if offered[i] == SCHEME {
            assert(offered@[i as int] == SCHEME);
            return true;
        }
        i += 1;
    }
    false
}

/// What the chip signs for a message: the message itself where it is a digest
/// already, else its digest.
pub open spec fn digest_of(message: Seq<u8>) -> Seq<u8> {
    if message.len() == 32 {
        message
    } else {
        crypto::sha256_of(message)
    }
}

/// What the chip signs for a message.
pub fn signing_digest(message: &[u8]) -> (r: Vec<u8>)
    ensures
        r@ == digest_of(message@),
        r@.len() == 32,
{
    if message.len() == 32 {
        let r = copy_range(message, 0, 32);
        assert(r@ =~= message@);
        r
    } else {
        crypto::sha256(message)
    }
}

/// A signature in DER: the two halves as integers.
pub open spec fn der_signature(raw: Seq<u8>) -> Seq<u8> {
    identity::der(
        0x30,
        identity::uint(raw.subrange(0, 32)) + identity::uint(raw.subrange(32, 64)),
    )
}

/// A signature in DER from its raw form.
pub fn raw_to_der(raw: &[u8; 64]) -> (r: Vec<u8>)
    ensures
        r@ == der_signature(raw@),
{
    let s = raw.as_slice();
    let halves = concat2(
        &der_uint_be(vstd::slice::slice_subrange(s, 0, 32)),
        &der_uint_be(vstd::slice::slice_subrange(s, 32, 64)),
    );
    tlv(0x30, halves.as_slice())
}

proof fn lemma_minimal_bounds(b: Seq<u8>)
    requires
        b.len() > 0,
    ensures
        1 <= identity::minimal(b).len() <= b.len(),
    decreases b.len(),
{
    if b.len() > 1 && b[0] == 0 {
        lemma_minimal_bounds(b.drop_first());
    }
}

/// Law: every signature fits the short form of lengths: it is between 8 and
/// 72 bytes long, a sequence, with its length in the second byte.
pub proof fn law_signature_is_short(raw: Seq<u8>)
    requires
        raw.len() == 64,
    ensures
        8 <= der_signature(raw).len() <= 72,
        der_signature(raw)[0] == 0x30,
        der_signature(raw)[1] + 2 == der_signature(raw).len(),
{
    lemma_minimal_bounds(raw.subrange(0, 32));
    lemma_minimal_bounds(raw.subrange(32, 64));
}

/// Whether a cipher suite goes with a chip that signs 32-byte digests:
/// `transcript` is the digest length of a TLS 1.3 suite; those of TLS 1.2 all
/// do.
pub fn keeps_suite(transcript: Option<usize>) -> (r: bool)
    ensures
        r == match transcript {
            Some(n) => n == 32,
            None => true,
        },
{
    match transcript {
        Some(n) => n == 32,
        None => true,
    }
}

/// Law: a signature reads back as the two numbers its halves spell, the first
/// half first.
pub proof fn law_signature_reads_back(raw: Seq<u8>)
    requires
        raw.len() == 64,
    ensures
        identity::signature_numbers(der_signature(raw)) == Some(
            (identity::be_value(raw.subrange(0, 32)), identity::be_value(raw.subrange(32, 64))),
        ),
{
    identity::law_integer_pair_reads_back(raw.subrange(0, 32), raw.subrange(32, 64));
}

/// Law: a certificate request carries the chip's signature as a handshake
/// does.
pub proof fn law_request_carries_the_signature(info: Seq<u8>, raw: Seq<u8>)
    requires
        raw.len() == 64,
    ensures
        ({
            let r = identity::request(info, raw);
            let d = der_signature(raw);
            r.len() > d.len() && r.subrange(r.len() - d.len(), r.len() as int) == d
        }),
{
    let r = identity::request(info, raw);
    let d = der_signature(raw);
    assert(r.subrange(r.len() - d.len(), r.len() as int) =~= d);
}

/// Law: a message that is a digest already is signed as it is, and every other
/// message is signed by its digest; so what the chip is given always has the
/// length of a digest and depends on the message alone.
pub proof fn law_digest_is_signed(message: Seq<u8>)
    ensures
        message.len() == 32 ==> digest_of(message) == message,
        message.len() != 32 ==> digest_of(message) == crypto::sha256_of(message),
{
}

} // verus!
