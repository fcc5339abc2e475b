//! The passphrase-wrapped format: `AZDP2`, a 16-byte Argon2id salt, a 24-byte
//! XChaCha20-Poly1305 nonce, ciphertext and 16-byte tag.

use vstd::prelude::*;

use super::KeyError;
use crate::bytes::{append, starts_with};
use crate::crypto;

verus! {

pub const SALT_LEN: usize = 16;

pub const NONCE_LEN: usize = 24;

pub const TAG_LEN: usize = 16;

/// `AZDP2`.
pub open spec fn magic() -> Seq<u8> {
    seq![0x41u8, 0x5au8, 0x44u8, 0x50u8, 0x32u8]
}

fn magic_bytes() -> (r: [u8; 5])
    ensures
        r@ == magic(),
{
    let r: [u8; 5] = [0x41u8, 0x5au8, 0x44u8, 0x50u8, 0x32u8];
    assert(r@ =~= magic());
    r
}

/// The blob for a salt, a nonce and a ciphertext with its tag.
pub open spec fn blob(salt: Seq<u8>, nonce: Seq<u8>, sealed: Seq<u8>) -> Seq<u8> {
    magic() + salt + nonce + sealed
}

/// Whether the bytes carry the magic.
pub fn is_azdp2(bytes: &[u8]) -> (r: bool)
    ensures
        r == crate::bytes::has_prefix(bytes@, magic()),
{
    let m = magic_bytes();
    starts_with(bytes, m.as_slice())
}

/// The encryption key for a passphrase and salt.
pub fn derive_key(pass: &[u8], salt: &[u8], m_kib: u32, t: u32) -> (r: Result<[u8; 32], KeyError>)
    ensures
        match r {
            Ok(k) => crypto::argon2id_accepts(pass@, salt@, m_kib, t) && k@ == crypto::argon2id_of(
                pass@,
                salt@,
                m_kib,
                t,
            ),
            Err(e) => e == KeyError::Kdf && !crypto::argon2id_accepts(pass@, salt@, m_kib, t),
        },
{
    match crypto::argon2id(pass, salt, m_kib, t) {
        Some(k) => Ok(k),
        None => Err(KeyError::Kdf),
    }
}

/// Encrypts under the caller's salt (the one the key was derived for) and a
/// given nonce.
pub fn wrap_with_nonce(
    plain: &[u8],
    key: &[u8; 32],
    salt: &[u8; SALT_LEN],
    nonce: &[u8; NONCE_LEN],
) -> (r: Result<Vec<u8>, KeyError>)
    ensures
        match r {
            Ok(w) => {
                &&& crypto::xchacha_fits(plain@)
                &&& w@ == blob(salt@, nonce@, crypto::xchacha_sealed(key@, nonce@, plain@))
                &&& unwrapped(w@, key@) == Ok::<Seq<u8>, KeyError>(plain@)
            },
            Err(e) => e == KeyError::Encrypt && !crypto::xchacha_fits(plain@),
        },
{
    if plain.len() as u64 > crypto::XCHACHA_MAX {
        return Err(KeyError::Encrypt);
    }
    match crypto::xchacha_encrypt(key, nonce, plain) {
        None => Err(KeyError::Encrypt),
        Some(ct) => {
            let m = magic_bytes();
            let mut out: Vec<u8> = Vec::new();
            append(&mut out, m.as_slice());
            append(&mut out, salt.as_slice());
            append(&mut out, nonce.as_slice());
            append(&mut out, ct.as_slice());
            proof {
                assert(out@ =~= blob(salt@, nonce@, ct@));
                law_parse_blob(salt@, nonce@, ct@);
            }
            Ok(out)
        },
    }
}

/// Encrypts under the caller's salt and a fresh random nonce.
pub fn wrap(plain: &[u8], key: &[u8; 32], salt: &[u8; SALT_LEN]) -> (r: Result<Vec<u8>, KeyError>)
    ensures
        match r {
            Ok(w) => {
                &&& crypto::xchacha_fits(plain@)
                &&& unwrapped(w@, key@) == Ok::<Seq<u8>, KeyError>(plain@)
                &&& exists|nonce: Seq<u8>|
                    nonce.len() == NONCE_LEN && w@ == #[trigger] blob(
                        salt@,
                        nonce,
                        crypto::xchacha_sealed(key@, nonce, plain@),
                    )
            },
            Err(KeyError::Encrypt) => !crypto::xchacha_fits(plain@),
            Err(e) => e == KeyError::Random,
        },
{
    match crypto::random_bytes::<NONCE_LEN>() {
        None => Err(KeyError::Random),
        Some(nonce) => {
            let r = wrap_with_nonce(plain, key, salt, &nonce);
            assert(nonce@.len() == NONCE_LEN);
            r
        },
    }
}

/// Salt, nonce and sealed message of a blob.
pub open spec fn parsed(b: Seq<u8>) -> Result<(Seq<u8>, Seq<u8>, Seq<u8>), KeyError> {
    if !crate::bytes::has_prefix(b, magic()) {
        Err(KeyError::NotAzdp2)
    } else if b.len() < 5 + SALT_LEN + NONCE_LEN + TAG_LEN {
        Err(KeyError::Truncated((b.len() - 5) as usize))
    } else {
        Ok((b.subrange(5, 21), b.subrange(21, 45), b.subrange(45, b.len() as int)))
    }
}

/// Splits a blob into salt, nonce and sealed message.
pub fn parse<'a>(b: &'a [u8]) -> (r: Result<(&'a [u8], &'a [u8], &'a [u8]), KeyError>)
    ensures
        match r {
            Ok((s, n, c)) => parsed(b@) == Ok::<(Seq<u8>, Seq<u8>, Seq<u8>), KeyError>(
                (s@, n@, c@),
            ),
            Err(e) => parsed(b@) == Err::<(Seq<u8>, Seq<u8>, Seq<u8>), KeyError>(e),
        },
{
    if !is_azdp2(b) {
        return Err(KeyError::NotAzdp2);
    }
    if b.len() - 5 < SALT_LEN + NONCE_LEN + TAG_LEN {
        return Err(KeyError::Truncated(b.len() - 5));
    }
    Ok(
        (
            vstd::slice::slice_subrange(b, 5, 21),
            vstd::slice::slice_subrange(b, 21, 45),
            vstd::slice::slice_subrange(b, 45, b.len()),
        ),
    )
}

/// The message a blob holds under a key. One longer than a nonce reaches holds
/// none.
pub open spec fn unwrapped(b: Seq<u8>, key: Seq<u8>) -> Result<Seq<u8>, KeyError> {
    match parsed(b) {
        Err(e) => Err(e),
        Ok((_, nonce, sealed)) => match crypto::xchacha_opened(key, nonce, sealed) {
            Some(p) if crypto::xchacha_reaches(sealed) => Ok(p),
            _ => Err(KeyError::Auth),
        },
    }
}

/// Decrypts a blob.
pub fn unwrap(b: &[u8], key: &[u8; 32]) -> (r: Result<Vec<u8>, KeyError>)
    ensures
        match r {
            Ok(p) => unwrapped(b@, key@) == Ok::<Seq<u8>, KeyError>(p@),
            Err(e) => unwrapped(b@, key@) == Err::<Seq<u8>, KeyError>(e),
        },
{
    match parse(b) {
        Err(e) => Err(e),
        Ok((_, nonce, sealed)) => {
            let n: [u8; NONCE_LEN] = nonce_array(nonce);
            if sealed.len() as u64 > crypto::XCHACHA_MAX + crypto::XCHACHA_TAG {
                return Err(KeyError::Auth);
            }
            match crypto::xchacha_decrypt(key, &n, sealed) {
                Some(p) => Ok(p),
                None => Err(KeyError::Auth),
            }
        },
    }
}

fn nonce_array(n: &[u8]) -> (r: [u8; NONCE_LEN])
    requires
        n@.len() == NONCE_LEN,
    ensures
        r@ == n@,
{
    let mut r: [u8; NONCE_LEN] = [0u8; NONCE_LEN];
    let mut i: usize = 0;
    while i < NONCE_LEN
        invariant
            i <= NONCE_LEN,
            n@.len() == NONCE_LEN,
            forall|j: int| 0 <= j < i ==> r@[j] == n@[j],
        decreases NONCE_LEN - i,
    {
        r[i] = n[i];
        i += 1;
    }
    assert(r@ =~= n@);
    r
}

/// Law of the layout: magic, salt, nonce and sealed message stand where they
/// are read.
pub proof fn law_parse_blob(salt: Seq<u8>, nonce: Seq<u8>, sealed: Seq<u8>)
    requires
        salt.len() == SALT_LEN,
        nonce.len() == NONCE_LEN,
        sealed.len() >= TAG_LEN,
    ensures
        parsed(blob(salt, nonce, sealed)) == Ok::<(Seq<u8>, Seq<u8>, Seq<u8>), KeyError>(
            (salt, nonce, sealed),
        ),
{
    let b = blob(salt, nonce, sealed);
    assert(b.subrange(0, 5) =~= magic());
    assert(b.subrange(5, 21) =~= salt);
    assert(b.subrange(21, 45) =~= nonce);
    assert(b.subrange(45, b.len() as int) =~= sealed);
}

/// Law: the two formats never take each other's blobs for their own.
pub proof fn law_formats_disjoint(b: Seq<u8>)
    ensures
        !(crate::bytes::has_prefix(b, magic()) && crate::bytes::has_prefix(b, super::magic1())),
{
    if crate::bytes::has_prefix(b, magic()) && crate::bytes::has_prefix(b, super::magic1()) {
        assert(b.subrange(0, 5)[4] == magic()[4]);
        assert(b.subrange(0, 5)[4] == super::magic1()[4]);
    }
}

/// Law: what is no whole blob: another mark, or fewer bytes behind it than a
/// salt, a nonce and a tag take; the bytes that are there are counted.
pub proof fn law_not_a_blob(b: Seq<u8>, body: Seq<u8>)
    ensures
        !crate::bytes::has_prefix(b, magic()) ==> parsed(b) == Err::<
            (Seq<u8>, Seq<u8>, Seq<u8>),
            KeyError,
        >(KeyError::NotAzdp2),
        body.len() < 16 + 24 + 16 ==> parsed(magic() + body) == Err::<
            (Seq<u8>, Seq<u8>, Seq<u8>),
            KeyError,
        >(KeyError::Truncated(body.len() as usize)),
        body.len() >= 16 + 24 + 16 ==> parsed(magic() + body) is Ok,
{
    let s = magic() + body;
    assert(s.subrange(0, 5) =~= magic());
}

/// Law: a blob that the key does not open is an authentication error, and one
/// that it opens holds what came out.
pub proof fn law_unwrapped(salt: Seq<u8>, nonce: Seq<u8>, sealed: Seq<u8>, key: Seq<u8>)
    requires
        salt.len() == SALT_LEN,
        nonce.len() == NONCE_LEN,
        sealed.len() >= TAG_LEN,
        crypto::xchacha_reaches(sealed),
    ensures
        crypto::xchacha_opened(key, nonce, sealed) is None ==> unwrapped(
            blob(salt, nonce, sealed),
            key,
        ) == Err::<Seq<u8>, KeyError>(KeyError::Auth),
        crypto::xchacha_opened(key, nonce, sealed) matches Some(p) ==> unwrapped(
            blob(salt, nonce, sealed),
            key,
        ) == Ok::<Seq<u8>, KeyError>(p),
{
    law_parse_blob(salt, nonce, sealed);
}

} // verus!
