//! Key material at rest: the two wrapped formats and the choice between them.
//!
//! Pure functions: no logging, no process-wide state. Callers own the
//! environment they read and the files they write.

use vstd::prelude::*;

use crate::bytes::{append, copy_range, starts_with};
use crate::text;

pub mod azdp2;
pub mod wrapmode;

verus! {

/// What can go wrong with wrapped key material.
#[derive(Debug, Clone, Copy, PartialEq, Eq, Structural)]
pub enum KeyError {
    /// The bytes do not carry the first format's magic.
    NotWrapped,
    /// The bytes do not carry the second format's magic.
    NotAzdp2,
    /// The second format's body is too short (its length).
    Truncated(usize),
    /// The key derivation refused its parameters or inputs.
    Kdf,
    /// The message is too long to encrypt.
    Encrypt,
    /// The operating system gave no random bytes.
    Random,
    /// The ciphertext does not authenticate.
    Auth,
}

impl KeyError {
    /// What the user is told.
    pub open spec fn text(self) -> Seq<char> {
        match self {
            KeyError::NotWrapped => "not a wrapped blob"@,
            KeyError::NotAzdp2 => "not an AZDP2 blob"@,
            KeyError::Truncated(n) => "AZDP2 blob truncated ("@ + text::decimal(n as nat)
                + "B body)"@,
            KeyError::Kdf => "argon2id KDF"@,
            KeyError::Encrypt => "azdp2 encrypt"@,
            KeyError::Random => "no random bytes"@,
            KeyError::Auth => {
                "AZDP2 authentication failed — wrong passphrase or corrupted file"@
            },
        }
    }

    /// What the user is told.
    pub fn message(&self) -> (r: String)
        ensures
            r@ == self.text(),
    {
        match self {
            KeyError::NotWrapped => "not a wrapped blob".to_owned(),
            KeyError::NotAzdp2 => "not an AZDP2 blob".to_owned(),
            KeyError::Truncated(n) => {
                let mut out = text::chars("AZDP2 blob truncated (");
                let d = text::dec(*n as u64);
                text::push_all(&mut out, d.as_slice());
                text::push_str(&mut out, "B body)");
                text::string(out.as_slice())
            },
            KeyError::Kdf => "argon2id KDF".to_owned(),
            KeyError::Encrypt => "azdp2 encrypt".to_owned(),
            KeyError::Random => "no random bytes".to_owned(),
            KeyError::Auth => {
                "AZDP2 authentication failed — wrong passphrase or corrupted file".to_owned()
            },
        }
    }
}

/// The first format's magic, `AZDP1`.
pub open spec fn magic1() -> Seq<u8> {
    seq![0x41u8, 0x5au8, 0x44u8, 0x50u8, 0x31u8]
}

fn magic1_bytes() -> (r: [u8; 5])
    ensures
        r@ == magic1(),
{
    let r: [u8; 5] = [0x41u8, 0x5au8, 0x44u8, 0x50u8, 0x31u8];
    assert(r@ =~= magic1());
    r
}

/// Whether the bytes are in the first format.
pub fn is_wrapped(bytes: &[u8]) -> (r: bool)
    ensures
        r == crate::bytes::has_prefix(bytes@, magic1()),
{
    let m = magic1_bytes();
    starts_with(bytes, m.as_slice())
}

/// Whether the bytes are in either wrapped format, whichever host wrote them.
/// Readers tell by it what to unwrap from what is plain key material.
pub fn is_wrapped_key(bytes: &[u8]) -> (r: bool)
    ensures
        r == (crate::bytes::has_prefix(bytes@, magic1()) || crate::bytes::has_prefix(
            bytes@,
            azdp2::magic(),
        )),
{
    is_wrapped(bytes) || azdp2::is_azdp2(bytes)
}

/// The first format: the magic, then the bytes as they are. On Windows the
/// caller has the system protect them first (`CryptProtectData`), and frames
/// what came back; other hosts have no such service.
pub fn protect(plain: &[u8]) -> (r: Result<Vec<u8>, KeyError>)
    ensures
        r matches Ok(w) && w@ == magic1() + plain@,
{
    let m = magic1_bytes();
    let mut out: Vec<u8> = Vec::new();
    append(&mut out, m.as_slice());
    append(&mut out, plain);
    assert(out@ =~= magic1() + plain@);
    Ok(out)
}

/// What `protect` was given: on Windows, bytes for the system to open.
pub fn unprotect(wrapped: &[u8]) -> (r: Result<Vec<u8>, KeyError>)
    ensures
        match r {
            Ok(p) => wrapped@ == magic1() + p@,
            Err(e) => e == KeyError::NotWrapped && !crate::bytes::has_prefix(wrapped@, magic1()),
        },
{
    if !is_wrapped(wrapped) {
        return Err(KeyError::NotWrapped);
    }
    let p = copy_range(wrapped, 5, wrapped.len());
    assert(wrapped@ =~= wrapped@.subrange(0, 5) + p@);
    Ok(p)
}

/// Law: what was protected is recognised, and unprotecting gives it back and
/// nothing else.
pub proof fn law_protect_roundtrip(plain: Seq<u8>, other: Seq<u8>)
    ensures
        crate::bytes::has_prefix(magic1() + plain, magic1()),
        magic1() + plain == magic1() + other ==> plain == other,
{
    let w = magic1() + plain;
    assert(w.subrange(0, 5) =~= magic1());
    if w == magic1() + other {
        assert(plain =~= w.subrange(5, w.len() as int));
        assert(other =~= w.subrange(5, w.len() as int));
    }
}

/// The path an environment value names: the value without surrounding white
/// space, or the default where nothing is left or nothing is set.
pub open spec fn path_override(value: Option<Seq<char>>, default: Seq<char>) -> Seq<char> {
    match value {
        Some(p) => if text::trimmed(p).len() == 0 {
            default
        } else {
            text::trimmed(p)
        },
        None => default,
    }
}

/// The path for key material: what the environment variable holds (as looked
/// up by the caller), with an empty value counting as unset.
pub fn key_path_override_with(value: Option<&str>, default: &str) -> (r: String)
    ensures
        r@ == path_override(
            match value {
                Some(v) => Some(v@),
                None => None,
            },
            default@,
        ),
{
    if let Some(v) = value {
        let cs = text::chars(v);
        let t = text::trim(cs.as_slice());
        if t.len() > 0 {
            return text::string(t.as_slice());
        }
    }
    default.to_owned()
}

/// Law: a path that is set is used without white space around it; one that is
/// blank or not set leaves the default.
pub proof fn law_path_override(p: Seq<char>, default: Seq<char>)
    ensures
        path_override(None, default) == default,
        (forall|i: int| 0 <= i < p.len() ==> text::is_space(#[trigger] p[i])) ==> path_override(
            Some(p),
            default,
        ) == default,
        p.len() > 0 && !text::is_space(p[0]) && !text::is_space(p.last()) ==> path_override(
            Some(p),
            default,
        ) == p,
{
    text::law_trimmed(p);
    let (i, j) = choose|i: int, j: int| #[trigger] text::is_core(p, text::trimmed(p), i, j);
    if text::trimmed(p).len() > 0 {
        assert(p[i] == text::trimmed(p)[0]);
    }
}

} // verus!
