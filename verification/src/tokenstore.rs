//! The access token at rest: base64 of the wrapped bytes. What cannot be
//! unwrapped is no token; there is no fallback to plain text.
//!
//! On Windows the bytes are wrapped by the system, under the host's profile:
//! the caller has them protected and opened, between [`token_stored`],
//! [`token_blob`] and [`token_text`]. Elsewhere they are wrapped under the
//! state directory's source.

use vstd::prelude::*;

use crate::atrest;
use crate::atrest::{unwrap_strict, wrap_drawn, ClientWrap, WrapError, WrapErrorView};
use crate::crypto;
use crate::text;

verus! {

/// Which profile the host runs under: its user's, or the machine's. A host
/// serves one profile for its lifetime: what it declares or first reads stays.
#[derive(Debug, Clone, Copy, PartialEq, Eq, Structural)]
pub struct Profile {
    machine: Option<bool>,
}

impl Profile {
    /// Whether the profile was declared or read.
    pub closed spec fn is_fixed(&self) -> bool {
        self.machine is Some
    }

    /// Whether the profile is the machine's.
    pub closed spec fn is_machine(&self) -> bool {
        self.machine == Some(true)
    }

    /// A host starts undeclared.
    pub fn new() -> (r: Profile)
        ensures
            !r.is_fixed(),
            !r.is_machine(),
    {
        Profile { machine: None }
    }

    /// The host declares itself a service. Once a profile is fixed this
    /// changes nothing.
    pub fn set_machine_profile(&mut self)
        ensures
            final(self).is_fixed(),
            final(self).is_machine() <==> !old(self).is_fixed() || old(self).is_machine(),
    {
        if self.machine.is_none() {
            self.machine = Some(true);
        }
    }

    /// Whether the profile is the machine's. The first read fixes it, to the
    /// user's where nothing was declared.
    pub fn machine_profile(&mut self) -> (r: bool)
        ensures
            r == old(self).is_machine(),
            final(self).is_fixed(),
            final(self).is_machine() == old(self).is_machine(),
    {
        match self.machine {
            Some(m) => m,
            None => {
                self.machine = Some(false);
                false
            },
        }
    }
}

/// What is stored for a token's wrapped bytes.
pub fn token_stored(blob: &[u8]) -> (r: String)
    ensures
        r@ == crypto::b64(blob@, false),
{
    crypto::base64_encode(blob)
}

/// The wrapped bytes of a stored token.
pub fn token_blob(stored: &str) -> (r: Result<Vec<u8>, WrapError>)
    ensures
        match r {
            Ok(d) => crypto::b64(d@, false) == stored@,
            Err(e) => e == WrapError::NotBase64 && forall|d: Seq<u8>| #[trigger]
                crypto::b64(d, false) != stored@,
        },
{
    match crypto::base64_decode(stored) {
        Some(b) => Ok(b),
        None => Err(WrapError::NotBase64),
    }
}

/// The token that unwrapped bytes spell.
pub fn token_text(plain: Vec<u8>) -> (r: Result<String, WrapError>)
    ensures
        match r {
            Ok(t) => vstd::utf8::valid_utf8(plain@) && t@ == vstd::utf8::decode_utf8(plain@),
            Err(e) => e == WrapError::NotText && !vstd::utf8::valid_utf8(plain@),
        },
{
    match text::from_utf8(plain) {
        Some(t) => Ok(t),
        None => Err(WrapError::NotText),
    }
}

/// The token a stored text holds under a source.
pub open spec fn token_of(stored: Seq<char>, source: Result<ClientWrap, WrapError>) -> Result<
    Seq<char>,
    WrapErrorView,
> {
    if exists|d: Seq<u8>| #[trigger] crypto::b64(d, false) == stored {
        let d = choose|d: Seq<u8>| #[trigger] crypto::b64(d, false) == stored;
        match atrest::unwrapped_as(d, source) {
            Err(e) => Err(e),
            Ok(p) => if vstd::utf8::valid_utf8(p) {
                Ok(vstd::utf8::decode_utf8(p))
            } else {
                Err(WrapErrorView::NotText)
            },
        }
    } else {
        Err(WrapErrorView::NotBase64)
    }
}

/// Wraps a token for storage. Where it is encrypted, the stored text gives the
/// token back under the same source.
pub fn wrap_token(w: &ClientWrap, plain: &str) -> (r: Result<String, WrapError>)
    ensures
        match r {
            Ok(s) => match atrest::secret_of(*w) {
                None => s@ == crypto::b64(vstd::utf8::encode_utf8(plain@), false),
                Some(_) => token_of(s@, Ok(*w)) == Ok::<Seq<char>, WrapErrorView>(plain@),
            },
            Err(e) => atrest::wrap_fails(*w, vstd::utf8::encode_utf8(plain@), e),
        },
{
    match w {
        ClientWrap::Plaintext => wrap_token_drawn(w, plain, None, None),
        _ => {
            let salt = crypto::random_bytes::<16>();
            let nonce = crypto::random_bytes::<24>();
            wrap_token_drawn(w, plain, salt, nonce)
        },
    }
}

/// Wraps a token with the salt and the nonce that were drawn.
pub fn wrap_token_drawn(
    w: &ClientWrap,
    plain: &str,
    salt: Option<[u8; 16]>,
    nonce: Option<[u8; 24]>,
) -> (r: Result<String, WrapError>)
    ensures
        match atrest::wrapped_as(*w, vstd::utf8::encode_utf8(plain@), salt, nonce) {
            Ok(blob) => r matches Ok(s) && s@ == crypto::b64(blob, false) && (atrest::secret_of(
                *w,
            ) is Some ==> token_of(s@, Ok(*w)) == Ok::<Seq<char>, WrapErrorView>(plain@)),
            Err(k) => r matches Err(e) && e == WrapError::Key(k),
        },
{
    let blob = match wrap_drawn(w, plain.as_bytes(), salt, nonce) {
        Ok(b) => b,
        Err(e) => return Err(e),
    };
    let s = token_stored(blob.as_slice());
    proof {
        lemma_b64_choice(blob@);
        vstd::utf8::encode_utf8_valid_utf8(plain@);
        vstd::utf8::encode_utf8_decode_utf8(plain@);
    }
    Ok(s)
}

/// Unwraps a stored token. Text that is not base64, bytes in neither wrapped
/// format, a wrong secret and bytes that are not text are all errors.
pub fn unwrap_token(b64: &str, source: Result<ClientWrap, WrapError>) -> (r: Result<
    String,
    WrapError,
>)
    ensures
        match r {
            Ok(t) => token_of(b64@, source) == Ok::<Seq<char>, WrapErrorView>(t@),
            Err(e) => token_of(b64@, source) == Err::<Seq<char>, WrapErrorView>(e@),
        },
{
    let blob = match token_blob(b64) {
        Ok(b) => b,
        Err(e) => return Err(e),
    };
    proof {
        lemma_b64_choice(blob@);
    }
    match unwrap_strict(blob.as_slice(), source) {
        Err(e) => Err(e),
        Ok(p) => token_text(p),
    }
}

/// The only bytes a base64 text stands for.
proof fn lemma_b64_choice(d: Seq<u8>)
    ensures
        ({
            let e = crypto::b64(d, false);
            &&& exists|x: Seq<u8>| #[trigger] crypto::b64(x, false) == e
            &&& (choose|x: Seq<u8>| #[trigger] crypto::b64(x, false) == e) == d
        }),
{
    let e = crypto::b64(d, false);
    assert(crypto::b64(d, false) == e);
    let x = choose|x: Seq<u8>| #[trigger] crypto::b64(x, false) == e;
    crypto::lemma_b64_injective(x, d);
}

/// Law: a stored token reads back: the base64 of a token in the first format
/// is that token under every source; text that is no base64 is none.
pub proof fn law_stored_token_reads_back(t: Seq<char>, source: Result<ClientWrap, WrapError>)
    ensures
        token_of(crypto::b64(crate::keys::magic1() + vstd::utf8::encode_utf8(t), false), source)
            == Ok::<Seq<char>, WrapErrorView>(t),
        (forall|d: Seq<u8>| #[trigger] crypto::b64(d, false) != t) ==> token_of(t, source) == Err::<
            Seq<char>,
            WrapErrorView,
        >(WrapErrorView::NotBase64),
{
    let d = crate::keys::magic1() + vstd::utf8::encode_utf8(t);
    lemma_b64_choice(d);
    atrest::law_what_a_blob_holds(vstd::utf8::encode_utf8(t), d, source);
    vstd::utf8::encode_utf8_valid_utf8(t);
    vstd::utf8::encode_utf8_decode_utf8(t);
}

/// Law: bytes in neither wrapped format are no token, whatever they spell.
pub proof fn law_plain_token_is_none(d: Seq<u8>, source: Result<ClientWrap, WrapError>)
    requires
        !crate::bytes::has_prefix(d, crate::keys::azdp2::magic()),
        !crate::bytes::has_prefix(d, crate::keys::magic1()),
    ensures
        token_of(crypto::b64(d, false), source) == Err::<Seq<char>, WrapErrorView>(
            WrapErrorView::NotWrapped,
        ),
{
    lemma_b64_choice(d);
    atrest::law_what_a_blob_holds(d, d, source);
}

} // verus!
