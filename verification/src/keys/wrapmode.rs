//! How key material is wrapped: the decision over the environment's settings.

use vstd::prelude::*;

use crate::text;

verus! {

/// How key material is kept at rest.
#[derive(Debug, Clone, Copy, PartialEq, Eq, Structural)]
pub enum WrapMode {
    /// Plain key material behind the first format's magic; for development.
    Plaintext,
    /// Encrypted under a passphrase.
    Azdp2,
}

/// A resolved mode with what it needs.
#[derive(Debug, Clone)]
pub struct Resolved {
    pub mode: WrapMode,
    pub passphrase: Option<String>,
    pub m_kib: u32,
    pub t: u32,
}

/// Why no mode could be resolved.
#[derive(Debug, Clone, PartialEq, Eq)]
pub enum WrapModeError {
    /// `auto`: no passphrase source, and plain key material is not allowed.
    NoSource,
    /// `passphrase`: no passphrase source.
    PassphraseMissing,
    /// `plaintext-pilot`: a passphrase source is set as well.
    Contradiction,
    /// Not a mode (its name, in lower case).
    Invalid(String),
}

/// The value of an error.
pub enum WrapModeErrorView {
    NoSource,
    PassphraseMissing,
    Contradiction,
    Invalid(Seq<char>),
}

impl View for WrapModeError {
    type V = WrapModeErrorView;

    open spec fn view(&self) -> WrapModeErrorView {
        match self {
            WrapModeError::NoSource => WrapModeErrorView::NoSource,
            WrapModeError::PassphraseMissing => WrapModeErrorView::PassphraseMissing,
            WrapModeError::Contradiction => WrapModeErrorView::Contradiction,
            WrapModeError::Invalid(s) => WrapModeErrorView::Invalid(s@),
        }
    }
}

impl WrapModeErrorView {
    /// What the user is told.
    pub open spec fn text(self) -> Seq<char> {
        match self {
            WrapModeErrorView::NoSource => {
                "no passphrase source and plaintext keys are not allowed: set AZTNA_KEY_WRAP_PASSPHRASE or AZTNA_KEY_PASSPHRASE_FILE, or explicitly opt into plaintext with AZTNA_ALLOW_PLAINTEXT_KEYS=1 (dev only)"@
            },
            WrapModeErrorView::PassphraseMissing => {
                "AZTNA_KEY_WRAP_MODE=passphrase but no passphrase source (AZTNA_KEY_WRAP_PASSPHRASE / AZTNA_KEY_PASSPHRASE_FILE)"@
            },
            WrapModeErrorView::Contradiction => {
                "AZTNA_KEY_WRAP_MODE=plaintext-pilot but a passphrase source is also set — contradictory; pick one"@
            },
            WrapModeErrorView::Invalid(m) => "AZTNA_KEY_WRAP_MODE='"@ + m
                + "' is invalid (expected auto | passphrase | plaintext-pilot)"@,
        }
    }
}

impl WrapModeError {
    /// What the user is told.
    pub fn message(&self) -> (r: String)
        ensures
            r@ == self@.text(),
    {
        match self {
            WrapModeError::NoSource => {
                "no passphrase source and plaintext keys are not allowed: set AZTNA_KEY_WRAP_PASSPHRASE or AZTNA_KEY_PASSPHRASE_FILE, or explicitly opt into plaintext with AZTNA_ALLOW_PLAINTEXT_KEYS=1 (dev only)".to_owned()
            },
            WrapModeError::PassphraseMissing => {
                "AZTNA_KEY_WRAP_MODE=passphrase but no passphrase source (AZTNA_KEY_WRAP_PASSPHRASE / AZTNA_KEY_PASSPHRASE_FILE)".to_owned()
            },
            WrapModeError::Contradiction => {
                "AZTNA_KEY_WRAP_MODE=plaintext-pilot but a passphrase source is also set — contradictory; pick one".to_owned()
            },
            WrapModeError::Invalid(m) => "AZTNA_KEY_WRAP_MODE='".to_owned().concat(
                m.as_str(),
            ).concat("' is invalid (expected auto | passphrase | plaintext-pilot)"),
        }
    }
}

/// The mode's name: `auto` where unset; otherwise trimmed, in lower case.
pub open spec fn mode_name(mode_env: Option<Seq<char>>) -> Seq<char> {
    text::ascii_lower(
        text::trimmed(
            match mode_env {
                Some(m) => m,
                None => "auto"@,
            },
        ),
    )
}

/// Whether a secret is there: set, and not only white space.
pub open spec fn has_secret(secret: Option<Seq<char>>) -> bool {
    secret matches Some(s) && text::trimmed(s).len() > 0
}

/// The decision.
pub open spec fn resolution(
    mode_env: Option<Seq<char>>,
    secret: Option<Seq<char>>,
    allow_plaintext: bool,
) -> Result<WrapMode, WrapModeErrorView> {
    let mode = mode_name(mode_env);
    if mode == "auto"@ {
        if has_secret(secret) {
            Ok(WrapMode::Azdp2)
        } else if allow_plaintext {
            Ok(WrapMode::Plaintext)
        } else {
            Err(WrapModeErrorView::NoSource)
        }
    } else if mode == "passphrase"@ {
        if has_secret(secret) {
            Ok(WrapMode::Azdp2)
        } else {
            Err(WrapModeErrorView::PassphraseMissing)
        }
    } else if mode == "plaintext-pilot"@ {
        if has_secret(secret) {
            Err(WrapModeErrorView::Contradiction)
        } else {
            Ok(WrapMode::Plaintext)
        }
    } else {
        Err(WrapModeErrorView::Invalid(mode))
    }
}

/// The view of an optional string slice.
pub open spec fn opt_view(s: Option<&str>) -> Option<Seq<char>> {
    match s {
        Some(x) => Some(x@),
        None => None,
    }
}

/// Decides the mode; every refusal says why.
pub fn resolve(mode_env: Option<&str>, secret: Option<&str>, allow_plaintext: bool) -> (r: Result<
    WrapMode,
    WrapModeError,
>)
    ensures
        match r {
            Ok(m) => resolution(opt_view(mode_env), opt_view(secret), allow_plaintext) == Ok::<
                WrapMode,
                WrapModeErrorView,
            >(m),
            Err(e) => resolution(opt_view(mode_env), opt_view(secret), allow_plaintext) == Err::<
                WrapMode,
                WrapModeErrorView,
            >(e@),
        },
{
    let raw = match mode_env {
        Some(m) => text::chars(m),
        None => text::chars("auto"),
    };
    let t = text::trim(raw.as_slice());
    let mode = text::to_ascii_lower(t.as_slice());
    let have = match secret {
        Some(s) => {
            let cs = text::chars(s);
            let t = text::trim(cs.as_slice());
            t.len() > 0
        },
        None => false,
    };
    proof {
        // The three names differ from each other.
        reveal_strlit("auto");
        reveal_strlit("passphrase");
        reveal_strlit("plaintext-pilot");
    }
    if text::is_str(mode.as_slice(), "auto") {
        if have {
            Ok(WrapMode::Azdp2)
        } else if allow_plaintext {
            Ok(WrapMode::Plaintext)
        } else {
            Err(WrapModeError::NoSource)
        }
    } else if text::is_str(mode.as_slice(), "passphrase") {
        if have {
            Ok(WrapMode::Azdp2)
        } else {
            Err(WrapModeError::PassphraseMissing)
        }
    } else if text::is_str(mode.as_slice(), "plaintext-pilot") {
        if have {
            Err(WrapModeError::Contradiction)
        } else {
            Ok(WrapMode::Plaintext)
        }
    } else {
        Err(WrapModeError::Invalid(text::string(mode.as_slice())))
    }
}

/// Law: key material is kept plain only by explicit permission or choice, and
/// never where a passphrase source is set.
pub proof fn law_plaintext_is_opt_in(
    mode_env: Option<Seq<char>>,
    secret: Option<Seq<char>>,
    allow_plaintext: bool,
)
    requires
        resolution(mode_env, secret, allow_plaintext) == Ok::<WrapMode, WrapModeErrorView>(
            WrapMode::Plaintext,
        ),
    ensures
        !has_secret(secret),
        allow_plaintext || mode_name(mode_env) == "plaintext-pilot"@,
{
}

/// Law: a secret that is there is used unless plain material is asked for,
/// which it contradicts; without one, a demanded passphrase is missing and the
/// default needs permission. A mode that is none is named.
pub proof fn law_mode_and_secret_decide(
    mode_env: Option<Seq<char>>,
    secret: Option<Seq<char>>,
    allow_plaintext: bool,
)
    ensures
        ({
            let r = resolution(mode_env, secret, allow_plaintext);
            let mode = mode_name(mode_env);
            let known = mode == "auto"@ || mode == "passphrase"@ || mode == "plaintext-pilot"@;
            &&& r == Ok::<WrapMode, WrapModeErrorView>(WrapMode::Azdp2) <==> has_secret(secret) && (
            mode == "auto"@ || mode == "passphrase"@)
            &&& r == Err::<WrapMode, WrapModeErrorView>(WrapModeErrorView::Contradiction)
                <==> has_secret(secret) && mode == "plaintext-pilot"@
            &&& r == Err::<WrapMode, WrapModeErrorView>(WrapModeErrorView::PassphraseMissing)
                <==> !has_secret(secret) && mode == "passphrase"@
            &&& r == Err::<WrapMode, WrapModeErrorView>(WrapModeErrorView::NoSource) <==> !has_secret(
                secret,
            ) && mode == "auto"@ && !allow_plaintext
            &&& r == Err::<WrapMode, WrapModeErrorView>(WrapModeErrorView::Invalid(mode)) <==> !known
            &&& r == Ok::<WrapMode, WrapModeErrorView>(WrapMode::Plaintext) <==> !has_secret(secret)
                && (mode == "plaintext-pilot"@ || (mode == "auto"@ && allow_plaintext))
        }),
{
    reveal_strlit("auto");
    reveal_strlit("passphrase");
    reveal_strlit("plaintext-pilot");
    assert("auto"@.len() == 4);
    assert("passphrase"@.len() == 10);
    assert("plaintext-pilot"@.len() == 15);
}

/// Law: the mode's name: the default where none is set, and neither capitals
/// nor white space around it count.
pub proof fn law_mode_name(m: Seq<char>)
    requires
        m.len() > 0,
        !text::is_space(m[0]),
        !text::is_space(m.last()),
    ensures
        mode_name(None) == "auto"@,
        mode_name(Some(m)) == text::ascii_lower(m),
        mode_name(Some(seq![' '] + m + seq![' '])) == text::ascii_lower(m),
{
    reveal_strlit("auto");
    text::law_ascii_lower("auto"@, m);
    assert(text::trimmed("auto"@) == "auto"@);
    assert(text::trimmed(m) == m);
    let s = seq![' '] + m + seq![' '];
    assert(s.drop_first() =~= m + seq![' ']);
    let t = m + seq![' '];
    assert(t[0] == m[0]);
    assert(text::skip_space(t) == t);
    assert(text::skip_space(s) == t);
    assert(t.drop_last() =~= m);
    assert(text::drop_space(m) == m);
    assert(text::drop_space(t) == m);
}

/// Law: a secret is there exactly if it is set and holds a character that is
/// no white space.
pub proof fn law_has_secret(s: Seq<char>)
    ensures
        !has_secret(None),
        has_secret(Some(s)) <==> exists|i: int|
            0 <= i < s.len() && !text::is_space(#[trigger] s[i]),
{
    text::law_trimmed(s);
    let (i, j) = choose|i: int, j: int| #[trigger] text::is_core(s, text::trimmed(s), i, j);
    if text::trimmed(s).len() > 0 {
        assert(s[i] == text::trimmed(s)[0]);
    }
}

} // verus!
