//! Key material and tokens at rest on this host: where the wrapping secret
//! comes from, and wrapping and unwrapping under it.
//!
//! Without any setting the client wraps under a random key file in its own
//! directory, so that nobody is prompted. A passphrase setting makes the
//! protection rest on a secret instead of on file permissions.

use vstd::prelude::*;

use crate::bytes::copy_range;
use crate::crypto;
use crate::keys;
use crate::keys::{azdp2, is_wrapped, unprotect, KeyError};
use crate::text;

verus! {

/// Name of the key file in the state directory.
pub const KEY_FILE_NAME: &'static str = "atrest.key";

/// Where the wrapping secret comes from.
#[derive(Debug, Clone, PartialEq)]
pub enum ClientWrap {
    /// The default: a random key file in the state directory.
    Keyfile { path: String, secret: String, m_kib: u32, t: u32 },
    /// A passphrase from the environment or a credential file.
    Passphrase { pass: String, m_kib: u32, t: u32 },
    /// Nothing is wrapped; for development, and only on request.
    Plaintext,
}

impl ClientWrap {
    /// The mode's name.
    pub fn mode_name(&self) -> (r: &'static str)
        ensures
            r@ == match self {
                ClientWrap::Keyfile { .. } => "keyfile"@,
                ClientWrap::Passphrase { .. } => "passphrase"@,
                ClientWrap::Plaintext => "plaintext-pilot"@,
            },
    {
        match self {
            ClientWrap::Keyfile { .. } => "keyfile",
            ClientWrap::Passphrase { .. } => "passphrase",
            ClientWrap::Plaintext => "plaintext-pilot",
        }
    }
}

/// Why nothing could be wrapped or unwrapped.
#[derive(Debug, Clone, PartialEq, Eq)]
pub enum WrapError {
    /// Two passphrase sources are set.
    BothSources,
    /// The credential file cannot be read.
    FileUnreadable,
    /// The credential file holds no passphrase.
    EmptyPassphrase,
    /// The passphrase mode is set without a source.
    PassphraseMissing,
    /// Not a mode (its name, in lower case).
    InvalidMode(String),
    /// The state directory is open to others (its mode).
    InsecureDir(u32),
    /// The key file is open to others (its mode).
    InsecureFile(u32),
    /// The key file cannot be read.
    KeyfileUnreadable,
    /// The key file is empty.
    KeyfileEmpty,
    /// The key file is gone, and a new one could not decrypt anything.
    KeyfileMissing,
    /// The state is wrapped, but plaintext was asked for.
    Contradiction,
    /// A token that is in neither wrapped format.
    NotWrapped,
    /// A token that is not base64.
    NotBase64,
    /// A token that is not text.
    NotText,
    /// The wrapped format or its cryptography failed.
    Key(KeyError),
    /// The system's own protection refused (its words).
    System(String),
}

/// The value of an error.
pub enum WrapErrorView {
    BothSources,
    FileUnreadable,
    EmptyPassphrase,
    PassphraseMissing,
    InvalidMode(Seq<char>),
    InsecureDir(u32),
    InsecureFile(u32),
    KeyfileUnreadable,
    KeyfileEmpty,
    KeyfileMissing,
    Contradiction,
    NotWrapped,
    NotBase64,
    NotText,
    Key(KeyError),
    System(Seq<char>),
}

impl View for WrapError {
    type V = WrapErrorView;

    open spec fn view(&self) -> WrapErrorView {
        match self {
            WrapError::BothSources => WrapErrorView::BothSources,
            WrapError::FileUnreadable => WrapErrorView::FileUnreadable,
            WrapError::EmptyPassphrase => WrapErrorView::EmptyPassphrase,
            WrapError::PassphraseMissing => WrapErrorView::PassphraseMissing,
            WrapError::InvalidMode(m) => WrapErrorView::InvalidMode(m@),
            WrapError::InsecureDir(m) => WrapErrorView::InsecureDir(*m),
            WrapError::InsecureFile(m) => WrapErrorView::InsecureFile(*m),
            WrapError::KeyfileUnreadable => WrapErrorView::KeyfileUnreadable,
            WrapError::KeyfileEmpty => WrapErrorView::KeyfileEmpty,
            WrapError::KeyfileMissing => WrapErrorView::KeyfileMissing,
            WrapError::Contradiction => WrapErrorView::Contradiction,
            WrapError::NotWrapped => WrapErrorView::NotWrapped,
            WrapError::NotBase64 => WrapErrorView::NotBase64,
            WrapError::NotText => WrapErrorView::NotText,
            WrapError::Key(e) => WrapErrorView::Key(*e),
            WrapError::System(m) => WrapErrorView::System(m@),
        }
    }
}

/// The octal digits of a number.
pub open spec fn octal(n: nat) -> Seq<char>
    decreases n,
{
    if n < 8 {
        seq![text::digit(n)]
    } else {
        octal(n / 8).push(text::digit(n % 8))
    }
}

fn octal_digits(n: u32) -> (r: Vec<char>)
    ensures
        r@ == octal(n as nat),
    decreases n,
{
    let d: u32 = n % 8;
    let c = (48u8 + d as u8) as char;
    assert(c == text::digit(d as nat));
    if n < 8 {
        let mut out: Vec<char> = Vec::new();
        out.push(c);
        assert(out@ =~= octal(n as nat));
        out
    } else {
        let mut out = octal_digits(n / 8);
        out.push(c);
        out
    }
}

impl WrapErrorView {
    /// What the user is told of the directory or file at `path`.
    pub open spec fn text(self, path: Seq<char>) -> Seq<char> {
        match self {
            WrapErrorView::BothSources => {
                "both AZTNA_KEY_WRAP_PASSPHRASE and AZTNA_KEY_PASSPHRASE_FILE are set — pick one"@
            },
            WrapErrorView::FileUnreadable => "AZTNA_KEY_PASSPHRASE_FILE '"@ + path + "' unreadable"@,
            WrapErrorView::EmptyPassphrase => {
                "passphrase source is empty — refusing (a blank passphrase protects nothing)"@
            },
            WrapErrorView::PassphraseMissing => {
                "AZTNA_KEY_WRAP_MODE=passphrase but no passphrase source (AZTNA_KEY_WRAP_PASSPHRASE / AZTNA_KEY_PASSPHRASE_FILE)"@
            },
            WrapErrorView::InvalidMode(m) => "AZTNA_KEY_WRAP_MODE='"@ + m
                + "' is invalid (expected auto | passphrase | plaintext-pilot)"@,
            WrapErrorView::InsecureDir(m) => "state dir "@ + path + " has insecure mode "@ + octal(
                (m % 512) as nat,
            ) + " — fix with: chmod 700 "@ + path,
            WrapErrorView::InsecureFile(m) => "key file "@ + path + " has insecure mode "@ + octal(
                (m % 512) as nat,
            ) + " — fix with: chmod 600 "@ + path,
            WrapErrorView::KeyfileUnreadable => "read "@ + path,
            WrapErrorView::KeyfileEmpty => path
                + " is empty — refusing (a blank key-file protects nothing)"@,
            WrapErrorView::KeyfileMissing => "state is AZDP2-wrapped under the key-file but "@ + path
                + " is missing — restore it (or re-enroll); refusing to mint a fresh key that cannot decrypt"@,
            WrapErrorView::Contradiction => {
                "state is AZDP2-wrapped but no passphrase/key-file source resolved (AZTNA_KEY_WRAP_MODE=plaintext-pilot contradicts wrapped state)"@
            },
            WrapErrorView::NotWrapped => {
                "token blob is neither AZDP2 nor AZDP1 — refusing (corrupt or hand-edited state)"@
            },
            WrapErrorView::NotBase64 => "token blob b64"@,
            WrapErrorView::NotText => "token utf8"@,
            WrapErrorView::Key(e) => e.text(),
            WrapErrorView::System(m) => m,
        }
    }
}

impl WrapError {
    /// What the user is told of the directory or file at `path`.
    pub fn message(&self, path: &str) -> (r: String)
        ensures
            r@ == self@.text(path@),
    {
        match self {
            WrapError::BothSources => {
                "both AZTNA_KEY_WRAP_PASSPHRASE and AZTNA_KEY_PASSPHRASE_FILE are set — pick one".to_owned()
            },
            WrapError::FileUnreadable => "AZTNA_KEY_PASSPHRASE_FILE '".to_owned().concat(path).concat(
                "' unreadable",
            ),
            WrapError::EmptyPassphrase => {
                "passphrase source is empty — refusing (a blank passphrase protects nothing)".to_owned()
            },
            WrapError::PassphraseMissing => {
                "AZTNA_KEY_WRAP_MODE=passphrase but no passphrase source (AZTNA_KEY_WRAP_PASSPHRASE / AZTNA_KEY_PASSPHRASE_FILE)".to_owned()
            },
            WrapError::InvalidMode(m) => "AZTNA_KEY_WRAP_MODE='".to_owned().concat(
                m.as_str(),
            ).concat("' is invalid (expected auto | passphrase | plaintext-pilot)"),
            WrapError::InsecureDir(m) => {
                let o = text::string(octal_digits(*m % 512).as_slice());
                "state dir ".to_owned().concat(path).concat(" has insecure mode ").concat(
                    o.as_str(),
                ).concat(" — fix with: chmod 700 ").concat(path)
            },
            WrapError::InsecureFile(m) => {
                let o = text::string(octal_digits(*m % 512).as_slice());
                "key file ".to_owned().concat(path).concat(" has insecure mode ").concat(
                    o.as_str(),
                ).concat(" — fix with: chmod 600 ").concat(path)
            },
            WrapError::KeyfileUnreadable => "read ".to_owned().concat(path),
            WrapError::KeyfileEmpty => path.to_owned().concat(
                " is empty — refusing (a blank key-file protects nothing)",
            ),
            WrapError::KeyfileMissing => "state is AZDP2-wrapped under the key-file but ".to_owned().concat(
                path,
            ).concat(
                " is missing — restore it (or re-enroll); refusing to mint a fresh key that cannot decrypt",
            ),
            WrapError::Contradiction => {
                "state is AZDP2-wrapped but no passphrase/key-file source resolved (AZTNA_KEY_WRAP_MODE=plaintext-pilot contradicts wrapped state)".to_owned()
            },
            WrapError::NotWrapped => {
                "token blob is neither AZDP2 nor AZDP1 — refusing (corrupt or hand-edited state)".to_owned()
            },
            WrapError::NotBase64 => "token blob b64".to_owned(),
            WrapError::NotText => "token utf8".to_owned(),
            WrapError::Key(e) => e.message(),
            WrapError::System(m) => m.as_str().to_owned(),
        }
    }
}

/// The value of an environment variable: a blank one counts as unset.
pub open spec fn set_value(v: Option<Seq<char>>) -> Option<Seq<char>> {
    match v {
        Some(s) => if text::trimmed(s).len() == 0 {
            None
        } else {
            Some(s)
        },
        None => None,
    }
}

/// The view of an optional string.
pub open spec fn opt(s: Option<String>) -> Option<Seq<char>> {
    match s {
        Some(x) => Some(x@),
        None => None,
    }
}

/// An environment variable's value, with a blank one counting as unset.
pub fn env_lookup(value: Option<String>) -> (r: Option<String>)
    ensures
        opt(r) == set_value(opt(value)),
{
    match value {
        Some(s) => {
            let cs = text::chars(s.as_str());
            let t = text::trim(cs.as_slice());
            if t.len() == 0 {
                None
            } else {
                Some(s)
            }
        },
        None => None,
    }
}

/// A number setting: within its bounds where it is a number, else the default.
pub open spec fn clamped(v: Option<Seq<char>>, default: u32, floor: u32, max: u32) -> u32 {
    match v {
        Some(s) => match text::number(text::trimmed(s), u32::MAX as nat) {
            Some(n) => if n < floor {
                floor
            } else if n > max {
                max
            } else {
                n as u32
            },
            None => default,
        },
        None => default,
    }
}

/// A number setting, kept within its bounds.
pub fn clamp_u32(v: &Option<String>, default: u32, floor: u32, max: u32) -> (r: u32)
    requires
        floor <= max,
    ensures
        r == clamped(opt(*v), default, floor, max),
{
    if let Some(s) = v {
        let cs = text::chars(s.as_str());
        let t = text::trim(cs.as_slice());
        if let Some(n) = text::parse_number(t.as_slice(), u32::MAX as u64) {
            let n: u32 = n as u32;
            return if n < floor {
                floor
            } else if n > max {
                max
            } else {
                n
            };
        }
    }
    default
}

/// A credential file as far as it could be read.
#[derive(Debug, Clone, PartialEq, Eq)]
pub enum FileText {
    Unreadable,
    Text(String),
}

/// The settings that choose a wrapping secret, as the caller looked them up.
#[derive(Debug, Clone, PartialEq, Eq)]
pub struct WrapSettings {
    pub passphrase: Option<String>,
    pub passphrase_file: Option<FileText>,
    pub mode: Option<String>,
    pub m_kib: Option<String>,
    pub t: Option<String>,
}

/// A key file as it was found.
#[derive(Debug, Clone, PartialEq, Eq)]
pub enum KeyfileFound {
    Absent,
    /// There, with its permission bits, but not readable.
    Unreadable(u32),
    /// There, with its permission bits and its text.
    Text(u32, String),
}

/// The state directory and the key file as they were found.
#[derive(Debug, Clone, PartialEq, Eq)]
pub struct KeyfileState {
    pub path: String,
    /// The directory's permission bits; absent where it is yet to be made.
    pub dir_mode: Option<u32>,
    pub file: KeyfileFound,
}

/// What the settings lead to.
#[derive(Debug, Clone, PartialEq)]
pub enum Resolution {
    Ready(ClientWrap),
    /// A key file has to be made first.
    Mint { m_kib: u32, t: u32 },
}

/// `s` without line ends at its end.
pub open spec fn drop_eol(s: Seq<char>) -> Seq<char>
    decreases s.len(),
{
    if s.len() > 0 && (s.last() == '\r' || s.last() == '\n') {
        drop_eol(s.drop_last())
    } else {
        s
    }
}

fn trim_eol(s: &[char]) -> (r: Vec<char>)
    ensures
        r@ == drop_eol(s@),
{
    let mut n: usize = s.len();
    assert(s@.subrange(0, n as int) =~= s@);
    while n > 0 && (s[n - 1] == '\r' || s[n - 1] == '\n')
        invariant
            n <= s.len(),
            drop_eol(s@) == drop_eol(s@.subrange(0, n as int)),
        decreases n,
    {
        assert(s@.subrange(0, n as int).drop_last() =~= s@.subrange(0, n - 1));
        n -= 1;
    }
    text::cut(s, 0, n)
}

/// Argon2id memory for the settings, in KiB.
pub open spec fn memory_of(s: WrapSettings) -> u32 {
    clamped(opt(s.m_kib), 65536, 8, 1048576)
}

/// Argon2id passes for the settings.
pub open spec fn passes_of(s: WrapSettings) -> u32 {
    clamped(opt(s.t), 3, 1, 16)
}

/// Whether permission bits are the owner's alone, for a directory.
pub open spec fn dir_is_private(mode: u32) -> bool {
    mode & 0o777 == 0o700
}

/// Whether permission bits are the owner's alone, for a file.
pub open spec fn file_is_private(mode: u32) -> bool {
    mode & 0o777 == 0o600
}

/// What a key file leads to.
pub open spec fn keyfile_leads(k: KeyfileState, m_kib: u32, t: u32, allow_mint: bool, r: Result<
    Resolution,
    WrapError,
>) -> bool {
    if k.dir_mode is Some && !dir_is_private(k.dir_mode->Some_0) {
        r matches Err(e) && e@ == WrapErrorView::InsecureDir(k.dir_mode->Some_0)
    } else {
        match k.file {
            KeyfileFound::Absent => if allow_mint {
                r == Ok::<Resolution, WrapError>(Resolution::Mint { m_kib, t })
            } else {
                r matches Err(e) && e@ == WrapErrorView::KeyfileMissing
            },
            KeyfileFound::Unreadable(mode) => if !file_is_private(mode) {
                r matches Err(e) && e@ == WrapErrorView::InsecureFile(mode)
            } else {
                r matches Err(e) && e@ == WrapErrorView::KeyfileUnreadable
            },
            KeyfileFound::Text(mode, s) => if !file_is_private(mode) {
                r matches Err(e) && e@ == WrapErrorView::InsecureFile(mode)
            } else if text::trimmed(s@).len() == 0 {
                r matches Err(e) && e@ == WrapErrorView::KeyfileEmpty
            } else {
                r matches Ok(Resolution::Ready(ClientWrap::Keyfile { path, secret, m_kib: m, t: n }))
                    && path@ == k.path@ && secret@ == text::trimmed(s@) && m == m_kib && n == t
            },
        }
    }
}

/// What the settings and the key file lead to.
pub open spec fn leads(s: WrapSettings, k: KeyfileState, allow_mint: bool, r: Result<
    Resolution,
    WrapError,
>) -> bool {
    let (m_kib, t) = (memory_of(s), passes_of(s));
    match (s.passphrase, s.passphrase_file) {
        (Some(_), Some(_)) => r matches Err(e) && e@ == WrapErrorView::BothSources,
        (Some(p), None) => r matches Ok(
            Resolution::Ready(ClientWrap::Passphrase { pass, m_kib: m, t: n }),
        ) && pass@ == p@ && m == m_kib && n == t,
        (None, Some(f)) => match f {
            FileText::Unreadable => r matches Err(e) && e@ == WrapErrorView::FileUnreadable,
            FileText::Text(raw) => if text::trimmed(drop_eol(raw@)).len() == 0 {
                r matches Err(e) && e@ == WrapErrorView::EmptyPassphrase
            } else {
                r matches Ok(Resolution::Ready(ClientWrap::Passphrase { pass, m_kib: m, t: n }))
                    && pass@ == drop_eol(raw@) && m == m_kib && n == t
            },
        },
        (None, None) => {
            let mode = keys::wrapmode::mode_name(opt(s.mode));
            if mode == "auto"@ {
                keyfile_leads(k, m_kib, t, allow_mint, r)
            } else if mode == "passphrase"@ {
                r matches Err(e) && e@ == WrapErrorView::PassphraseMissing
            } else if mode == "plaintext-pilot"@ {
                r == Ok::<Resolution, WrapError>(Resolution::Ready(ClientWrap::Plaintext))
            } else {
                r matches Err(e) && e@ == WrapErrorView::InvalidMode(mode)
            }
        },
    }
}

/// Refuses a state directory that is open to others. `None` where it is yet
/// to be made.
pub fn check_dir_mode(mode: Option<u32>) -> (r: Result<(), WrapError>)
    ensures
        match r {
            Ok(()) => mode matches Some(m) ==> dir_is_private(m),
            Err(e) => mode matches Some(m) && !dir_is_private(m) && e@
                == WrapErrorView::InsecureDir(m),
        },
{
    match mode {
        Some(m) => {
            if m & 0o777 != 0o700 {
                Err(WrapError::InsecureDir(m))
            } else {
                Ok(())
            }
        },
        None => Ok(()),
    }
}

/// Refuses a key file that is open to others.
pub fn check_file_mode(mode: u32) -> (r: Result<(), WrapError>)
    ensures
        match r {
            Ok(()) => file_is_private(mode),
            Err(e) => !file_is_private(mode) && e@ == WrapErrorView::InsecureFile(mode),
        },
{
    if mode & 0o777 != 0o600 {
        Err(WrapError::InsecureFile(mode))
    } else {
        Ok(())
    }
}

/// What a key file leads to. `allow_mint` is for wrapping only: on unwrapping,
/// a missing key file is an error, not a fresh key that could decrypt nothing.
pub fn keyfile(k: &KeyfileState, m_kib: u32, t: u32, allow_mint: bool) -> (r: Result<
    Resolution,
    WrapError,
>)
    ensures
        keyfile_leads(*k, m_kib, t, allow_mint, r),
{
    if let Err(e) = check_dir_mode(k.dir_mode) {
        return Err(e);
    }
    match &k.file {
        KeyfileFound::Absent => {
            if allow_mint {
                Ok(Resolution::Mint { m_kib, t })
            } else {
                Err(WrapError::KeyfileMissing)
            }
        },
        KeyfileFound::Unreadable(mode) => match check_file_mode(*mode) {
            Err(e) => Err(e),
            Ok(()) => Err(WrapError::KeyfileUnreadable),
        },
        KeyfileFound::Text(mode, s) => match check_file_mode(*mode) {
            Err(e) => Err(e),
            Ok(()) => {
                let cs = text::chars(s.as_str());
                let secret = text::trim(cs.as_slice());
                if secret.len() == 0 {
                    return Err(WrapError::KeyfileEmpty);
                }
                Ok(
                    Resolution::Ready(
                        ClientWrap::Keyfile {
                            path: k.path.clone(),
                            secret: text::string(secret.as_slice()),
                            m_kib,
                            t,
                        },
                    ),
                )
            },
        },
    }
}

/// Resolves the wrapping secret. The key file is looked at only where no
/// passphrase source is set and the mode is the default.
pub fn resolve_with(s: &WrapSettings, k: &KeyfileState, allow_mint: bool) -> (r: Result<
    Resolution,
    WrapError,
>)
    ensures
        leads(*s, *k, allow_mint, r),
{
    let m_kib: u32 = clamp_u32(&s.m_kib, 65536, 8, 1048576);
    let t: u32 = clamp_u32(&s.t, 3, 1, 16);
    match (&s.passphrase, &s.passphrase_file) {
        (Some(_), Some(_)) => Err(WrapError::BothSources),
        (Some(p), None) => Ok(
            Resolution::Ready(ClientWrap::Passphrase { pass: p.clone(), m_kib, t }),
        ),
        (None, Some(f)) => match f {
            FileText::Unreadable => Err(WrapError::FileUnreadable),
            FileText::Text(raw) => {
                let cs = text::chars(raw.as_str());
                let p = trim_eol(cs.as_slice());
                let body = text::trim(p.as_slice());
                if body.len() == 0 {
                    return Err(WrapError::EmptyPassphrase);
                }
                Ok(
                    Resolution::Ready(
                        ClientWrap::Passphrase { pass: text::string(p.as_slice()), m_kib, t },
                    ),
                )
            },
        },
        (None, None) => {
            let raw = match &s.mode {
                Some(m) => text::chars(m.as_str()),
                None => text::chars("auto"),
            };
            let tr = text::trim(raw.as_slice());
            let mode = text::to_ascii_lower(tr.as_slice());
            proof {
                reveal_strlit("auto");
                reveal_strlit("passphrase");
                reveal_strlit("plaintext-pilot");
            }
            if text::is_str(mode.as_slice(), "auto") {
                keyfile(k, m_kib, t, allow_mint)
            } else if text::is_str(mode.as_slice(), "passphrase") {
                Err(WrapError::PassphraseMissing)
            } else if text::is_str(mode.as_slice(), "plaintext-pilot") {
                Ok(Resolution::Ready(ClientWrap::Plaintext))
            } else {
                Err(WrapError::InvalidMode(text::string(mode.as_slice())))
            }
        },
    }
}

/// Makes the secret of a new key file: the hexadecimal form of 32 random
/// bytes. The caller writes it to the file.
pub fn mint(path: &str, m_kib: u32, t: u32) -> (r: Result<ClientWrap, WrapError>)
    ensures
        match r {
            Ok(ClientWrap::Keyfile { path: p, secret, m_kib: m, t: n }) => {
                &&& p@ == path@
                &&& m == m_kib
                &&& n == t
                &&& exists|b: Seq<u8>| b.len() == 32 && secret@ == #[trigger] crate::hex::hex(b)
            },
            Ok(_) => false,
            Err(e) => e@ == WrapErrorView::Key(KeyError::Random),
        },
{
    let drawn = crypto::random_bytes::<32>();
    proof {
        if let Some(b) = drawn {
            assert(b@.len() == 32 && crate::hex::hex(b@) == crate::hex::hex(b@));
        }
    }
    mint_drawn(path, drawn, m_kib, t)
}

/// The key file's source out of a draw: the bytes drawn, in hexadecimal, are
/// its secret; an error where the draw failed.
pub fn mint_drawn(path: &str, drawn: Option<[u8; 32]>, m_kib: u32, t: u32) -> (r: Result<
    ClientWrap,
    WrapError,
>)
    ensures
        match drawn {
            Some(b) => r matches Ok(ClientWrap::Keyfile { path: p, secret, m_kib: m, t: n }) && {
                &&& p@ == path@
                &&& secret@ == crate::hex::hex(b@)
                &&& m == m_kib
                &&& n == t
            },
            None => r matches Err(e) && e == WrapError::Key(KeyError::Random),
        },
{
    match drawn {
        None => Err(WrapError::Key(KeyError::Random)),
        Some(b) => {
            let h = crate::hex::to_hex(b.as_slice());
            Ok(
                ClientWrap::Keyfile {
                    path: path.to_owned(),
                    secret: text::string(h.as_slice()),
                    m_kib,
                    t,
                },
            )
        },
    }
}

/// The secret and parameters of a source, where it has any.
pub open spec fn secret_of(w: ClientWrap) -> Option<(Seq<u8>, u32, u32)> {
    match w {
        ClientWrap::Keyfile { secret, m_kib, t, .. } => Some(
            (vstd::utf8::encode_utf8(secret@), m_kib, t),
        ),
        ClientWrap::Passphrase { pass, m_kib, t } => Some(
            (vstd::utf8::encode_utf8(pass@), m_kib, t),
        ),
        ClientWrap::Plaintext => None,
    }
}

/// What an encrypted blob holds under a secret.
pub open spec fn opened(blob: Seq<u8>, secret: Seq<u8>, m_kib: u32, t: u32) -> Result<
    Seq<u8>,
    KeyError,
> {
    match azdp2::parsed(blob) {
        Err(e) => Err(e),
        Ok((salt, _, _)) => if !crypto::argon2id_accepts(secret, salt, m_kib, t) {
            Err(KeyError::Kdf)
        } else {
            azdp2::unwrapped(blob, crypto::argon2id_of(secret, salt, m_kib, t))
        },
    }
}

/// What an encrypted blob is for a secret, a salt and a nonce, or why there is
/// none.
pub open spec fn sealed_blob(
    secret: Seq<u8>,
    m_kib: u32,
    t: u32,
    plain: Seq<u8>,
    salt: Option<[u8; 16]>,
    nonce: Option<[u8; 24]>,
) -> Result<Seq<u8>, KeyError> {
    match salt {
        None => Err(KeyError::Random),
        Some(s) => if !crypto::argon2id_accepts(secret, s@, m_kib, t) {
            Err(KeyError::Kdf)
        } else {
            match nonce {
                None => Err(KeyError::Random),
                Some(n) => if !crypto::xchacha_fits(plain) {
                    Err(KeyError::Encrypt)
                } else {
                    let key = crypto::argon2id_of(secret, s@, m_kib, t);
                    Ok(azdp2::blob(s@, n@, crypto::xchacha_sealed(key, n@, plain)))
                },
            }
        },
    }
}

fn azdp2_wrap(
    secret: &[u8],
    plain: &[u8],
    m_kib: u32,
    t: u32,
    salt: Option<[u8; 16]>,
    nonce: Option<[u8; 24]>,
) -> (r: Result<Vec<u8>, KeyError>)
    ensures
        match r {
            Ok(b) => {
                &&& sealed_blob(secret@, m_kib, t, plain@, salt, nonce) == Ok::<Seq<u8>, KeyError>(
                    b@,
                )
                &&& crate::bytes::has_prefix(b@, azdp2::magic())
                &&& opened(b@, secret@, m_kib, t) == Ok::<Seq<u8>, KeyError>(plain@)
            },
            Err(e) => sealed_blob(secret@, m_kib, t, plain@, salt, nonce) == Err::<
                Seq<u8>,
                KeyError,
            >(e),
        },
{
    let salt: [u8; 16] = match salt {
        None => return Err(KeyError::Random),
        Some(s) => s,
    };
    assert(salt@.len() == 16);
    let key = match azdp2::derive_key(secret, salt.as_slice(), m_kib, t) {
        Err(e) => return Err(e),
        Ok(key) => key,
    };
    let nonce: [u8; 24] = match nonce {
        None => return Err(KeyError::Random),
        Some(n) => n,
    };
    let r = azdp2::wrap_with_nonce(plain, &key, &salt, &nonce);
    proof {
        if r is Ok {
            let b = r->Ok_0;
            assert(b@.subrange(0, 5) =~= azdp2::magic());
            assert(azdp2::parsed(b@) is Ok);
            assert(b@.subrange(5, 21) =~= salt@);
        }
    }
    r
}

/// Why wrapping fails: no key can be derived with the source's parameters, the
/// message is over the cipher's reach, or there is no randomness.
pub open spec fn wrap_fails(w: ClientWrap, plain: Seq<u8>, e: WrapError) -> bool {
    match (secret_of(w), e) {
        (Some((secret, m_kib, t)), WrapError::Key(k)) => match k {
            KeyError::Kdf => m_kib < 8 || t < 1 || secret.len() > 0xffff_ffff,
            KeyError::Encrypt => !crypto::xchacha_fits(plain),
            _ => k == KeyError::Random,
        },
        _ => false,
    }
}

/// Wraps `plain` under a source: encrypted, or as it is where plaintext was
/// asked for. What was encrypted opens again under the same source.
pub fn wrap(w: &ClientWrap, plain: &[u8]) -> (r: Result<Vec<u8>, WrapError>)
    ensures
        match secret_of(*w) {
            None => r matches Ok(b) && b@ == plain@,
            Some((secret, m_kib, t)) => match r {
                Ok(b) => {
                    &&& crate::bytes::has_prefix(b@, azdp2::magic())
                    &&& opened(b@, secret, m_kib, t) == Ok::<Seq<u8>, KeyError>(plain@)
                    &&& held(b@, Ok(*w)) == Ok::<Seq<u8>, WrapErrorView>(plain@)
                },
                Err(e) => wrap_fails(*w, plain@, e),
            },
        },
{
    match w {
        ClientWrap::Plaintext => wrap_drawn(w, plain, None, None),
        _ => {
            let salt = crypto::random_bytes::<16>();
            let nonce = crypto::random_bytes::<24>();
            wrap_drawn(w, plain, salt, nonce)
        },
    }
}

/// What wrapping gives for a source and draws, or why it fails.
pub open spec fn wrapped_as(
    w: ClientWrap,
    plain: Seq<u8>,
    salt: Option<[u8; 16]>,
    nonce: Option<[u8; 24]>,
) -> Result<Seq<u8>, KeyError> {
    match secret_of(w) {
        None => Ok(plain),
        Some((secret, m_kib, t)) => sealed_blob(secret, m_kib, t, plain, salt, nonce),
    }
}

/// Wraps `plain` under a source with the salt and the nonce that were drawn;
/// an error where a draw failed that is needed.
pub fn wrap_drawn(
    w: &ClientWrap,
    plain: &[u8],
    salt: Option<[u8; 16]>,
    nonce: Option<[u8; 24]>,
) -> (r: Result<Vec<u8>, WrapError>)
    ensures
        match wrapped_as(*w, plain@, salt, nonce) {
            Ok(blob) => r matches Ok(b) && b@ == blob && (secret_of(*w) matches Some(
                (secret, m_kib, t),
            ) ==> crate::bytes::has_prefix(b@, azdp2::magic()) && opened(b@, secret, m_kib, t)
                == Ok::<Seq<u8>, KeyError>(plain@) && held(b@, Ok(*w)) == Ok::<
                Seq<u8>,
                WrapErrorView,
            >(plain@)),
            Err(k) => r matches Err(e) && e == WrapError::Key(k),
        },
{
    let r = match w {
        ClientWrap::Plaintext => {
            let p = copy_range(plain, 0, plain.len());
            assert(p@ =~= plain@);
            return Ok(p);
        },
        ClientWrap::Keyfile { secret, m_kib, t, .. } => azdp2_wrap(
            secret.as_str().as_bytes(),
            plain,
            *m_kib,
            *t,
            salt,
            nonce,
        ),
        ClientWrap::Passphrase { pass, m_kib, t } => azdp2_wrap(
            pass.as_str().as_bytes(),
            plain,
            *m_kib,
            *t,
            salt,
            nonce,
        ),
    };
    match r {
        Ok(b) => Ok(b),
        Err(e) => Err(WrapError::Key(e)),
    }
}

/// What a blob in one of the two formats holds. The source matters for the
/// encrypted format only.
pub open spec fn unwrapped_as(blob: Seq<u8>, source: Result<ClientWrap, WrapError>) -> Result<
    Seq<u8>,
    WrapErrorView,
> {
    if crate::bytes::has_prefix(blob, azdp2::magic()) {
        match source {
            Err(e) => Err(e@),
            Ok(w) => match secret_of(w) {
                None => Err(WrapErrorView::Contradiction),
                Some((secret, m_kib, t)) => match opened(blob, secret, m_kib, t) {
                    Ok(p) => Ok(p),
                    Err(e) => Err(WrapErrorView::Key(e)),
                },
            },
        }
    } else if crate::bytes::has_prefix(blob, keys::magic1()) {
        Ok(blob.subrange(5, blob.len() as int))
    } else {
        Err(WrapErrorView::NotWrapped)
    }
}

fn unwrap_under(blob: &[u8], secret: &[u8], m_kib: u32, t: u32) -> (r: Result<Vec<u8>, KeyError>)
    ensures
        match r {
            Ok(p) => opened(blob@, secret@, m_kib, t) == Ok::<Seq<u8>, KeyError>(p@),
            Err(e) => opened(blob@, secret@, m_kib, t) == Err::<Seq<u8>, KeyError>(e),
        },
{
    match azdp2::parse(blob) {
        Err(e) => Err(e),
        Ok((salt, _, _)) => match azdp2::derive_key(secret, salt, m_kib, t) {
            Err(e) => Err(e),
            Ok(key) => azdp2::unwrap(blob, &key),
        },
    }
}

fn unwrap_wrapped(blob: &[u8], source: Result<ClientWrap, WrapError>) -> (r: Result<
    Vec<u8>,
    WrapError,
>)
    ensures
        match r {
            Ok(p) => unwrapped_as(blob@, source) == Ok::<Seq<u8>, WrapErrorView>(p@),
            Err(e) => unwrapped_as(blob@, source) == Err::<Seq<u8>, WrapErrorView>(e@),
        },
{
    if azdp2::is_azdp2(blob) {
        let w = match source {
            Err(e) => return Err(e),
            Ok(w) => w,
        };
        let r = match &w {
            ClientWrap::Plaintext => return Err(WrapError::Contradiction),
            ClientWrap::Keyfile { secret, m_kib, t, .. } => unwrap_under(
                blob,
                secret.as_str().as_bytes(),
                *m_kib,
                *t,
            ),
            ClientWrap::Passphrase { pass, m_kib, t } => unwrap_under(
                blob,
                pass.as_str().as_bytes(),
                *m_kib,
                *t,
            ),
        };
        return match r {
            Ok(p) => Ok(p),
            Err(e) => Err(WrapError::Key(e)),
        };
    }
    match unprotect(blob) {
        Ok(p) => {
            proof {
                assert(blob@.subrange(0, 5) =~= keys::magic1());
                assert(p@ =~= blob@.subrange(5, blob@.len() as int));
            }
            Ok(p)
        },
        Err(_) => Err(WrapError::NotWrapped),
    }
}

/// What a blob holds: bytes in neither format are plain key material.
pub open spec fn held(blob: Seq<u8>, source: Result<ClientWrap, WrapError>) -> Result<
    Seq<u8>,
    WrapErrorView,
> {
    if !crate::bytes::has_prefix(blob, azdp2::magic()) && !crate::bytes::has_prefix(
        blob,
        keys::magic1(),
    ) {
        Ok(blob)
    } else {
        unwrapped_as(blob, source)
    }
}

/// Unwraps a blob. Bytes in neither format are plain key material of an older
/// state and are taken as they are.
pub fn unwrap(blob: &[u8], source: Result<ClientWrap, WrapError>) -> (r: Result<
    Vec<u8>,
    WrapError,
>)
    ensures
        match r {
            Ok(p) => held(blob@, source) == Ok::<Seq<u8>, WrapErrorView>(p@),
            Err(e) => held(blob@, source) == Err::<Seq<u8>, WrapErrorView>(e@),
        },
{
    if !azdp2::is_azdp2(blob) && !is_wrapped(blob) {
        let p = copy_range(blob, 0, blob.len());
        assert(p@ =~= blob@);
        return Ok(p);
    }
    unwrap_wrapped(blob, source)
}

/// Unwraps a token's blob: a token is never plain at rest, so bytes in neither
/// format are refused.
pub fn unwrap_strict(blob: &[u8], source: Result<ClientWrap, WrapError>) -> (r: Result<
    Vec<u8>,
    WrapError,
>)
    ensures
        match r {
            Ok(p) => unwrapped_as(blob@, source) == Ok::<Seq<u8>, WrapErrorView>(p@),
            Err(e) => unwrapped_as(blob@, source) == Err::<Seq<u8>, WrapErrorView>(e@),
        },
{
    unwrap_wrapped(blob, source)
}

/// Law: the source is asked for only where a blob is encrypted; what is in
/// the first format, or plain, reads the same under every source.
pub proof fn law_source_matters_for_encrypted_only(
    blob: Seq<u8>,
    a: Result<ClientWrap, WrapError>,
    b: Result<ClientWrap, WrapError>,
)
    requires
        !crate::bytes::has_prefix(blob, azdp2::magic()),
    ensures
        unwrapped_as(blob, a) == unwrapped_as(blob, b),
{
}

/// Law: a key file that was minted, once it is written to a file of its own
/// user's alone, leads to the same source at every later look, whether minting
/// is allowed or not. Its secret is 64 hexadecimal digits.
pub proof fn law_minted_keyfile_reads_back(
    k: KeyfileState,
    drawn: Seq<u8>,
    mode: u32,
    written: String,
    m_kib: u32,
    t: u32,
    allow_mint: bool,
    r: Result<Resolution, WrapError>,
)
    requires
        drawn.len() == 32,
        written@ == crate::hex::hex(drawn),
        k.file == KeyfileFound::Text(mode, written),
        file_is_private(mode),
        k.dir_mode matches Some(m) ==> dir_is_private(m),
        keyfile_leads(k, m_kib, t, allow_mint, r),
    ensures
        r matches Ok(Resolution::Ready(ClientWrap::Keyfile { path, secret, m_kib: m, t: n }))
            && path@ == k.path@ && secret@ == crate::hex::hex(drawn) && m == m_kib && n == t,
        crate::hex::hex(drawn).len() == 64,
        forall|i: int|
            0 <= i < 64 ==> '0' <= #[trigger] crate::hex::hex(drawn)[i] <= '9' || 'a'
                <= crate::hex::hex(drawn)[i] <= 'f',
{
    crate::hex::lemma_hex_text(drawn);
}

/// Law: a missing key file in a directory of its own user's alone is minted
/// where that is allowed, and is an error of its own name where it is not.
pub proof fn law_missing_keyfile(
    k: KeyfileState,
    m_kib: u32,
    t: u32,
    allow_mint: bool,
    r: Result<Resolution, WrapError>,
)
    requires
        k.file == KeyfileFound::Absent,
        k.dir_mode matches Some(m) ==> dir_is_private(m),
        keyfile_leads(k, m_kib, t, allow_mint, r),
    ensures
        allow_mint ==> r == Ok::<Resolution, WrapError>(Resolution::Mint { m_kib, t }),
        !allow_mint ==> (r matches Err(e) && e@ == WrapErrorView::KeyfileMissing),
{
}

/// Law: without a passphrase source and in the default mode, a missing key
/// file never leads to a secret on the unwrapping side.
pub proof fn law_no_mint_on_unwrap(s: WrapSettings, k: KeyfileState, r: Result<
    Resolution,
    WrapError,
>)
    requires
        leads(s, k, false, r),
    ensures
        !(r matches Ok(Resolution::Mint { .. })),
{
}

/// Law: octal digits count by their places, and there is no leading zero.
pub proof fn law_octal(n: nat, d: nat)
    requires
        d < 8,
    ensures
        n > 0 ==> octal(8 * n + d) == octal(n).push(text::digit(d)),
        octal(d) == seq![text::digit(d)],
{
    if n > 0 {
        assert((8 * n + d) / 8 == n && (8 * n + d) % 8 == d);
    }
}

/// Law: a blank setting counts as none, and any other stays as it is.
pub proof fn law_blank_is_unset(s: Seq<char>)
    ensures
        set_value(None) is None,
        set_value(Some(s)) is None || set_value(Some(s)) == Some(s),
        set_value(Some(s)) is None <==> forall|i: int|
            0 <= i < s.len() ==> text::is_space(#[trigger] s[i]),
{
    text::law_trimmed(s);
    let (i, j) = choose|i: int, j: int| #[trigger] text::is_core(s, text::trimmed(s), i, j);
    if text::trimmed(s).len() > 0 {
        assert(s[i] == text::trimmed(s)[0]);
    }
}

/// Law: a number setting is taken as it is within its bounds, moved to the
/// nearest bound outside of them, and replaced by the default where it is no
/// number.
pub proof fn law_clamped(n: nat, s: Seq<char>, default: u32, floor: u32, max: u32)
    requires
        n <= u32::MAX,
        floor <= max,
        text::number(text::trimmed(s), u32::MAX as nat) is None,
    ensures
        ({
            let c = clamped(Some(text::decimal(n)), default, floor, max);
            &&& floor <= n <= max ==> c == n
            &&& n < floor ==> c == floor
            &&& n > max ==> c == max
        }),
        clamped(Some(s), default, floor, max) == default,
        clamped(None, default, floor, max) == default,
{
    let d = text::decimal(n);
    text::lemma_decimal_value(n);
    text::lemma_decimal_number(n, u32::MAX as nat);
    assert(text::is_digit(d[0]) && text::is_digit(d.last())) by {
        assert(text::is_digit(d[d.len() - 1]));
    }
    assert(!text::is_space(d[0]) && !text::is_space(d.last()));
    assert(text::trimmed(d) == d);
}

/// Law: the strength of the key derivation: 64 MiB and three passes by default,
/// and never under 8 KiB or one pass, nor over 1 GiB or sixteen.
pub proof fn law_derivation_strength(s: WrapSettings)
    ensures
        s.m_kib is None ==> memory_of(s) == 65536,
        s.t is None ==> passes_of(s) == 3,
        8 <= memory_of(s) <= 1048576,
        1 <= passes_of(s) <= 16,
{
}

/// Law: only line ends go from the end of a file's text, and all of them.
pub proof fn law_drop_eol(s: Seq<char>)
    ensures
        drop_eol(s).len() <= s.len(),
        drop_eol(s) == s.subrange(0, drop_eol(s).len() as int),
        forall|k: int|
            drop_eol(s).len() <= k < s.len() ==> #[trigger] s[k] == '\r' || s[k] == '\n',
        drop_eol(s).len() > 0 ==> drop_eol(s).last() != '\r' && drop_eol(s).last() != '\n',
    decreases s.len(),
{
    if s.len() > 0 && (s.last() == '\r' || s.last() == '\n') {
        let t = s.drop_last();
        law_drop_eol(t);
        assert forall|k: int| drop_eol(s).len() <= k < s.len() implies #[trigger] s[k] == '\r'
            || s[k] == '\n' by {
            if k < t.len() {
                assert(s[k] == t[k]);
            }
        }
        assert(drop_eol(s) =~= s.subrange(0, drop_eol(s).len() as int));
    } else {
        assert(s.subrange(0, s.len() as int) =~= s);
    }
}

/// Law: private means the owner's alone: of the nine permission bits a
/// directory has the owner's three, and a file the owner's two for reading and
/// writing.
pub proof fn law_private_modes(mode: u32)
    ensures
        dir_is_private(mode) <==> mode % 512 == 7 * 64,
        file_is_private(mode) <==> mode % 512 == 6 * 64,
{
    assert(mode & 0o777 == mode % 512) by (bit_vector);
}

/// Law: material is left plain only where that was asked for by name and no
/// passphrase is set.
pub proof fn law_plain_only_by_name(s: WrapSettings, k: KeyfileState, allow_mint: bool, r: Result<
    Resolution,
    WrapError,
>)
    requires
        leads(s, k, allow_mint, r),
        r == Ok::<Resolution, WrapError>(Resolution::Ready(ClientWrap::Plaintext)),
    ensures
        s.passphrase is None,
        s.passphrase_file is None,
        keys::wrapmode::mode_name(opt(s.mode)) == "plaintext-pilot"@,
{
}

/// Law: a passphrase that is set is the one used, with the strength that is
/// set; from a file it is the file's text without line ends at its end. Two
/// sources at once are refused, and so is a file that cannot be read or is
/// blank.
pub proof fn law_passphrase_is_used(s: WrapSettings, k: KeyfileState, allow_mint: bool, r: Result<
    Resolution,
    WrapError,
>)
    requires
        leads(s, k, allow_mint, r),
    ensures
        s.passphrase matches Some(p) ==> (s.passphrase_file is None ==> (r matches Ok(
            Resolution::Ready(w),
        ) && secret_of(w) == Some(
            (vstd::utf8::encode_utf8(p@), memory_of(s), passes_of(s)),
        ))),
        s.passphrase is Some && s.passphrase_file is Some ==> (r matches Err(e) && e@
            == WrapErrorView::BothSources),
        s.passphrase is None && s.passphrase_file == Some(FileText::Unreadable) ==> (r matches Err(
            e,
        ) && e@ == WrapErrorView::FileUnreadable),
        s.passphrase is None ==> (s.passphrase_file matches Some(FileText::Text(raw)) ==> {
            &&& text::trimmed(drop_eol(raw@)).len() == 0 ==> (r matches Err(e) && e@
                == WrapErrorView::EmptyPassphrase)
            &&& text::trimmed(drop_eol(raw@)).len() > 0 ==> (r matches Ok(Resolution::Ready(w))
                && secret_of(w) == Some(
                (vstd::utf8::encode_utf8(drop_eol(raw@)), memory_of(s), passes_of(s)),
            ))
        }),
{
}

/// Law: without a passphrase the mode decides: the key file by default, an
/// error where a passphrase is demanded, and an error that names every mode
/// that is none.
pub proof fn law_mode_decides(s: WrapSettings, k: KeyfileState, allow_mint: bool, r: Result<
    Resolution,
    WrapError,
>)
    requires
        leads(s, k, allow_mint, r),
        s.passphrase is None,
        s.passphrase_file is None,
    ensures
        ({
            let mode = keys::wrapmode::mode_name(opt(s.mode));
            &&& mode == "auto"@ ==> keyfile_leads(k, memory_of(s), passes_of(s), allow_mint, r)
            &&& mode == "passphrase"@ ==> (r matches Err(e) && e@
                == WrapErrorView::PassphraseMissing)
            &&& mode != "auto"@ && mode != "passphrase"@ && mode != "plaintext-pilot"@ ==> (
            r matches Err(e) && e@ == WrapErrorView::InvalidMode(mode))
            &&& mode == "plaintext-pilot"@ ==> r == Ok::<Resolution, WrapError>(
                Resolution::Ready(ClientWrap::Plaintext),
            )
        }),
{
    reveal_strlit("auto");
    reveal_strlit("passphrase");
    reveal_strlit("plaintext-pilot");
    assert("auto"@.len() == 4);
    assert("passphrase"@.len() == 10);
    assert("plaintext-pilot"@.len() == 15);
}

/// Law: a key file is used only from a private directory and as a private
/// file, and its secret is its text without white space around it; a blank one
/// is refused.
pub proof fn law_keyfile_must_be_private(
    k: KeyfileState,
    m_kib: u32,
    t: u32,
    allow_mint: bool,
    r: Result<Resolution, WrapError>,
)
    requires
        keyfile_leads(k, m_kib, t, allow_mint, r),
    ensures
        k.dir_mode matches Some(m) ==> (m % 512 != 7 * 64 ==> (r matches Err(e) && e@
            == WrapErrorView::InsecureDir(m))),
        r is Ok ==> (k.dir_mode matches Some(m) ==> m % 512 == 7 * 64),
        r is Ok ==> (k.file matches KeyfileFound::Text(m, _) ==> m % 512 == 6 * 64),
        r matches Ok(Resolution::Ready(w)) ==> (k.file matches KeyfileFound::Text(_, s)
            && text::trimmed(s@).len() > 0 && secret_of(w) == Some(
            (vstd::utf8::encode_utf8(text::trimmed(s@)), m_kib, t),
        )),
        (k.dir_mode matches Some(m) ==> m % 512 == 7 * 64) ==> {
            &&& k.file matches KeyfileFound::Text(m, s) ==> (m % 512 == 6 * 64 && text::trimmed(
                s@,
            ).len() > 0 ==> r is Ok)
            &&& k.file matches KeyfileFound::Text(m, s) ==> (m % 512 == 6 * 64 && text::trimmed(
                s@,
            ).len() == 0 ==> (r matches Err(e) && e@ == WrapErrorView::KeyfileEmpty))
            &&& k.file matches KeyfileFound::Text(m, s) ==> (m % 512 != 6 * 64 ==> (r matches Err(
                e,
            ) && e@ == WrapErrorView::InsecureFile(m)))
        },
{
    if let Some(m) = k.dir_mode {
        law_private_modes(m);
    }
    if let KeyfileFound::Text(m, _) = k.file {
        law_private_modes(m);
    }
    if let KeyfileFound::Unreadable(m) = k.file {
        law_private_modes(m);
    }
}

/// Law: what was sealed under a secret is opened under it: with the salt and
/// the nonce that were drawn, as long as the cipher opens what it sealed.
pub proof fn law_sealed_blob_opens(
    secret: Seq<u8>,
    m_kib: u32,
    t: u32,
    plain: Seq<u8>,
    salt: [u8; 16],
    nonce: [u8; 24],
    b: Seq<u8>,
)
    requires
        sealed_blob(secret, m_kib, t, plain, Some(salt), Some(nonce)) == Ok::<Seq<u8>, KeyError>(b),
        ({
            let key = crypto::argon2id_of(secret, salt@, m_kib, t);
            let sealed = crypto::xchacha_sealed(key, nonce@, plain);
            &&& crypto::xchacha_opened(key, nonce@, sealed) == Some(plain)
            &&& sealed.len() == plain.len() + 16
        }),
    ensures
        crate::bytes::has_prefix(b, azdp2::magic()),
        opened(b, secret, m_kib, t) == Ok::<Seq<u8>, KeyError>(plain),
{
    let key = crypto::argon2id_of(secret, salt@, m_kib, t);
    let sealed = crypto::xchacha_sealed(key, nonce@, plain);
    azdp2::law_parse_blob(salt@, nonce@, sealed);
    assert(b.subrange(0, 5) =~= azdp2::magic());
}

/// Law: without randomness, with parameters that are refused or with a message
/// over the cipher's reach nothing is sealed, each with its own error.
pub proof fn law_sealing_fails_closed(
    secret: Seq<u8>,
    m_kib: u32,
    t: u32,
    plain: Seq<u8>,
    salt: Option<[u8; 16]>,
    nonce: Option<[u8; 24]>,
)
    ensures
        salt is None ==> sealed_blob(secret, m_kib, t, plain, salt, nonce) == Err::<
            Seq<u8>,
            KeyError,
        >(KeyError::Random),
        nonce is None ==> sealed_blob(secret, m_kib, t, plain, salt, nonce) is Err,
        m_kib < 8 || t < 1 ==> sealed_blob(secret, m_kib, t, plain, salt, nonce) is Err,
        !crypto::xchacha_fits(plain) ==> sealed_blob(secret, m_kib, t, plain, salt, nonce) is Err,
{
}

/// Law: a source with a secret encrypts and never hands back what it was
/// given; one without leaves it as it is and cannot fail.
pub proof fn law_wrapping_encrypts(
    w: ClientWrap,
    plain: Seq<u8>,
    salt: Option<[u8; 16]>,
    nonce: Option<[u8; 24]>,
    e: WrapError,
)
    ensures
        w == ClientWrap::Plaintext ==> wrapped_as(w, plain, salt, nonce) == Ok::<
            Seq<u8>,
            KeyError,
        >(plain),
        w == ClientWrap::Plaintext ==> !wrap_fails(w, plain, e),
        secret_of(w) is Some <==> w != ClientWrap::Plaintext,
        secret_of(w) is Some ==> (wrapped_as(w, plain, salt, nonce) matches Ok(b) ==>
            crate::bytes::has_prefix(b, azdp2::magic())),
{
    if let Ok(b) = wrapped_as(w, plain, salt, nonce) {
        if secret_of(w) is Some {
            assert(b.subrange(0, 5) =~= azdp2::magic());
        }
    }
}

/// Law: what a blob holds. In the first format what follows the mark; in the
/// encrypted one what its secret opens, a source that failed and one without a
/// secret being errors; bytes in neither format hold nothing where only a
/// wrapped blob will do, and themselves where plain material may be kept.
pub proof fn law_what_a_blob_holds(
    rest: Seq<u8>,
    blob: Seq<u8>,
    source: Result<ClientWrap, WrapError>,
)
    ensures
        unwrapped_as(keys::magic1() + rest, source) == Ok::<Seq<u8>, WrapErrorView>(rest),
        held(keys::magic1() + rest, source) == Ok::<Seq<u8>, WrapErrorView>(rest),
        source matches Err(e) ==> unwrapped_as(azdp2::magic() + rest, source) == Err::<
            Seq<u8>,
            WrapErrorView,
        >(e@),
        source matches Ok(w) ==> (w == ClientWrap::Plaintext ==> unwrapped_as(
            azdp2::magic() + rest,
            source,
        ) == Err::<Seq<u8>, WrapErrorView>(WrapErrorView::Contradiction)),
        !crate::bytes::has_prefix(blob, azdp2::magic()) && !crate::bytes::has_prefix(
            blob,
            keys::magic1(),
        ) ==> unwrapped_as(blob, source) == Err::<Seq<u8>, WrapErrorView>(WrapErrorView::NotWrapped)
            && held(blob, source) == Ok::<Seq<u8>, WrapErrorView>(blob),
{
    let a = keys::magic1() + rest;
    assert(a.subrange(0, 5) =~= keys::magic1());
    assert(a.subrange(5, a.len() as int) =~= rest);
    azdp2::law_formats_disjoint(a);
    let b = azdp2::magic() + rest;
    assert(b.subrange(0, 5) =~= azdp2::magic());
}

/// Whether the mode in use has to be logged: it differs from the last one
/// logged.
pub fn log_mode_once(last: Option<&str>, mode: &str) -> (r: bool)
    ensures
        r == !(last matches Some(l) && l@ == mode@),
{
    match last {
        Some(l) => !text::str_eq(l, mode),
        None => true,
    }
}

} // verus!
