//! The client's persistent state, and the form of it that is written to disk.

use vstd::prelude::*;

use crate::atrest;
use crate::atrest::{ClientWrap, WrapError, WrapErrorView};
use crate::common::ports;
use crate::common::urls;
use crate::posture_collector::copy_opt;
use crate::text;
use crate::tokenstore;

verus! {

/// What a client knows between runs.
#[derive(Debug)]
pub struct ClientState {
    pub controller_url: String,
    /// Bootstrap listener for enrollment and the CA.
    pub controller_enroll_url: Option<String>,
    pub device_id: Option<String>,
    pub cert_pem: Option<String>,
    /// The token in memory. On disk only ever absent, or left by a version
    /// that did not wrap it.
    pub access_token: Option<String>,
    /// The token at rest.
    pub access_token_wrapped: Option<String>,
    pub posture_pubkey: Option<String>,
    /// Tenant CA bundle, fetched once.
    pub ca_pem: Option<String>,
    /// Assurance tier of the identity key.
    pub key_origin: Option<String>,
    /// Management address for policy-version polling.
    pub mgmt_url: Option<String>,
}

/// Model of a [`ClientState`].
#[verifier::ext_equal]
pub struct StateView {
    pub controller_url: Seq<char>,
    pub controller_enroll_url: Option<Seq<char>>,
    pub device_id: Option<Seq<char>>,
    pub cert_pem: Option<Seq<char>>,
    pub access_token: Option<Seq<char>>,
    pub access_token_wrapped: Option<Seq<char>>,
    pub posture_pubkey: Option<Seq<char>>,
    pub ca_pem: Option<Seq<char>>,
    pub key_origin: Option<Seq<char>>,
    pub mgmt_url: Option<Seq<char>>,
}

impl View for ClientState {
    type V = StateView;

    open spec fn view(&self) -> StateView {
        StateView {
            controller_url: self.controller_url@,
            controller_enroll_url: atrest::opt(self.controller_enroll_url),
            device_id: atrest::opt(self.device_id),
            cert_pem: atrest::opt(self.cert_pem),
            access_token: atrest::opt(self.access_token),
            access_token_wrapped: atrest::opt(self.access_token_wrapped),
            posture_pubkey: atrest::opt(self.posture_pubkey),
            ca_pem: atrest::opt(self.ca_pem),
            key_origin: atrest::opt(self.key_origin),
            mgmt_url: atrest::opt(self.mgmt_url),
        }
    }
}

impl Default for ClientState {
    fn default() -> (r: ClientState)
        ensures
            r@ == (StateView {
                controller_url: Seq::empty(),
                controller_enroll_url: None,
                device_id: None,
                cert_pem: None,
                access_token: None,
                access_token_wrapped: None,
                posture_pubkey: None,
                ca_pem: None,
                key_origin: None,
                mgmt_url: None,
            }),
    {
        let no_chars: Vec<char> = Vec::new();
        ClientState {
            controller_url: text::string(no_chars.as_slice()),
            controller_enroll_url: None,
            device_id: None,
            cert_pem: None,
            access_token: None,
            access_token_wrapped: None,
            posture_pubkey: None,
            ca_pem: None,
            key_origin: None,
            mgmt_url: None,
        }
    }
}

// ---------------------------------------------------------------------
// Disk form
// ---------------------------------------------------------------------

/// What is worth noting about a load.
#[derive(Debug)]
pub enum LoadNote {
    Nothing,
    /// A token from before wrapping was read; the next save wraps it.
    TokenMigrated,
    /// The wrapped token could not be read: treated as logged out.
    TokenUnwrapFailed(WrapError),
}

/// The state in memory for what is on disk. A wrapped token is unwrapped; one
/// that cannot be is no token at all.
pub open spec fn loaded(d: StateView, source: Result<ClientWrap, WrapError>) -> StateView {
    match (d.access_token, d.access_token_wrapped) {
        (None, Some(w)) => match tokenstore::token_of(w, source) {
            Ok(t) => StateView { access_token: Some(t), ..d },
            Err(_) => StateView { access_token_wrapped: None, ..d },
        },
        _ => d,
    }
}

/// Takes a state as read from disk into memory, with what opening its stored
/// token gave (which counts only where the token is stored wrapped).
pub fn load_state_opened(on_disk: ClientState, opened: Result<String, WrapError>) -> (r: (
    ClientState,
    LoadNote,
))
    ensures
        match (on_disk.access_token, on_disk.access_token_wrapped) {
            (Some(_), _) => r == (on_disk, LoadNote::TokenMigrated),
            (None, None) => r == (on_disk, LoadNote::Nothing),
            (None, Some(_)) => match opened {
                Ok(t) => r.1 is Nothing && r.0@ == (StateView {
                    access_token: Some(t@),
                    ..on_disk@
                }),
                Err(e) => r.1 == LoadNote::TokenUnwrapFailed(e) && r.0@ == (StateView {
                    access_token_wrapped: None,
                    ..on_disk@
                }),
            },
        },
{
    let mut st = on_disk;
    if st.access_token.is_some() {
        return (st, LoadNote::TokenMigrated);
    }
    if st.access_token_wrapped.is_none() {
        return (st, LoadNote::Nothing);
    }
    match opened {
        Ok(t) => {
            st.access_token = Some(t);
            (st, LoadNote::Nothing)
        },
        Err(e) => {
            st.access_token_wrapped = None;
            (st, LoadNote::TokenUnwrapFailed(e))
        },
    }
}

/// Takes a state as read from disk into memory.
pub fn load_state(on_disk: ClientState, source: Result<ClientWrap, WrapError>) -> (r: (
    ClientState,
    LoadNote,
))
    ensures
        r.0@ == loaded(on_disk@, source),
        match r.1 {
            LoadNote::Nothing => on_disk.access_token is None && (on_disk.access_token_wrapped
                matches Some(w) ==> tokenstore::token_of(w@, source) is Ok),
            LoadNote::TokenMigrated => on_disk.access_token is Some,
            LoadNote::TokenUnwrapFailed(e) => on_disk.access_token is None
                && (on_disk.access_token_wrapped matches Some(w) && tokenstore::token_of(w@, source)
                == Err::<Seq<char>, WrapErrorView>(e@)),
        },
{
    let wrapped = copy_opt(&on_disk.access_token_wrapped);
    match (&on_disk.access_token, wrapped) {
        (None, Some(w)) => {
            let opened = tokenstore::unwrap_token(w.as_str(), source);
            load_state_opened(on_disk, opened)
        },
        _ => load_state_opened(on_disk, Err(WrapError::NotWrapped)),
    }
}

/// Whether `d` is written for a state: the token only in its wrapped form,
/// which gives it back under the source where the source has a secret.
pub open spec fn saved_as(st: StateView, w: ClientWrap, d: StateView) -> bool {
    &&& d == (StateView {
        access_token: None,
        access_token_wrapped: d.access_token_wrapped,
        ..st
    })
    &&& match (st.access_token, d.access_token_wrapped) {
        (None, None) => true,
        (Some(t), Some(s)) => match atrest::secret_of(w) {
            Some(_) => tokenstore::token_of(s, Ok(w)) == Ok::<Seq<char>, WrapErrorView>(t),
            None => s == crate::crypto::b64(vstd::utf8::encode_utf8(t), false),
        },
        _ => false,
    }
}

/// A copy of a state to be written: the token only in its wrapped form.
pub fn save_state(st: &ClientState, w: &ClientWrap) -> (r: Result<ClientState, WrapError>)
    ensures
        r matches Err(e) ==> st.access_token is Some && atrest::wrap_fails(
            *w,
            vstd::utf8::encode_utf8(st.access_token->Some_0@),
            e,
        ),
        r matches Ok(d) ==> saved_as(st@, *w, d@),
{
    match (w, &st.access_token) {
        (ClientWrap::Plaintext, _) | (_, None) => save_state_drawn(st, w, None, None),
        _ => {
            let salt = crate::crypto::random_bytes::<16>();
            let nonce = crate::crypto::random_bytes::<24>();
            save_state_drawn(st, w, salt, nonce)
        },
    }
}

/// A copy of a state to be written, with the salt and the nonce that were
/// drawn for its token.
pub fn save_state_drawn(
    st: &ClientState,
    w: &ClientWrap,
    salt: Option<[u8; 16]>,
    nonce: Option<[u8; 24]>,
) -> (r: Result<ClientState, WrapError>)
    ensures
        match st@.access_token {
            None => r matches Ok(d) && saved_as(st@, *w, d@),
            Some(t) => match atrest::wrapped_as(*w, vstd::utf8::encode_utf8(t), salt, nonce) {
                Ok(blob) => r matches Ok(d) && saved_as(st@, *w, d@) && d@.access_token_wrapped
                    == Some(crate::crypto::b64(blob, false)),
                Err(k) => r matches Err(e) && e == WrapError::Key(k),
            },
        },
{
    let wrapped = match &st.access_token {
        Some(t) => match tokenstore::wrap_token_drawn(w, t.as_str(), salt, nonce) {
            Ok(s) => Some(s),
            Err(e) => {
                return Err(e);
            },
        },
        None => None,
    };
    Ok(save_state_stored(st, wrapped))
}

/// A copy of a state to be written, with what is stored for its token.
pub fn save_state_stored(st: &ClientState, stored: Option<String>) -> (r: ClientState)
    ensures
        r@ == (StateView {
            access_token: None,
            access_token_wrapped: atrest::opt(stored),
            ..st@
        }),
{
    ClientState {
        controller_url: st.controller_url.clone(),
        controller_enroll_url: copy_opt(&st.controller_enroll_url),
        device_id: copy_opt(&st.device_id),
        cert_pem: copy_opt(&st.cert_pem),
        access_token: None,
        access_token_wrapped: stored,
        posture_pubkey: copy_opt(&st.posture_pubkey),
        ca_pem: copy_opt(&st.ca_pem),
        key_origin: copy_opt(&st.key_origin),
        mgmt_url: copy_opt(&st.mgmt_url),
    }
}

/// Law: a state written under a secret is loaded back under it as it was, with
/// its session.
pub proof fn law_saved_state_loads_back(st: StateView, w: ClientWrap, d: StateView)
    requires
        saved_as(st, w, d),
        atrest::secret_of(w) is Some,
    ensures
        loaded(d, Ok(w)) == (StateView { access_token_wrapped: d.access_token_wrapped, ..st }),
{
}

/// Law: a state without a session is loaded without one, under every source.
pub proof fn law_logged_out_stays_logged_out(
    st: StateView,
    w: ClientWrap,
    d: StateView,
    source: Result<ClientWrap, WrapError>,
)
    requires
        saved_as(st, w, d),
        st.access_token is None,
    ensures
        loaded(d, source) == (StateView { access_token_wrapped: None, ..st }),
{
}

/// Law: a token that cannot be unwrapped is a logged-out state, never an error and
/// never the stored text itself.
pub proof fn law_unreadable_token_is_logged_out(
    d: StateView,
    w: Seq<char>,
    source: Result<ClientWrap, WrapError>,
)
    requires
        d.access_token is None,
        d.access_token_wrapped == Some(w),
        tokenstore::token_of(w, source) is Err,
    ensures
        loaded(d, source).access_token is None,
        loaded(d, source).access_token_wrapped is None,
        loaded(d, source).device_id == d.device_id,
{
}

// ---------------------------------------------------------------------
// Addresses
// ---------------------------------------------------------------------

/// Address of the bootstrap listener.
pub fn enroll_base(st: &ClientState) -> (r: String)
    ensures
        r@ == match st.controller_enroll_url {
            Some(u) => u@,
            None => urls::CONTROLLER_ENROLL@,
        },
{
    match &st.controller_enroll_url {
        Some(u) => u.clone(),
        None => urls::CONTROLLER_ENROLL.to_owned(),
    }
}

/// The host part of an address: behind its scheme, up to a colon.
pub open spec fn host_of(url: Seq<char>) -> Seq<char> {
    let s = text::skip_prefix(text::skip_prefix(url, "https://"@), "http://"@);
    s.subrange(0, text::until(s, ':') as int)
}

/// Management address: the override, else the state's, else the controller's
/// host at the management port.
pub open spec fn mgmt_of(over: Option<Seq<char>>, st: StateView) -> Seq<char> {
    match (over, st.mgmt_url) {
        (Some(u), _) => text::drop_char(u, '/'),
        (None, Some(u)) => if u.len() > 0 {
            text::drop_char(u, '/')
        } else {
            "http://"@ + host_of(st.controller_url) + ":"@ + text::decimal(
                ports::CONTROLLER_MGMT as nat,
            )
        },
        (None, None) => "http://"@ + host_of(st.controller_url) + ":"@ + text::decimal(
            ports::CONTROLLER_MGMT as nat,
        ),
    }
}

fn no_slash(u: &str) -> (r: String)
    ensures
        r@ == text::drop_char(u@, '/'),
{
    let cs = text::chars(u);
    let t = text::trim_end_char(cs.as_slice(), '/');
    text::string(t.as_slice())
}

/// Management address for policy-version polling.
pub fn mgmt_url(over: &Option<String>, st: &ClientState) -> (r: String)
    ensures
        r@ == mgmt_of(atrest::opt(*over), st@),
{
    if let Some(u) = over {
        return no_slash(u.as_str());
    }
    if let Some(u) = &st.mgmt_url {
        let cs = text::chars(u.as_str());
        if cs.len() > 0 {
            return no_slash(u.as_str());
        }
    }
    let cs = text::chars(st.controller_url.as_str());
    let a = text::trim_start_str(cs.as_slice(), "https://");
    let b = text::trim_start_str(a.as_slice(), "http://");
    let k = text::index_of_char(b.as_slice(), ':', 0);
    assert(text::rest(b@, 0) =~= b@);
    let host = text::cut(b.as_slice(), 0, k);
    let mut out = text::chars("http://");
    text::push_all(&mut out, host.as_slice());
    text::push_str(&mut out, ":");
    let port = text::dec(ports::CONTROLLER_MGMT as u64);
    text::push_all(&mut out, port.as_slice());
    text::string(out.as_slice())
}

// ---------------------------------------------------------------------
// Preconditions
// ---------------------------------------------------------------------

/// Why a command cannot run on this state.
#[derive(Debug, Clone, Copy, PartialEq, Eq, Structural)]
pub enum StateError {
    NotEnrolled,
    CertMissing,
    NotLoggedIn,
    BadCaPayload,
}

impl StateError {
    /// What the user is told.
    pub open spec fn text(&self) -> Seq<char> {
        match *self {
            StateError::NotEnrolled => "not enrolled - run `enroll` first"@,
            StateError::CertMissing => "device certificate missing - device approved? run login"@,
            StateError::NotLoggedIn => "not logged in - run `login` first"@,
            StateError::BadCaPayload => "bad CA payload"@,
        }
    }

    /// What the user is told.
    pub fn message(&self) -> (r: String)
        ensures
            r@ == self.text(),
    {
        match self {
            StateError::NotEnrolled => "not enrolled - run `enroll` first".to_owned(),
            StateError::CertMissing => {
                "device certificate missing - device approved? run login".to_owned()
            },
            StateError::NotLoggedIn => "not logged in - run `login` first".to_owned(),
            StateError::BadCaPayload => "bad CA payload".to_owned(),
        }
    }
}

/// The certificate side of the client's transport identity.
#[derive(Debug)]
pub struct QuicIdent {
    pub cert_pem: String,
}

impl QuicIdent {
    /// Takes the certificate out of the state; an error without one.
    pub fn open(st: &ClientState) -> (r: Result<QuicIdent, StateError>)
        ensures
            match r {
                Ok(q) => st@.cert_pem == Some(q.cert_pem@),
                Err(e) => st.cert_pem is None && e == StateError::CertMissing,
            },
    {
        match &st.cert_pem {
            Some(c) => Ok(QuicIdent { cert_pem: c.clone() }),
            None => Err(StateError::CertMissing),
        }
    }
}

/// The device id of an enrolled state.
pub fn enrolled_device(st: &ClientState) -> (r: Result<String, StateError>)
    ensures
        match r {
            Ok(d) => st@.device_id == Some(d@),
            Err(e) => st.device_id is None && e == StateError::NotEnrolled,
        },
{
    match &st.device_id {
        Some(d) => Ok(d.clone()),
        None => Err(StateError::NotEnrolled),
    }
}

/// The access token of a logged-in state.
pub fn session_token(st: &ClientState) -> (r: Result<String, StateError>)
    ensures
        match r {
            Ok(d) => st@.access_token == Some(d@),
            Err(e) => st.access_token is None && e == StateError::NotLoggedIn,
        },
{
    match &st.access_token {
        Some(d) => Ok(d.clone()),
        None => Err(StateError::NotLoggedIn),
    }
}

/// Keeps a fetched CA bundle: one already held stays; a fetched text must
/// hold a certificate.
pub fn accept_ca(st: &mut ClientState, fetched: String) -> (r: Result<(), StateError>)
    ensures
        old(st).ca_pem is Some ==> r is Ok && final(st)@ == old(st)@,
        old(st).ca_pem is None ==> match r {
            Ok(_) => text::contains(fetched@, "BEGIN CERTIFICATE"@) && final(st)@ == (StateView {
                ca_pem: Some(fetched@),
                ..old(st)@
            }),
            Err(e) => !text::contains(fetched@, "BEGIN CERTIFICATE"@) && e
                == StateError::BadCaPayload && final(st)@ == old(st)@,
        },
{
    if st.ca_pem.is_some() {
        return Ok(());
    }
    let cs = text::chars(fetched.as_str());
    if !text::has_str(cs.as_slice(), "BEGIN CERTIFICATE") {
        return Err(StateError::BadCaPayload);
    }
    st.ca_pem = Some(fetched);
    Ok(())
}

/// Takes the certificate of an enrollment-status answer, if it has one; a
/// certificate held before is replaced.
pub fn accept_cert(st: &mut ClientState, cert_pem: Option<String>) -> (changed: bool)
    ensures
        changed == (cert_pem is Some),
        final(st)@ == match cert_pem {
            Some(c) => (StateView { cert_pem: Some(c@), ..old(st)@ }),
            None => old(st)@,
        },
{
    match cert_pem {
        Some(c) => {
            st.cert_pem = Some(c);
            true
        },
        None => false,
    }
}

/// Law: the host of an address is what stands between its scheme, where it has
/// one, and the next colon, or all of the rest. What follows the scheme must
/// not begin with a scheme again.
pub proof fn law_host_of(host: Seq<char>, tail: Seq<char>)
    requires
        !host.contains(':'),
        !text::has_prefix(host + seq![':'] + tail, "https://"@),
        !text::has_prefix(host + seq![':'] + tail, "http://"@),
    ensures
        host_of("https://"@ + host + seq![':'] + tail) == host,
        host_of("http://"@ + host + seq![':'] + tail) == host,
        host_of("https://"@ + host) == host,
        host_of(host) == host,
{
    reveal_strlit("https://");
    reveal_strlit("http://");
    let (a, b) = ("https://"@, "http://"@);
    let s = host + seq![':'] + tail;
    lemma_bare(host, tail);
    assert(a + host + seq![':'] + tail =~= a + s);
    assert(b + host + seq![':'] + tail =~= b + s);
    text::law_skip_prefix(s, a);
    text::law_skip_prefix(s, b);
    text::law_skip_prefix(host, a);
    text::law_skip_prefix(host, b);
    assert((b + s)[4] == ':');
    assert(a[4] == 's');
    if text::has_prefix(b + s, a) {
        assert((b + s).subrange(0, 8)[4] == a[4]);
    }
    text::law_skip_prefix(b + s, a);
    assert(s.subrange(0, host.len() as int) =~= host);
    assert(host.subrange(0, host.len() as int) =~= host);
}

proof fn lemma_bare(host: Seq<char>, tail: Seq<char>)
    requires
        !host.contains(':'),
    ensures
        ({
            let s = host + seq![':'] + tail;
            &&& !text::has_prefix(host, "https://"@) && !text::has_prefix(host, "http://"@)
            &&& text::until(s, ':') == host.len() && text::until(host, ':') == host.len()
        }),
{
    reveal_strlit("https://");
    reveal_strlit("http://");
    let s = host + seq![':'] + tail;
    crate::addr::law_split_once(host, ':', tail);
    assert forall|i: int| 0 <= i < host.len() implies #[trigger] host[i] != ':' by {
        assert(host.contains(host[i]));
    }
    assert forall|i: int| 0 <= i < host.len() implies #[trigger] s[i] != ':' by {
        assert(s[i] == host[i]);
    }
    text::lemma_until_unique(s, ':', host.len() as int);
    text::lemma_until_unique(host, ':', host.len() as int);
    if text::has_prefix(host, "https://"@) {
        assert(host.subrange(0, 8)[5] == ':');
    }
    if text::has_prefix(host, "http://"@) {
        assert(host.subrange(0, 7)[4] == ':');
    }
}

/// Law: where the management address comes from: the override before all, else
/// the state's where it is not empty, else the controller's host at the
/// management port. No slash is left at the end of one that was set.
pub proof fn law_mgmt_precedence(over: Option<Seq<char>>, st: StateView)
    ensures
        over matches Some(u) ==> mgmt_of(over, st) == text::drop_char(u, '/'),
        over is None ==> (st.mgmt_url matches Some(u) ==> (u.len() > 0 ==> mgmt_of(over, st)
            == text::drop_char(u, '/'))),
        over is None && (st.mgmt_url is None || st.mgmt_url->Some_0.len() == 0) ==> mgmt_of(over, st)
            == "http://"@ + host_of(st.controller_url) + ":"@ + text::decimal(
            ports::CONTROLLER_MGMT as nat,
        ),
        over is Some || (st.mgmt_url is Some && st.mgmt_url->Some_0.len() > 0) ==> mgmt_of(
            over,
            st,
        ).len() == 0 || mgmt_of(over, st).last() != '/',
{
    if let Some(u) = over {
        text::law_drop_char(u, '/');
    }
    if let Some(u) = st.mgmt_url {
        text::law_drop_char(u, '/');
    }
}

/// Law: what is written never holds a token in the clear, and everything else
/// of the state is written as it is.
pub proof fn law_no_clear_token_on_disk(st: StateView, w: ClientWrap, d: StateView)
    requires
        saved_as(st, w, d),
    ensures
        d.access_token is None,
        d.access_token_wrapped is Some <==> st.access_token is Some,
        d.controller_url == st.controller_url,
        d.controller_enroll_url == st.controller_enroll_url,
        d.device_id == st.device_id,
        d.cert_pem == st.cert_pem,
        d.posture_pubkey == st.posture_pubkey,
        d.ca_pem == st.ca_pem,
        d.key_origin == st.key_origin,
        d.mgmt_url == st.mgmt_url,
{
}

/// Law: a token from before wrapping is kept as it is read, and loading never
/// changes what is not the token.
pub proof fn law_loading_keeps_the_rest(d: StateView, source: Result<ClientWrap, WrapError>)
    ensures
        d.access_token is Some ==> loaded(d, source) == d,
        d.access_token is None && d.access_token_wrapped is None ==> loaded(d, source) == d,
        loaded(d, source).controller_url == d.controller_url,
        loaded(d, source).controller_enroll_url == d.controller_enroll_url,
        loaded(d, source).device_id == d.device_id,
        loaded(d, source).cert_pem == d.cert_pem,
        loaded(d, source).posture_pubkey == d.posture_pubkey,
        loaded(d, source).ca_pem == d.ca_pem,
        loaded(d, source).key_origin == d.key_origin,
        loaded(d, source).mgmt_url == d.mgmt_url,
{
}

/// Law: the model of a state holds each field under its own name.
pub proof fn law_state_model(st: ClientState)
    ensures
        st@.controller_url == st.controller_url@,
        st.controller_enroll_url matches Some(x) ==> st@.controller_enroll_url == Some(x@),
        st.device_id matches Some(x) ==> st@.device_id == Some(x@),
        st.cert_pem matches Some(x) ==> st@.cert_pem == Some(x@),
        st.access_token matches Some(x) ==> st@.access_token == Some(x@),
        st.access_token_wrapped matches Some(x) ==> st@.access_token_wrapped == Some(x@),
        st.posture_pubkey matches Some(x) ==> st@.posture_pubkey == Some(x@),
        st.ca_pem matches Some(x) ==> st@.ca_pem == Some(x@),
        st.key_origin matches Some(x) ==> st@.key_origin == Some(x@),
        st.mgmt_url matches Some(x) ==> st@.mgmt_url == Some(x@),
        st.access_token is None ==> st@.access_token is None,
        st.device_id is None ==> st@.device_id is None,
        st.cert_pem is None ==> st@.cert_pem is None,
        st.access_token_wrapped is None ==> st@.access_token_wrapped is None,
        st.mgmt_url is None ==> st@.mgmt_url is None,
{
}

} // verus!
