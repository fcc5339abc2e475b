//! What each command of the client asks of the state before it starts, where
//! it turns, and what it makes of the answers.

use vstd::prelude::*;

use crate::addr::{parse_dest, DestError, Target};
use crate::atrest;
use crate::common::urls;
use crate::crypto;
use crate::hex::to_hex;
use crate::relay::TransportKind;
use crate::state::{enroll_base, ClientState, StateError, StateView};
use crate::text;

verus! {

// ---------------------------------------------------------------------
// Commands
// ---------------------------------------------------------------------

/// Arguments of an access command.
#[derive(Debug)]
pub struct AccessArgs {
    /// Destinations, `host:port`.
    pub dest: Vec<String>,
    pub local_port: u16,
    /// Keep serving, with a fresh decision per connection.
    pub serve: bool,
    /// Relay that all destinations are pinned to.
    pub gateway_relay: Option<String>,
    pub transport: TransportKind,
    pub bind: String,
    pub print_token: bool,
    /// Private DNS responder, `[host][:port]`.
    pub dns: Option<String>,
    /// Loopback metrics endpoint.
    pub metrics: Option<String>,
    pub proto: String,
}

/// A command of the client.
#[derive(Debug)]
pub enum Cmd {
    Status,
    Enroll { token: String, hostname: String },
    Login { code: Option<String> },
    Logout,
    Access(AccessArgs),
    Bench { dest: String, tunnels: u32, transport: TransportKind, report: bool },
    DnsZones,
    Diagnostics { out: String },
    Tray { ipc: Option<String> },
    SvcStatus,
    SvcConnect,
    SvcDisconnect,
    SvcDiagnostics,
    SvcLogin { token: String },
    Renew { hostname: String },
}

/// Why a command does not start.
#[derive(Debug, Clone, Copy, PartialEq, Eq, Structural)]
pub enum CmdError {
    NotEnrolled,
    /// The device has no certificate after the status was fetched.
    NotApproved,
    NotLoggedIn,
    /// Nothing to log out of.
    NoSession,
    /// Renewal presents the current certificate, and there is none.
    RenewWithoutCert,
    DnsWithoutServe,
    NoDestination,
    Dest(DestError),
    CertMissing,
    TrayUnsupported,
}

impl CmdError {
    /// What the user is told; nothing here for a bad destination, whose own
    /// error says it.
    pub open spec fn text(&self) -> Seq<char> {
        match *self {
            CmdError::NotEnrolled => "not enrolled - run `enroll` first"@,
            CmdError::NotApproved => {
                "device not APPROVED yet - ask an admin, then re-run login"@
            },
            CmdError::NotLoggedIn => "not logged in - run `login` first"@,
            CmdError::NoSession => "not logged in"@,
            CmdError::RenewWithoutCert => {
                "device certificate missing - run `login` first (renewal presents the CURRENT cert)"@
            },
            CmdError::DnsWithoutServe => {
                "--dns requires --serve (zone-driven forwarders serve per-connection)"@
            },
            CmdError::NoDestination => "at least one destination required (host:port)"@,
            CmdError::Dest(DestError::NoColon) => "dest must be fqdn-or-ip:port"@,
            CmdError::Dest(_) => "invalid port"@,
            CmdError::CertMissing => StateError::CertMissing.text(),
            CmdError::TrayUnsupported => {
                "tray UI is a Windows-only shell (W29: Linux runs CLI + glmsvc)"@
            },
        }
    }

    /// What the user is told.
    pub fn message(&self) -> (r: String)
        ensures
            r@ == self.text(),
    {
        match self {
            CmdError::NotEnrolled => "not enrolled - run `enroll` first".to_owned(),
            CmdError::NotApproved => {
                "device not APPROVED yet - ask an admin, then re-run login".to_owned()
            },
            CmdError::NotLoggedIn => "not logged in - run `login` first".to_owned(),
            CmdError::NoSession => "not logged in".to_owned(),
            CmdError::RenewWithoutCert => {
                "device certificate missing - run `login` first (renewal presents the CURRENT cert)".to_owned()
            },
            CmdError::DnsWithoutServe => {
                "--dns requires --serve (zone-driven forwarders serve per-connection)".to_owned()
            },
            CmdError::NoDestination => "at least one destination required (host:port)".to_owned(),
            CmdError::Dest(e) => match e {
                DestError::NoColon => "dest must be fqdn-or-ip:port".to_owned(),
                _ => "invalid port".to_owned(),
            },
            CmdError::CertMissing => StateError::CertMissing.message(),
            CmdError::TrayUnsupported => {
                "tray UI is a Windows-only shell (W29: Linux runs CLI + glmsvc)".to_owned()
            },
        }
    }
}

/// What a command does first.
#[derive(Debug)]
pub enum Action {
    /// Print lines and end.
    Print(Vec<String>),
    /// Post a signing request to this address.
    Enroll(String),
    /// Refresh the certificate of this device, then sign in at this address.
    Login(String, String),
    /// End the session of this token at this address.
    Logout(String, String),
    /// Post a renewal for this device to this address.
    Renew(String, String),
    /// Ask for decisions at this address, under this token, for this target.
    Bench(String, String, Target),
    /// Ask for decisions at this address, under this token.
    Access(String, String),
    /// Print the zones found at this address, under this token.
    Zones(String, String),
    Diagnostics,
    Tray,
    /// Put this word to the service.
    Service(String),
    ServiceStatus,
    /// Hand the service a token.
    ServiceLogin,
}

/// An address under the controller's.
pub open spec fn endpoint_of(base: Seq<char>, path: Seq<char>) -> Seq<char> {
    text::drop_char(base, '/') + path
}

/// An address under the controller's.
pub fn endpoint(base: &str, path: &str) -> (r: String)
    ensures
        r@ == endpoint_of(base@, path@),
{
    let cs = text::chars(base);
    let mut out = text::trim_end_char(cs.as_slice(), '/');
    text::push_str(&mut out, path);
    text::string(out.as_slice())
}

/// Points the state at a controller: the override, else what it holds, else
/// the default.
pub fn select_controller(st: &mut ClientState, over: &Option<String>)
    ensures
        final(st)@ == (StateView {
            controller_url: {
                let u = match *over {
                    Some(o) => o@,
                    None => old(st)@.controller_url,
                };
                if u.len() == 0 {
                    urls::CONTROLLER_CLIENT@
                } else {
                    u
                }
            },
            ..old(st)@
        }),
{
    if let Some(u) = over {
        st.controller_url = u.clone();
    }
    let cs = text::chars(st.controller_url.as_str());
    if cs.len() == 0 {
        st.controller_url = urls::CONTROLLER_CLIENT.to_owned();
    }
}

/// A yes or no in a status line.
fn line(head: &str, value: &str) -> (r: String)
    ensures
        r@ == head@ + value@,
{
    let mut out = text::chars(head);
    text::push_str(&mut out, value);
    text::string(out.as_slice())
}

/// The lines of a status report; `expiry` describes the certificate's expiry
/// where there is one.
pub open spec fn status_of(st: StateView, expiry: Seq<char>) -> Seq<Seq<char>> {
    let head = seq![
        "aZTNA client"@,
        "  controller : "@ + st.controller_url,
        "  device_id  : "@ + match st.device_id {
            Some(d) => d,
            None => "-"@,
        },
        "  enrolled   : "@ + crate::posture_probes::truth(st.cert_pem is Some),
        "  logged-in  : "@ + crate::posture_probes::truth(st.access_token is Some),
    ];
    if st.cert_pem is Some {
        head.push("  cert expires: "@ + expiry)
    } else {
        head
    }
}

/// Writes a status report.
pub fn status_lines(st: &ClientState, expiry: &str) -> (r: Vec<String>)
    ensures
        text::strs(r@) == status_of(st@, expiry@),
{
    let mut out: Vec<String> = Vec::new();
    out.push("aZTNA client".to_owned());
    out.push(line("  controller : ", st.controller_url.as_str()));
    let device = match &st.device_id {
        Some(d) => d.as_str(),
        None => "-",
    };
    out.push(line("  device_id  : ", device));
    let enrolled = crate::posture_probes::truth_text(st.cert_pem.is_some());
    out.push(line("  enrolled   : ", enrolled.as_str()));
    let logged_in = crate::posture_probes::truth_text(st.access_token.is_some());
    out.push(line("  logged-in  : ", logged_in.as_str()));
    if st.cert_pem.is_some() {
        out.push(line("  cert expires: ", expiry));
    }
    assert(text::strs(out@) =~= status_of(st@, expiry@));
    out
}

/// Whether a command starts on a state, or why not. `windows` tells whether
/// the tray can run.
pub open spec fn refusal(cmd: Cmd, st: StateView, windows: bool) -> Option<CmdError> {
    match cmd {
        Cmd::Login { .. } => if st.device_id is None {
            Some(CmdError::NotEnrolled)
        } else {
            None
        },
        Cmd::Logout => if st.access_token is None {
            Some(CmdError::NoSession)
        } else {
            None
        },
        Cmd::Tray { .. } => if windows {
            None
        } else {
            Some(CmdError::TrayUnsupported)
        },
        Cmd::Renew { .. } => if st.device_id is None {
            Some(CmdError::NotEnrolled)
        } else if st.cert_pem is None {
            Some(CmdError::RenewWithoutCert)
        } else {
            None
        },
        Cmd::Bench { dest, .. } => if st.access_token is None {
            Some(CmdError::NotLoggedIn)
        } else if crate::addr::target(dest@) is Err {
            Some(CmdError::Dest(crate::addr::target(dest@)->Err_0))
        } else if st.cert_pem is None {
            Some(CmdError::CertMissing)
        } else {
            None
        },
        Cmd::Access(a) => if st.access_token is None {
            Some(CmdError::NotLoggedIn)
        } else if a.dns is Some && !a.serve {
            Some(CmdError::DnsWithoutServe)
        } else if a.dest@.len() == 0 && a.dns is None {
            Some(CmdError::NoDestination)
        } else if st.cert_pem is None {
            Some(CmdError::CertMissing)
        } else {
            None
        },
        Cmd::DnsZones => if st.access_token is None {
            Some(CmdError::NotLoggedIn)
        } else if st.cert_pem is None {
            Some(CmdError::CertMissing)
        } else {
            None
        },
        _ => None,
    }
}

/// Whether an action is the one a command starts with on a state.
pub open spec fn starts_with(cmd: Cmd, st: StateView, expiry: Seq<char>, a: Action) -> bool {
    match cmd {
        Cmd::Status => a matches Action::Print(l) && text::strs(l@) == status_of(st, expiry),
        Cmd::Enroll { .. } => a matches Action::Enroll(u) && u@ == match st.controller_enroll_url {
            Some(b) => b,
            None => urls::CONTROLLER_ENROLL@,
        } + "/v1/enroll"@,
        Cmd::Login { .. } => a matches Action::Login(d, u) && st.device_id == Some(d@) && u@
            == endpoint_of(st.controller_url, "/v1/login/device"@),
        Cmd::Logout => a matches Action::Logout(t, u) && st.access_token == Some(t@) && u@
            == endpoint_of(st.controller_url, "/v1/logout"@),
        Cmd::Renew { .. } => a matches Action::Renew(d, u) && st.device_id == Some(d@) && u@
            == endpoint_of(st.controller_url, "/v1/renew"@),
        Cmd::Bench { dest, .. } => a matches Action::Bench(u, t, x) && st.access_token == Some(t@)
            && u@ == endpoint_of(st.controller_url, "/v1/access"@) && crate::addr::target(dest@)
            == Ok::<(Seq<char>, bool, int), DestError>((x.host@, x.is_ip, x.port as int)),
        Cmd::Access(_) => a matches Action::Access(u, t) && st.access_token == Some(t@) && u@
            == endpoint_of(st.controller_url, "/v1/access"@),
        Cmd::DnsZones => a matches Action::Zones(u, t) && st.access_token == Some(t@) && u@
            == endpoint_of(st.controller_url, "/v1/dns-zones"@),
        Cmd::Diagnostics { .. } => a is Diagnostics,
        Cmd::Tray { .. } => a is Tray,
        Cmd::SvcStatus => a is ServiceStatus,
        Cmd::SvcConnect => a matches Action::Service(w) && w@ == "connect"@,
        Cmd::SvcDisconnect => a matches Action::Service(w) && w@ == "disconnect"@,
        Cmd::SvcDiagnostics => a matches Action::Service(w) && w@ == "diagnostics"@,
        Cmd::SvcLogin { .. } => a is ServiceLogin,
    }
}

/// What a command does first, or why it does not start. The state must point
/// at a controller already; `expiry` is the line on the certificate's expiry.
pub fn run_with(cmd: &Cmd, st: &ClientState, expiry: &str, windows: bool) -> (r: Result<
    Action,
    CmdError,
>)
    ensures
        match r {
            Ok(a) => refusal(*cmd, st@, windows) is None && starts_with(*cmd, st@, expiry@, a),
            Err(e) => refusal(*cmd, st@, windows) == Some(e),
        },
{
    let base = st.controller_url.as_str();
    match cmd {
        Cmd::Status => Ok(Action::Print(status_lines(st, expiry))),
        Cmd::Enroll { .. } => {
            let b = enroll_base(st);
            Ok(Action::Enroll(line(b.as_str(), "/v1/enroll")))
        },
        Cmd::Login { .. } => match &st.device_id {
            Some(d) => Ok(Action::Login(d.clone(), endpoint(base, "/v1/login/device"))),
            None => Err(CmdError::NotEnrolled),
        },
        Cmd::Logout => match &st.access_token {
            Some(t) => Ok(Action::Logout(t.clone(), endpoint(base, "/v1/logout"))),
            None => Err(CmdError::NoSession),
        },
        Cmd::Renew { .. } => match (&st.device_id, &st.cert_pem) {
            (None, _) => Err(CmdError::NotEnrolled),
            (Some(_), None) => Err(CmdError::RenewWithoutCert),
            (Some(d), Some(_)) => Ok(Action::Renew(d.clone(), endpoint(base, "/v1/renew"))),
        },
        Cmd::Bench { dest, .. } => {
            let token = match &st.access_token {
                Some(t) => t.clone(),
                None => {
                    return Err(CmdError::NotLoggedIn);
                },
            };
            let target = match parse_dest(dest.as_str()) {
                Ok(t) => t,
                Err(e) => {
                    return Err(CmdError::Dest(e));
                },
            };
            if st.cert_pem.is_none() {
                return Err(CmdError::CertMissing);
            }
            Ok(Action::Bench(endpoint(base, "/v1/access"), token, target))
        },
        Cmd::Access(a) => {
            let token = match &st.access_token {
                Some(t) => t.clone(),
                None => {
                    return Err(CmdError::NotLoggedIn);
                },
            };
            if a.dns.is_some() && !a.serve {
                return Err(CmdError::DnsWithoutServe);
            }
            if a.dest.len() == 0 && a.dns.is_none() {
                return Err(CmdError::NoDestination);
            }
            if st.cert_pem.is_none() {
                return Err(CmdError::CertMissing);
            }
            Ok(Action::Access(endpoint(base, "/v1/access"), token))
        },
        Cmd::DnsZones => {
            let token = match &st.access_token {
                Some(t) => t.clone(),
                None => {
                    return Err(CmdError::NotLoggedIn);
                },
            };
            if st.cert_pem.is_none() {
                return Err(CmdError::CertMissing);
            }
            Ok(Action::Zones(endpoint(base, "/v1/dns-zones"), token))
        },
        Cmd::Diagnostics { .. } => Ok(Action::Diagnostics),
        Cmd::Tray { .. } => if windows {
            Ok(Action::Tray)
        } else {
            Err(CmdError::TrayUnsupported)
        },
        Cmd::SvcStatus => Ok(Action::ServiceStatus),
        Cmd::SvcConnect => Ok(Action::Service("connect".to_owned())),
        Cmd::SvcDisconnect => Ok(Action::Service("disconnect".to_owned())),
        Cmd::SvcDiagnostics => Ok(Action::Service("diagnostics".to_owned())),
        Cmd::SvcLogin { .. } => Ok(Action::ServiceLogin),
    }
}

/// No decision is asked for without a session and a device certificate.
pub proof fn law_access_needs_session_and_cert(cmd: Cmd, st: StateView, windows: bool)
    requires
        cmd is Access || cmd is Bench || cmd is DnsZones,
        refusal(cmd, st, windows) is None,
    ensures
        st.access_token is Some,
        st.cert_pem is Some,
{
}

// ---------------------------------------------------------------------
// Enrollment
// ---------------------------------------------------------------------

/// A fresh posture-signing key: its seed in hexadecimal, and its public key
/// in base64.
#[derive(Debug)]
pub struct PostureKey {
    pub seed_hex: String,
    pub public_b64: String,
}

/// The posture key with a seed.
pub fn posture_key_from(seed: [u8; 32]) -> (r: PostureKey)
    ensures
        r.seed_hex@ == crate::hex::hex(seed@),
        r.public_b64@ == crypto::b64(crypto::ed25519_public_of(seed@), false),
{
    let h = to_hex(seed.as_slice());
    let p = crypto::ed25519_public(&seed);
    PostureKey {
        seed_hex: text::string(h.as_slice()),
        public_b64: crypto::base64_encode(p.as_slice()),
    }
}

/// Whether a posture key is the one of some seed.
pub open spec fn is_key_pair(k: PostureKey) -> bool {
    exists|s: Seq<u8>|
        s.len() == 32 && k.seed_hex@ == #[trigger] crate::hex::hex(s) && k.public_b64@
            == crypto::b64(crypto::ed25519_public_of(s), false)
}

/// Draws a posture key; none where the system has no randomness.
pub fn new_posture_key() -> (r: Option<PostureKey>)
    ensures
        r matches Some(k) ==> is_key_pair(k),
{
    posture_key_drawn(crypto::random_bytes::<32>())
}

/// The posture key out of a draw; none where the draw failed.
pub fn posture_key_drawn(drawn: Option<[u8; 32]>) -> (r: Option<PostureKey>)
    ensures
        match drawn {
            Some(seed) => r matches Some(k) && {
                &&& k.seed_hex@ == crate::hex::hex(seed@)
                &&& k.public_b64@ == crypto::b64(crypto::ed25519_public_of(seed@), false)
                &&& is_key_pair(k)
            },
            None => r is None,
        },
{
    match drawn {
        Some(seed) => {
            let k = posture_key_from(seed);
            assert(k.seed_hex@ == crate::hex::hex(seed@));
            Some(k)
        },
        None => None,
    }
}

/// Notes an enrollment: the device id that was given (empty where the answer
/// has none) and the tier of the key.
pub fn record_enrollment(st: &mut ClientState, device_id: Option<String>, origin: &str)
    ensures
        final(st)@ == (StateView {
            device_id: Some(
                match device_id {
                    Some(d) => d@,
                    None => ""@,
                },
            ),
            key_origin: Some(origin@),
            ..old(st)@
        }),
{
    st.device_id = Some(
        match device_id {
            Some(d) => d,
            None => "".to_owned(),
        },
    );
    st.key_origin = Some(origin.to_owned());
}

/// The line on where the identity key lies.
pub fn origin_line(origin: &str) -> (r: String)
    ensures
        r@ == "key_origin="@ + origin@ + " (identity key "@ + (if origin@ == "tpm"@ {
            "NOT"@
        } else {
            "is"@
        }) + " exfiltratable as a file)"@,
{
    let mut out = text::chars("key_origin=");
    text::push_str(&mut out, origin);
    text::push_str(&mut out, " (identity key ");
    if text::str_eq(origin, "tpm") {
        text::push_str(&mut out, "NOT");
    } else {
        text::push_str(&mut out, "is");
    }
    text::push_str(&mut out, " exfiltratable as a file)");
    text::string(out.as_slice())
}

/// Addresses of the bootstrap listener.
pub fn ca_url(st: &ClientState) -> (r: String)
    ensures
        r@ == match st.controller_enroll_url {
            Some(u) => u@,
            None => urls::CONTROLLER_ENROLL@,
        } + "/v1/ca"@,
{
    let b = enroll_base(st);
    line(b.as_str(), "/v1/ca")
}

/// Address of a device's enrollment status.
pub fn enroll_status_url(st: &ClientState, device_id: &str) -> (r: String)
    ensures
        r@ == match st.controller_enroll_url {
            Some(u) => u@,
            None => urls::CONTROLLER_ENROLL@,
        } + "/v1/enroll/status/"@ + device_id@,
{
    let b = enroll_base(st);
    let head = line(b.as_str(), "/v1/enroll/status/");
    line(head.as_str(), device_id)
}

// ---------------------------------------------------------------------
// Session
// ---------------------------------------------------------------------

/// How a sign-in goes on once the certificate was refreshed.
#[derive(Debug)]
pub enum SignIn {
    /// With a code given on the command line.
    Pasted(String),
    /// Through the browser.
    Browser,
}

/// Picks the sign-in; a device without a certificate is not approved.
pub fn sign_in(st: &ClientState, code: &Option<String>) -> (r: Result<SignIn, CmdError>)
    ensures
        match r {
            Ok(SignIn::Pasted(c)) => st.cert_pem is Some && atrest::opt(*code) == Some(c@),
            Ok(SignIn::Browser) => st.cert_pem is Some && code is None,
            Err(e) => st.cert_pem is None && e == CmdError::NotApproved,
        },
{
    if st.cert_pem.is_none() {
        return Err(CmdError::NotApproved);
    }
    match code {
        Some(c) => Ok(SignIn::Pasted(c.clone())),
        None => Ok(SignIn::Browser),
    }
}

/// Notes a session: its token (empty where the answer has none).
pub fn record_login(st: &mut ClientState, token: Option<String>)
    ensures
        final(st)@ == (StateView {
            access_token: Some(
                match token {
                    Some(t) => t@,
                    None => ""@,
                },
            ),
            ..old(st)@
        }),
{
    st.access_token = Some(
        match token {
            Some(t) => t,
            None => "".to_owned(),
        },
    );
}

/// What became of a logout at the controller.
#[derive(Debug)]
pub enum LogoutAnswer {
    Ended,
    /// Refused with this status.
    Refused(String),
    /// Not reached, for this reason.
    Unreachable(String),
    /// No answer within this time.
    TimedOut(String),
}

/// The note on a logout.
pub open spec fn logout_text(a: LogoutAnswer) -> Seq<char> {
    match a {
        LogoutAnswer::Ended => "session ended on controller (tunnels cut)"@,
        LogoutAnswer::Refused(s) => "controller said "@ + s@
            + " - session ends server-side at idle/expiry"@,
        LogoutAnswer::Unreachable(e) => "controller unreachable ("@ + e@
            + ") - session ends server-side at idle/expiry"@,
        LogoutAnswer::TimedOut(t) => "timed out after "@ + t@
            + " - session ends server-side at idle/expiry"@,
    }
}

/// Ends the local session, whatever the controller answered; the note on it.
pub fn record_logout(st: &mut ClientState, a: &LogoutAnswer) -> (note: String)
    ensures
        final(st)@ == (StateView { access_token: None, ..old(st)@ }),
        note@ == logout_text(*a),
{
    st.access_token = None;
    match a {
        LogoutAnswer::Ended => "session ended on controller (tunnels cut)".to_owned(),
        LogoutAnswer::Refused(s) => {
            let h = line("controller said ", s.as_str());
            line(h.as_str(), " - session ends server-side at idle/expiry")
        },
        LogoutAnswer::Unreachable(e) => {
            let h = line("controller unreachable (", e.as_str());
            line(h.as_str(), ") - session ends server-side at idle/expiry")
        },
        LogoutAnswer::TimedOut(t) => {
            let h = line("timed out after ", t.as_str());
            line(h.as_str(), " - session ends server-side at idle/expiry")
        },
    }
}

/// Why a renewal is not saved.
#[derive(Debug)]
pub enum RenewError {
    MissingCert,
    /// The answer names another device.
    OtherDevice(String),
}

impl RenewError {
    /// What the user is told.
    pub fn message(&self) -> (r: String)
        ensures
            r@ == match *self {
                RenewError::MissingCert => "renew response missing cert_pem"@,
                RenewError::OtherDevice(d) => "renew returned a different device_id ("@ + d@
                    + ") - refusing to save"@,
            },
    {
        match self {
            RenewError::MissingCert => "renew response missing cert_pem".to_owned(),
            RenewError::OtherDevice(d) => {
                let h = line("renew returned a different device_id (", d.as_str());
                line(h.as_str(), ") - refusing to save")
            },
        }
    }
}

/// The text of an optional string, empty where it is absent.
pub open spec fn or_empty(s: Option<String>) -> Seq<char> {
    match s {
        Some(t) => t@,
        None => ""@,
    }
}

fn or_blank(s: Option<String>) -> (r: String)
    ensures
        r@ == or_empty(s),
{
    match s {
        Some(t) => t,
        None => "".to_owned(),
    }
}

/// Takes a renewed certificate, if it is one and for this very device.
pub fn record_renewal(
    st: &mut ClientState,
    device_id: &str,
    cert_pem: Option<String>,
    returned_id: Option<String>,
) -> (r: Result<(), RenewError>)
    ensures
        match r {
            Ok(_) => {
                &&& text::contains(or_empty(cert_pem), "BEGIN CERTIFICATE"@)
                &&& or_empty(returned_id) == device_id@
                &&& final(st)@ == (StateView { cert_pem: Some(or_empty(cert_pem)), ..old(st)@ })
            },
            Err(RenewError::MissingCert) => !text::contains(
                or_empty(cert_pem),
                "BEGIN CERTIFICATE"@,
            ) && final(st)@ == old(st)@,
            Err(RenewError::OtherDevice(d)) => {
                &&& text::contains(or_empty(cert_pem), "BEGIN CERTIFICATE"@)
                &&& or_empty(returned_id) != device_id@
                &&& d@ == or_empty(returned_id)
                &&& final(st)@ == old(st)@
            },
        },
{
    let pem = or_blank(cert_pem);
    let cs = text::chars(pem.as_str());
    if !text::has_str(cs.as_slice(), "BEGIN CERTIFICATE") {
        return Err(RenewError::MissingCert);
    }
    let id = or_blank(returned_id);
    if !text::str_eq(id.as_str(), device_id) {
        return Err(RenewError::OtherDevice(id));
    }
    st.cert_pem = Some(pem);
    Ok(())
}

// ---------------------------------------------------------------------
// Access
// ---------------------------------------------------------------------

/// The hint for a denial that says the session has ended.
pub open spec fn end_hint(body: Seq<char>) -> Option<Seq<char>> {
    if text::contains(body, "session revoked"@) || text::contains(body, "session idle"@) {
        Some("session ended - re-login required (login --code <code>[-mfa])"@)
    } else {
        None
    }
}

/// The hint for a denial that says the session has ended: revoked, idle, or
/// logged out.
pub fn session_end_hint(deny_body: &str) -> (r: Option<&'static str>)
    ensures
        match r {
            Some(h) => end_hint(deny_body@) == Some(h@),
            None => end_hint(deny_body@) is None,
        },
{
    let cs = text::chars(deny_body);
    if text::has_str(cs.as_slice(), "session revoked") || text::has_str(
        cs.as_slice(),
        "session idle",
    ) {
        Some("session ended - re-login required (login --code <code>[-mfa])")
    } else {
        None
    }
}

/// What a denial reads, with a hint where one helps; asking for a step-up
/// comes first.
pub open spec fn denial(status: Seq<char>, body: Seq<char>) -> Seq<char> {
    let head = "access DENIED: "@ + status + " - "@ + body;
    if text::contains(body, "step-up"@) {
        head
            + "\n  hint: re-authenticate with MFA (login --code <code>-mfa) and retry"@
    } else {
        match end_hint(body) {
            Some(h) => head + "\n  hint: "@ + h,
            None => head,
        }
    }
}

/// Writes what a denial reads.
pub fn denial_message(status: &str, body: &str) -> (r: String)
    ensures
        r@ == denial(status@, body@),
{
    let mut out = text::chars("access DENIED: ");
    text::push_str(&mut out, status);
    text::push_str(&mut out, " - ");
    text::push_str(&mut out, body);
    let cs = text::chars(body);
    if text::has_str(cs.as_slice(), "step-up") {
        text::push_str(
            &mut out,
            "\n  hint: re-authenticate with MFA (login --code <code>-mfa) and retry",
        );
    } else if let Some(h) = session_end_hint(body) {
        text::push_str(&mut out, "\n  hint: ");
        text::push_str(&mut out, h);
    }
    text::string(out.as_slice())
}

/// The line on an allowed destination.
pub fn allow_line(dest: &str, policy: &str, ttl: &str) -> (r: String)
    ensures
        r@ == dest@ + ": ALLOW via policy '"@ + policy@ + "' ttl="@ + ttl@ + "s"@,
{
    let mut out = text::chars(dest);
    text::push_str(&mut out, ": ALLOW via policy '");
    text::push_str(&mut out, policy);
    text::push_str(&mut out, "' ttl=");
    text::push_str(&mut out, ttl);
    text::push_str(&mut out, "s");
    text::string(out.as_slice())
}

/// A gateway as listed: its id and its relay, "?" for what is not known.
pub open spec fn gateway_text(g: (Option<String>, Option<String>)) -> Seq<char> {
    let id = match g.0 {
        Some(i) => i@,
        None => "?"@,
    };
    let relay = match g.1 {
        Some(r) => r@,
        None => "?"@,
    };
    id + "@"@ + relay
}

/// The line on the gateways that serve a destination.
pub fn gateways_line(gws: &Vec<(Option<String>, Option<String>)>) -> (r: String)
    ensures
        r@ == "  via gateways: "@ + text::joined(
            gws@.map_values(|g: (Option<String>, Option<String>)| gateway_text(g)),
            ", "@,
        ),
{
    let ghost want = gws@.map_values(|g: (Option<String>, Option<String>)| gateway_text(g));
    let mut parts: Vec<Vec<char>> = Vec::new();
    let mut i: usize = 0;
    while i < gws.len()
        invariant
            i <= gws@.len(),
            want == gws@.map_values(|g: (Option<String>, Option<String>)| gateway_text(g)),
            text::views(parts@) == want.subrange(0, i as int),
        decreases gws@.len() - i,
    {
        let mut p: Vec<char> = match &gws[i].0 {
            Some(id) => text::chars(id.as_str()),
            None => text::chars("?"),
        };
        text::push_str(&mut p, "@");
        match &gws[i].1 {
            Some(r) => text::push_str(&mut p, r.as_str()),
            None => text::push_str(&mut p, "?"),
        }
        let ghost pv = p@;
        assert(pv =~= want[i as int]);
        let ghost before = parts@;
        parts.push(p);
        assert(text::views(parts@) =~= text::views(before).push(pv));
        i += 1;
        assert(text::views(parts@) =~= want.subrange(0, i as int));
    }
    assert(want.subrange(0, i as int) =~= want);
    let list = text::join(&parts, ", ");
    let mut out = text::chars("  via gateways: ");
    text::push_all(&mut out, list.as_slice());
    text::string(out.as_slice())
}

/// The local port of the destination at place `i`: ports are handed out in a
/// row. None where the row leaves the port range.
pub fn listen_port(local_port: u16, i: usize) -> (r: Option<u16>)
    ensures
        r == if local_port + i <= u16::MAX {
            Some((local_port + i) as u16)
        } else {
            None
        },
{
    let room: u16 = u16::MAX - local_port;
    if i <= room as usize {
        Some(local_port + i as u16)
    } else {
        None
    }
}

/// Whether a protocol name asks for a datagram forwarder.
pub fn is_udp(proto: &str) -> (r: bool)
    ensures
        r == (text::ascii_lower(proto@) == "udp"@),
{
    let cs = text::chars(proto);
    let low = text::to_ascii_lower(cs.as_slice());
    text::is_str(low.as_slice(), "udp")
}

/// The policy version last seen while serving.
#[derive(Debug)]
pub struct PolicyWatch {
    pub last: String,
}

impl PolicyWatch {
    /// Nothing seen yet.
    pub fn new() -> (r: PolicyWatch)
        ensures
            r.last@ == ""@,
    {
        PolicyWatch { last: "".to_owned() }
    }

    /// Notes a version; the version before, where it was another. The first
    /// version seen is no change.
    pub fn observe(&mut self, version: String) -> (r: Option<String>)
        ensures
            final(self).last@ == version@,
            match r {
                Some(o) => o@ == old(self).last@ && o@.len() > 0 && o@ != version@,
                None => old(self).last@.len() == 0 || old(self).last@ == version@,
            },
    {
        let before = self.last.clone();
        let cs = text::chars(before.as_str());
        let same = text::str_eq(before.as_str(), version.as_str());
        self.last = version;
        if cs.len() > 0 && !same {
            Some(before)
        } else {
            None
        }
    }
}

// ---------------------------------------------------------------------
// The service
// ---------------------------------------------------------------------

/// Where the service listens where no configuration says.
pub const DEFAULT_IPC_BIND: &'static str = "127.0.0.1:29171";

/// Where the service listens.
pub fn ipc_bind(configured: Option<String>) -> (r: String)
    ensures
        r@ == match configured {
            Some(b) => b@,
            None => DEFAULT_IPC_BIND@,
        },
{
    match configured {
        Some(b) => b,
        None => DEFAULT_IPC_BIND.to_owned(),
    }
}

/// What a one-word command to the service reads: done, or why not.
pub fn ipc_simple(cmd: &str, ok: bool, service_state: &str, error: Option<String>) -> (r: Result<
    String,
    String,
>)
    ensures
        match r {
            Ok(l) => ok && l@ == "service "@ + cmd@ + ": ok ("@ + service_state@ + ")"@,
            Err(e) => !ok && e@ == "service "@ + cmd@ + " rejected: "@ + or_empty(error),
        },
{
    let mut out = text::chars("service ");
    text::push_str(&mut out, cmd);
    if ok {
        text::push_str(&mut out, ": ok (");
        text::push_str(&mut out, service_state);
        text::push_str(&mut out, ")");
        Ok(text::string(out.as_slice()))
    } else {
        text::push_str(&mut out, " rejected: ");
        let e = or_blank(error);
        text::push_str(&mut out, e.as_str());
        Err(text::string(out.as_slice()))
    }
}

/// What handing the service a token reads: done, or why not.
pub fn svc_login(ok: bool, error: Option<String>) -> (r: Result<String, String>)
    ensures
        match r {
            Ok(l) => ok && l@ == "token handed off; service ready to connect"@,
            Err(e) => !ok && e@ == "login rejected: "@ + or_empty(error),
        },
{
    if ok {
        Ok("token handed off; service ready to connect".to_owned())
    } else {
        let e = or_blank(error);
        Err(line("login rejected: ", e.as_str()))
    }
}

// ---------------------------------------------------------------------
// Laws
// ---------------------------------------------------------------------

/// Law: a refusal names what is missing: no device, no session, no
/// certificate, no destination, no platform for it; and a command that is given
/// all it needs starts.
pub proof fn law_refusal_names_what_is_missing(cmd: Cmd, st: StateView, windows: bool)
    ensures
        ({
            let r = refusal(cmd, st, windows);
            &&& r == Some(CmdError::NotEnrolled) <==> (cmd is Login || cmd is Renew) && st.device_id
                is None
            &&& r == Some(CmdError::NoSession) <==> cmd == Cmd::Logout && st.access_token is None
            &&& r == Some(CmdError::NotLoggedIn) <==> (cmd is Bench || cmd is Access || cmd
                == Cmd::DnsZones) && st.access_token is None
            &&& r == Some(CmdError::RenewWithoutCert) <==> cmd is Renew && st.device_id is Some
                && st.cert_pem is None
            &&& r == Some(CmdError::TrayUnsupported) <==> cmd is Tray && !windows
            &&& r == Some(CmdError::DnsWithoutServe) ==> (cmd matches Cmd::Access(a) && a.dns
                is Some && !a.serve)
            &&& r == Some(CmdError::NoDestination) ==> (cmd matches Cmd::Access(a) && a.dest@.len()
                == 0 && a.dns is None)
            &&& r == Some(CmdError::CertMissing) ==> st.cert_pem is None && st.access_token is Some
            &&& r != Some(CmdError::NotApproved)
        }),
        st.device_id is Some && st.access_token is Some && st.cert_pem is Some && windows && (cmd
            matches Cmd::Access(a) ==> (a.dns is Some ==> a.serve) && (a.dest@.len() > 0 || a.dns
            is Some)) && (cmd matches Cmd::Bench { dest, .. } ==> crate::addr::target(dest@) is Ok)
            ==> refusal(cmd, st, windows) is None,
{
}

/// Law: a state that has more is refused nothing that one with less is
/// granted.
pub proof fn law_more_state_refuses_less(cmd: Cmd, st: StateView, more: StateView, windows: bool)
    requires
        st.device_id is Some ==> more.device_id is Some,
        st.access_token is Some ==> more.access_token is Some,
        st.cert_pem is Some ==> more.cert_pem is Some,
        refusal(cmd, st, windows) is None,
    ensures
        refusal(cmd, more, windows) is None,
{
}

/// Law: a request for access without a destination, with a responder but
/// nothing that serves it, or without a certificate is refused for a session
/// that is there.
pub proof fn law_access_refusals(a: AccessArgs, st: StateView, windows: bool)
    requires
        st.access_token is Some,
    ensures
        a.dns is Some && !a.serve ==> refusal(Cmd::Access(a), st, windows) == Some(
            CmdError::DnsWithoutServe,
        ),
        a.dest@.len() == 0 && a.dns is None ==> refusal(Cmd::Access(a), st, windows) == Some(
            CmdError::NoDestination,
        ),
        st.cert_pem is None ==> refusal(Cmd::Access(a), st, windows) is Some,
{
}

/// Law: the status, an enrollment, diagnostics and what is asked of the
/// service start on every state.
pub proof fn law_what_always_starts(cmd: Cmd, st: StateView, windows: bool)
    requires
        cmd == Cmd::Status || cmd is Enroll || cmd is Diagnostics || cmd == Cmd::SvcStatus || cmd
            == Cmd::SvcConnect || cmd == Cmd::SvcDisconnect || cmd == Cmd::SvcDiagnostics || cmd
            is SvcLogin,
    ensures
        refusal(cmd, st, windows) is None,
{
}

/// Law: an action carries what the state holds: the session's token, the
/// device, and an address under the controller's that ends with what is asked
/// for.
pub proof fn law_actions_carry_the_state(cmd: Cmd, st: StateView, expiry: Seq<char>, a: Action)
    requires
        starts_with(cmd, st, expiry, a),
    ensures
        a matches Action::Login(d, u) ==> st.device_id == Some(d@) && text::has_suffix(
            u@,
            "/v1/login/device"@,
        ),
        a matches Action::Logout(t, u) ==> st.access_token == Some(t@) && text::has_suffix(
            u@,
            "/v1/logout"@,
        ),
        a matches Action::Renew(d, u) ==> st.device_id == Some(d@) && text::has_suffix(
            u@,
            "/v1/renew"@,
        ),
        a matches Action::Access(u, t) ==> st.access_token == Some(t@) && text::has_suffix(
            u@,
            "/v1/access"@,
        ),
        a matches Action::Bench(u, t, _) ==> st.access_token == Some(t@) && text::has_suffix(
            u@,
            "/v1/access"@,
        ),
        a matches Action::Zones(u, t) ==> st.access_token == Some(t@) && text::has_suffix(
            u@,
            "/v1/dns-zones"@,
        ),
        a matches Action::Enroll(u) ==> text::has_suffix(u@, "/v1/enroll"@),
        a is Login <==> cmd is Login,
        a is Logout <==> cmd == Cmd::Logout,
        a is Renew <==> cmd is Renew,
        a is Access <==> cmd is Access,
        a is Bench <==> cmd is Bench,
        a is Zones <==> cmd == Cmd::DnsZones,
        a is Enroll <==> cmd is Enroll,
        a is Print <==> cmd == Cmd::Status,
{
    lemma_endpoint_suffix(st.controller_url, "/v1/login/device"@);
    lemma_endpoint_suffix(st.controller_url, "/v1/logout"@);
    lemma_endpoint_suffix(st.controller_url, "/v1/renew"@);
    lemma_endpoint_suffix(st.controller_url, "/v1/access"@);
    lemma_endpoint_suffix(st.controller_url, "/v1/dns-zones"@);
    let base = match st.controller_enroll_url {
        Some(b) => b,
        None => urls::CONTROLLER_ENROLL@,
    };
    let p = "/v1/enroll"@;
    let s = base + p;
    assert(s.subrange(s.len() - p.len(), s.len() as int) =~= p);
}

proof fn lemma_endpoint_suffix(base: Seq<char>, path: Seq<char>)
    ensures
        text::has_suffix(endpoint_of(base, path), path),
{
    let s = endpoint_of(base, path);
    assert(s.subrange(s.len() - path.len(), s.len() as int) =~= path);
}

/// Law: an address under the controller's is the controller's without slashes
/// at its end, and what is asked for; it makes no difference how many slashes
/// the controller's ends with.
pub proof fn law_endpoint(base: Seq<char>, path: Seq<char>)
    ensures
        endpoint_of(base + seq!['/'], path) == endpoint_of(base, path),
        base.len() == 0 || base.last() != '/' ==> endpoint_of(base, path) == base + path,
{
    let b = base + seq!['/'];
    assert(b.last() == '/');
    assert(b.drop_last() =~= base);
}

/// Law: what the status says: the controller, the device or a dash, whether
/// there is a certificate and a session, and for a certificate its expiry in a
/// line of its own.
#[verifier::spinoff_prover]
#[verifier::rlimit(40)]
pub proof fn law_status_lines(st: StateView, expiry: Seq<char>)
    ensures
        ({
            let l = status_of(st, expiry);
            &&& l.len() == if st.cert_pem is Some {
                6nat
            } else {
                5nat
            }
            &&& text::has_suffix(l[1], st.controller_url)
            &&& st.device_id matches Some(d) ==> text::has_suffix(l[2], d)
            &&& st.device_id is None ==> text::has_suffix(l[2], "-"@)
            &&& text::has_suffix(l[3], "true"@) <==> st.cert_pem is Some
            &&& text::has_suffix(l[4], "true"@) <==> st.access_token is Some
            &&& st.cert_pem is Some ==> text::has_suffix(l[5], expiry)
        }),
{
    reveal_strlit("true");
    reveal_strlit("false");
    let l = status_of(st, expiry);
    lemma_tail("  controller : "@, st.controller_url);
    if let Some(d) = st.device_id {
        lemma_tail("  device_id  : "@, d);
    } else {
        lemma_tail("  device_id  : "@, "-"@);
    }
    lemma_truth_tail("  enrolled   : "@, st.cert_pem is Some);
    lemma_truth_tail("  logged-in  : "@, st.access_token is Some);
    lemma_tail("  cert expires: "@, expiry);
}

proof fn lemma_tail(a: Seq<char>, b: Seq<char>)
    ensures
        text::has_suffix(a + b, b),
{
    let s = a + b;
    assert(s.subrange(s.len() - b.len(), s.len() as int) =~= b);
}

proof fn lemma_truth_tail(a: Seq<char>, b: bool)
    ensures
        text::has_suffix(a + crate::posture_probes::truth(b), "true"@) <==> b,
{
    reveal_strlit("true");
    reveal_strlit("false");
    let t = crate::posture_probes::truth(b);
    lemma_tail(a, t);
    let s = a + t;
    if !b && text::has_suffix(s, "true"@) {
        let w = s.subrange(s.len() - 4, s.len() as int);
        assert(w[0] == s[s.len() - 4]);
        assert(s[s.len() - 4] == t[1]);
    }
}

/// Law: what a denial reads. It begins with the status and the body, and has a
/// hint exactly where the body asks for a step-up or says that the session has
/// ended; asking for a step-up comes first.
pub proof fn law_denial_hints(status: Seq<char>, body: Seq<char>)
    ensures
        ({
            let d = denial(status, body);
            let head = "access DENIED: "@ + status + " - "@ + body;
            let ended = text::contains(body, "session revoked"@) || text::contains(
                body,
                "session idle"@,
            );
            &&& text::has_prefix(d, head)
            &&& d == head <==> !text::contains(body, "step-up"@) && !ended
            &&& text::contains(body, "step-up"@) ==> d == head
                + "\n  hint: re-authenticate with MFA (login --code <code>-mfa) and retry"@
            &&& !text::contains(body, "step-up"@) && ended ==> d == head
                + "\n  hint: session ended - re-login required (login --code <code>[-mfa])"@
            &&& end_hint(body) is Some <==> ended
        }),
{
    reveal_strlit("\n  hint: ");
    reveal_strlit("\n  hint: re-authenticate with MFA (login --code <code>-mfa) and retry");
    reveal_strlit("session ended - re-login required (login --code <code>[-mfa])");
    reveal_strlit("\n  hint: session ended - re-login required (login --code <code>[-mfa])");
    let d = denial(status, body);
    let head = "access DENIED: "@ + status + " - "@ + body;
    assert(d.subrange(0, head.len() as int) =~= head);
    let h = "session ended - re-login required (login --code <code>[-mfa])"@;
    assert("\n  hint: "@ + h
        =~= "\n  hint: session ended - re-login required (login --code <code>[-mfa])"@);
    assert(head + "\n  hint: "@ + h =~= head + ("\n  hint: "@ + h));
    if end_hint(body) is Some || text::contains(body, "step-up"@) {
        assert(d.len() > head.len());
    }
}

/// Law: a gateway as listed reads back: its id before the at sign and its
/// relay behind it, a question mark for what is not known.
pub proof fn law_gateway_text(id: Option<String>, relay: Option<String>)
    requires
        id matches Some(i) ==> !i@.contains('@'),
    ensures
        crate::addr::split_once(gateway_text((id, relay)), '@') == Some(
            (
                if id is Some {
                    id->Some_0@
                } else {
                    "?"@
                },
                if relay is Some {
                    relay->Some_0@
                } else {
                    "?"@
                },
            ),
        ),
{
    reveal_strlit("?");
    reveal_strlit("@");
    assert("@"@ =~= seq!['@']);
    let a = match id {
        Some(i) => i@,
        None => "?"@,
    };
    let b = match relay {
        Some(r) => r@,
        None => "?"@,
    };
    crate::addr::law_split_once(a, '@', b);
}

} // verus!
