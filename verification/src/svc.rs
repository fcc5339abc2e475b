//! The service host: its lifecycle, the user who owns it, the requests that
//! local users put to it, and what it starts from.

use vstd::prelude::*;

use crate::atrest;
use crate::commands::AccessArgs;
use crate::peer;
use crate::peer::{PeerError, PeerOwner};
use crate::posture_collector::copy_opt;
use crate::relay::TransportKind;
use crate::state::{ClientState, StateView};
use crate::text;

verus! {

// ---------------------------------------------------------------------
// Lifecycle
// ---------------------------------------------------------------------

/// No device yet.
pub const STATE_NEEDS_ENROLL: u8 = 0;

/// Enrolled, not serving.
pub const STATE_DISCONNECTED: u8 = 1;

/// Serving.
pub const STATE_CONNECTED: u8 = 2;

/// Serving with trouble.
pub const STATE_DEGRADED: u8 = 3;

/// Name of a lifecycle state.
pub open spec fn name_of(s: u8) -> Seq<char> {
    if s == STATE_CONNECTED {
        "connected"@
    } else if s == STATE_DISCONNECTED {
        "disconnected"@
    } else if s == STATE_DEGRADED {
        "degraded"@
    } else {
        "needs_enrollment"@
    }
}

fn name(s: u8) -> (r: &'static str)
    ensures
        r@ == name_of(s),
{
    if s == STATE_CONNECTED {
        "connected"
    } else if s == STATE_DISCONNECTED {
        "disconnected"
    } else if s == STATE_DEGRADED {
        "degraded"
    } else {
        "needs_enrollment"
    }
}

/// The service.
#[derive(Debug)]
pub struct Service {
    state: u8,
    last_event: String,
    owner: Option<String>,
    generation: u64,
}

/// Model of a [`Service`].
#[verifier::ext_equal]
pub struct ServiceView {
    pub state: u8,
    pub last_event: Seq<char>,
    /// The user who handed over the token; none before.
    pub owner: Option<Seq<char>>,
    /// Number of the current engine run: a stop goes to this one.
    pub generation: u64,
}

impl View for Service {
    type V = ServiceView;

    closed spec fn view(&self) -> ServiceView {
        ServiceView {
            state: self.state,
            last_event: self.last_event@,
            owner: atrest::opt(self.owner),
            generation: self.generation,
        }
    }
}

/// The number after a run's.
pub open spec fn next_generation(g: u64) -> u64 {
    if g == u64::MAX {
        0
    } else {
        (g + 1) as u64
    }
}

impl ServiceView {
    /// The service in another lifecycle state, with a note.
    pub open spec fn in_state(self, s: u8, note: Seq<char>) -> ServiceView {
        ServiceView { state: s, last_event: note, ..self }
    }
}

impl Service {
    /// A service that has just started: no device known, no owner.
    pub fn new() -> (r: Service)
        ensures
            r@ == (ServiceView {
                state: STATE_NEEDS_ENROLL,
                last_event: "boot"@,
                owner: None,
                generation: 0,
            }),
    {
        Service {
            state: STATE_NEEDS_ENROLL,
            last_event: "boot".to_owned(),
            owner: None,
            generation: 0,
        }
    }

    /// Moves to a lifecycle state. The result is the detail of the event to
    /// log.
    pub fn set_state(&mut self, s: u8, note: &str) -> (r: String)
        ensures
            final(self)@ == old(self)@.in_state(s, note@),
            r@ == name_of(s) + " note="@ + note@,
    {
        self.state = s;
        self.last_event = note.to_owned();
        name(s).to_owned().concat(" note=").concat(note)
    }

    /// Name of the current state.
    pub fn state_name(&self) -> (r: &'static str)
        ensures
            r@ == name_of(self@.state),
    {
        name(self.state)
    }

    /// The note of the last move.
    pub fn last_event_text(&self) -> (r: String)
        ensures
            r@ == self@.last_event,
    {
        self.last_event.clone()
    }

    /// Sets the owner.
    pub fn set_owning_sid(&mut self, sid: &str)
        ensures
            final(self)@ == (ServiceView { owner: Some(sid@), ..old(self)@ }),
    {
        self.owner = Some(sid.to_owned());
    }

    /// The owner.
    pub fn owning_sid_get(&self) -> (r: Option<String>)
        ensures
            atrest::opt(r) == self@.owner,
    {
        copy_opt(&self.owner)
    }

    /// The run that a stop goes to.
    pub fn engine_cancel(&self) -> (r: u64)
        ensures
            r == self@.generation,
    {
        self.generation
    }

    /// Numbers a new run: later stops go to it, none that went before.
    pub fn engine_cancel_arm_fresh(&mut self) -> (r: u64)
        ensures
            final(self)@ == (ServiceView {
                generation: next_generation(old(self)@.generation),
                ..old(self)@
            }),
            r == final(self)@.generation,
            r != old(self)@.generation,
    {
        self.generation = if self.generation == u64::MAX {
            0
        } else {
            self.generation + 1
        };
        self.generation
    }

    /// Whether a peer may use what the service listens on: anyone while there
    /// is no owner, else only the owner, and nobody who cannot be attributed.
    pub fn isolation_allows(&self, attributed: &Result<PeerOwner, PeerError>) -> (r: bool)
        ensures
            r == match self@.owner {
                None => true,
                Some(o) => peer::admits(o, *attributed),
            },
    {
        match &self.owner {
            None => true,
            Some(o) => peer::lets_in(o.as_str(), attributed),
        }
    }
}

// ---------------------------------------------------------------------
// Configuration
// ---------------------------------------------------------------------

/// What the service is configured with.
#[derive(Debug)]
pub struct SvcConfig {
    pub controller_url: String,
    pub controller_enroll_url: Option<String>,
    /// Destinations served while connected.
    pub dests: Vec<String>,
    /// Private DNS responder.
    pub dns: Option<String>,
    pub metrics: Option<String>,
    /// Where requests come in: a socket path, or a loopback address.
    pub ipc_bind: String,
    pub local_port: Option<u16>,
}

impl Default for SvcConfig {
    fn default() -> (r: SvcConfig)
        ensures
            r.controller_url@.len() == 0,
            r.controller_enroll_url is None,
            r.dests@.len() == 0,
            r.dns is None,
            r.metrics is None,
            r.ipc_bind@.len() == 0,
            r.local_port is None,
    {
        let no_chars: Vec<char> = Vec::new();
        SvcConfig {
            controller_url: text::string(no_chars.as_slice()),
            controller_enroll_url: None,
            dests: Vec::new(),
            dns: None,
            metrics: None,
            ipc_bind: text::string(no_chars.as_slice()),
            local_port: None,
        }
    }
}

/// Where requests come in when a configuration file does not say.
pub fn default_ipc(windows: bool) -> (r: String)
    ensures
        r@ == if windows {
            "127.0.0.1:29171"@
        } else {
            "/run/aztna-client/ipc.sock"@
        },
{
    if windows {
        "127.0.0.1:29171".to_owned()
    } else {
        "/run/aztna-client/ipc.sock".to_owned()
    }
}

/// A directory, and the directory under it that is meant, where there is one.
#[derive(Debug)]
pub struct Home {
    pub base: String,
    pub leaf: Option<String>,
}

/// The service's home: the one that is named, else the platform's.
pub fn svc_home(named: Option<String>, program_data: Option<String>, windows: bool) -> (r: Home)
    ensures
        match named {
            Some(d) => r.base@ == d@ && r.leaf is None,
            None => if windows {
                match program_data {
                    Some(pd) => r.base@ == pd@ && atrest::opt(r.leaf) == Some("aztna"@),
                    None => r.base@ == ".aztna-svc"@ && r.leaf is None,
                }
            } else {
                r.base@ == "/var/lib/aztna-client"@ && r.leaf is None
            },
        },
{
    match named {
        Some(d) => Home { base: d, leaf: None },
        None => if windows {
            match program_data {
                Some(pd) => Home { base: pd, leaf: Some("aztna".to_owned()) },
                None => Home { base: ".aztna-svc".to_owned(), leaf: None },
            }
        } else {
            Home { base: "/var/lib/aztna-client".to_owned(), leaf: None }
        },
    }
}

/// The characters of a registry text of `size` bytes, without its final zero.
pub open spec fn override_units(units: Seq<u16>, size: u32) -> Seq<u16> {
    let n = size as int / 2;
    units.subrange(
        0,
        if n == 0 {
            0
        } else {
            n - 1
        },
    )
}

/// The controller that the installer left in the registry: none where it
/// could not be read.
pub fn registry_controller_override(found: bool, units: &[u16], size: u32) -> (r: Option<String>)
    requires
        size as int / 2 <= units@.len(),
    ensures
        match r {
            Some(s) => found && s@ == crate::posture_probes::utf16_lossy(
                override_units(units@, size),
            ),
            None => !found,
        },
{
    if !found {
        return None;
    }
    let n: usize = (size / 2) as usize;
    let end: usize = if n == 0 {
        0
    } else {
        n - 1
    };
    let cut = vstd::slice::slice_subrange(units, 0, end);
    Some(crate::posture_probes::from_utf16_lossy(cut))
}

/// Completes a configuration: on Windows, one that names no controller takes
/// the installer's.
pub fn load_config(cfg: SvcConfig, windows: bool, installed: Option<String>) -> (r: SvcConfig)
    ensures
        r == (SvcConfig { controller_url: r.controller_url, ..cfg }),
        r.controller_url@ == if windows && cfg.controller_url@.len() == 0 {
            match installed {
                Some(u) => u@,
                None => Seq::empty(),
            }
        } else {
            cfg.controller_url@
        },
{
    let mut out = cfg;
    let cs = text::chars(out.controller_url.as_str());
    if windows && cs.len() == 0 {
        if let Some(u) = installed {
            out.controller_url = u;
        }
    }
    out
}

// ---------------------------------------------------------------------
// Requests
// ---------------------------------------------------------------------

/// A request of a local user.
#[derive(Debug)]
pub struct IpcReq {
    /// Version of the form: 1.
    pub v: u32,
    pub cmd: String,
    pub token: Option<String>,
}

/// What an answer adds.
#[derive(Debug)]
pub enum Detail {
    /// What is served, and the note of the last move.
    Status { dests: Vec<String>, last_event: String },
    /// Where the diagnostics are, and whether something was out of reach.
    Bundle { dir: String, partial: bool },
}

/// Model of a [`Detail`].
pub enum DetailView {
    Status { dests: Seq<Seq<char>>, last_event: Seq<char> },
    Bundle { dir: Seq<char>, partial: bool },
}

impl View for Detail {
    type V = DetailView;

    open spec fn view(&self) -> DetailView {
        match *self {
            Detail::Status { dests, last_event } => DetailView::Status {
                dests: text::strs(dests@),
                last_event: last_event@,
            },
            Detail::Bundle { dir, partial } => DetailView::Bundle { dir: dir@, partial },
        }
    }
}

/// An answer.
#[derive(Debug)]
pub struct IpcResp {
    pub ok: bool,
    /// Name of the service's state.
    pub state: String,
    pub error: Option<String>,
    pub detail: Option<Detail>,
}

/// Model of an [`IpcResp`].
pub struct RespView {
    pub ok: bool,
    pub state: Seq<char>,
    pub error: Option<Seq<char>>,
    pub detail: Option<DetailView>,
}

impl View for IpcResp {
    type V = RespView;

    open spec fn view(&self) -> RespView {
        RespView {
            ok: self.ok,
            state: self.state@,
            error: atrest::opt(self.error),
            detail: match self.detail {
                Some(d) => Some(d@),
                None => None,
            },
        }
    }
}

/// A request's outcome under the name it is counted by.
pub struct Counted {
    pub kind: String,
    pub result: &'static str,
}

/// The counter's label for an outcome.
pub open spec fn outcome(ok: bool) -> Seq<char> {
    if ok {
        "ok"@
    } else {
        "error"@
    }
}

/// The labels a request is counted under.
pub fn ipc_count(kind: &str, ok: bool) -> (r: Counted)
    ensures
        r.kind@ == kind@,
        r.result@ == outcome(ok),
{
    Counted {
        kind: kind.to_owned(),
        result: if ok {
            "ok"
        } else {
            "error"
        },
    }
}

/// A plain yes from a service.
pub open spec fn yes(s: ServiceView) -> RespView {
    RespView { ok: true, state: name_of(s.state), error: None, detail: None }
}

/// A no from a service.
pub open spec fn no(s: ServiceView, why: Seq<char>) -> RespView {
    RespView { ok: false, state: name_of(s.state), error: Some(why), detail: None }
}

/// Whether a caller may act: never one that cannot be attributed; anyone
/// while there is no owner; else the owner.
pub open spec fn authorized(owner: Option<Seq<char>>, caller: Option<Seq<char>>) -> bool {
    match (owner, caller) {
        (_, None) => false,
        (None, Some(_)) => true,
        (Some(o), Some(c)) => c.len() > 0 && c == o,
    }
}

/// What a request leads to.
#[derive(Debug)]
pub enum Step {
    /// Answer.
    Reply(IpcResp),
    /// Put the token into the stored state; the caller becomes the owner.
    Login { token: String, caller: String },
    /// Start the engine on the stored state.
    Connect,
    /// Stop the engine's run of this number, then answer.
    Stop { generation: u64, resp: IpcResp },
    /// Collect diagnostics.
    Diagnose,
}

/// Model of a [`Step`].
pub enum StepView {
    Reply(RespView),
    Login { token: Seq<char>, caller: Seq<char> },
    Connect,
    Stop { generation: u64, resp: RespView },
    Diagnose,
}

impl View for Step {
    type V = StepView;

    open spec fn view(&self) -> StepView {
        match *self {
            Step::Reply(r) => StepView::Reply(r@),
            Step::Login { token, caller } => StepView::Login { token: token@, caller: caller@ },
            Step::Connect => StepView::Connect,
            Step::Stop { generation, resp } => StepView::Stop { generation, resp: resp@ },
            Step::Diagnose => StepView::Diagnose,
        }
    }
}

/// The note of a stop.
pub open spec fn stopped(s: ServiceView) -> ServiceView {
    s.in_state(STATE_DISCONNECTED, "engine stopped by request"@)
}

/// What a caller reads whose command is not known, or not theirs to give.
pub open spec fn refused(cmd: Seq<char>, owned: bool) -> Seq<char> {
    "unknown or unauthorized command "@ + cmd + " (owner set: "@ + crate::posture_probes::truth(
        owned,
    ) + ")"@
}

/// The service after a request is read, and what the request leads to.
pub open spec fn dispatched(
    s: ServiceView,
    req: Option<IpcReq>,
    caller: Option<Seq<char>>,
    dests: Seq<Seq<char>>,
) -> (ServiceView, StepView) {
    match req {
        None => (s, StepView::Reply(no(s, "bad request"@))),
        Some(q) => {
            let may = authorized(s.owner, caller);
            if q.v != 1 {
                (s, StepView::Reply(no(s, "bad request"@)))
            } else if q.cmd@ == "status"@ {
                (
                    s,
                    StepView::Reply(
                        RespView {
                            ok: true,
                            state: name_of(s.state),
                            error: None,
                            detail: Some(
                                DetailView::Status { dests, last_event: s.last_event },
                            ),
                        },
                    ),
                )
            } else if may && q.cmd@ == "login"@ {
                if q.token is Some && q.token->Some_0@.len() > 0 {
                    (s, StepView::Login { token: q.token->Some_0@, caller: caller->Some_0 })
                } else {
                    (s, StepView::Reply(no(s, "login requires a token"@)))
                }
            } else if may && q.cmd@ == "connect"@ {
                (s, StepView::Connect)
            } else if may && q.cmd@ == "disconnect"@ {
                (
                    stopped(s),
                    StepView::Stop { generation: s.generation, resp: yes(stopped(s)) },
                )
            } else if may && q.cmd@ == "diagnostics"@ {
                (s, StepView::Diagnose)
            } else {
                (s, StepView::Reply(no(s, refused(q.cmd@, s.owner is Some))))
            }
        },
    }
}

/// The kind and outcome that a request counts under as soon as it is read; a
/// connect counts only once its outcome is known.
pub open spec fn counted(
    s: ServiceView,
    req: Option<IpcReq>,
    caller: Option<Seq<char>>,
) -> Option<(Seq<char>, bool)> {
    match req {
        None => Some(("status"@, false)),
        Some(q) => {
            let may = authorized(s.owner, caller);
            if q.v != 1 {
                Some(("status"@, false))
            } else if q.cmd@ == "status"@ {
                Some((q.cmd@, true))
            } else if may && (q.cmd@ == "login"@ || q.cmd@ == "disconnect"@ || q.cmd@
                == "diagnostics"@) {
                Some((q.cmd@, true))
            } else if may && q.cmd@ == "connect"@ {
                None
            } else {
                Some((q.cmd@, false))
            }
        },
    }
}

/// Whether labels are those of an outcome.
pub open spec fn counts(c: Option<Counted>, want: Option<(Seq<char>, bool)>) -> bool {
    match (c, want) {
        (None, None) => true,
        (Some(l), Some(w)) => l.kind@ == w.0 && l.result@ == outcome(w.1),
        _ => false,
    }
}

/// What a connect leads to.
#[derive(Debug)]
pub enum Connected {
    /// Answer no.
    Refused(IpcResp),
    /// Start the engine as this run, at this controller, then answer.
    Started { generation: u64, controller: String, args: AccessArgs, resp: IpcResp },
}

fn copies(v: &Vec<String>) -> (r: Vec<String>)
    ensures
        text::strs(r@) == text::strs(v@),
{
    let mut out: Vec<String> = Vec::new();
    let mut i: usize = 0;
    while i < v.len()
        invariant
            i <= v@.len(),
            text::strs(out@) == text::strs(v@).subrange(0, i as int),
        decreases v@.len() - i,
    {
        let ghost before = out@;
        out.push(v[i].clone());
        assert(text::strs(out@) =~= text::strs(before).push(v@[i as int]@));
        assert(text::strs(v@).subrange(0, i + 1) =~= text::strs(v@).subrange(0, i as int).push(
            text::strs(v@)[i as int],
        ));
        i += 1;
    }
    assert(text::strs(v@).subrange(0, i as int) =~= text::strs(v@));
    out
}

/// Port that the first listener takes when the configuration names none.
pub const DEFAULT_LOCAL_PORT: u16 = 21600;

/// Whether the engine's arguments are those a configuration asks for.
pub open spec fn engine_args(cfg: SvcConfig, a: AccessArgs) -> bool {
    &&& text::strs(a.dest@) == text::strs(cfg.dests@)
    &&& a.local_port == match cfg.local_port {
        Some(p) => p,
        None => DEFAULT_LOCAL_PORT,
    }
    &&& a.serve
    &&& a.gateway_relay is None
    &&& a.transport == TransportKind::Auto
    &&& a.bind@ == "127.0.0.1"@
    &&& !a.print_token
    &&& atrest::opt(a.dns) == atrest::opt(cfg.dns)
    &&& a.metrics is None
    &&& a.proto@ == "tcp"@
}

impl Service {
    fn ok_resp(&self) -> (r: IpcResp)
        ensures
            r@ == yes(self@),
    {
        IpcResp { ok: true, state: self.state_name().to_owned(), error: None, detail: None }
    }

    fn err_resp(&self, e: &str) -> (r: IpcResp)
        ensures
            r@ == no(self@, e@),
    {
        IpcResp {
            ok: false,
            state: self.state_name().to_owned(),
            error: Some(e.to_owned()),
            detail: None,
        }
    }

    /// Reads a request, `None` standing for one that does not parse. `caller`
    /// is the attributed user, where there is one.
    pub fn ipc_dispatch(
        &mut self,
        parsed: Option<IpcReq>,
        caller: Option<String>,
        cfg: &SvcConfig,
    ) -> (r: (Step, Option<Counted>))
        ensures
            (final(self)@, r.0@) == dispatched(
                old(self)@,
                parsed,
                atrest::opt(caller),
                text::strs(cfg.dests@),
            ),
            counts(r.1, counted(old(self)@, parsed, atrest::opt(caller))),
    {
        let req = match parsed {
            Some(q) => q,
            None => {
                return (
                    Step::Reply(self.err_resp("bad request")),
                    Some(ipc_count("status", false)),
                );
            },
        };
        if req.v != 1 {
            return (
                Step::Reply(self.err_resp("bad request")),
                Some(ipc_count("status", false)),
            );
        }
        let may = match &caller {
            None => false,
            Some(c) => match &self.owner {
                None => true,
                Some(o) => peer::peer_allowed(o.as_str(), c.as_str()),
            },
        };
        proof {
            reveal_strlit("status");
            reveal_strlit("login");
            reveal_strlit("connect");
            reveal_strlit("disconnect");
            reveal_strlit("diagnostics");
        }
        if text::str_eq(req.cmd.as_str(), "status") {
            let resp = IpcResp {
                ok: true,
                state: self.state_name().to_owned(),
                error: None,
                detail: Some(
                    Detail::Status {
                        dests: copies(&cfg.dests),
                        last_event: self.last_event_text(),
                    },
                ),
            };
            return (Step::Reply(resp), Some(ipc_count("status", true)));
        }
        if may {
            if text::str_eq(req.cmd.as_str(), "login") {
                let labels = Some(ipc_count("login", true));
                if let Some(t) = req.token {
                    let cs = text::chars(t.as_str());
                    if cs.len() > 0 {
                        if let Some(c) = caller {
                            return (Step::Login { token: t, caller: c }, labels);
                        }
                    }
                }
                return (Step::Reply(self.err_resp("login requires a token")), labels);
            }
            if text::str_eq(req.cmd.as_str(), "connect") {
                return (Step::Connect, None);
            }
            if text::str_eq(req.cmd.as_str(), "disconnect") {
                let generation: u64 = self.engine_cancel();
                let _ = self.set_state(STATE_DISCONNECTED, "engine stopped by request");
                return (
                    Step::Stop { generation, resp: self.ok_resp() },
                    Some(ipc_count("disconnect", true)),
                );
            }
            if text::str_eq(req.cmd.as_str(), "diagnostics") {
                return (Step::Diagnose, Some(ipc_count("diagnostics", true)));
            }
        }
        let mut why = text::chars("unknown or unauthorized command ");
        text::push_str(&mut why, req.cmd.as_str());
        text::push_str(&mut why, " (owner set: ");
        let owned = crate::posture_probes::truth_text(self.owner.is_some());
        text::push_str(&mut why, owned.as_str());
        text::push_str(&mut why, ")");
        let e = text::string(why.as_slice());
        (Step::Reply(self.err_resp(e.as_str())), Some(ipc_count(req.cmd.as_str(), false)))
    }

    /// The token is stored: its bringer becomes the owner.
    pub fn logged_in(&mut self, caller: &str) -> (r: IpcResp)
        ensures
            final(self)@ == (ServiceView { owner: Some(caller@), ..old(self)@ }).in_state(
                STATE_DISCONNECTED,
                "token handed off; ready to connect"@,
            ),
            r@ == yes(final(self)@),
    {
        self.set_owning_sid(caller);
        let _ = self.set_state(STATE_DISCONNECTED, "token handed off; ready to connect");
        self.ok_resp()
    }

    /// Starts the engine on a state: refused without a token, or with nothing
    /// to serve.
    pub fn connect(&mut self, st: &ClientState, cfg: &SvcConfig) -> (r: (Connected, Counted))
        ensures
            r.1.kind@ == "connect"@,
            r.1.result@ == outcome(r.0 is Started),
            match r.0 {
                Connected::Refused(resp) => final(self)@ == old(self)@ && if st@.access_token
                    is None {
                    resp@ == no(old(self)@, "no token - login first"@)
                } else {
                    cfg.dests@.len() == 0 && cfg.dns is None && resp@ == no(
                        old(self)@,
                        "no dests configured and no dns responder - nothing to serve"@,
                    )
                },
                Connected::Started { generation, controller, args, resp } => {
                    &&& st@.access_token is Some
                    &&& cfg.dests@.len() > 0 || cfg.dns is Some
                    &&& generation == next_generation(old(self)@.generation)
                    &&& controller@ == cfg.controller_url@
                    &&& engine_args(*cfg, args)
                    &&& final(self)@ == (ServiceView { generation, ..old(self)@ }).in_state(
                        STATE_CONNECTED,
                        "engine serving configured dests"@,
                    )
                    &&& resp@ == yes(final(self)@)
                },
            },
    {
        if st.access_token.is_none() {
            return (
                Connected::Refused(self.err_resp("no token - login first")),
                ipc_count("connect", false),
            );
        }
        if cfg.dests.len() == 0 && cfg.dns.is_none() {
            return (
                Connected::Refused(
                    self.err_resp("no dests configured and no dns responder - nothing to serve"),
                ),
                ipc_count("connect", false),
            );
        }
        let generation: u64 = self.engine_cancel_arm_fresh();
        let _ = self.set_state(STATE_CONNECTED, "engine serving configured dests");
        let args = AccessArgs {
            dest: copies(&cfg.dests),
            local_port: match cfg.local_port {
                Some(p) => p,
                None => DEFAULT_LOCAL_PORT,
            },
            serve: true,
            gateway_relay: None,
            transport: TransportKind::Auto,
            bind: "127.0.0.1".to_owned(),
            print_token: false,
            dns: copy_opt(&cfg.dns),
            metrics: None,
            proto: "tcp".to_owned(),
        };
        (
            Connected::Started {
                generation,
                controller: cfg.controller_url.clone(),
                args,
                resp: self.ok_resp(),
            },
            ipc_count("connect", true),
        )
    }

    /// Answers with the diagnostics that were collected, or why there are
    /// none.
    pub fn bundle_reply(&self, found: Result<(String, bool), String>) -> (r: IpcResp)
        ensures
            r@ == match found {
                Ok(b) => RespView {
                    ok: true,
                    state: name_of(self@.state),
                    error: None,
                    detail: Some(DetailView::Bundle { dir: b.0@, partial: b.1 }),
                },
                Err(e) => no(self@, "bundle failed: "@ + e@),
            },
    {
        match found {
            Ok(b) => IpcResp {
                ok: true,
                state: self.state_name().to_owned(),
                error: None,
                detail: Some(Detail::Bundle { dir: b.0, partial: b.1 }),
            },
            Err(e) => self.err_resp("bundle failed: ".to_owned().concat(e.as_str()).as_str()),
        }
    }

    /// Answers a request that failed underway.
    pub fn internal_reply(&self, e: &str) -> (r: IpcResp)
        ensures
            r@ == no(self@, "ipc internal: "@ + e@),
    {
        self.err_resp("ipc internal: ".to_owned().concat(e).as_str())
    }
}

/// Puts a token that was handed over into the state, with the service's
/// controller.
pub fn login_state(st: &mut ClientState, token: String, cfg: &SvcConfig)
    ensures
        final(st)@ == (StateView {
            access_token: Some(token@),
            controller_url: cfg.controller_url@,
            controller_enroll_url: match cfg.controller_enroll_url {
                Some(e) => Some(e@),
                None => old(st)@.controller_enroll_url,
            },
            ..old(st)@
        }),
{
    st.access_token = Some(token);
    st.controller_url = cfg.controller_url.clone();
    if let Some(e) = &cfg.controller_enroll_url {
        st.controller_enroll_url = Some(e.clone());
    }
}

/// Law: a request from a caller who may not act leaves the service as it is,
/// and leads to an answer: the status, where that was asked for, else a no.
pub proof fn law_unauthorized_changes_nothing(
    s: ServiceView,
    req: Option<IpcReq>,
    caller: Option<Seq<char>>,
    dests: Seq<Seq<char>>,
)
    requires
        !authorized(s.owner, caller),
    ensures
        dispatched(s, req, caller, dests).0 == s,
        dispatched(s, req, caller, dests).1 matches StepView::Reply(r) && (r.ok ==> (req
            matches Some(q) && q.cmd@ == "status"@)),
{
}

/// Law: once a user has handed over a token, no other user can act, and
/// nobody who cannot be attributed.
pub proof fn law_handoff_excludes_others(owner: Seq<char>, other: Option<Seq<char>>)
    requires
        other != Some(owner),
    ensures
        !authorized(Some(owner), other),
{
}

/// Law: only a disconnect stops the engine, and it stops the current run.
pub proof fn law_stop_goes_to_current_run(
    s: ServiceView,
    req: Option<IpcReq>,
    caller: Option<Seq<char>>,
    dests: Seq<Seq<char>>,
)
    ensures
        dispatched(s, req, caller, dests).1 matches StepView::Stop { generation, .. } ==> {
            &&& generation == s.generation
            &&& authorized(s.owner, caller)
            &&& req matches Some(q) && q.cmd@ == "disconnect"@
            &&& dispatched(s, req, caller, dests).0.state == STATE_DISCONNECTED
        },
{
}

/// The line of an answer, where there is one.
pub fn reply_line(got: &Option<String>) -> (r: Option<String>)
    ensures
        match r {
            Some(l) => *got is Some && l@ == text::trimmed(got->Some_0@) && l@.len() > 0,
            None => *got is None || text::trimmed(got->Some_0@).len() == 0,
        },
{
    match got {
        None => None,
        Some(s) => {
            let cs = text::chars(s.as_str());
            let t = text::trim(cs.as_slice());
            if t.len() == 0 {
                None
            } else {
                Some(text::string(t.as_slice()))
            }
        },
    }
}

/// The user of a connected peer from its audit token: the second of its eight
/// words, where the whole token came back.
pub fn token_uid(rc: i32, len: u32, token: &[u32; 8]) -> (r: Option<u32>)
    ensures
        r == if rc == 0 && len == 32 {
            Some(token@[1])
        } else {
            None
        },
{
    if rc == 0 && len == 32 {
        Some(token[1])
    } else {
        None
    }
}

// ---------------------------------------------------------------------
// Start
// ---------------------------------------------------------------------

/// What the service does about enrollment when it starts.
#[derive(Debug)]
pub enum Bootstrap {
    /// There is a device.
    Enrolled,
    /// Enroll with this token.
    Enroll(String),
    /// Nothing to enroll with.
    Wait,
}

impl Service {
    /// Looks at the device and the token file's content.
    pub fn bootstrap(&mut self, st: &ClientState, token_file: &Option<String>) -> (r: Bootstrap)
        ensures
            ({
                let token = match *token_file {
                    Some(t) => text::trimmed(t@),
                    None => Seq::empty(),
                };
                if st@.device_id is Some {
                    r is Enrolled && final(self)@ == old(self)@
                } else if token.len() > 0 {
                    r matches Bootstrap::Enroll(t) && t@ == token && final(self)@ == old(
                        self,
                    )@.in_state(STATE_NEEDS_ENROLL, "bootstrap enrollment starting"@)
                } else {
                    r is Wait && final(self)@ == old(self)@.in_state(
                        STATE_NEEDS_ENROLL,
                        "no device + no bootstrap token"@,
                    )
                }
            }),
    {
        if st.device_id.is_some() {
            return Bootstrap::Enrolled;
        }
        match reply_line(token_file) {
            Some(t) => {
                let _ = self.set_state(STATE_NEEDS_ENROLL, "bootstrap enrollment starting");
                Bootstrap::Enroll(t)
            },
            None => {
                let _ = self.set_state(STATE_NEEDS_ENROLL, "no device + no bootstrap token");
                Bootstrap::Wait
            },
        }
    }

    /// The enrollment failed.
    pub fn bootstrap_failed(&mut self)
        ensures
            final(self)@ == old(self)@.in_state(STATE_NEEDS_ENROLL, "bootstrap enroll failed"@),
    {
        let _ = self.set_state(STATE_NEEDS_ENROLL, "bootstrap enroll failed");
    }

    /// Ready to connect, where there is a device.
    pub fn ready(&mut self, st: &ClientState)
        ensures
            final(self)@ == if st@.device_id is Some {
                old(self)@.in_state(STATE_DISCONNECTED, "ready"@)
            } else {
                old(self)@
            },
    {
        if st.device_id.is_some() {
            let _ = self.set_state(STATE_DISCONNECTED, "ready");
        }
    }
}

/// The first of several names that is there and not empty.
pub open spec fn first_name(names: Seq<Option<Seq<char>>>) -> Option<Seq<char>>
    decreases names.len(),
{
    if names.len() == 0 {
        None
    } else if names[0] is Some && names[0]->Some_0.len() > 0 {
        names[0]
    } else {
        first_name(names.drop_first())
    }
}

/// The host's name. On Windows the computer's, as it stands; elsewhere that of
/// the environment, else of the name file, else the machine identifier.
pub fn host_name(
    windows: bool,
    from_env: Option<String>,
    from_file: &Option<String>,
    from_hw: Option<String>,
) -> (r: String)
    ensures
        ({
            let fallback = "svc-host"@;
            let file = match *from_file {
                Some(f) => Some(text::trimmed(f@)),
                None => None,
            };
            r@ == if windows {
                match from_env {
                    Some(h) => h@,
                    None => fallback,
                }
            } else {
                match first_name(seq![atrest::opt(from_env), file]) {
                    Some(h) => h,
                    None => match from_hw {
                        Some(h) => h@,
                        None => fallback,
                    },
                }
            }
        }),
{
    proof {
        reveal_with_fuel(first_name, 3);
    }
    if windows {
        return match from_env {
            Some(h) => h,
            None => "svc-host".to_owned(),
        };
    }
    let ghost file = match from_file {
        Some(f) => Some(text::trimmed(f@)),
        None => None,
    };
    let ghost names = seq![atrest::opt(from_env), file];
    assert(names.drop_first() =~= seq![file]);
    assert(seq![file].drop_first() =~= Seq::<Option<Seq<char>>>::empty());
    if let Some(h) = from_env {
        let cs = text::chars(h.as_str());
        if cs.len() > 0 {
            return h;
        }
    }
    if let Some(h) = reply_line(from_file) {
        return h;
    }
    match from_hw {
        Some(h) => h,
        None => "svc-host".to_owned(),
    }
}

/// Who made the socket that requests come in at.
#[derive(Debug, Clone, Copy, PartialEq, Eq, Structural)]
pub enum Activation {
    Launchd,
    Systemd,
    /// The service binds its own.
    Own,
}

/// Reads the two activation variables.
pub fn activation(launchd: &Option<String>, listen_fds: &Option<String>) -> (r: Activation)
    ensures
        r == if atrest::opt(*launchd) == Some("1"@) {
            Activation::Launchd
        } else if atrest::opt(*listen_fds) == Some("1"@) {
            Activation::Systemd
        } else {
            Activation::Own
        },
{
    if let Some(v) = launchd {
        if text::str_eq(v.as_str(), "1") {
            return Activation::Launchd;
        }
    }
    if let Some(v) = listen_fds {
        if text::str_eq(v.as_str(), "1") {
            return Activation::Systemd;
        }
    }
    Activation::Own
}

/// What a descriptor is.
#[derive(Debug, Clone, Copy, PartialEq, Eq, Structural)]
pub struct FdProbe {
    /// It is the socket at the wanted path.
    pub wanted: bool,
    /// It is some local socket.
    pub local: bool,
}

/// How many of the descriptors are local sockets.
pub open spec fn locals(fds: Seq<FdProbe>) -> nat
    decreases fds.len(),
{
    if fds.len() == 0 {
        0
    } else {
        locals(fds.drop_last()) + if fds.last().local {
            1nat
        } else {
            0
        }
    }
}

/// Whether `i` is the first descriptor at the wanted path.
pub open spec fn first_wanted(fds: Seq<FdProbe>, i: int) -> bool {
    &&& 0 <= i < fds.len()
    &&& fds[i].wanted
    &&& forall|j: int| 0 <= j < i ==> !(#[trigger] fds[j]).wanted
}

/// The descriptor that was handed over: the first at the wanted path, else
/// the one local socket, where there is exactly one.
pub fn handed_fd(fds: &Vec<FdProbe>) -> (r: Option<usize>)
    ensures
        match r {
            Some(i) => first_wanted(fds@, i as int) || {
                &&& forall|j: int| 0 <= j < fds@.len() ==> !(#[trigger] fds@[j]).wanted
                &&& locals(fds@) == 1
                &&& i < fds@.len()
                &&& fds@[i as int].local
            },
            None => {
                &&& forall|j: int| 0 <= j < fds@.len() ==> !(#[trigger] fds@[j]).wanted
                &&& locals(fds@) != 1
            },
        },
{
    let mut fallback: Option<usize> = None;
    let mut n: usize = 0;
    let mut i: usize = 0;
    while i < fds.len()
        invariant
            i <= fds@.len(),
            n <= i,
            n == locals(fds@.subrange(0, i as int)),
            forall|j: int| 0 <= j < i ==> !(#[trigger] fds@[j]).wanted,
            fallback is None ==> n == 0,
            fallback matches Some(f) ==> f < fds@.len() && fds@[f as int].local,
        decreases fds@.len() - i,
    {
        if fds[i].wanted {
            return Some(i);
        }
        let ghost upto = fds@.subrange(0, i + 1);
        assert(upto.drop_last() =~= fds@.subrange(0, i as int));
        assert(upto.last() == fds@[i as int]);
        if fds[i].local {
            n += 1;
            if fallback.is_none() {
                fallback = Some(i);
            }
        }
        i += 1;
    }
    assert(fds@.subrange(0, i as int) =~= fds@);
    if n == 1 {
        fallback
    } else {
        None
    }
}

/// A line of the descriptor table that is written when nothing fits.
pub fn fd_line(fd: u32, socket: bool, accepting: bool, path: &str, wanted: bool) -> (r: String)
    ensures
        r@ == "fd "@ + text::decimal(fd as nat) + ": socket="@ + crate::posture_probes::truth(
            socket,
        ) + " accept="@ + crate::posture_probes::truth(accepting) + " path="@ + path@ + " match="@
            + crate::posture_probes::truth(wanted) + "\n"@,
{
    let mut out = text::chars("fd ");
    let n = text::dec(fd as u64);
    text::push_all(&mut out, n.as_slice());
    text::push_str(&mut out, ": socket=");
    let s = crate::posture_probes::truth_text(socket);
    text::push_str(&mut out, s.as_str());
    text::push_str(&mut out, " accept=");
    let a = crate::posture_probes::truth_text(accepting);
    text::push_str(&mut out, a.as_str());
    text::push_str(&mut out, " path=");
    text::push_str(&mut out, path);
    text::push_str(&mut out, " match=");
    let w = crate::posture_probes::truth_text(wanted);
    text::push_str(&mut out, w.as_str());
    text::push_str(&mut out, "\n");
    text::string(out.as_slice())
}

/// Law: the four states have four names, and what is no state is named as one
/// without a device.
pub proof fn law_state_names(a: u8, b: u8)
    ensures
        name_of(STATE_NEEDS_ENROLL) == "needs_enrollment"@,
        name_of(STATE_DISCONNECTED) == "disconnected"@,
        name_of(STATE_CONNECTED) == "connected"@,
        name_of(STATE_DEGRADED) == "degraded"@,
        a <= 3 && b <= 3 && name_of(a) == name_of(b) ==> a == b,
        a > 3 ==> name_of(a) == name_of(STATE_NEEDS_ENROLL),
{
    reveal_strlit("needs_enrollment");
    reveal_strlit("disconnected");
    reveal_strlit("connected");
    reveal_strlit("degraded");
    assert("needs_enrollment"@.len() == 16);
    assert("disconnected"@.len() == 12);
    assert("connected"@.len() == 9);
    assert("degraded"@.len() == 8);
}

/// Law: who may act. Before there is an owner, every attributed caller;
/// afterwards the owner and no one else; never a caller without attribution.
pub proof fn law_who_may_act(owner: Seq<char>, caller: Seq<char>)
    ensures
        authorized(None, Some(caller)),
        !authorized(None, None),
        !authorized(Some(owner), None),
        owner.len() > 0 ==> (authorized(Some(owner), Some(caller)) <==> caller == owner),
        owner.len() == 0 ==> !authorized(Some(owner), Some(caller)),
{
}

/// Law: what a caller who may act asks for is done: a login hands over the
/// token in the caller's name, a connect starts, a disconnect stops, and
/// diagnostics are collected. Only a disconnect changes the service at once.
pub proof fn law_commands_are_followed(
    s: ServiceView,
    q: IpcReq,
    caller: Option<Seq<char>>,
    dests: Seq<Seq<char>>,
)
    requires
        q.v == 1,
        authorized(s.owner, caller),
    ensures
        ({
            let (after, step) = dispatched(s, Some(q), caller, dests);
            &&& q.cmd@ == "login"@ && q.token is Some && q.token->Some_0@.len() > 0 ==> step == (
            StepView::Login { token: q.token->Some_0@, caller: caller->Some_0 })
            &&& q.cmd@ == "login"@ && (q.token is None || q.token->Some_0@.len() == 0) ==> (step
                matches StepView::Reply(r) && !r.ok && r.error == Some("login requires a token"@))
            &&& q.cmd@ == "connect"@ <==> step == StepView::Connect
            &&& q.cmd@ == "diagnostics"@ <==> step == StepView::Diagnose
            &&& q.cmd@ == "disconnect"@ <==> step is Stop
            &&& step is Login ==> q.cmd@ == "login"@
            &&& step matches StepView::Stop { resp, .. } ==> {
                &&& resp.ok && resp.state == "disconnected"@ && resp.error is None
                &&& after.state == STATE_DISCONNECTED
                &&& after.owner == s.owner && after.generation == s.generation
                &&& after.last_event == "engine stopped by request"@
            }
            &&& !(step is Stop) ==> after == s
        }),
{
    reveal_strlit("status");
    reveal_strlit("login");
    reveal_strlit("connect");
    reveal_strlit("disconnect");
    reveal_strlit("diagnostics");
    assert("status"@.len() == 6);
    assert("login"@.len() == 5);
    assert("connect"@.len() == 7);
    assert("disconnect"@.len() == 10);
    assert("diagnostics"@.len() == 11);
}

/// Law: every caller may ask for the status, and reads the service's state,
/// what is served and the note of the last move.
pub proof fn law_status_is_open(
    s: ServiceView,
    q: IpcReq,
    caller: Option<Seq<char>>,
    dests: Seq<Seq<char>>,
)
    requires
        q.v == 1,
        q.cmd@ == "status"@,
    ensures
        dispatched(s, Some(q), caller, dests).0 == s,
        dispatched(s, Some(q), caller, dests).1 matches StepView::Reply(r) && r.ok && r.state
            == name_of(s.state) && r.error is None && r.detail == Some(
            DetailView::Status { dests, last_event: s.last_event },
        ),
{
}

/// Law: a request that does not parse, or is of another form, is answered as a
/// bad one, whoever asks and whatever it asks.
pub proof fn law_bad_requests(
    s: ServiceView,
    req: Option<IpcReq>,
    caller: Option<Seq<char>>,
    dests: Seq<Seq<char>>,
)
    requires
        req matches Some(q) ==> q.v != 1,
    ensures
        dispatched(s, req, caller, dests).0 == s,
        dispatched(s, req, caller, dests).1 matches StepView::Reply(r) && !r.ok && r.error == Some(
            "bad request"@,
        ) && r.state == name_of(s.state),
        counted(s, req, caller) == Some(("status"@, false)),
{
}

/// Law: every answer names the state that the service is then in, and says
/// either yes or why not; a refused command is named in the answer.
pub proof fn law_answers_name_the_state(
    s: ServiceView,
    req: Option<IpcReq>,
    caller: Option<Seq<char>>,
    dests: Seq<Seq<char>>,
)
    ensures
        ({
            let (after, step) = dispatched(s, req, caller, dests);
            &&& step matches StepView::Reply(r) ==> r.state == name_of(after.state) && (r.ok
                <==> r.error is None)
            &&& step matches StepView::Stop { resp, .. } ==> resp.state == name_of(after.state)
            &&& step matches StepView::Reply(r) ==> (r.ok ==> r.detail is Some)
        }),
        ({
            let (_, step) = dispatched(s, req, caller, dests);
            &&& req matches Some(q) ==> (q.v == 1 && !authorized(s.owner, caller) && q.cmd@
                != "status"@ ==> (step matches StepView::Reply(r) && r.error == Some(
                "unknown or unauthorized command "@ + q.cmd@ + " (owner set: "@ + (
                if s.owner is Some {
                    "true"@
                } else {
                    "false"@
                }) + ")"@,
            )))
        }),
{
}

/// Law: a request is counted under its own name, as a success exactly where it
/// is the status or a known command of a caller who may act; a connect is
/// counted only once it is known how it went.
pub proof fn law_requests_are_counted(s: ServiceView, q: IpcReq, caller: Option<Seq<char>>)
    requires
        q.v == 1,
    ensures
        ({
            let c = counted(s, Some(q), caller);
            let may = authorized(s.owner, caller);
            let known = q.cmd@ == "login"@ || q.cmd@ == "disconnect"@ || q.cmd@ == "diagnostics"@;
            &&& c is None <==> may && q.cmd@ == "connect"@
            &&& c matches Some((kind, ok)) ==> kind == q.cmd@ && (ok <==> q.cmd@ == "status"@ || (
            may && known))
        }),
{
    reveal_strlit("status");
    reveal_strlit("login");
    reveal_strlit("connect");
    reveal_strlit("disconnect");
    reveal_strlit("diagnostics");
    assert("status"@.len() == 6);
    assert("login"@.len() == 5);
    assert("connect"@.len() == 7);
    assert("disconnect"@.len() == 10);
    assert("diagnostics"@.len() == 11);
}

/// Law: the labels of an outcome are two.
pub proof fn law_outcome_labels(ok: bool)
    ensures
        ok ==> outcome(ok) == "ok"@,
        !ok ==> outcome(ok) == "error"@,
{
}

/// Law: a new run has another number than the one before, the next one where
/// there is one.
pub proof fn law_runs_are_told_apart(g: u64)
    ensures
        next_generation(g) != g,
        g < u64::MAX ==> next_generation(g) == g + 1,
{
}

/// Law: the first name is one of those given, is not empty, and every name
/// before it is missing or empty; there is none exactly where all are.
pub proof fn law_first_name(names: Seq<Option<Seq<char>>>)
    ensures
        match first_name(names) {
            Some(n) => exists|i: int|
                #![trigger names[i]]
                0 <= i < names.len() && names[i] == Some(n) && n.len() > 0 && forall|j: int|
                    0 <= j < i ==> (#[trigger] names[j] matches Some(m) ==> m.len() == 0),
            None => forall|j: int|
                0 <= j < names.len() ==> (#[trigger] names[j] matches Some(m) ==> m.len() == 0),
        },
    decreases names.len(),
{
    if names.len() > 0 {
        if names[0] is Some && names[0]->Some_0.len() > 0 {
            assert(names[0] == Some(first_name(names)->Some_0));
        } else {
            let t = names.drop_first();
            law_first_name(t);
            match first_name(t) {
                Some(n) => {
                    let k = choose|i: int|
                        #![trigger t[i]]
                        0 <= i < t.len() && t[i] == Some(n) && n.len() > 0 && forall|j: int|
                            0 <= j < i ==> (#[trigger] t[j] matches Some(m) ==> m.len() == 0);
                    assert(names[k + 1] == Some(n));
                    assert forall|j: int| 0 <= j < k + 1 implies (#[trigger] names[j] matches Some(
                        m,
                    ) ==> m.len() == 0) by {
                        if j > 0 {
                            assert(names[j] == t[j - 1]);
                        }
                    }
                },
                None => {
                    assert forall|j: int| 0 <= j < names.len() implies (
                    #[trigger] names[j] matches Some(m) ==> m.len() == 0) by {
                        if j > 0 {
                            assert(names[j] == t[j - 1]);
                        }
                    }
                },
            }
        }
    }
}

/// Law: counting local sockets counts each once: none where none is local, and
/// two lists in a row have as many as both together.
pub proof fn law_locals_are_counted(a: Seq<FdProbe>, b: Seq<FdProbe>, f: FdProbe)
    ensures
        locals(a + b) == locals(a) + locals(b),
        locals(seq![f]) == if f.local {
            1nat
        } else {
            0
        },
        locals(Seq::empty()) == 0,
    decreases b.len(),
{
    assert(seq![f].drop_last() =~= Seq::<FdProbe>::empty());
    reveal_with_fuel(locals, 2);
    if b.len() == 0 {
        assert(a + b =~= a);
    } else {
        assert((a + b).drop_last() =~= a + b.drop_last());
        law_locals_are_counted(a, b.drop_last(), f);
    }
}

/// Law: a registry text of `size` bytes ends before its final unit: that many
/// units less one, from the front.
pub proof fn law_override_drops_final_unit(units: Seq<u16>, size: u32)
    requires
        2 <= size,
        size as int / 2 <= units.len(),
    ensures
        override_units(units, size).push(units[size as int / 2 - 1]) == units.subrange(
            0,
            size as int / 2,
        ),
{
    assert(override_units(units, size).push(units[size as int / 2 - 1]) =~= units.subrange(
        0,
        size as int / 2,
    ));
}

/// Law: what the engine is started with: the configured destinations in order,
/// the configured port or the default, on the loopback address, serving, over
/// whatever carrier there is, with no relay pinned and no token printed.
pub proof fn law_engine_args(cfg: SvcConfig, a: AccessArgs, i: int)
    requires
        engine_args(cfg, a),
    ensures
        a.dest@.len() == cfg.dests@.len(),
        0 <= i < cfg.dests@.len() ==> a.dest@[i]@ == cfg.dests@[i]@,
        cfg.local_port matches Some(p) ==> a.local_port == p,
        cfg.local_port is None ==> a.local_port == 21600,
        a.serve && !a.print_token && a.gateway_relay is None && a.metrics is None,
        a.transport == TransportKind::Auto,
        a.bind@ == "127.0.0.1"@ && a.proto@ == "tcp"@,
        a.dns is Some <==> cfg.dns is Some,
        cfg.dns matches Some(d) ==> (a.dns matches Some(e) && e@ == d@),
{
    assert(text::strs(a.dest@).len() == text::strs(cfg.dests@).len());
    if 0 <= i < cfg.dests@.len() {
        assert(text::strs(a.dest@)[i] == text::strs(cfg.dests@)[i]);
    }
}

/// Law: moving to a state keeps the owner and the run.
pub proof fn law_moving_keeps_owner_and_run(s: ServiceView, state: u8, note: Seq<char>)
    ensures
        s.in_state(state, note).state == state,
        s.in_state(state, note).last_event == note,
        s.in_state(state, note).owner == s.owner,
        s.in_state(state, note).generation == s.generation,
{
}

/// Law: the model of an answer, and of what a request leads to, holds each
/// part under its own name.
pub proof fn law_answer_model(r: IpcResp, token: String, caller: String, generation: u64)
    ensures
        r@.ok == r.ok,
        r@.state == r.state@,
        r.error matches Some(e) ==> r@.error == Some(e@),
        r.error is None ==> r@.error is None,
        r.detail is None ==> r@.detail is None,
        Step::Reply(r)@ == StepView::Reply(r@),
        (Step::Login { token, caller })@ == (StepView::Login { token: token@, caller: caller@ }),
        Step::Connect@ == StepView::Connect,
        Step::Diagnose@ == StepView::Diagnose,
        (Step::Stop { generation, resp: r })@ == (StepView::Stop { generation, resp: r@ }),
{
}

} // verus!
