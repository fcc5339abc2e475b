//! Serving one destination: what happens to an incoming connection, from the
//! check of its owner to the splice, and what is kept between connections.

use vstd::prelude::*;

use crate::text;

verus! {

/// A gateway a decision offers.
#[derive(Debug, Clone, PartialEq, Eq)]
pub struct Candidate {
    pub gateway_id: String,
    pub relay: String,
    /// Whether the gateway has the TLS carrier, where the decision says so.
    pub tls_tcp: Option<bool>,
}

/// A gateway entry of a decision, with the fields that were there.
#[derive(Debug, Clone, PartialEq, Eq)]
pub struct GatewayEntry {
    pub gateway_id: Option<String>,
    pub relay: Option<String>,
    pub tls_tcp: Option<bool>,
}

/// The value of a candidate.
pub struct CandidateView {
    pub gateway_id: Seq<char>,
    pub relay: Seq<char>,
    pub tls_tcp: Option<bool>,
}

impl View for Candidate {
    type V = CandidateView;

    open spec fn view(&self) -> CandidateView {
        CandidateView {
            gateway_id: self.gateway_id@,
            relay: self.relay@,
            tls_tcp: self.tls_tcp,
        }
    }
}

/// The candidates' values.
pub open spec fn candidate_views(v: Seq<Candidate>) -> Seq<CandidateView> {
    Seq::new(v.len(), |i: int| v[i]@)
}

/// The entries that name both a gateway and a relay, in order.
pub open spec fn usable(entries: Seq<GatewayEntry>) -> Seq<CandidateView>
    decreases entries.len(),
{
    if entries.len() == 0 {
        Seq::empty()
    } else {
        let e = entries.last();
        match (e.gateway_id, e.relay) {
            (Some(g), Some(r)) => usable(entries.drop_last()).push(
                CandidateView { gateway_id: g@, relay: r@, tls_tcp: e.tls_tcp },
            ),
            _ => usable(entries.drop_last()),
        }
    }
}

/// The gateways to dial: the override alone, where one is given (nothing is
/// known of its carriers), else the decision's usable entries.
pub open spec fn dial_list(pinned: Option<Seq<char>>, entries: Seq<GatewayEntry>) -> Seq<
    CandidateView,
> {
    match pinned {
        Some(r) => seq![CandidateView { gateway_id: "override"@, relay: r, tls_tcp: None }],
        None => usable(entries),
    }
}

/// The gateways to dial, in order.
pub fn candidates(relay_override: Option<&str>, entries: &Vec<GatewayEntry>) -> (r: Vec<Candidate>)
    ensures
        candidate_views(r@) == dial_list(
            match relay_override {
                Some(o) => Some(o@),
                None => None,
            },
            entries@,
        ),
{
    let mut out: Vec<Candidate> = Vec::new();
    if let Some(o) = relay_override {
        out.push(
            Candidate { gateway_id: "override".to_owned(), relay: o.to_owned(), tls_tcp: None },
        );
        assert(candidate_views(out@) =~= seq![
            CandidateView { gateway_id: "override"@, relay: o@, tls_tcp: None },
        ]);
        return out;
    }
    let mut i: usize = 0;
    assert(candidate_views(out@) =~= usable(entries@.subrange(0, 0)));
    while i < entries.len()
        invariant
            i <= entries@.len(),
            candidate_views(out@) == usable(entries@.subrange(0, i as int)),
        decreases entries@.len() - i,
    {
        let e = &entries[i];
        let ghost before = out@;
        assert(entries@.subrange(0, i + 1).drop_last() =~= entries@.subrange(0, i as int));
        if let (Some(g), Some(rl)) = (&e.gateway_id, &e.relay) {
            let c = Candidate { gateway_id: g.clone(), relay: rl.clone(), tls_tcp: e.tls_tcp };
            out.push(c);
            assert(candidate_views(out@) =~= candidate_views(before).push(c@));
        }
        i += 1;
    }
    assert(entries@.subrange(0, i as int) =~= entries@);
    out
}

/// What is kept between connections: the last decision, for information only
/// (one-time tokens cannot be minted offline), and the dial failures in a row.
pub struct ServeState {
    cached: Option<(String, i64)>,
    dial_failures: u32,
}

/// The value of that state.
pub struct ServeView {
    /// The decision in words, and when it expires.
    pub cached: Option<(Seq<char>, i64)>,
    pub dial_failures: u32,
}

impl View for ServeState {
    type V = ServeView;

    closed spec fn view(&self) -> ServeView {
        ServeView {
            cached: match self.cached {
                Some((s, t)) => Some((s@, t)),
                None => None,
            },
            dial_failures: self.dial_failures,
        }
    }
}

/// An allowing decision.
#[derive(Debug, Clone, PartialEq, Eq)]
pub struct Grant {
    pub matched_policy: Option<String>,
    pub ttl: Option<i64>,
    pub has_token: bool,
    /// Number of gateways to dial.
    pub candidates: usize,
}

/// Outcome of the gateway's acknowledgement.
#[derive(Debug, Clone, Copy, PartialEq, Eq, Structural)]
pub enum AckOutcome {
    Accepted,
    /// The gateway read and refused the token: final, no other is tried.
    Denied,
    TimedOut,
    Failed,
}

/// The three bytes of an acknowledgement: a line that says OK, or a refusal.
pub fn ack_of(ack: &[u8; 3]) -> (r: AckOutcome)
    ensures
        r == if ack@ == seq![0x4fu8, 0x4bu8, 0x0au8] {
            AckOutcome::Accepted
        } else {
            AckOutcome::Denied
        },
{
    if ack[0] == 0x4f && ack[1] == 0x4b && ack[2] == 0x0a {
        assert(ack@ =~= seq![0x4fu8, 0x4bu8, 0x0au8]);
        AckOutcome::Accepted
    } else {
        AckOutcome::Denied
    }
}

/// What reading an acknowledgement gave.
#[derive(Debug, Clone, Copy, PartialEq, Eq)]
pub enum AckRead {
    Bytes([u8; 3]),
    /// The channel closed or failed first.
    Failed,
    /// Nothing came within the limit.
    TimedOut,
}

/// The outcome of an acknowledgement that was read, or was not.
pub fn read_ack(read: AckRead) -> (r: AckOutcome)
    ensures
        r == match read {
            AckRead::Bytes(b) => if b@ == seq![0x4fu8, 0x4bu8, 0x0au8] {
                AckOutcome::Accepted
            } else {
                AckOutcome::Denied
            },
            AckRead::Failed => AckOutcome::Failed,
            AckRead::TimedOut => AckOutcome::TimedOut,
        },
{
    match read {
        AckRead::Bytes(b) => ack_of(&b),
        AckRead::Failed => AckOutcome::Failed,
        AckRead::TimedOut => AckOutcome::TimedOut,
    }
}

/// Where a connection stands.
#[derive(Debug, Clone, Copy, PartialEq, Eq, Structural)]
pub enum Phase {
    /// Its owner is being determined.
    Peer,
    /// The posture report is being built.
    Posture,
    /// The controller is being asked.
    Decision,
    /// Gateway `at` of `of` is being dialed.
    Dial { at: usize, of: usize },
    /// The token is being written.
    Write,
    /// The acknowledgement is awaited.
    Ack,
    /// It is spliced to the gateway.
    Serving,
    /// It is closed.
    Closed,
}

/// What happened to a connection.
#[derive(Debug, Clone, PartialEq, Eq)]
pub enum Event {
    /// Whether the connection's owner may use the forwarder.
    PeerChecked(bool),
    PostureBuilt,
    PostureFailed,
    /// The controller could not be asked, or not in time.
    Unreachable,
    /// The controller refused, with this body.
    Refused(String),
    /// The controller's answer could not be read.
    Undecodable,
    /// The controller allowed.
    Allowed(Grant),
    DialFailed,
    Dialed,
    WriteFailed,
    Written,
    Acked(AckOutcome),
}

/// Why a connection was closed.
#[derive(Debug, Clone, Copy, PartialEq, Eq, Structural)]
pub enum CloseReason {
    PeerDenied,
    PostureFailed,
    /// Without the controller nothing is served.
    FailClosed,
    Denied,
    Undecodable,
    NoToken,
    NoGateway,
    /// No gateway could be reached; the next attempt waits this long (ms).
    Unreachable { backoff_ms: u64 },
    WriteFailed,
    GatewayDenied,
    AckFailed,
}

/// What to do next with a connection.
#[derive(Debug, Clone, Copy, PartialEq, Eq, Structural)]
pub enum Action {
    BuildPosture,
    AskController,
    /// Dial the candidate with this number.
    Dial(usize),
    /// Write the token line to the gateway.
    WriteToken,
    ReadAck,
    /// Copy both ways.
    Splice,
    Close(CloseReason),
    /// The event does not belong to the phase.
    Ignore,
}

/// `a + b` within the clock's range.
pub open spec fn add_secs(a: i64, b: i64) -> i64 {
    if a + b > i64::MAX {
        i64::MAX
    } else if a + b < i64::MIN {
        i64::MIN
    } else {
        (a + b) as i64
    }
}

fn add_secs_exec(a: i64, b: i64) -> (r: i64)
    ensures
        r == add_secs(a, b),
{
    let t: i128 = a as i128 + b as i128;
    if t > i64::MAX as i128 {
        i64::MAX
    } else if t < i64::MIN as i128 {
        i64::MIN
    } else {
        t as i64
    }
}

/// One more failure, within the counter's range.
pub open spec fn one_more(n: u32) -> u32 {
    if n == u32::MAX {
        n
    } else {
        (n + 1) as u32
    }
}

/// Milliseconds before jitter after `failures` failures: doubling from 200,
/// at most 6400.
pub open spec fn backoff_base(failures: u32) -> u64 {
    if failures >= 5 {
        6400
    } else if failures == 4 {
        3200
    } else if failures == 3 {
        1600
    } else if failures == 2 {
        800
    } else if failures == 1 {
        400
    } else {
        200
    }
}

/// The wait after `failures` failures with a random number for jitter: up to
/// a quarter of the base is added.
pub open spec fn backoff(failures: u32, random: u64) -> u64 {
    let base = backoff_base(failures);
    (base + random % ((base / 4 + 1) as u64)) as u64
}

/// The wait before the next attempt.
pub fn backoff_ms(failures: u32, random: u64) -> (r: u64)
    ensures
        r == backoff(failures, random),
        backoff_base(failures) <= r <= backoff_base(failures) + backoff_base(failures) / 4,
{
    let shift: u32 = if failures < 5 {
        failures
    } else {
        5
    };
    let mut base: u64 = 200;
    let mut i: u32 = 0;
    while i < shift
        invariant
            i <= shift <= 5,
            base == backoff_base(i),
        decreases shift - i,
    {
        base = base * 2;
        i += 1;
    }
    base + random % (base / 4 + 1)
}

/// The decision's words for an allowing decision.
pub open spec fn allow_words(policy: Option<String>) -> Seq<char> {
    "ALLOW via '"@ + (match policy {
        Some(p) => p@,
        None => "?"@,
    }) + "'"@
}

/// The state, phase and action that follow.
pub open spec fn next(v: ServeView, phase: Phase, event: Event, now: i64, random: u64) -> (
    ServeView,
    Phase,
    Action,
) {
    let failed = ServeView { dial_failures: one_more(v.dial_failures), ..v };
    match (phase, event) {
        (Phase::Peer, Event::PeerChecked(true)) => (v, Phase::Posture, Action::BuildPosture),
        (Phase::Peer, Event::PeerChecked(false)) => (
            v,
            Phase::Closed,
            Action::Close(CloseReason::PeerDenied),
        ),
        (Phase::Posture, Event::PostureBuilt) => (v, Phase::Decision, Action::AskController),
        (Phase::Posture, Event::PostureFailed) => (
            v,
            Phase::Closed,
            Action::Close(CloseReason::PostureFailed),
        ),
        (Phase::Decision, Event::Unreachable) => (
            v,
            Phase::Closed,
            Action::Close(CloseReason::FailClosed),
        ),
        (Phase::Decision, Event::Refused(body)) => (
            ServeView { cached: Some(("DENY("@ + body@ + ")"@, 0)), ..v },
            Phase::Closed,
            Action::Close(CloseReason::Denied),
        ),
        (Phase::Decision, Event::Undecodable) => (
            v,
            Phase::Closed,
            Action::Close(CloseReason::Undecodable),
        ),
        (Phase::Decision, Event::Allowed(g)) => {
            let ttl = match g.ttl {
                Some(t) => t,
                None => 0,
            };
            let w = ServeView {
                cached: Some((allow_words(g.matched_policy), add_secs(now, ttl))),
                ..v
            };
            if !g.has_token {
                (w, Phase::Closed, Action::Close(CloseReason::NoToken))
            } else if g.candidates == 0 {
                (w, Phase::Closed, Action::Close(CloseReason::NoGateway))
            } else {
                (w, Phase::Dial { at: 0, of: g.candidates }, Action::Dial(0))
            }
        },
        (Phase::Dial { at, of }, Event::DialFailed) => if at + 1 < of {
            (v, Phase::Dial { at: (at + 1) as usize, of }, Action::Dial((at + 1) as usize))
        } else {
            (
                failed,
                Phase::Closed,
                Action::Close(
                    CloseReason::Unreachable {
                        backoff_ms: backoff(one_more(v.dial_failures), random),
                    },
                ),
            )
        },
        (Phase::Dial { .. }, Event::Dialed) => (
            ServeView { dial_failures: 0, ..v },
            Phase::Write,
            Action::WriteToken,
        ),
        (Phase::Write, Event::WriteFailed) => (
            failed,
            Phase::Closed,
            Action::Close(CloseReason::WriteFailed),
        ),
        (Phase::Write, Event::Written) => (v, Phase::Ack, Action::ReadAck),
        (Phase::Ack, Event::Acked(AckOutcome::Accepted)) => (v, Phase::Serving, Action::Splice),
        (Phase::Ack, Event::Acked(AckOutcome::Denied)) => (
            v,
            Phase::Closed,
            Action::Close(CloseReason::GatewayDenied),
        ),
        (Phase::Ack, Event::Acked(_)) => (
            failed,
            Phase::Closed,
            Action::Close(CloseReason::AckFailed),
        ),
        (p, _) => (v, p, Action::Ignore),
    }
}

/// What is said of the last decision when the controller cannot be reached.
pub open spec fn context(cached: Option<(Seq<char>, i64)>, now: i64) -> Seq<char> {
    match cached {
        Some((words, exp)) => if now < exp {
            "cached "@ + words + " unexpired but tokens unmintable"@
        } else {
            "cached "@ + words + " EXPIRED"@
        },
        None => "no cached decision"@,
    }
}

impl ServeState {
    /// No decision yet, no failures.
    pub fn new() -> (r: Self)
        ensures
            r@ == (ServeView { cached: None, dial_failures: 0 }),
    {
        ServeState { cached: None, dial_failures: 0 }
    }

    /// What to say of the last decision when the controller is unreachable.
    pub fn fail_context(&self, now: i64) -> (r: String)
        ensures
            r@ == context(self@.cached, now),
    {
        match &self.cached {
            Some((words, exp)) => {
                let head = "cached ".to_owned().concat(words.as_str());
                if now < *exp {
                    head.concat(" unexpired but tokens unmintable")
                } else {
                    head.concat(" EXPIRED")
                }
            },
            None => "no cached decision".to_owned(),
        }
    }

    fn fail(&mut self)
        ensures
            final(self)@ == (ServeView {
                dial_failures: one_more(old(self)@.dial_failures),
                ..old(self)@
            }),
    {
        if self.dial_failures < u32::MAX {
            self.dial_failures = self.dial_failures + 1;
        }
    }

    /// Takes a connection one step further. `random` feeds the backoff's
    /// jitter.
    pub fn step(&mut self, phase: Phase, event: &Event, now: i64, random: u64) -> (r: (
        Phase,
        Action,
    ))
        ensures
            (final(self)@, r.0, r.1) == next(old(self)@, phase, *event, now, random),
    {
        match (phase, event) {
            (Phase::Peer, Event::PeerChecked(ok)) => {
                if *ok {
                    (Phase::Posture, Action::BuildPosture)
                } else {
                    (Phase::Closed, Action::Close(CloseReason::PeerDenied))
                }
            },
            (Phase::Posture, Event::PostureBuilt) => (Phase::Decision, Action::AskController),
            (Phase::Posture, Event::PostureFailed) => (
                Phase::Closed,
                Action::Close(CloseReason::PostureFailed),
            ),
            (Phase::Decision, Event::Unreachable) => (
                Phase::Closed,
                Action::Close(CloseReason::FailClosed),
            ),
            (Phase::Decision, Event::Refused(body)) => {
                let words = "DENY(".to_owned().concat(body.as_str()).concat(")");
                self.cached = Some((words, 0));
                (Phase::Closed, Action::Close(CloseReason::Denied))
            },
            (Phase::Decision, Event::Undecodable) => (
                Phase::Closed,
                Action::Close(CloseReason::Undecodable),
            ),
            (Phase::Decision, Event::Allowed(g)) => {
                let head = "ALLOW via '".to_owned();
                let words = match &g.matched_policy {
                    Some(p) => head.concat(p.as_str()).concat("'"),
                    None => head.concat("?").concat("'"),
                };
                let ttl: i64 = match g.ttl {
                    Some(t) => t,
                    None => 0,
                };
                self.cached = Some((words, add_secs_exec(now, ttl)));
                if !g.has_token {
                    (Phase::Closed, Action::Close(CloseReason::NoToken))
                } else if g.candidates == 0 {
                    (Phase::Closed, Action::Close(CloseReason::NoGateway))
                } else {
                    (Phase::Dial { at: 0, of: g.candidates }, Action::Dial(0))
                }
            },
            (Phase::Dial { at, of }, Event::DialFailed) => {
                if at < of && at + 1 < of {
                    (Phase::Dial { at: at + 1, of }, Action::Dial(at + 1))
                } else {
                    self.fail();
                    let wait: u64 = backoff_ms(self.dial_failures, random);
                    (
                        Phase::Closed,
                        Action::Close(CloseReason::Unreachable { backoff_ms: wait }),
                    )
                }
            },
            (Phase::Dial { .. }, Event::Dialed) => {
                self.dial_failures = 0;
                (Phase::Write, Action::WriteToken)
            },
            (Phase::Write, Event::WriteFailed) => {
                self.fail();
                (Phase::Closed, Action::Close(CloseReason::WriteFailed))
            },
            (Phase::Write, Event::Written) => (Phase::Ack, Action::ReadAck),
            (Phase::Ack, Event::Acked(a)) => match a {
                AckOutcome::Accepted => (Phase::Serving, Action::Splice),
                AckOutcome::Denied => (Phase::Closed, Action::Close(CloseReason::GatewayDenied)),
                _ => {
                    self.fail();
                    (Phase::Closed, Action::Close(CloseReason::AckFailed))
                },
            },
            (p, _) => (p, Action::Ignore),
        }
    }
}

/// Law: a connection is spliced only on the gateway's OK to a written token,
/// the token is written only to a dialed gateway, a gateway is dialed only on
/// an allowing decision with a token, and the controller is asked only for an
/// owner that may use the forwarder.
pub proof fn law_splice_needs_every_stage(
    v: ServeView,
    phase: Phase,
    event: Event,
    now: i64,
    random: u64,
)
    ensures
        ({
            let (_, after, action) = next(v, phase, event, now, random);
            &&& action == Action::Splice ==> phase == Phase::Ack && event == Event::Acked(
                AckOutcome::Accepted,
            )
            &&& after == Phase::Ack && phase != Phase::Ack ==> phase == Phase::Write && event
                == Event::Written
            &&& after == Phase::Write && phase != Phase::Write ==> phase is Dial && event
                == Event::Dialed
            &&& after is Dial && !(phase is Dial) ==> phase == Phase::Decision
                && event is Allowed && event->Allowed_0.has_token
            &&& after == Phase::Decision && phase != Phase::Decision ==> phase == Phase::Posture
                && event == Event::PostureBuilt
            &&& after == Phase::Posture && phase != Phase::Posture ==> phase == Phase::Peer && event
                == Event::PeerChecked(true)
        }),
{
}

/// Law: without the controller nothing is served, whatever decision is kept.
pub proof fn law_unreachable_fails_closed(v: ServeView, now: i64, random: u64)
    ensures
        next(v, Phase::Decision, Event::Unreachable, now, random) == (
            v,
            Phase::Closed,
            Action::Close(CloseReason::FailClosed),
        ),
{
}

/// Law: a gateway's refusal is final: no other gateway is tried, and it does
/// not count as a failure.
pub proof fn law_gateway_denial_is_final(v: ServeView, now: i64, random: u64)
    ensures
        next(v, Phase::Ack, Event::Acked(AckOutcome::Denied), now, random) == (
            v,
            Phase::Closed,
            Action::Close(CloseReason::GatewayDenied),
        ),
{
}

/// The line that presents a token to a gateway.
pub open spec fn token_line(token: Seq<char>, dest: Seq<char>) -> Seq<char> {
    "TOKEN "@ + token + " DEST "@ + dest + "\n"@
}

/// The line that presents a token to a gateway.
pub fn admission_line(token_b64: &str, dest: &str) -> (r: String)
    ensures
        r@ == token_line(token_b64@, dest@),
{
    "TOKEN ".to_owned().concat(token_b64).concat(" DEST ").concat(dest).concat("\n")
}

/// Law: every success leads a connection on to its next stage and changes
/// nothing that is kept, but for a dialed gateway, which ends the failures in a
/// row, and an allowing decision, which is kept.
pub proof fn law_success_leads_on(v: ServeView, at: usize, of: usize, now: i64, random: u64)
    ensures
        next(v, Phase::Peer, Event::PeerChecked(true), now, random) == (
            v,
            Phase::Posture,
            Action::BuildPosture,
        ),
        next(v, Phase::Posture, Event::PostureBuilt, now, random) == (
            v,
            Phase::Decision,
            Action::AskController,
        ),
        ({
            let (w, p, a) = next(v, Phase::Dial { at, of }, Event::Dialed, now, random);
            p == Phase::Write && a == Action::WriteToken && w.dial_failures == 0 && w.cached
                == v.cached
        }),
        next(v, Phase::Write, Event::Written, now, random) == (v, Phase::Ack, Action::ReadAck),
        next(v, Phase::Ack, Event::Acked(AckOutcome::Accepted), now, random) == (
            v,
            Phase::Serving,
            Action::Splice,
        ),
{
}

/// Law: an allowing decision with a token and a gateway dials the first
/// gateway; without a token, or without a gateway, it closes the connection.
/// Either way it is kept, with its policy, until its lifetime has passed.
pub proof fn law_allowed_dials_first_gateway(v: ServeView, g: Grant, now: i64, random: u64)
    ensures
        ({
            let (w, p, a) = next(v, Phase::Decision, Event::Allowed(g), now, random);
            &&& g.has_token && g.candidates > 0 <==> a == Action::Dial(0)
            &&& a == Action::Dial(0) ==> p == (Phase::Dial { at: 0, of: g.candidates })
            &&& !g.has_token <==> a == Action::Close(CloseReason::NoToken)
            &&& g.has_token && g.candidates == 0 <==> a == Action::Close(CloseReason::NoGateway)
            &&& w.dial_failures == v.dial_failures
            &&& w.cached matches Some((words, until)) && {
                &&& g.matched_policy matches Some(name) ==> words == "ALLOW via '"@ + name@ + "'"@
                &&& g.matched_policy is None ==> words == "ALLOW via '?'"@
                &&& until == add_secs(
                    now,
                    if g.ttl is Some {
                        g.ttl->Some_0
                    } else {
                        0
                    },
                )
            }
        }),
{
    reveal_strlit("ALLOW via '");
    reveal_strlit("?");
    reveal_strlit("'");
    reveal_strlit("ALLOW via '?'");
    assert("ALLOW via '"@ + "?"@ + "'"@ =~= "ALLOW via '?'"@);
}

/// Law: a refusal of the controller closes the connection and is kept with
/// what the controller said, as expired from the start.
pub proof fn law_refusal_is_kept(v: ServeView, body: String, now: i64, random: u64)
    requires
        now >= 0,
    ensures
        ({
            let (w, p, a) = next(v, Phase::Decision, Event::Refused(body), now, random);
            &&& p == Phase::Closed && a == Action::Close(CloseReason::Denied)
            &&& w.dial_failures == v.dial_failures
            &&& context(w.cached, now) == "cached DENY("@ + body@ + ") EXPIRED"@
        }),
{
    reveal_strlit("cached ");
    reveal_strlit("DENY(");
    reveal_strlit(")");
    reveal_strlit(" EXPIRED");
    reveal_strlit("cached DENY(");
    reveal_strlit(") EXPIRED");
    assert("cached "@ + ("DENY("@ + body@ + ")"@) + " EXPIRED"@ =~= "cached DENY("@ + body@
        + ") EXPIRED"@);
}

/// Law: what was kept says nothing that could serve: it is named as unexpired
/// exactly before its time, and as expired from then on.
pub proof fn law_context_tells_expiry(words: Seq<char>, until: i64, now: i64)
    ensures
        text::has_prefix(context(Some((words, until)), now), "cached "@ + words),
        text::has_suffix(context(Some((words, until)), now), " EXPIRED"@) <==> now >= until,
        text::has_suffix(
            context(Some((words, until)), now),
            " unexpired but tokens unmintable"@,
        ) <==> now < until,
        context(None, now) == "no cached decision"@,
{
    reveal_strlit(" EXPIRED");
    reveal_strlit(" unexpired but tokens unmintable");
    let c = context(Some((words, until)), now);
    let h = "cached "@ + words;
    let (x, u) = (" EXPIRED"@, " unexpired but tokens unmintable"@);
    assert(c.subrange(0, h.len() as int) =~= h);
    if now < until {
        assert(text::rest(c, c.len() - u.len()) =~= u);
        assert(c.subrange(c.len() - u.len(), c.len() as int) =~= u);
        assert(c.last() == u.last());
        if text::has_suffix(c, x) {
            assert(c.subrange(c.len() - x.len(), c.len() as int).last() == x.last());
        }
    } else {
        assert(c.subrange(c.len() - x.len(), c.len() as int) =~= x);
        assert(c.last() == x.last());
        if text::has_suffix(c, u) {
            assert(c.subrange(c.len() - u.len(), c.len() as int).last() == u.last());
        }
    }
}

/// Law: the gateways are dialed one after the other, in order, and none is
/// left out: a failed dial goes to the next one, and only the last one's
/// failure closes the connection.
pub proof fn law_every_gateway_is_tried(
    v: ServeView,
    at: usize,
    of: usize,
    now: i64,
    random: u64,
)
    requires
        at < of,
    ensures
        ({
            let (w, p, a) = next(v, Phase::Dial { at, of }, Event::DialFailed, now, random);
            &&& at + 1 < of ==> w == v && p == (Phase::Dial { at: (at + 1) as usize, of }) && a
                == Action::Dial((at + 1) as usize)
            &&& at + 1 == of ==> p == Phase::Closed && a is Close && a->Close_0 is Unreachable
        }),
{
}

/// Law: failures in a row are counted once per connection that reached no
/// gateway, or lost it before its answer, and never by a decision or by a
/// refusal; the wait that follows goes by the new count.
pub proof fn law_failures_are_counted(
    v: ServeView,
    phase: Phase,
    event: Event,
    now: i64,
    random: u64,
)
    ensures
        ({
            let (w, p, a) = next(v, phase, event, now, random);
            let more: int = if v.dial_failures == u32::MAX {
                v.dial_failures as int
            } else {
                v.dial_failures + 1
            };
            let fails = a == Action::Close(CloseReason::WriteFailed) || a == Action::Close(
                CloseReason::AckFailed,
            ) || (a matches Action::Close(r) && r is Unreachable);
            &&& fails ==> w.dial_failures == more && w.cached == v.cached
            &&& !fails ==> w.dial_failures == v.dial_failures || (phase is Dial && event
                == Event::Dialed)
            &&& a matches Action::Close(CloseReason::Unreachable { backoff_ms }) ==> backoff_ms
                == backoff(w.dial_failures, random)
            &&& w.cached != v.cached ==> phase == Phase::Decision
        }),
{
}

/// Law: a connection is closed only for its reason: each reason follows the
/// one thing that it names, and each such thing closes the connection.
pub proof fn law_close_names_its_cause(
    v: ServeView,
    phase: Phase,
    event: Event,
    now: i64,
    random: u64,
)
    ensures
        ({
            let (_, p, a) = next(v, phase, event, now, random);
            &&& phase == Phase::Peer && event == Event::PeerChecked(false) <==> a == Action::Close(
                CloseReason::PeerDenied,
            )
            &&& phase == Phase::Posture && event == Event::PostureFailed <==> a == Action::Close(
                CloseReason::PostureFailed,
            )
            &&& phase == Phase::Decision && event == Event::Unreachable <==> a == Action::Close(
                CloseReason::FailClosed,
            )
            &&& phase == Phase::Decision && event is Refused <==> a == Action::Close(
                CloseReason::Denied,
            )
            &&& phase == Phase::Decision && event == Event::Undecodable <==> a == Action::Close(
                CloseReason::Undecodable,
            )
            &&& phase == Phase::Write && event == Event::WriteFailed <==> a == Action::Close(
                CloseReason::WriteFailed,
            )
            &&& phase == Phase::Ack && event == Event::Acked(AckOutcome::Denied) <==> a
                == Action::Close(CloseReason::GatewayDenied)
            &&& phase == Phase::Ack && (event == Event::Acked(AckOutcome::TimedOut) || event
                == Event::Acked(AckOutcome::Failed)) <==> a == Action::Close(CloseReason::AckFailed)
            &&& a is Close ==> p == Phase::Closed
            &&& a == Action::Ignore ==> p == phase
            &&& phase == Phase::Serving || phase == Phase::Closed ==> a == Action::Ignore
        }),
{
}

/// Law: the wait doubles with every failure from 200 milliseconds up to the
/// fifth and then stays, and jitter adds at most a quarter of it; every such
/// wait comes from some random number.
pub proof fn law_backoff_doubles(failures: u32, random: u64, extra: u64)
    ensures
        backoff_base(0) == 200,
        failures < 5 ==> backoff_base((failures + 1) as u32) == 2 * backoff_base(failures),
        failures >= 5 ==> backoff_base(failures) == backoff_base(5),
        backoff_base(failures) <= backoff(failures, random),
        4 * backoff(failures, random) <= 5 * backoff_base(failures),
        4 * extra <= backoff_base(failures) ==> backoff(failures, extra) == backoff_base(failures)
            + extra,
{
    let base = backoff_base(failures);
    if 4 * extra <= base {
        vstd::arithmetic::div_mod::lemma_small_mod(extra as nat, (base / 4 + 1) as nat);
    }
}

/// Law: the sum of a time and a lifetime is exact where the clock can hold it,
/// and else the end of the clock on that side.
pub proof fn law_add_secs(a: i64, b: i64)
    ensures
        i64::MIN <= a + b <= i64::MAX ==> add_secs(a, b) == a + b,
        a + b > i64::MAX ==> add_secs(a, b) == i64::MAX,
        a + b < i64::MIN ==> add_secs(a, b) == i64::MIN,
{
}

/// Law: an entry is usable exactly if it names both a gateway and a relay; it
/// is dialed as it stands, and the usable entries of two lists in a row are
/// those of the first and, behind them, those of the second.
pub proof fn law_usable_entries(e: GatewayEntry, a: Seq<GatewayEntry>, b: Seq<GatewayEntry>)
    ensures
        usable(a + b) == usable(a) + usable(b),
        e.gateway_id is Some && e.relay is Some ==> usable(seq![e]).len() == 1 && usable(
            seq![e],
        )[0].gateway_id == e.gateway_id->Some_0@ && usable(seq![e])[0].relay == e.relay->Some_0@
            && usable(seq![e])[0].tls_tcp == e.tls_tcp,
        e.gateway_id is None || e.relay is None ==> usable(seq![e]).len() == 0,
    decreases b.len(),
{
    assert(seq![e].drop_last() =~= Seq::<GatewayEntry>::empty());
    reveal_with_fuel(usable, 2);
    if b.len() == 0 {
        assert(a + b =~= a);
        assert(usable(a) + usable(b) =~= usable(a));
    } else {
        assert((a + b).drop_last() =~= a + b.drop_last());
        law_usable_entries(e, a, b.drop_last());
        assert((a + b).last() == b.last());
        assert(usable(a + b) =~= usable(a) + usable(b));
    }
}

/// Law: a relay that is pinned is the only one dialed, and nothing is taken as
/// known of its carriers; else the usable entries are.
pub proof fn law_pinned_relay_is_alone(relay: Seq<char>, entries: Seq<GatewayEntry>)
    ensures
        dial_list(Some(relay), entries).len() == 1,
        dial_list(Some(relay), entries)[0].relay == relay,
        dial_list(Some(relay), entries)[0].tls_tcp is None,
        dial_list(Some(relay), entries)[0].gateway_id == "override"@,
        dial_list(None, entries) == usable(entries),
{
}

/// Law: the line that presents a token reads back: it is one line of four
/// words, the token the second and the destination the last.
#[verifier::spinoff_prover]
#[verifier::rlimit(60)]
pub proof fn law_token_line_reads_back(token: Seq<char>, dest: Seq<char>)
    requires
        !token.contains(' ') && !token.contains('\n'),
        !dest.contains(' ') && !dest.contains('\n'),
    ensures
        ({
            let l = token_line(token, dest);
            &&& l.last() == '\n' && !l.drop_last().contains('\n')
            &&& text::split(l.drop_last(), ' ') == seq!["TOKEN"@, token, "DEST"@, dest]
        }),
{
    reveal_strlit("TOKEN ");
    reveal_strlit("TOKEN");
    reveal_strlit(" DEST ");
    reveal_strlit("DEST");
    reveal_strlit("\n");
    let sp = seq![' '];
    let l = token_line(token, dest);
    let p = seq!["TOKEN"@, token, "DEST"@, dest];
    let (p1, p2, p3) = (seq![dest], seq!["DEST"@] + seq![dest], seq![token] + (seq!["DEST"@] + seq![
        dest,
    ]));
    text::lemma_joined_front("DEST"@, p1, sp);
    text::lemma_joined_front(token, p2, sp);
    text::lemma_joined_front("TOKEN"@, p3, sp);
    assert(p =~= seq!["TOKEN"@] + p3);
    assert(text::joined(p1, sp) == dest);
    assert(l.drop_last() =~= text::joined(p, sp));
    text::lemma_joined_split(p, ' ');
    let d = l.drop_last();
    if d.contains('\n') {
        let i = choose|i: int| 0 <= i < d.len() && d[i] == '\n';
        if 6 <= i < 6 + token.len() {
            assert(token[i - 6] == '\n');
        } else if i >= 12 + token.len() {
            assert(dest[i - 12 - token.len()] == '\n');
        }
    }
}

/// Law: the model of a candidate holds each part under its own name, and a
/// list's holds them in order.
pub proof fn law_candidate_model(v: Seq<Candidate>, i: int)
    requires
        0 <= i < v.len(),
    ensures
        candidate_views(v).len() == v.len(),
        candidate_views(v)[i].gateway_id == v[i].gateway_id@,
        candidate_views(v)[i].relay == v[i].relay@,
        candidate_views(v)[i].tls_tcp == v[i].tls_tcp,
{
}

} // verus!
