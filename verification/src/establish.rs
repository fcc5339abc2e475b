//! Establishing a UDP flow: a fresh decision, then the encrypted carrier, then
//! the raw relay. Each establishment asks the controller anew; a token is
//! never kept for another flow.

use vstd::prelude::*;

use crate::addr::{parse_relay, DestError};
use crate::bytes::append;
use crate::relay::{carrier_port, UDP_OFFSET};
use crate::serve;
use crate::serve::admission_line;
use crate::text;

verus! {

/// Lifetime of a grant that names none, in seconds.
pub const DEFAULT_TTL: i64 = 30;

/// Longest reply to a session request, in bytes.
pub const MAX_REPLY: usize = 128;

/// Why the raw relay stands in for the encrypted carrier.
#[derive(Debug, Clone, Copy, PartialEq, Eq, Structural)]
pub enum Downgrade {
    DialFailed,
    NoDatagramSupport,
    SessionFailed,
}

impl Downgrade {
    /// The reason's label.
    pub fn as_str(&self) -> (r: &'static str)
        ensures
            r@ == match self {
                Downgrade::DialFailed => "dial_failed"@,
                Downgrade::NoDatagramSupport => "no_datagram_support"@,
                Downgrade::SessionFailed => "session_failed"@,
            },
    {
        match self {
            Downgrade::DialFailed => "dial_failed",
            Downgrade::NoDatagramSupport => "no_datagram_support",
            Downgrade::SessionFailed => "session_failed",
        }
    }
}

/// How an establishment ended.
#[derive(Debug, Clone, Copy, PartialEq, Eq, Structural)]
pub enum Finish {
    ErrorPosture,
    ErrorDecision,
    ErrorDecisionTimeout,
    Denied,
    ErrorNoRelay,
    ErrorBadRelay,
    EstablishedQuic,
    EstablishedRaw,
    ErrorSendFailed,
    DeniedByGateway,
    ErrorAck,
    ErrorAckTimeout,
}

impl Finish {
    /// The outcome's label.
    pub fn as_str(&self) -> (r: &'static str)
        ensures
            r@ == match self {
                Finish::ErrorPosture => "error_posture"@,
                Finish::ErrorDecision => "error_decision"@,
                Finish::ErrorDecisionTimeout => "error_decision_timeout"@,
                Finish::Denied => "denied"@,
                Finish::ErrorNoRelay => "error_no_relay"@,
                Finish::ErrorBadRelay => "error_bad_relay"@,
                Finish::EstablishedQuic => "established_quic"@,
                Finish::EstablishedRaw => "established_raw"@,
                Finish::ErrorSendFailed => "error_send_failed"@,
                Finish::DeniedByGateway => "denied_by_gateway"@,
                Finish::ErrorAck => "error_ack"@,
                Finish::ErrorAckTimeout => "error_ack_timeout"@,
            },
    {
        match self {
            Finish::ErrorPosture => "error_posture",
            Finish::ErrorDecision => "error_decision",
            Finish::ErrorDecisionTimeout => "error_decision_timeout",
            Finish::Denied => "denied",
            Finish::ErrorNoRelay => "error_no_relay",
            Finish::ErrorBadRelay => "error_bad_relay",
            Finish::EstablishedQuic => "established_quic",
            Finish::EstablishedRaw => "established_raw",
            Finish::ErrorSendFailed => "error_send_failed",
            Finish::DeniedByGateway => "denied_by_gateway",
            Finish::ErrorAck => "error_ack",
            Finish::ErrorAckTimeout => "error_ack_timeout",
        }
    }
}

/// An allowing decision, with the fields that were there.
#[derive(Debug, Clone, PartialEq, Eq)]
pub struct UdpGrant {
    pub connection_token_b64: Option<String>,
    pub ttl: Option<i64>,
    /// Relay of the first gateway.
    pub first_relay: Option<String>,
}

/// What the rest of an establishment works with.
#[derive(Debug, Clone, PartialEq, Eq)]
pub struct Plan {
    pub token_b64: String,
    pub ttl: i64,
    pub host: String,
    pub port: u16,
    /// Port of the raw relay, where there is such a port.
    pub udp_port: Option<u16>,
}

/// The relay a grant leads to: the override, else the first gateway's, else
/// nothing.
pub open spec fn relay_text(pinned: Option<Seq<char>>, g: UdpGrant) -> Seq<char> {
    match pinned {
        Some(r) => r,
        None => match g.first_relay {
            Some(r) => r@,
            None => Seq::empty(),
        },
    }
}

/// Whether a plan is what a grant leads to.
pub open spec fn plan_of(pinned: Option<Seq<char>>, g: UdpGrant, r: Result<Plan, Finish>) -> bool {
    match crate::addr::relay(relay_text(pinned, g)) {
        Err(DestError::NoColon) => r == Err::<Plan, Finish>(Finish::ErrorNoRelay),
        Err(DestError::BadPort) => r == Err::<Plan, Finish>(Finish::ErrorBadRelay),
        Ok((host, port)) => r matches Ok(p) && {
            &&& p.token_b64@ == match g.connection_token_b64 {
                Some(t) => t@,
                None => Seq::empty(),
            }
            &&& p.ttl == match g.ttl {
                Some(t) => t,
                None => DEFAULT_TTL,
            }
            &&& p.host@ == host
            &&& p.port == port
            &&& p.udp_port == if port + UDP_OFFSET > u16::MAX {
                None
            } else {
                Some((port + UDP_OFFSET) as u16)
            }
        },
    }
}

/// Reads what a grant leads to. A relay without a port separator is no relay;
/// one whose port is not a number in range is a bad one. The raw relay's port may
/// be out of range where the relay's is not.
pub fn plan(relay_override: Option<&str>, g: &UdpGrant) -> (r: Result<Plan, Finish>)
    ensures
        plan_of(
            match relay_override {
                Some(o) => Some(o@),
                None => None,
            },
            *g,
            r,
        ),
{
    let relay: String = match relay_override {
        Some(o) => o.to_owned(),
        None => match &g.first_relay {
            Some(r) => r.clone(),
            None => String::new(),
        },
    };
    match parse_relay(relay.as_str()) {
        Err(DestError::NoColon) => Err(Finish::ErrorNoRelay),
        Err(DestError::BadPort) => Err(Finish::ErrorBadRelay),
        Ok((host, port)) => {
            let token_b64 = match &g.connection_token_b64 {
                Some(t) => t.clone(),
                None => String::new(),
            };
            let ttl: i64 = match g.ttl {
                Some(t) => t,
                None => DEFAULT_TTL,
            };
            Ok(Plan { token_b64, ttl, host, port, udp_port: carrier_port(port, UDP_OFFSET) })
        },
    }
}

/// Where an establishment stands.
#[derive(Debug, Clone, Copy, PartialEq, Eq, Structural)]
pub enum Stage {
    Posture,
    Decision,
    Dial,
    Session,
    RawSend,
    RawAck,
    Over,
}

/// The answer to a session request.
#[derive(Debug, Clone, Copy, PartialEq, Eq, Structural)]
pub enum SessionAnswer {
    Opened(u32),
    /// The gateway takes no datagram frames.
    NoDatagrams,
    Failed,
}

/// What happened in an establishment.
#[derive(Debug, Clone, Copy, PartialEq, Eq, Structural)]
pub enum Happened {
    PostureBuilt,
    PostureFailed,
    DecisionFailed,
    DecisionTimedOut,
    DecisionDenied,
    /// Allowed, but the grant leads nowhere.
    Unplanned(Finish),
    /// Allowed; whether a connection has to be dialed first.
    Allowed { dial: bool },
    Dialed(bool),
    Session(SessionAnswer),
    Sent(bool),
    /// The raw relay answered; whether it said OK.
    Answered { ok: bool },
    AnswerFailed,
    AnswerTimedOut,
}

/// What to do next.
#[derive(Debug, Clone, Copy, PartialEq, Eq, Structural)]
pub enum Move {
    BuildPosture,
    AskController,
    Dial,
    OpenSession,
    /// Admit the flow on this session and send the datagram on it.
    AdmitQuic { sid: u32 },
    /// Count the downgrade and send the first datagram to the raw relay.
    SendRaw(Downgrade),
    ReadAnswer,
    /// Admit the flow on the raw relay.
    AdmitRaw,
    Stop(Finish),
    Ignore,
}

/// The next stage and what to do.
pub open spec fn follow(stage: Stage, h: Happened) -> (Stage, Move) {
    match (stage, h) {
        (Stage::Posture, Happened::PostureBuilt) => (Stage::Decision, Move::AskController),
        (Stage::Posture, Happened::PostureFailed) => (
            Stage::Over,
            Move::Stop(Finish::ErrorPosture),
        ),
        (Stage::Decision, Happened::DecisionFailed) => (
            Stage::Over,
            Move::Stop(Finish::ErrorDecision),
        ),
        (Stage::Decision, Happened::DecisionTimedOut) => (
            Stage::Over,
            Move::Stop(Finish::ErrorDecisionTimeout),
        ),
        (Stage::Decision, Happened::DecisionDenied) => (Stage::Over, Move::Stop(Finish::Denied)),
        (Stage::Decision, Happened::Unplanned(f)) => (Stage::Over, Move::Stop(f)),
        (Stage::Decision, Happened::Allowed { dial }) => if dial {
            (Stage::Dial, Move::Dial)
        } else {
            (Stage::Session, Move::OpenSession)
        },
        (Stage::Dial, Happened::Dialed(true)) => (Stage::Session, Move::OpenSession),
        (Stage::Dial, Happened::Dialed(false)) => (
            Stage::RawSend,
            Move::SendRaw(Downgrade::DialFailed),
        ),
        (Stage::Session, Happened::Session(SessionAnswer::Opened(sid))) => (
            Stage::Over,
            Move::AdmitQuic { sid },
        ),
        (Stage::Session, Happened::Session(SessionAnswer::NoDatagrams)) => (
            Stage::RawSend,
            Move::SendRaw(Downgrade::NoDatagramSupport),
        ),
        (Stage::Session, Happened::Session(SessionAnswer::Failed)) => (
            Stage::RawSend,
            Move::SendRaw(Downgrade::SessionFailed),
        ),
        (Stage::RawSend, Happened::Sent(true)) => (Stage::RawAck, Move::ReadAnswer),
        (Stage::RawSend, Happened::Sent(false)) => (
            Stage::Over,
            Move::Stop(Finish::ErrorSendFailed),
        ),
        (Stage::RawAck, Happened::Answered { ok: true }) => (Stage::Over, Move::AdmitRaw),
        (Stage::RawAck, Happened::Answered { ok: false }) => (
            Stage::Over,
            Move::Stop(Finish::DeniedByGateway),
        ),
        (Stage::RawAck, Happened::AnswerFailed) => (Stage::Over, Move::Stop(Finish::ErrorAck)),
        (Stage::RawAck, Happened::AnswerTimedOut) => (
            Stage::Over,
            Move::Stop(Finish::ErrorAckTimeout),
        ),
        (s, _) => (s, Move::Ignore),
    }
}

/// Takes an establishment one step further.
pub fn step(stage: Stage, h: Happened) -> (r: (Stage, Move))
    ensures
        r == follow(stage, h),
{
    match (stage, h) {
        (Stage::Posture, Happened::PostureBuilt) => (Stage::Decision, Move::AskController),
        (Stage::Posture, Happened::PostureFailed) => (
            Stage::Over,
            Move::Stop(Finish::ErrorPosture),
        ),
        (Stage::Decision, Happened::DecisionFailed) => (
            Stage::Over,
            Move::Stop(Finish::ErrorDecision),
        ),
        (Stage::Decision, Happened::DecisionTimedOut) => (
            Stage::Over,
            Move::Stop(Finish::ErrorDecisionTimeout),
        ),
        (Stage::Decision, Happened::DecisionDenied) => (Stage::Over, Move::Stop(Finish::Denied)),
        (Stage::Decision, Happened::Unplanned(f)) => (Stage::Over, Move::Stop(f)),
        (Stage::Decision, Happened::Allowed { dial }) => {
            if dial {
                (Stage::Dial, Move::Dial)
            } else {
                (Stage::Session, Move::OpenSession)
            }
        },
        (Stage::Dial, Happened::Dialed(ok)) => {
            if ok {
                (Stage::Session, Move::OpenSession)
            } else {
                (Stage::RawSend, Move::SendRaw(Downgrade::DialFailed))
            }
        },
        (Stage::Session, Happened::Session(a)) => match a {
            SessionAnswer::Opened(sid) => (Stage::Over, Move::AdmitQuic { sid }),
            SessionAnswer::NoDatagrams => (
                Stage::RawSend,
                Move::SendRaw(Downgrade::NoDatagramSupport),
            ),
            SessionAnswer::Failed => (Stage::RawSend, Move::SendRaw(Downgrade::SessionFailed)),
        },
        (Stage::RawSend, Happened::Sent(ok)) => {
            if ok {
                (Stage::RawAck, Move::ReadAnswer)
            } else {
                (Stage::Over, Move::Stop(Finish::ErrorSendFailed))
            }
        },
        (Stage::RawAck, Happened::Answered { ok }) => {
            if ok {
                (Stage::Over, Move::AdmitRaw)
            } else {
                (Stage::Over, Move::Stop(Finish::DeniedByGateway))
            }
        },
        (Stage::RawAck, Happened::AnswerFailed) => (Stage::Over, Move::Stop(Finish::ErrorAck)),
        (Stage::RawAck, Happened::AnswerTimedOut) => (
            Stage::Over,
            Move::Stop(Finish::ErrorAckTimeout),
        ),
        (s, _) => (s, Move::Ignore),
    }
}

/// Position of a stage on the way.
pub open spec fn rank(s: Stage) -> nat {
    match s {
        Stage::Posture => 0,
        Stage::Decision => 1,
        Stage::Dial => 2,
        Stage::Session => 3,
        Stage::RawSend => 4,
        Stage::RawAck => 5,
        Stage::Over => 6,
    }
}

/// Law: an establishment only moves forward. In particular it asks the
/// controller once, and is over after at most six steps that count.
pub proof fn law_establishment_moves_forward(stage: Stage, h: Happened)
    ensures
        ({
            let (after, act) = follow(stage, h);
            &&& act == Move::Ignore ==> after == stage
            &&& act != Move::Ignore ==> rank(after) > rank(stage)
            &&& act == Move::AskController ==> stage == Stage::Posture
            &&& stage == Stage::Over ==> act == Move::Ignore
        }),
{
}

/// Law: a flow is admitted only on the gateway's word: an opened session, or
/// an OK from the raw relay; and the raw relay is used only for a reason.
pub proof fn law_admission_needs_gateway(stage: Stage, h: Happened)
    ensures
        ({
            let (_, act) = follow(stage, h);
            &&& act matches Move::AdmitQuic { sid } ==> stage == Stage::Session && h
                == Happened::Session(SessionAnswer::Opened(sid))
            &&& act == Move::AdmitRaw ==> stage == Stage::RawAck && h == (Happened::Answered {
                ok: true,
            })
            &&& act is SendRaw ==> h == Happened::Dialed(false) || h == Happened::Session(
                SessionAnswer::NoDatagrams,
            ) || h == Happened::Session(SessionAnswer::Failed)
        }),
{
}

/// The datagram that opens a raw session: the admission line and the payload
/// in one.
pub fn build_first_datagram(token_b64: &str, dest: &str, payload: &[u8]) -> (r: Vec<u8>)
    ensures
        r@ == vstd::utf8::encode_utf8(serve::token_line(token_b64@, dest@)) + payload@,
{
    let line = admission_line(token_b64, dest);
    let mut out: Vec<u8> = Vec::new();
    append(&mut out, line.as_str().as_bytes());
    append(&mut out, payload);
    assert(out@ =~= vstd::utf8::encode_utf8(serve::token_line(token_b64@, dest@)) + payload@);
    out
}

/// Whether a raw relay's first answer says OK: its first three bytes do.
pub fn raw_answer_ok(answer: &[u8]) -> (r: bool)
    ensures
        r == crate::bytes::has_prefix(answer@, seq![0x4fu8, 0x4bu8, 0x0au8]),
{
    if answer.len() < 3 {
        return false;
    }
    let r = answer[0] == 0x4f && answer[1] == 0x4b && answer[2] == 0x0a;
    proof {
        let p = answer@.subrange(0, 3);
        if r {
            assert(p =~= seq![0x4fu8, 0x4bu8, 0x0au8]);
        } else if p == seq![0x4fu8, 0x4bu8, 0x0au8] {
            assert(p[0] == 0x4f && p[1] == 0x4b && p[2] == 0x0a);
        }
    }
    r
}

/// Whether a datagram from a raw relay ends the flow: it starts with `DENY`.
pub fn raw_session_ended(datagram: &[u8]) -> (r: bool)
    ensures
        r == crate::bytes::has_prefix(datagram@, seq![0x44u8, 0x45u8, 0x4eu8, 0x59u8]),
{
    let deny: [u8; 4] = [0x44u8, 0x45u8, 0x4eu8, 0x59u8];
    assert(deny@ =~= seq![0x44u8, 0x45u8, 0x4eu8, 0x59u8]);
    crate::bytes::starts_with(datagram, deny.as_slice())
}

/// What a further byte does to a reply that is being read.
#[derive(Debug, Clone, Copy, PartialEq, Eq, Structural)]
pub enum ReplyByte {
    More,
    Whole,
    Overlong,
}

/// Takes in one byte of a reply line.
pub fn push_reply(line: &mut Vec<u8>, b: u8) -> (r: ReplyByte)
    requires
        old(line)@.len() <= MAX_REPLY,
    ensures
        b == 0x0a ==> r == ReplyByte::Whole && final(line)@ == old(line)@,
        b != 0x0a ==> final(line)@ == old(line)@.push(b) && r == if old(line)@.len() + 1
            > MAX_REPLY {
            ReplyByte::Overlong
        } else {
            ReplyByte::More
        },
{
    if b == 0x0a {
        return ReplyByte::Whole;
    }
    line.push(b);
    if line.len() > MAX_REPLY {
        ReplyByte::Overlong
    } else {
        ReplyByte::More
    }
}

/// The session a reply opens: a number after `OK `.
pub open spec fn opened_session(reply: Seq<char>) -> Option<nat> {
    let s = text::drop_space(reply);
    if text::has_prefix(s, "OK "@) {
        text::number(text::trimmed(s.subrange("OK "@.len() as int, s.len() as int)), u32::MAX as nat)
    } else {
        None
    }
}

/// Reads the session a reply's text opens; `None` for a refusal.
pub fn session_of(reply: &str) -> (r: Option<u32>)
    ensures
        match r {
            Some(sid) => opened_session(reply@) == Some(sid as nat),
            None => opened_session(reply@) is None,
        },
{
    let cs = text::chars(reply);
    let s = text::trim_end(cs.as_slice());
    if !text::starts_with_str(s.as_slice(), "OK ") {
        return None;
    }
    let head = text::chars("OK ");
    let n: usize = head.len();
    let tail = text::cut(s.as_slice(), n, s.len());
    let t = text::trim(tail.as_slice());
    match text::parse_number(t.as_slice(), u32::MAX as u64) {
        Some(v) => Some(v as u32),
        None => None,
    }
}

/// Reads the session a reply's bytes open.
pub fn session_of_bytes(line: &[u8]) -> (r: Option<u32>)
    ensures
        match r {
            Some(sid) => opened_session(text::lossy(line@)) == Some(sid as nat),
            None => opened_session(text::lossy(line@)) is None,
        },
{
    let s = text::from_utf8_lossy(line);
    session_of(s.as_str())
}

/// The request for a session on an encrypted connection.
pub fn session_request(token_b64: &str, dest: &str) -> (r: String)
    ensures
        r@ == "UDPOPEN "@ + token_b64@ + " DEST "@ + dest@ + "\n"@,
{
    "UDPOPEN ".to_owned().concat(token_b64).concat(" DEST ").concat(dest).concat("\n")
}

/// Law: every success leads on. A built posture leads to the controller, an
/// allowing decision to a dial where one is needed and else to a session
/// request, a dialed connection to a session request, a session to admission
/// on it; a sent first datagram leads to reading the answer, and an OK to
/// admission on the raw relay.
pub proof fn law_success_leads_on(dial: bool, sid: u32)
    ensures
        follow(Stage::Posture, Happened::PostureBuilt) == (Stage::Decision, Move::AskController),
        follow(Stage::Decision, Happened::Allowed { dial }).1 == if dial {
            Move::Dial
        } else {
            Move::OpenSession
        },
        follow(Stage::Decision, Happened::Allowed { dial }).0 == if dial {
            Stage::Dial
        } else {
            Stage::Session
        },
        follow(Stage::Dial, Happened::Dialed(true)) == (Stage::Session, Move::OpenSession),
        follow(Stage::Session, Happened::Session(SessionAnswer::Opened(sid))) == (
            Stage::Over,
            Move::AdmitQuic { sid },
        ),
        follow(Stage::RawSend, Happened::Sent(true)) == (Stage::RawAck, Move::ReadAnswer),
        follow(Stage::RawAck, Happened::Answered { ok: true }) == (Stage::Over, Move::AdmitRaw),
{
}

/// Law: an establishment stops only where something went wrong, and what it
/// stops with names what went wrong: a denial follows only a denying decision,
/// a gateway's denial only an answer that is not OK, and each error only the
/// step it is of.
pub proof fn law_stop_names_its_cause(stage: Stage, h: Happened)
    ensures
        follow(stage, h).1 matches Move::Stop(f) ==> {
            &&& f == Finish::Denied ==> h == Happened::DecisionDenied || h == Happened::Unplanned(f)
            &&& f == Finish::ErrorPosture ==> h == Happened::PostureFailed || h
                == Happened::Unplanned(f)
            &&& f == Finish::ErrorDecision ==> h == Happened::DecisionFailed || h
                == Happened::Unplanned(f)
            &&& f == Finish::ErrorDecisionTimeout ==> h == Happened::DecisionTimedOut || h
                == Happened::Unplanned(f)
            &&& f == Finish::ErrorSendFailed ==> h == Happened::Sent(false) || h
                == Happened::Unplanned(f)
            &&& f == Finish::DeniedByGateway ==> h == (Happened::Answered { ok: false }) || h
                == Happened::Unplanned(f)
            &&& f == Finish::ErrorAck ==> h == Happened::AnswerFailed || h == Happened::Unplanned(f)
            &&& f == Finish::ErrorAckTimeout ==> h == Happened::AnswerTimedOut || h
                == Happened::Unplanned(f)
            &&& f == Finish::ErrorNoRelay || f == Finish::ErrorBadRelay || f
                == Finish::EstablishedQuic || f == Finish::EstablishedRaw ==> h
                == Happened::Unplanned(f)
            &&& h is Unplanned ==> stage == Stage::Decision
        },
{
}

/// Law: every failure is acted on. One before the carrier is chosen stops the
/// establishment with its name; one of the encrypted carrier goes to the raw
/// relay with its reason; one of the raw relay stops it with its name.
pub proof fn law_failure_is_acted_on(f: Finish)
    ensures
        follow(Stage::Posture, Happened::PostureFailed).1 == Move::Stop(Finish::ErrorPosture),
        follow(Stage::Decision, Happened::DecisionFailed).1 == Move::Stop(Finish::ErrorDecision),
        follow(Stage::Decision, Happened::DecisionTimedOut).1 == Move::Stop(
            Finish::ErrorDecisionTimeout,
        ),
        follow(Stage::Decision, Happened::DecisionDenied).1 == Move::Stop(Finish::Denied),
        follow(Stage::Decision, Happened::Unplanned(f)).1 == Move::Stop(f),
        follow(Stage::Dial, Happened::Dialed(false)) == (
            Stage::RawSend,
            Move::SendRaw(Downgrade::DialFailed),
        ),
        follow(Stage::Session, Happened::Session(SessionAnswer::NoDatagrams)) == (
            Stage::RawSend,
            Move::SendRaw(Downgrade::NoDatagramSupport),
        ),
        follow(Stage::Session, Happened::Session(SessionAnswer::Failed)) == (
            Stage::RawSend,
            Move::SendRaw(Downgrade::SessionFailed),
        ),
        follow(Stage::RawSend, Happened::Sent(false)).1 == Move::Stop(Finish::ErrorSendFailed),
        follow(Stage::RawAck, Happened::Answered { ok: false }).1 == Move::Stop(
            Finish::DeniedByGateway,
        ),
        follow(Stage::RawAck, Happened::AnswerFailed).1 == Move::Stop(Finish::ErrorAck),
        follow(Stage::RawAck, Happened::AnswerTimedOut).1 == Move::Stop(Finish::ErrorAckTimeout),
{
}

/// Law: what does not belong to the stage changes nothing, and only the end of
/// the way is over: a stage is over exactly after a stop or an admission.
pub proof fn law_over_means_stopped_or_admitted(stage: Stage, h: Happened)
    requires
        stage != Stage::Over,
    ensures
        ({
            let (after, act) = follow(stage, h);
            after == Stage::Over <==> act is Stop || act is AdmitQuic || act == Move::AdmitRaw
        }),
        h is PostureBuilt || h is PostureFailed ==> (follow(stage, h).1 != Move::Ignore <==> stage
            == Stage::Posture),
        h is Allowed || h is DecisionDenied || h is DecisionFailed || h is DecisionTimedOut || h
            is Unplanned ==> (follow(stage, h).1 != Move::Ignore <==> stage == Stage::Decision),
        h is Dialed ==> (follow(stage, h).1 != Move::Ignore <==> stage == Stage::Dial),
        h is Session ==> (follow(stage, h).1 != Move::Ignore <==> stage == Stage::Session),
        h is Sent ==> (follow(stage, h).1 != Move::Ignore <==> stage == Stage::RawSend),
        h is Answered || h is AnswerFailed || h is AnswerTimedOut ==> (follow(stage, h).1
            != Move::Ignore <==> stage == Stage::RawAck),
{
}

/// Law: a grant's relay reads back into a plan: host and port of the relay that
/// is pinned, or else of the first gateway; the raw relay two ports above where
/// there is such a port; the grant's token and lifetime, or none and thirty
/// seconds.
pub proof fn law_plan_reads_back(
    pinned: Option<Seq<char>>,
    g: UdpGrant,
    r: Result<Plan, Finish>,
    host: Seq<char>,
    port: u16,
)
    requires
        plan_of(pinned, g, r),
        ({
            let named = host + seq![':'] + text::decimal(port as nat);
            pinned == Some(named) || (pinned is None && g.first_relay is Some
                && g.first_relay->Some_0@ == named)
        }),
    ensures
        r matches Ok(p) && {
            &&& p.host@ == host && p.port == port
            &&& port <= 65533 ==> p.udp_port == Some((port + 2) as u16)
            &&& port > 65533 ==> p.udp_port is None
            &&& g.connection_token_b64 matches Some(t) ==> p.token_b64@ == t@
            &&& g.connection_token_b64 is None ==> p.token_b64@.len() == 0
            &&& g.ttl matches Some(t) ==> p.ttl == t
            &&& g.ttl is None ==> p.ttl == 30
        },
{
    crate::addr::law_relay_reads_back(host, port as nat);
}

/// Law: a grant that leads nowhere is told apart: no relay at all, or one
/// without a port separator, is no relay; one whose port is out of range is a
/// bad one. A pinned relay counts before any gateway's.
pub proof fn law_unplanned(
    pinned: Option<Seq<char>>,
    g: UdpGrant,
    r: Result<Plan, Finish>,
    host: Seq<char>,
    port: nat,
)
    requires
        plan_of(pinned, g, r),
    ensures
        pinned is None && g.first_relay is None ==> r == Err::<Plan, Finish>(Finish::ErrorNoRelay),
        pinned == Some(host) && !host.contains(':') ==> r == Err::<Plan, Finish>(
            Finish::ErrorNoRelay,
        ),
        pinned == Some(host + seq![':'] + text::decimal(port)) && port > u16::MAX ==> r == Err::<
            Plan,
            Finish,
        >(Finish::ErrorBadRelay),
        pinned matches Some(p) ==> relay_text(pinned, g) == p,
{
    let none = Seq::<char>::empty();
    crate::addr::law_relay_reads_back(none, 0);
    crate::addr::law_relay_reads_back(host, port);
}

/// Law: a reply that opens a session reads back: `OK`, a blank and the number,
/// with or without a line end; any other first word opens none.
pub proof fn law_session_reads_back(sid: u32, other: Seq<char>)
    ensures
        opened_session("OK "@ + text::decimal(sid as nat)) == Some(sid as nat),
        opened_session("OK "@ + text::decimal(sid as nat) + seq!['\n']) == Some(sid as nat),
        other.len() > 0 && other[0] != 'O' ==> opened_session(other) is None,
        opened_session(Seq::empty()) is None,
{
    reveal_strlit("OK ");
    let d = text::decimal(sid as nat);
    let s = "OK "@ + d;
    text::lemma_decimal_value(sid as nat);
    text::lemma_decimal_number(sid as nat, u32::MAX as nat);
    assert(text::is_digit(d[0]) && text::is_digit(d[d.len() - 1]));
    assert(!text::is_space(d[0]) && !text::is_space(d.last()));
    assert(s.last() == d.last());
    assert(text::drop_space(s) == s);
    assert(s.subrange(0, 3) =~= "OK "@);
    assert(s.subrange(3, s.len() as int) =~= d);
    assert(text::trimmed(d) == d);
    let n = s + seq!['\n'];
    assert(n.drop_last() =~= s);
    assert(text::drop_space(n) == text::drop_space(s));
    text::law_drop_space(other);
    let o = text::drop_space(other);
    if text::has_prefix(o, "OK "@) {
        assert(o.subrange(0, 3)[0] == o[0]);
    }
}

} // verus!
