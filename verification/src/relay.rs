//! Which carrier a relay is dialed on, and when a plaintext one may stand in.

use vstd::prelude::*;

use crate::table::Table;

verus! {

/// The carrier a user asks for.
#[derive(Debug, Clone, Copy, PartialEq, Eq, Structural)]
pub enum TransportKind {
    /// Plain TCP.
    Tcp,
    /// QUIC (relay port + 1).
    Quic,
    /// TLS 1.3 with client certificate over TCP (relay port + 3).
    TlsTcp,
    /// QUIC, then TLS over TCP.
    Auto,
}

impl TransportKind {
    /// The name of the kind in reports.
    pub fn as_str(&self) -> (r: &'static str)
        ensures
            r@ == match self {
                TransportKind::Tcp => "tcp"@,
                TransportKind::Quic => "quic"@,
                TransportKind::TlsTcp => "tls-tcp"@,
                TransportKind::Auto => "auto"@,
            },
    {
        match self {
            TransportKind::Tcp => "tcp",
            TransportKind::Quic => "quic",
            TransportKind::TlsTcp => "tls-tcp",
            TransportKind::Auto => "auto",
        }
    }
}

/// Offset of the QUIC port from the relay's port.
pub const QUIC_OFFSET: u16 = 1;

/// Offset of the raw UDP port from the relay's port.
pub const UDP_OFFSET: u16 = 2;

/// Offset of the TLS port from the relay's port.
pub const TLS_OFFSET: u16 = 3;

/// The port a carrier listens on; none where it would leave the port range.
pub fn carrier_port(port: u16, offset: u16) -> (r: Option<u16>)
    ensures
        match r {
            Some(p) => p == port + offset,
            None => port + offset > u16::MAX,
        },
{
    port.checked_add(offset)
}

/// Why a plaintext carrier was chosen.
#[derive(Debug, Clone, Copy, PartialEq, Eq, Structural)]
pub enum PlainReason {
    /// The user asked for it.
    LegacyFlag,
    /// The relay is known to have no TLS carrier.
    CapabilityAbsent,
    /// The relay refused the connection, and nothing had promised otherwise.
    RefusedLegacy,
}

impl PlainReason {
    /// The reason's label.
    pub fn as_str(&self) -> (r: &'static str)
        ensures
            r@ == match self {
                PlainReason::LegacyFlag => "legacy_flag"@,
                PlainReason::CapabilityAbsent => "capability_absent"@,
                PlainReason::RefusedLegacy => "refused_legacy"@,
            },
    {
        match self {
            PlainReason::LegacyFlag => "legacy_flag",
            PlainReason::CapabilityAbsent => "capability_absent",
            PlainReason::RefusedLegacy => "refused_legacy",
        }
    }
}

/// Per-relay memory of whether a TLS carrier answers, for the life of the
/// process. Written only on definite outcomes: a completed handshake, or a
/// refused connection. A failed handshake proves nothing and is not kept.
pub struct TlsMemory {
    known: Table<String, bool>,
}

impl View for TlsMemory {
    type V = Map<Seq<char>, bool>;

    closed spec fn view(&self) -> Map<Seq<char>, bool> {
        self.known@
    }
}

/// What a memory says of a relay.
pub open spec fn remembered(m: Map<Seq<char>, bool>, relay: Seq<char>) -> Option<bool> {
    if m.contains_key(relay) {
        Some(m[relay])
    } else {
        None
    }
}

impl TlsMemory {
    /// The memory is a map.
    pub closed spec fn wf(&self) -> bool {
        self.known.wf()
    }

    /// Nothing is known.
    pub fn new() -> (r: Self)
        ensures
            r.wf(),
            r@ == Map::<Seq<char>, bool>::empty(),
    {
        TlsMemory { known: Table::new() }
    }

    /// Whether the relay is known to have, or not to have, a TLS carrier.
    pub fn tls_tcp_known(&self, relay: &str) -> (r: Option<bool>)
        requires
            self.wf(),
        ensures
            r == remembered(self@, relay@),
    {
        let key: String = relay.to_owned();
        match self.known.get(&key) {
            Some(b) => Some(*b),
            None => None,
        }
    }

    /// Keeps a definite outcome.
    pub fn remember_tls_tcp(&mut self, relay: &str, capable: bool)
        requires
            old(self).wf(),
        ensures
            final(self).wf(),
            final(self)@ == old(self)@.insert(relay@, capable),
    {
        self.known.insert(relay.to_owned(), capable);
    }
}

/// Whether a refused TLS connection may be answered with plain TCP: only
/// where the controller did not promise the carrier.
pub fn refused_fallback_allowed(capability: Option<bool>) -> (r: bool)
    ensures
        r == (capability != Some(true)),
{
    match capability {
        Some(c) => !c,
        None => true,
    }
}

/// Where a dial stands.
#[derive(Debug, Clone, Copy, PartialEq, Eq, Structural)]
pub enum DialPhase {
    /// Nothing was tried.
    Start,
    /// QUIC is being tried, with TLS to follow.
    Probing,
    /// QUIC is being tried, with nothing to follow.
    Quic,
    /// TLS is being tried.
    Tls,
    /// Plain TCP is being tried.
    Plain,
    /// It is over.
    Done,
}

/// What happened in a dial.
#[derive(Debug, Clone, Copy, PartialEq, Eq, Structural)]
pub enum DialEvent {
    /// The dial begins.
    Begin,
    /// The attempt gave a channel.
    Connected,
    /// The connection was refused.
    Refused,
    /// The attempt failed otherwise or took too long.
    Failed,
}

/// What to do next in a dial.
#[derive(Debug, Clone, Copy, PartialEq, Eq, Structural)]
pub enum DialAction {
    /// Try QUIC briefly.
    ProbeQuic,
    /// Try QUIC.
    TryQuic,
    /// Try TLS over TCP.
    TryTls,
    /// Connect in the clear, and count it with its reason.
    TryPlain(PlainReason),
    /// Use the channel.
    Use,
    /// Give up: the attempt failed.
    Fail,
    /// Give up: a promised carrier was refused.
    FailClosed,
    /// Give up: TLS failed, and a plain connection is no answer to that.
    FailTls,
}

/// The TLS step: skipped where the carrier is known to be absent.
pub open spec fn tls_step(capability: Option<bool>, known: Option<bool>) -> (DialPhase, DialAction) {
    if capability == Some(false) || known == Some(false) {
        (DialPhase::Plain, DialAction::TryPlain(PlainReason::CapabilityAbsent))
    } else {
        (DialPhase::Tls, DialAction::TryTls)
    }
}

/// The next phase and action.
pub open spec fn dial_next(
    transport: TransportKind,
    capability: Option<bool>,
    known: Option<bool>,
    phase: DialPhase,
    event: DialEvent,
) -> (DialPhase, DialAction) {
    match (phase, event) {
        (DialPhase::Start, _) => match transport {
            TransportKind::Tcp => (
                DialPhase::Plain,
                DialAction::TryPlain(PlainReason::LegacyFlag),
            ),
            TransportKind::TlsTcp => tls_step(capability, known),
            TransportKind::Quic => (DialPhase::Quic, DialAction::TryQuic),
            TransportKind::Auto => (DialPhase::Probing, DialAction::ProbeQuic),
        },
        (DialPhase::Done, _) => (DialPhase::Done, DialAction::Fail),
        (_, DialEvent::Connected) => (DialPhase::Done, DialAction::Use),
        (DialPhase::Probing, _) => tls_step(capability, known),
        (DialPhase::Tls, DialEvent::Refused) => if capability == Some(true) {
            (DialPhase::Done, DialAction::FailClosed)
        } else {
            (DialPhase::Plain, DialAction::TryPlain(PlainReason::RefusedLegacy))
        },
        (DialPhase::Tls, _) => (DialPhase::Done, DialAction::FailTls),
        (_, _) => (DialPhase::Done, DialAction::Fail),
    }
}

/// What a step leaves in the memory: a TLS handshake that completed, or a
/// refusal that is answered in the clear.
pub open spec fn dial_memory(
    m: Map<Seq<char>, bool>,
    relay: Seq<char>,
    capability: Option<bool>,
    phase: DialPhase,
    event: DialEvent,
) -> Map<Seq<char>, bool> {
    if phase == DialPhase::Tls && event == DialEvent::Connected {
        m.insert(relay, true)
    } else if phase == DialPhase::Tls && event == DialEvent::Refused && capability != Some(true) {
        m.insert(relay, false)
    } else {
        m
    }
}

fn tls_step_exec(capability: Option<bool>, known: Option<bool>) -> (r: (DialPhase, DialAction))
    ensures
        r == tls_step(capability, known),
{
    let absent = match capability {
        Some(c) => !c,
        None => false,
    };
    let known_absent = match known {
        Some(k) => !k,
        None => false,
    };
    if absent || known_absent {
        (DialPhase::Plain, DialAction::TryPlain(PlainReason::CapabilityAbsent))
    } else {
        (DialPhase::Tls, DialAction::TryTls)
    }
}

/// Takes a dial one step further. `capability` is what the controller's
/// decision says of the gateway's TLS carrier, if it says anything.
pub fn dial_step(
    memory: &mut TlsMemory,
    relay: &str,
    transport: TransportKind,
    capability: Option<bool>,
    phase: DialPhase,
    event: DialEvent,
) -> (r: (DialPhase, DialAction))
    requires
        old(memory).wf(),
    ensures
        final(memory).wf(),
        final(memory)@ == dial_memory(old(memory)@, relay@, capability, phase, event),
        r == dial_next(transport, capability, remembered(old(memory)@, relay@), phase, event),
{
    let known = memory.tls_tcp_known(relay);
    match phase {
        DialPhase::Start => match transport {
            TransportKind::Tcp => (DialPhase::Plain, DialAction::TryPlain(PlainReason::LegacyFlag)),
            TransportKind::TlsTcp => tls_step_exec(capability, known),
            TransportKind::Quic => (DialPhase::Quic, DialAction::TryQuic),
            TransportKind::Auto => (DialPhase::Probing, DialAction::ProbeQuic),
        },
        DialPhase::Done => (DialPhase::Done, DialAction::Fail),
        DialPhase::Probing => match event {
            DialEvent::Connected => (DialPhase::Done, DialAction::Use),
            _ => tls_step_exec(capability, known),
        },
        DialPhase::Tls => match event {
            DialEvent::Connected => {
                memory.remember_tls_tcp(relay, true);
                (DialPhase::Done, DialAction::Use)
            },
            DialEvent::Refused => {
                if !refused_fallback_allowed(capability) {
                    return (DialPhase::Done, DialAction::FailClosed);
                }
                memory.remember_tls_tcp(relay, false);
                (DialPhase::Plain, DialAction::TryPlain(PlainReason::RefusedLegacy))
            },
            _ => (DialPhase::Done, DialAction::FailTls),
        },
        _ => match event {
            DialEvent::Connected => (DialPhase::Done, DialAction::Use),
            _ => (DialPhase::Done, DialAction::Fail),
        },
    }
}

/// Law: a TLS attempt that fails ends the dial; it is never answered with a
/// plain connection, and neither is a refusal of a promised carrier.
pub proof fn law_tls_failure_never_downgrades(
    transport: TransportKind,
    capability: Option<bool>,
    known: Option<bool>,
    event: DialEvent,
)
    requires
        event != DialEvent::Connected,
        event != DialEvent::Refused || capability == Some(true),
    ensures
        ({
            let (phase, action) = dial_next(transport, capability, known, DialPhase::Tls, event);
            phase == DialPhase::Done && !(action is TryPlain) && action != DialAction::Use
        }),
{
}

/// Law: a plain connection is made only where the user asked for plain TCP,
/// where the carrier is known to be absent, or where a refusal came from a
/// relay nothing was promised of.
pub proof fn law_plain_needs_a_reason(
    transport: TransportKind,
    capability: Option<bool>,
    known: Option<bool>,
    phase: DialPhase,
    event: DialEvent,
)
    requires
        dial_next(transport, capability, known, phase, event).1 is TryPlain,
    ensures
        (transport == TransportKind::Tcp && phase == DialPhase::Start) || capability == Some(false)
            || known == Some(false) || (phase == DialPhase::Tls && event == DialEvent::Refused
            && capability != Some(true)),
{
}

/// Law: a failed handshake leaves the memory as it was.
pub proof fn law_failed_handshake_not_remembered(
    m: Map<Seq<char>, bool>,
    relay: Seq<char>,
    capability: Option<bool>,
    phase: DialPhase,
)
    ensures
        dial_memory(m, relay, capability, phase, DialEvent::Failed) == m,
{
}

/// Law: a channel that an attempt gave is used, whatever was tried and whatever
/// is known of the relay; and nothing else is ever taken for a channel.
pub proof fn law_connection_is_used(
    transport: TransportKind,
    capability: Option<bool>,
    known: Option<bool>,
    phase: DialPhase,
    event: DialEvent,
)
    ensures
        phase != DialPhase::Start && phase != DialPhase::Done && event == DialEvent::Connected
            ==> dial_next(transport, capability, known, phase, event) == (
            DialPhase::Done,
            DialAction::Use,
        ),
        dial_next(transport, capability, known, phase, event).1 == DialAction::Use ==> event
            == DialEvent::Connected && phase != DialPhase::Start && phase != DialPhase::Done,
{
}

/// Law: the transport that was asked for decides what is tried first. Plain
/// TCP and QUIC are tried as asked, TLS unless the carrier is known to be
/// absent, and `Auto` probes QUIC.
pub proof fn law_transport_decides_first_attempt(
    transport: TransportKind,
    capability: Option<bool>,
    known: Option<bool>,
    event: DialEvent,
)
    ensures
        ({
            let (phase, action) = dial_next(transport, capability, known, DialPhase::Start, event);
            let absent = capability == Some(false) || known == Some(false);
            &&& transport == TransportKind::Tcp <==> action == DialAction::TryPlain(
                PlainReason::LegacyFlag,
            )
            &&& transport == TransportKind::Quic <==> action == DialAction::TryQuic
            &&& transport == TransportKind::Auto <==> action == DialAction::ProbeQuic
            &&& transport == TransportKind::TlsTcp && !absent <==> action == DialAction::TryTls
            &&& transport == TransportKind::TlsTcp && absent <==> action == DialAction::TryPlain(
                PlainReason::CapabilityAbsent,
            )
            &&& phase != DialPhase::Done
        }),
{
}

/// Law: a phase goes with the attempt that is under way in it.
pub proof fn law_phase_is_the_attempt(
    transport: TransportKind,
    capability: Option<bool>,
    known: Option<bool>,
    phase: DialPhase,
    event: DialEvent,
)
    ensures
        ({
            let (next, action) = dial_next(transport, capability, known, phase, event);
            &&& next != DialPhase::Start
            &&& next == DialPhase::Probing <==> action == DialAction::ProbeQuic
            &&& next == DialPhase::Quic <==> action == DialAction::TryQuic
            &&& next == DialPhase::Tls <==> action == DialAction::TryTls
            &&& next == DialPhase::Plain <==> action is TryPlain
        }),
{
}

/// Law: where the QUIC probe of `Auto` gives no channel, the dial goes on as
/// one that asked for TLS would have begun.
pub proof fn law_auto_goes_on_with_tls(
    capability: Option<bool>,
    known: Option<bool>,
    event: DialEvent,
    begin: DialEvent,
)
    requires
        event != DialEvent::Connected,
    ensures
        dial_next(TransportKind::Auto, capability, known, DialPhase::Probing, event) == dial_next(
            TransportKind::TlsTcp,
            capability,
            known,
            DialPhase::Start,
            begin,
        ),
{
}

/// Law: how an attempt without a channel ends. QUIC alone and plain TCP give
/// up; a TLS failure gives up as such; a refused TLS connection gives up where
/// the carrier was promised and else is answered in the clear.
pub proof fn law_failed_attempt_ends(
    transport: TransportKind,
    capability: Option<bool>,
    known: Option<bool>,
    event: DialEvent,
)
    requires
        event == DialEvent::Refused || event == DialEvent::Failed,
    ensures
        dial_next(transport, capability, known, DialPhase::Quic, event).1 == DialAction::Fail,
        dial_next(transport, capability, known, DialPhase::Plain, event).1 == DialAction::Fail,
        event == DialEvent::Failed ==> dial_next(
            transport,
            capability,
            known,
            DialPhase::Tls,
            event,
        ).1 == DialAction::FailTls,
        event == DialEvent::Refused ==> dial_next(
            transport,
            capability,
            known,
            DialPhase::Tls,
            event,
        ).1 == if capability == Some(true) {
            DialAction::FailClosed
        } else {
            DialAction::TryPlain(PlainReason::RefusedLegacy)
        },
        dial_next(transport, capability, known, DialPhase::Done, event).0 == DialPhase::Done,
{
}

/// Law: a dial is over after at most three attempts: every step that is not
/// the first moves on in the order probe, TLS, plain, over.
pub proof fn law_dial_ends(
    transport: TransportKind,
    capability: Option<bool>,
    known: Option<bool>,
    phase: DialPhase,
    event: DialEvent,
)
    requires
        phase != DialPhase::Done,
    ensures
        dial_rank(dial_next(transport, capability, known, phase, event).0) > dial_rank(phase),
{
}

/// Position of a phase on the way.
pub open spec fn dial_rank(phase: DialPhase) -> nat {
    match phase {
        DialPhase::Start => 0,
        DialPhase::Probing => 1,
        DialPhase::Quic => 1,
        DialPhase::Tls => 2,
        DialPhase::Plain => 3,
        DialPhase::Done => 4,
    }
}

/// Law: the memory learns of a relay from its TLS attempt alone: that it has
/// the carrier where the attempt gave a channel, that it has not where it
/// refused what nobody promised. Other relays are not touched.
pub proof fn law_memory_learns_from_tls(
    m: Map<Seq<char>, bool>,
    relay: Seq<char>,
    other: Seq<char>,
    capability: Option<bool>,
    phase: DialPhase,
    event: DialEvent,
)
    ensures
        ({
            let after = dial_memory(m, relay, capability, phase, event);
            &&& other != relay ==> remembered(after, other) == remembered(m, other)
            &&& phase == DialPhase::Tls && event == DialEvent::Connected ==> remembered(
                after,
                relay,
            ) == Some(true)
            &&& phase == DialPhase::Tls && event == DialEvent::Refused && capability != Some(true)
                ==> remembered(after, relay) == Some(false)
            &&& phase != DialPhase::Tls ==> after == m
            &&& capability == Some(true) && event == DialEvent::Refused ==> after == m
        }),
{
}

/// Law: a relay that refused TLS is not asked for it again, and one that
/// took it is, as long as the controller says nothing against it.
pub proof fn law_memory_decides_next_dial(
    m: Map<Seq<char>, bool>,
    relay: Seq<char>,
    capability: Option<bool>,
    later: Option<bool>,
)
    ensures
        capability != Some(true) ==> dial_next(
            TransportKind::TlsTcp,
            later,
            remembered(
                dial_memory(m, relay, capability, DialPhase::Tls, DialEvent::Refused),
                relay,
            ),
            DialPhase::Start,
            DialEvent::Begin,
        ).1 == DialAction::TryPlain(PlainReason::CapabilityAbsent),
        later != Some(false) ==> dial_next(
            TransportKind::TlsTcp,
            later,
            remembered(
                dial_memory(m, relay, capability, DialPhase::Tls, DialEvent::Connected),
                relay,
            ),
            DialPhase::Start,
            DialEvent::Begin,
        ).1 == DialAction::TryTls,
{
}

} // verus!
