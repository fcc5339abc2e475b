//! The local UDP forwarder: one flow per local peer, the gateway sessions the
//! flows own, and the reassembly of what comes back.
//!
//! Peers are numbered by the caller, one number per local address. Wall-clock
//! times are in seconds, monotonic times in milliseconds.

use std::collections::HashMap;
use vstd::prelude::*;

use crate::udp_frag;
use crate::udp_frag::{decode, Outcome, Reassembler};

verus! {

broadcast use vstd::std_specs::hash::group_hash_axioms;

/// Partial datagrams a session may hold.
pub const REASM_SLOTS: usize = 16;

/// Bytes a partial datagram may hold.
pub const REASM_BYTES: usize = 262144;

/// How a flow rides to the gateway.
#[derive(Debug, Clone, Copy, PartialEq, Eq, Structural)]
pub enum Carrier {
    /// The gateway's raw relay socket.
    Raw,
    /// Encrypted datagram frames of one gateway session.
    Quic { sid: u32 },
}

/// One admitted flow.
#[derive(Debug, Clone, Copy, PartialEq, Eq, Structural)]
pub struct UdpFlow {
    pub carrier: Carrier,
    /// Last datagram id used (encrypted carrier).
    pub dgram_id: u16,
    /// When the flow's token lapses.
    pub expires_at: i64,
    pub last_active: u64,
}

/// Milliseconds from `then` to `now`; none where `then` lies ahead.
pub open spec fn elapsed(now: u64, then: u64) -> int {
    if now >= then {
        now - then
    } else {
        0
    }
}

/// Whether a flow may be used: its token has not lapsed and it was active
/// within the idle window.
pub open spec fn is_live(f: UdpFlow, idle: u64, now_unix: i64, now: u64) -> bool {
    now_unix < f.expires_at && elapsed(now, f.last_active) < idle
}

/// Whether a flow with these stamps may be used. The idle window is shorter
/// than the gateway's, so the client re-establishes first.
pub fn udp_flow_live(expires_at: i64, last_active: u64, idle: u64, now_unix: i64, now: u64) -> (r:
    bool)
    ensures
        r == (now_unix < expires_at && elapsed(now, last_active) < idle),
{
    now_unix < expires_at && now.saturating_sub(last_active) < idle
}

impl UdpFlow {
    /// The gateway session the flow owns; raw flows own none.
    pub fn owned_sid(&self) -> (r: Option<u32>)
        ensures
            match self.carrier {
                Carrier::Quic { sid } => r == Some(sid),
                Carrier::Raw => r is None,
            },
    {
        match self.carrier {
            Carrier::Quic { sid } => Some(sid),
            Carrier::Raw => None,
        }
    }
}

/// Whether a flow owns a session.
pub open spec fn owns(f: UdpFlow, sid: u64) -> bool {
    f.carrier matches Carrier::Quic { sid: s } && s == sid
}

/// The forwarder's tables and its encrypted connection.
pub struct ForwarderView {
    /// Flow of each peer.
    pub flows: Map<u64, UdpFlow>,
    /// Peer of each session.
    pub sids: Map<u64, u64>,
    /// Reassembly of each session that has received anything.
    pub reasms: Map<u64, udp_frag::ReasmView>,
    /// Whether an encrypted connection is held.
    pub quic: bool,
    /// Whether the held connection is not known to be lost.
    pub conn_alive: bool,
}

/// A flow's session entries die with the flow; without a session, nothing.
pub fn prune_session_entries(
    sid: Option<u32>,
    sids: &mut HashMap<u64, u64>,
    reasms: &mut HashMap<u64, Reassembler>,
)
    ensures
        match sid {
            Some(s) => final(sids)@ == old(sids)@.remove(s as u64) && final(reasms)@ == old(
                reasms,
            )@.remove(s as u64),
            None => final(sids)@ == old(sids)@ && final(reasms)@ == old(reasms)@,
        },
{
    if let Some(s) = sid {
        let _a = sids.remove(&(s as u64));
        let _b = reasms.remove(&(s as u64));
    }
}

/// The forwarder's state.
pub struct Forwarder {
    flows: HashMap<u64, UdpFlow>,
    sids: HashMap<u64, u64>,
    reasms: HashMap<u64, Reassembler>,
    quic: bool,
    conn_alive: bool,
}

/// Every session is owned by its peer's flow, and only sessions reassemble.
pub open spec fn sessions_owned(v: ForwarderView) -> bool {
    &&& forall|s: u64| #[trigger]
        v.sids.contains_key(s) ==> v.flows.contains_key(v.sids[s]) && owns(v.flows[v.sids[s]], s)
    &&& forall|s: u64| #[trigger] v.reasms.contains_key(s) ==> v.sids.contains_key(s)
    &&& v.flows.dom().finite()
    &&& v.sids.dom().finite()
    &&& v.reasms.dom().finite()
}

/// The state without a peer's flow and without the session entries it owns.
pub open spec fn pruned(v: ForwarderView, peer: u64) -> ForwarderView {
    let gone = v.flows.contains_key(peer);
    let sid = match v.flows[peer].carrier {
        Carrier::Quic { sid } => Some(sid as u64),
        Carrier::Raw => None,
    };
    ForwarderView {
        flows: v.flows.remove(peer),
        sids: match sid {
            Some(s) if gone => v.sids.remove(s),
            _ => v.sids,
        },
        reasms: match sid {
            Some(s) if gone => v.reasms.remove(s),
            _ => v.reasms,
        },
        quic: v.quic,
        conn_alive: v.conn_alive,
    }
}

/// Whether one of the listed peers' flows owns the session.
pub open spec fn owned_by_listed(flows: Map<u64, UdpFlow>, peers: Seq<u64>, sid: u64) -> bool {
    exists|i: int| 0 <= i < peers.len() && owned_by(flows, #[trigger] peers[i], sid)
}

/// Whether the peer's flow owns the session.
pub open spec fn owned_by(flows: Map<u64, UdpFlow>, peer: u64, sid: u64) -> bool {
    flows.contains_key(peer) && owns(flows[peer], sid)
}

/// The state without the listed peers' flows and all they own.
pub open spec fn pruned_all(v: ForwarderView, peers: Seq<u64>, w: ForwarderView) -> bool {
    &&& w.quic == v.quic
    &&& w.conn_alive == v.conn_alive
    &&& w.flows == v.flows.remove_keys(peers.to_set())
    &&& w.sids == v.sids.restrict(Set::new(|s: u64| !owned_by_listed(v.flows, peers, s)))
    &&& w.reasms == v.reasms.restrict(Set::new(|s: u64| !owned_by_listed(v.flows, peers, s)))
}

proof fn lemma_pruned_owned(v: ForwarderView, peer: u64)
    requires
        sessions_owned(v),
    ensures
        sessions_owned(pruned(v, peer)),
{
    let w = pruned(v, peer);
    assert forall|s: u64| #[trigger] w.sids.contains_key(s) implies w.flows.contains_key(w.sids[s])
        && owns(w.flows[w.sids[s]], s) by {
        assert(v.sids.contains_key(s));
        if v.flows.contains_key(peer) && v.sids[s] == peer {
            assert(owns(v.flows[peer], s));
        }
    }
    assert forall|s: u64| #[trigger] w.reasms.contains_key(s) implies w.sids.contains_key(s) by {
        assert(v.reasms.contains_key(s));
    }
}

/// What to do with a datagram from a local peer.
#[derive(Debug, Clone, Copy, PartialEq, Eq, Structural)]
pub enum Ingress {
    /// Send it on the flow's raw socket.
    SendRaw,
    /// Fragment it and send it on the session under this datagram id.
    SendQuic { sid: u32, dgram_id: u16 },
    /// No usable flow: establish one with a fresh decision.
    Establish,
}

/// What to do with a frame from the gateway.
#[derive(Debug, PartialEq, Eq)]
pub enum Egress {
    /// Malformed, for an unknown session, or refused by reassembly.
    Ignored,
    /// The gateway ended the session; the peer's next datagram re-decides.
    Ended { peer: u64 },
    /// Taken in; the datagram is not whole yet.
    Held,
    /// A whole datagram for the peer.
    Deliver { peer: u64, data: Vec<u8> },
}

impl View for Forwarder {
    type V = ForwarderView;

    closed spec fn view(&self) -> ForwarderView {
        ForwarderView {
            flows: self.flows@,
            sids: self.sids@,
            reasms: self.reasms@.map_values(|r: Reassembler| r@),
            quic: self.quic,
            conn_alive: self.conn_alive,
        }
    }
}

/// The reassembly state a session's first frame finds.
pub open spec fn fresh_reasm() -> udp_frag::ReasmView {
    udp_frag::ReasmView {
        slots: Map::empty(),
        max_slots: REASM_SLOTS as nat,
        max_bytes: REASM_BYTES as nat,
    }
}

/// The reassembly state of a session.
pub open spec fn reasm_of(v: ForwarderView, s: u64) -> udp_frag::ReasmView {
    if v.reasms.contains_key(s) {
        v.reasms[s]
    } else {
        fresh_reasm()
    }
}

/// What a frame for session `s`, known to belong to `peer`, does: one
/// reassembly step on the session's state, delivered when whole.
pub open spec fn frame_step(
    v: ForwarderView,
    f: udp_frag::FrameView,
    now: u64,
    w: ForwarderView,
    r: Egress,
) -> bool {
    let s = f.session_id as u64;
    exists|post: udp_frag::ReasmView, outcome: udp_frag::OutcomeView|
        {
            &&& #[trigger] udp_frag::accept_step(reasm_of(v, s), f, now as nat, post, outcome)
            &&& w.reasms == v.reasms.insert(s, post)
            &&& match outcome {
                udp_frag::OutcomeView::Complete(d) => r matches Egress::Deliver { peer, data }
                    && peer == v.sids[s] && data@ == d,
                udp_frag::OutcomeView::Malformed => r is Ignored,
                _ => r is Held,
            }
        }
}

impl Forwarder {
    /// Every reassembly is sound, and every session is owned.
    pub closed spec fn wf(&self) -> bool {
        &&& forall|s: u64| #[trigger] self.reasms@.contains_key(s) ==> self.reasms@[s].wf()
        &&& sessions_owned(self@)
    }

    /// No flows, no connection.
    pub fn new() -> (r: Self)
        ensures
            r.wf(),
            r@ == (ForwarderView {
                flows: Map::empty(),
                sids: Map::empty(),
                reasms: Map::empty(),
                quic: false,
                conn_alive: true,
            }),
    {
        let r = Forwarder {
            flows: HashMap::new(),
            sids: HashMap::new(),
            reasms: HashMap::new(),
            quic: false,
            conn_alive: true,
        };
        assert(r@.reasms =~= Map::<u64, udp_frag::ReasmView>::empty());
        r
    }

    /// Numbers of flows, sessions and reassemblies held.
    pub fn sizes(&self) -> (r: (usize, usize, usize))
        requires
            self.wf(),
        ensures
            r.0 == self@.flows.len(),
            r.1 == self@.sids.len(),
            r.2 == self@.reasms.len(),
    {
        assert(self@.reasms.dom() =~= self.reasms@.dom());
        (self.flows.len(), self.sids.len(), self.reasms.len())
    }

    /// Removes a peer's flow and the session entries the flow owns.
    pub fn prune_flow(&mut self, peer: u64)
        requires
            old(self).wf(),
        ensures
            final(self).wf(),
            final(self)@ == pruned(old(self)@, peer),
    {
        let ghost v = self@;
        let sid: Option<u32> = match self.flows.remove(&peer) {
            Some(f) => f.owned_sid(),
            None => None,
        };
        prune_session_entries(sid, &mut self.sids, &mut self.reasms);
        proof {
            lemma_pruned_owned(v, peer);
            assert(self@.reasms =~= pruned(v, peer).reasms);
            assert(self@.flows =~= pruned(v, peer).flows);
            assert(self@.sids =~= pruned(v, peer).sids);
        }
    }

    fn prune_all(&mut self, peers: &Vec<u64>)
        requires
            old(self).wf(),
        ensures
            final(self).wf(),
            pruned_all(old(self)@, peers@, final(self)@),
    {
        let ghost v = self@;
        let mut i: usize = 0;
        proof {
            let none = peers@.subrange(0, 0);
            assert(v.flows =~= v.flows.remove_keys(none.to_set()));
            assert(v.sids =~= v.sids.restrict(
                Set::new(|s: u64| !owned_by_listed(v.flows, none, s)),
            ));
            assert(v.reasms =~= v.reasms.restrict(
                Set::new(|s: u64| !owned_by_listed(v.flows, none, s)),
            ));
        }
        while i < peers.len()
            invariant
                i <= peers@.len(),
                self.wf(),
                pruned_all(v, peers@.subrange(0, i as int), self@),
            decreases peers@.len() - i,
        {
            let ghost w = self@;
            let ghost done = peers@.subrange(0, i as int);
            let ghost more = peers@.subrange(0, i + 1);
            let p: u64 = peers[i];
            self.prune_flow(p);
            proof {
                lemma_prune_one_more(v, done, p, w);
                assert(more =~= done.push(p));
            }
            i += 1;
        }
        assert(peers@.subrange(0, i as int) =~= peers@);
    }

    /// A datagram arrived from a local peer. A usable flow is stamped and
    /// used; a flow that lapsed is removed with all it owns.
    pub fn on_datagram(&mut self, peer: u64, idle: u64, now_unix: i64, now: u64) -> (r: Ingress)
        requires
            old(self).wf(),
        ensures
            final(self).wf(),
            ({
                let v = old(self)@;
                let f = v.flows[peer];
                if v.flows.contains_key(peer) && is_live(f, idle, now_unix, now) {
                    let next = if f.dgram_id == u16::MAX {
                        0
                    } else {
                        (f.dgram_id + 1) as u16
                    };
                    &&& r == match f.carrier {
                        Carrier::Raw => Ingress::SendRaw,
                        Carrier::Quic { sid } => Ingress::SendQuic { sid, dgram_id: next },
                    }
                    &&& final(self)@ == (ForwarderView {
                        flows: v.flows.insert(
                            peer,
                            UdpFlow {
                                carrier: f.carrier,
                                dgram_id: next,
                                expires_at: f.expires_at,
                                last_active: now,
                            },
                        ),
                        ..v
                    })
                } else {
                    r == Ingress::Establish && final(self)@ == pruned(v, peer)
                }
            }),
    {
        let ghost v = self@;
        if let Some(f0) = self.flows.get(&peer) {
            let f: UdpFlow = *f0;
            if udp_flow_live(f.expires_at, f.last_active, idle, now_unix, now) {
                let next: u16 = f.dgram_id.wrapping_add(1);
                self.flows.insert(
                    peer,
                    UdpFlow {
                        carrier: f.carrier,
                        dgram_id: next,
                        expires_at: f.expires_at,
                        last_active: now,
                    },
                );
                proof {
                    assert forall|s: u64| #[trigger]
                        self@.sids.contains_key(s) implies self@.flows.contains_key(self@.sids[s])
                        && owns(self@.flows[self@.sids[s]], s) by {
                        assert(v.sids.contains_key(s));
                    }
                }
                return match f.carrier {
                    Carrier::Raw => Ingress::SendRaw,
                    Carrier::Quic { sid } => Ingress::SendQuic { sid, dgram_id: next },
                };
            }
        }
        self.prune_flow(peer);
        Ingress::Establish
    }

    /// A frame arrived on the encrypted connection.
    pub fn on_frame(&mut self, bytes: &[u8], now: u64) -> (r: Egress)
        requires
            old(self).wf(),
        ensures
            final(self).wf(),
            ({
                let v = old(self)@;
                let w = final(self)@;
                match udp_frag::decoded(bytes@) {
                    None => r is Ignored && w == v,
                    Some(f) => {
                        let s = f.session_id as u64;
                        if !v.sids.contains_key(s) {
                            r is Ignored && w == v
                        } else if f.total_len == 0 {
                            &&& r == (Egress::Ended { peer: v.sids[s] })
                            &&& w == (ForwarderView {
                                flows: v.flows.remove(v.sids[s]),
                                sids: v.sids.remove(s),
                                reasms: v.reasms.remove(s),
                                ..v
                            })
                        } else {
                            &&& w == (ForwarderView { reasms: w.reasms, ..v })
                            &&& frame_step(v, f, now, w, r)
                        }
                    },
                }
            }),
    {
        let ghost v = self@;
        let frame = match decode(bytes) {
            Some(f) => f,
            None => return Egress::Ignored,
        };
        let s: u64 = frame.session_id as u64;
        if frame.total_len == 0 {
            return match self.sids.remove(&s) {
                Some(peer) => {
                    proof {
                        assert(owns(v.flows[peer], s));
                        lemma_pruned_owned(v, peer);
                    }
                    let _f = self.flows.remove(&peer);
                    let _r = self.reasms.remove(&s);
                    proof {
                        assert(self@.reasms =~= v.reasms.remove(s));
                        assert(self@.sids =~= pruned(v, peer).sids);
                        assert(self@.flows =~= pruned(v, peer).flows);
                        assert(self@ == pruned(v, peer));
                    }
                    Egress::Ended { peer }
                },
                None => {
                    assert(self@.sids =~= v.sids);
                    Egress::Ignored
                },
            };
        }
        let peer: u64 = match self.sids.get(&s) {
            Some(p) => *p,
            None => return Egress::Ignored,
        };
        let mut re: Reassembler = match self.reasms.remove(&s) {
            Some(r) => r,
            None => Reassembler::new(REASM_SLOTS, REASM_BYTES),
        };
        let ghost pre = re@;
        let outcome = re.accept(&frame, now);
        let ghost post = re@;
        let ghost ov = outcome@;
        self.reasms.insert(s, re);
        proof {
            assert(udp_frag::accept_step(pre, frame@, now as nat, post, ov));
            assert(self@.reasms =~= v.reasms.insert(s, post));
            assert(pre == reasm_of(v, s));
            assert forall|k: u64| #[trigger] self.reasms@.contains_key(k) implies self.reasms@[k].wf() by {
                assert(k == s || old(self).reasms@.contains_key(k));
            }
            assert forall|k: u64| #[trigger] self@.reasms.contains_key(k) implies self@.sids.contains_key(k) by {
                assert(k == s || v.reasms.contains_key(k));
            }
        }
        let r = match outcome {
            Outcome::Complete(data) => Egress::Deliver { peer, data },
            Outcome::Malformed => Egress::Ignored,
            Outcome::Partial => Egress::Held,
            Outcome::Evicted => Egress::Held,
        };
        assert(frame_step(v, frame@, now, self@, r));
        r
    }

    /// Removes every flow that lapsed or went idle, with all it owns.
    pub fn sweep(&mut self, idle: u64, now_unix: i64, now: u64)
        requires
            old(self).wf(),
        ensures
            final(self).wf(),
            exists|due: Seq<u64>| #[trigger]
                pruned_all(old(self)@, due, final(self)@) && forall|p: u64| #[trigger]
                    due.contains(p) <==> old(self)@.flows.contains_key(p) && !is_live(
                        old(self)@.flows[p],
                        idle,
                        now_unix,
                        now,
                    ),
    {
        let keys = peers_of(&self.flows);
        let mut due: Vec<u64> = Vec::new();
        let mut i: usize = 0;
        let ghost v = self@;
        while i < keys.len()
            invariant
                i <= keys@.len(),
                self.wf(),
                self@ == v,
                v == old(self)@,
                forall|k: u64| #[trigger] keys@.contains(k) <==> v.flows.contains_key(k),
                forall|p: u64| #[trigger]
                    due@.contains(p) <==> keys@.subrange(0, i as int).contains(p) && !is_live(
                        v.flows[p],
                        idle,
                        now_unix,
                        now,
                    ),
            decreases keys@.len() - i,
        {
            let p: u64 = keys[i];
            assert(keys@.contains(p));
            let ghost before = due@;
            if let Some(f) = self.flows.get(&p) {
                if !udp_flow_live(f.expires_at, f.last_active, idle, now_unix, now) {
                    due.push(p);
                    assert(due@ =~= before.push(p));
                }
            }
            proof {
                lemma_contains_push(before, p);
                lemma_contains_push(keys@.subrange(0, i as int), p);
                assert(keys@.subrange(0, i + 1) =~= keys@.subrange(0, i as int).push(p));
            }
            i += 1;
        }
        assert(keys@.subrange(0, i as int) =~= keys@);
        self.prune_all(&due);
        assert(pruned_all(v, due@, self@));
    }

    /// The reader found the connection lost.
    pub fn on_conn_lost(&mut self)
        requires
            old(self).wf(),
        ensures
            final(self).wf(),
            final(self)@ == (ForwarderView { conn_alive: false, ..old(self)@ }),
    {
        self.conn_alive = false;
    }

    /// Before an establishment: a connection known to be lost is given up with
    /// every flow that rode on it. Returns whether one has to be dialed.
    pub fn needs_dial(&mut self) -> (r: bool)
        requires
            old(self).wf(),
        ensures
            final(self).wf(),
            r == !final(self)@.quic,
            ({
                let v = old(self)@;
                if v.quic && !v.conn_alive {
                    exists|gone: Seq<u64>| #[trigger]
                        pruned_all(ForwarderView { quic: false, ..v }, gone, final(self)@)
                            && forall|p: u64| #[trigger]
                            gone.contains(p) <==> v.flows.contains_key(p)
                                && v.flows[p].carrier is Quic
                } else {
                    final(self)@ == v
                }
            }),
    {
        if self.quic && !self.conn_alive {
            self.quic = false;
            let keys = peers_of(&self.flows);
            let mut gone: Vec<u64> = Vec::new();
            let mut i: usize = 0;
            let ghost v = self@;
            while i < keys.len()
                invariant
                    i <= keys@.len(),
                    self.wf(),
                    self@ == v,
                    forall|k: u64| #[trigger] keys@.contains(k) <==> v.flows.contains_key(k),
                    forall|p: u64| #[trigger]
                        gone@.contains(p) <==> keys@.subrange(0, i as int).contains(p)
                            && v.flows[p].carrier is Quic,
                decreases keys@.len() - i,
            {
                let p: u64 = keys[i];
                assert(keys@.contains(p));
                let ghost before = gone@;
                if let Some(f) = self.flows.get(&p) {
                    if f.owned_sid().is_some() {
                        gone.push(p);
                        assert(gone@ =~= before.push(p));
                    }
                }
                proof {
                    lemma_contains_push(before, p);
                    lemma_contains_push(keys@.subrange(0, i as int), p);
                    assert(keys@.subrange(0, i + 1) =~= keys@.subrange(0, i as int).push(p));
                }
                i += 1;
            }
            assert(keys@.subrange(0, i as int) =~= keys@);
            self.prune_all(&gone);
            assert(pruned_all(v, gone@, self@));
        }
        !self.quic
    }

    /// A dial succeeded: the connection is held and taken to be alive.
    pub fn on_dialed(&mut self)
        requires
            old(self).wf(),
        ensures
            final(self).wf(),
            final(self)@ == (ForwarderView { quic: true, conn_alive: true, ..old(self)@ }),
    {
        self.conn_alive = true;
        self.quic = true;
    }

    /// The gateway admitted a session: the peer's old flow is retired first,
    /// so that a late end of its session cannot touch the new flow.
    pub fn admit_quic(&mut self, peer: u64, sid: u32, ttl: i64, now_unix: i64, now: u64)
        requires
            old(self).wf(),
        ensures
            final(self).wf(),
            ({
                let p = pruned(old(self)@, peer);
                final(self)@ == (ForwarderView {
                    flows: p.flows.insert(
                        peer,
                        UdpFlow {
                            carrier: Carrier::Quic { sid },
                            dgram_id: 1,
                            expires_at: lapse(now_unix, ttl),
                            last_active: now,
                        },
                    ),
                    sids: p.sids.insert(sid as u64, peer),
                    ..p
                })
            }),
    {
        self.prune_flow(peer);
        let ghost p = self@;
        let expires_at: i64 = lapse_at(now_unix, ttl);
        self.sids.insert(sid as u64, peer);
        self.flows.insert(
            peer,
            UdpFlow { carrier: Carrier::Quic { sid }, dgram_id: 1, expires_at, last_active: now },
        );
        proof {
            assert forall|s: u64| #[trigger] self@.sids.contains_key(s) implies self@.flows.contains_key(self@.sids[s]) && owns(self@.flows[self@.sids[s]], s) by {
                if s != sid as u64 {
                    assert(p.sids.contains_key(s));
                    assert(p.flows.contains_key(p.sids[s]));
                }
            }
            assert forall|s: u64| #[trigger] self@.reasms.contains_key(s) implies self@.sids.contains_key(s) by {
                assert(p.reasms.contains_key(s));
            }
        }
    }

    /// The gateway's raw relay admitted a flow.
    pub fn admit_raw(&mut self, peer: u64, ttl: i64, now_unix: i64, now: u64)
        requires
            old(self).wf(),
        ensures
            final(self).wf(),
            ({
                let p = pruned(old(self)@, peer);
                final(self)@ == (ForwarderView {
                    flows: p.flows.insert(
                        peer,
                        UdpFlow {
                            carrier: Carrier::Raw,
                            dgram_id: 0,
                            expires_at: lapse(now_unix, ttl),
                            last_active: now,
                        },
                    ),
                    ..p
                })
            }),
    {
        self.prune_flow(peer);
        let ghost p = self@;
        let expires_at: i64 = lapse_at(now_unix, ttl);
        self.flows.insert(
            peer,
            UdpFlow { carrier: Carrier::Raw, dgram_id: 0, expires_at, last_active: now },
        );
        proof {
            assert forall|s: u64| #[trigger] self@.sids.contains_key(s) implies self@.flows.contains_key(self@.sids[s]) && owns(self@.flows[self@.sids[s]], s) by {
                assert(p.sids.contains_key(s));
                assert(p.flows.contains_key(p.sids[s]));
            }
            assert forall|s: u64| #[trigger] self@.reasms.contains_key(s) implies self@.sids.contains_key(s) by {
                assert(p.reasms.contains_key(s));
            }
        }
    }

    /// The gateway ended a raw flow: it is dropped, so that the peer's next
    /// datagram re-decides.
    pub fn on_raw_denied(&mut self, peer: u64)
        requires
            old(self).wf(),
        ensures
            final(self).wf(),
            final(self)@ == pruned(old(self)@, peer),
    {
        self.prune_flow(peer);
    }
}

/// The peers that have a flow.
fn peers_of(flows: &HashMap<u64, UdpFlow>) -> (r: Vec<u64>)
    ensures
        forall|k: u64| #[trigger] r@.contains(k) <==> flows@.contains_key(k),
{
    let mut out: Vec<u64> = Vec::new();
    for k in it: flows.keys()
        invariant
            out@ == it.seq().unref().take(it.index() as int),
            it.seq().unref().to_set() == flows@.dom(),
            it.index() == it.seq().len() ==> out@ =~= it.seq().unref(),
    {
        out.push(*k);
    }
    assert forall|k: u64| #[trigger] out@.contains(k) <==> flows@.contains_key(k) by {
        assert(out@.to_set().contains(k) <==> out@.contains(k));
    }
    out
}

/// When a flow granted for `ttl` seconds is decided anew: two seconds before
/// its token lapses (within the clock's range).
pub open spec fn lapse(now_unix: i64, ttl: i64) -> i64 {
    let t = now_unix + ttl - 2;
    if t > i64::MAX {
        i64::MAX
    } else if t < i64::MIN {
        i64::MIN
    } else {
        t as i64
    }
}

fn lapse_at(now_unix: i64, ttl: i64) -> (r: i64)
    ensures
        r == lapse(now_unix, ttl),
{
    let t: i128 = now_unix as i128 + ttl as i128 - 2;
    if t > i64::MAX as i128 {
        i64::MAX
    } else if t < i64::MIN as i128 {
        i64::MIN
    } else {
        t as i64
    }
}

proof fn lemma_contains_push(s: Seq<u64>, x: u64)
    ensures
        forall|p: u64| #[trigger] s.push(x).contains(p) <==> s.contains(p) || p == x,
{
    assert forall|p: u64| #[trigger] s.push(x).contains(p) <==> s.contains(p) || p == x by {
        if s.contains(p) {
            let i = choose|i: int| 0 <= i < s.len() && s[i] == p;
            assert(s.push(x)[i] == p);
        }
        if p == x {
            assert(s.push(x)[s.len() as int] == p);
        }
        if s.push(x).contains(p) {
            let i = choose|i: int| 0 <= i < s.push(x).len() && s.push(x)[i] == p;
            if i < s.len() {
                assert(s[i] == p);
            }
        }
    }
}

proof fn lemma_prune_one_more(v: ForwarderView, done: Seq<u64>, p: u64, w: ForwarderView)
    requires
        pruned_all(v, done, w),
    ensures
        pruned_all(v, done.push(p), pruned(w, p)),
{
    let more = done.push(p);
    let x = pruned(w, p);
    lemma_contains_push(done, p);
    assert(x.flows =~= v.flows.remove_keys(more.to_set()));
    assert forall|s: u64| #[trigger]
        owned_by_listed(v.flows, more, s) <==> owned_by_listed(v.flows, done, s) || owned_by(
            v.flows,
            p,
            s,
        ) by {
        if owned_by_listed(v.flows, done, s) {
            let i = choose|i: int| 0 <= i < done.len() && owned_by(v.flows, #[trigger] done[i], s);
            assert(more[i] == done[i]);
        }
        if owned_by(v.flows, p, s) {
            assert(more[done.len() as int] == p);
        }
        if owned_by_listed(v.flows, more, s) {
            let i = choose|i: int| 0 <= i < more.len() && owned_by(v.flows, #[trigger] more[i], s);
            if i < done.len() {
                assert(done[i] == more[i]);
            }
        }
    }
    let keep = |s: u64| !owned_by_listed(v.flows, more, s);
    assert forall|s: u64| w.flows.contains_key(p) && owns(w.flows[p], s) implies owned_by(
        v.flows,
        p,
        s,
    ) by {}
    assert forall|s: u64| #[trigger] owned_by(v.flows, p, s) && !w.flows.contains_key(
        p,
    ) implies owned_by_listed(v.flows, done, s) by {
        assert(done.contains(p));
        let i = choose|i: int| 0 <= i < done.len() && done[i] == p;
        assert(owned_by(v.flows, done[i], s));
    }
    assert(x.sids =~= v.sids.restrict(Set::new(|s: u64| !owned_by_listed(v.flows, more, s))));
    assert(x.reasms =~= v.reasms.restrict(Set::new(|s: u64| !owned_by_listed(v.flows, more, s))));
}

/// Law: sessions and reassemblies never outnumber the flows, whatever the
/// gateway sends and however long the forwarder runs.
pub proof fn law_session_maps_bounded(v: ForwarderView)
    requires
        sessions_owned(v),
    ensures
        v.reasms.len() <= v.sids.len() <= v.flows.len(),
{
    vstd::set_lib::lemma_len_subset(v.reasms.dom(), v.sids.dom());
    lemma_sids_inject(v.sids, v.flows);
}

proof fn lemma_sids_inject(sids: Map<u64, u64>, flows: Map<u64, UdpFlow>)
    requires
        sids.dom().finite(),
        flows.dom().finite(),
        forall|s: u64| #[trigger]
            sids.contains_key(s) ==> flows.contains_key(sids[s]) && owns(flows[sids[s]], s),
    ensures
        sids.len() <= flows.len(),
    decreases sids.len(),
{
    if sids.len() > 0 {
        let s = sids.dom().choose();
        assert(sids.contains_key(s));
        let rest = sids.remove(s);
        let others = flows.remove(sids[s]);
        assert forall|t: u64| #[trigger] rest.contains_key(t) implies others.contains_key(rest[t])
            && owns(others[rest[t]], t) by {
            assert(sids.contains_key(t));
        }
        lemma_sids_inject(rest, others);
    }
}

/// Law: once a peer's flow is pruned, none of its session's frames, not even
/// the session's end, touches any flow.
pub proof fn law_pruned_session_is_dead(v: ForwarderView, peer: u64, sid: u64)
    requires
        sessions_owned(v),
        v.flows.contains_key(peer),
        owns(v.flows[peer], sid),
    ensures
        !pruned(v, peer).sids.contains_key(sid),
        !pruned(v, peer).reasms.contains_key(sid),
        forall|q: u64| #[trigger]
            v.flows.contains_key(q) && q != peer ==> pruned(v, peer).flows.contains_key(q) && pruned(
                v,
                peer,
            ).flows[q] == v.flows[q],
        forall|s: u64| #[trigger]
            v.sids.contains_key(s) && s != sid ==> pruned(v, peer).sids.contains_key(s) && pruned(
                v,
                peer,
            ).sids[s] == v.sids[s],
{
}

/// Law: a flow is decided anew two seconds before its token lapses, as far as
/// the clock can hold that.
pub proof fn law_lapse_is_early(now_unix: i64, ttl: i64)
    ensures
        i64::MIN <= now_unix + ttl - 2 <= i64::MAX ==> lapse(now_unix, ttl) + 2 == now_unix + ttl,
        now_unix + ttl - 2 > i64::MAX ==> lapse(now_unix, ttl) == i64::MAX,
        now_unix + ttl - 2 < i64::MIN ==> lapse(now_unix, ttl) == i64::MIN,
{
}

/// Law: how long a flow may be used. Before its time and less than the idle
/// window after its last datagram it may, a clock that steps back counting as
/// no time at all; from its time on, or after the whole window, it may not.
pub proof fn law_flow_lifetime(f: UdpFlow, idle: u64, now_unix: i64, now: u64)
    ensures
        now_unix >= f.expires_at ==> !is_live(f, idle, now_unix, now),
        now >= f.last_active + idle ==> !is_live(f, idle, now_unix, now),
        now_unix < f.expires_at && idle > 0 && now < f.last_active + idle ==> is_live(
            f,
            idle,
            now_unix,
            now,
        ),
{
}

/// Law: a pruned peer has no flow; what it owned goes with it, and nothing
/// else does. A peer on the raw relay, or without a flow, takes no session.
pub proof fn law_pruned_peer_is_gone(v: ForwarderView, peer: u64, sid: u64)
    ensures
        !pruned(v, peer).flows.contains_key(peer),
        pruned(v, peer).quic == v.quic,
        pruned(v, peer).conn_alive == v.conn_alive,
        !owned_by(v.flows, peer, sid) ==> (pruned(v, peer).sids.contains_key(sid)
            <==> v.sids.contains_key(sid)) && (pruned(v, peer).reasms.contains_key(sid)
            <==> v.reasms.contains_key(sid)),
        owned_by(v.flows, peer, sid) ==> !pruned(v, peer).sids.contains_key(sid) && !pruned(
            v,
            peer,
        ).reasms.contains_key(sid),
        !v.flows.contains_key(peer) || v.flows[peer].carrier == Carrier::Raw ==> pruned(
            v,
            peer,
        ).sids == v.sids && pruned(v, peer).reasms == v.reasms,
{
}

/// Law: pruning several peers keeps exactly the other peers' flows as they
/// are, and exactly the sessions that none of the listed ones owns.
pub proof fn law_pruned_peers_are_gone(
    v: ForwarderView,
    peers: Seq<u64>,
    w: ForwarderView,
    p: u64,
    sid: u64,
)
    requires
        pruned_all(v, peers, w),
    ensures
        w.flows.contains_key(p) <==> v.flows.contains_key(p) && !peers.contains(p),
        w.flows.contains_key(p) ==> w.flows[p] == v.flows[p],
        w.sids.contains_key(sid) <==> v.sids.contains_key(sid) && forall|q: u64|
            peers.contains(q) ==> !#[trigger] owned_by(v.flows, q, sid),
        w.sids.contains_key(sid) ==> w.sids[sid] == v.sids[sid],
        w.reasms.contains_key(sid) ==> v.reasms.contains_key(sid) && w.reasms[sid] == v.reasms[sid],
{
    if owned_by_listed(v.flows, peers, sid) {
        let i = choose|i: int|
            0 <= i < peers.len() && owned_by(v.flows, #[trigger] peers[i], sid);
        assert(peers.contains(peers[i]));
    }
    if exists|q: u64| peers.contains(q) && #[trigger] owned_by(v.flows, q, sid) {
        let q = choose|q: u64| peers.contains(q) && #[trigger] owned_by(v.flows, q, sid);
        let i = choose|i: int| 0 <= i < peers.len() && peers[i] == q;
        assert(owned_by(v.flows, peers[i], sid));
    }
}

/// Law: a frame touches its own session's reassembly and no other, and what is
/// delivered goes to the peer the session belongs to.
pub proof fn law_frames_keep_to_their_session(
    v: ForwarderView,
    f: udp_frag::FrameView,
    now: u64,
    w: ForwarderView,
    r: Egress,
    other: u64,
)
    requires
        frame_step(v, f, now, w, r),
        other != f.session_id,
    ensures
        w.reasms.contains_key(other) <==> v.reasms.contains_key(other),
        w.reasms.contains_key(other) ==> w.reasms[other] == v.reasms[other],
        w.reasms.contains_key(f.session_id as u64),
        r matches Egress::Deliver { peer, .. } ==> peer == v.sids[f.session_id as u64],
        !(r is Ended),
{
}

/// Law: a session that has received nothing starts with an empty reassembly.
pub proof fn law_reassembly_starts_empty(v: ForwarderView, s: u64)
    ensures
        !v.reasms.contains_key(s) ==> reasm_of(v, s).slots == Map::<
            u16,
            udp_frag::SlotView,
        >::empty() && reasm_of(v, s).max_slots == REASM_SLOTS && reasm_of(v, s).max_bytes
            == REASM_BYTES,
        v.reasms.contains_key(s) ==> reasm_of(v, s) == v.reasms[s],
{
}

} // verus!
