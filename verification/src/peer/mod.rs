//! Which local user is at the other end of a connection. The kernel's tables
//! name the owning process; a peer that cannot be attributed is an error, and
//! its caller refuses it.

use vstd::prelude::*;

use crate::text;

pub mod darwin;
pub mod linux;
pub mod windows;

verus! {

/// A socket address: four or sixteen address bytes, and the port.
#[derive(Debug)]
pub struct SockAddr {
    pub ip: Vec<u8>,
    pub port: u16,
    /// Flow label and scope of an IPv6 address; zero otherwise.
    pub flow: u32,
    pub scope: u32,
}

/// Model of a [`SockAddr`].
#[verifier::ext_equal]
pub struct SockAddrView {
    pub ip: Seq<u8>,
    pub port: u16,
    pub flow: u32,
    pub scope: u32,
}

impl View for SockAddr {
    type V = SockAddrView;

    open spec fn view(&self) -> SockAddrView {
        SockAddrView { ip: self.ip@, port: self.port, flow: self.flow, scope: self.scope }
    }
}

impl SockAddr {
    /// Whether two addresses are the same.
    pub fn same(&self, other: &SockAddr) -> (r: bool)
        ensures
            r == (self@ == other@),
    {
        self.port == other.port && self.flow == other.flow && self.scope == other.scope
            && crate::bytes::bytes_eq(self.ip.as_slice(), other.ip.as_slice())
    }
}

/// Kind of socket looked for.
#[derive(Clone, Copy, Debug, PartialEq, Eq, Structural)]
pub enum SockKind {
    Tcp,
    Udp,
}

/// The process at the other end: its id, its user (a SID, or a decimal user
/// id), and its terminal session.
#[derive(Debug)]
pub struct PeerOwner {
    pub pid: u32,
    pub sid: String,
    pub session: u32,
}

/// Model of a [`PeerOwner`].
#[verifier::ext_equal]
pub struct PeerOwnerView {
    pub pid: u32,
    pub sid: Seq<char>,
    pub session: u32,
}

impl View for PeerOwner {
    type V = PeerOwnerView;

    open spec fn view(&self) -> PeerOwnerView {
        PeerOwnerView { pid: self.pid, sid: self.sid@, session: self.session }
    }
}

/// Why a peer cannot be attributed.
#[derive(Clone, Copy, Debug, PartialEq, Eq, Structural)]
pub enum PeerError {
    /// No table row for the address; it may have closed before the lookup.
    NoRow,
    /// No readable process holds the socket.
    NoProcess(u32),
    /// The process's user cannot be read.
    NoUser(u32),
    /// The table is cut short.
    BadTable,
    /// The lookup took too long.
    TimedOut,
}

/// Whether a peer's user may use what a user owns: the very same user, and
/// never an empty one.
pub fn peer_allowed(owning_sid: &str, peer_sid: &str) -> (r: bool)
    ensures
        r == (peer_sid@.len() > 0 && peer_sid@ == owning_sid@),
{
    let cs = text::chars(peer_sid);
    cs.len() > 0 && text::str_eq(peer_sid, owning_sid)
}

/// Whether a lookup's outcome lets a peer in: only an attributed one, and
/// only the owner.
pub open spec fn admits(owning_sid: Seq<char>, r: Result<PeerOwner, PeerError>) -> bool {
    r matches Ok(o) && o.sid@.len() > 0 && o.sid@ == owning_sid
}

/// Decides on a peer from its lookup's outcome.
pub fn lets_in(owning_sid: &str, r: &Result<PeerOwner, PeerError>) -> (ok: bool)
    ensures
        ok == admits(owning_sid@, *r),
{
    match r {
        Ok(o) => peer_allowed(owning_sid, o.sid.as_str()),
        Err(_) => false,
    }
}

/// A peer that cannot be attributed is never let in, and no two users are
/// both let in.
pub proof fn law_attribution_fails_closed(
    owning_sid: Seq<char>,
    a: Result<PeerOwner, PeerError>,
    b: Result<PeerOwner, PeerError>,
)
    ensures
        a is Err ==> !admits(owning_sid, a),
        admits(owning_sid, a) && admits(owning_sid, b) ==> a->Ok_0.sid@ == b->Ok_0.sid@,
{
}

/// Law: the owner is let in, and nobody else.
pub proof fn law_owner_is_let_in(owning_sid: Seq<char>, o: PeerOwner)
    requires
        owning_sid.len() > 0,
    ensures
        admits(owning_sid, Ok(o)) <==> o.sid@ == owning_sid,
{
}

/// Law: the models of an address and of an owner hold each part under its own
/// name.
pub proof fn law_peer_models(a: SockAddr, o: PeerOwner)
    ensures
        a@.ip == a.ip@,
        a@.port == a.port,
        a@.flow == a.flow,
        a@.scope == a.scope,
        o@.pid == o.pid,
        o@.sid == o.sid@,
        o@.session == o.session,
{
}

} // verus!
