//! Peer lookup among the sockets that the macOS process calls list.

use vstd::prelude::*;

use super::{PeerError, PeerOwner, SockAddr, SockKind};
use crate::bytes;
use crate::text;

verus! {

/// Socket kinds and states, as the kernel numbers them.
pub const SOCKINFO_IN: i32 = 1;

pub const SOCKINFO_TCP: i32 = 2;

pub const TCPS_ESTABLISHED: i32 = 4;

/// What the lookup needs of a process's socket.
#[derive(Clone, Copy, Debug)]
pub struct SocketRow {
    pub pid: u32,
    pub kind: i32,
    /// State of a stream socket.
    pub state: i32,
    /// Local port in network order, in the low half.
    pub lport: u32,
    /// Whether the local address is an IPv4 or an IPv6 one.
    pub v4: bool,
    pub v6: bool,
    /// The local address; an IPv4 one takes the last four bytes.
    pub laddr: [u8; 16],
}

/// Bytes of the kernel's account of a socket that are read.
pub const SOCKET_INFO_LEN: usize = 348;

/// Where the fields of the account lie: the kind, then the part of an internet
/// socket (local port, address families, local address), then a stream's state.
pub const KIND_AT: usize = 256;

pub const LPORT_AT: usize = 268;

pub const VFLAG_AT: usize = 288;

pub const LADDR_AT: usize = 312;

pub const STATE_AT: usize = 344;

/// The number that the bits of an unsigned one stand for in two's complement.
pub open spec fn signed(x: int) -> int {
    if x < 0x8000_0000 {
        x
    } else {
        x - 0x1_0000_0000
    }
}

fn as_signed(x: u32) -> (r: i32)
    ensures
        r == signed(x as int),
{
    if x < 0x8000_0000 {
        x as i32
    } else {
        let low: i32 = (x - 0x8000_0000) as i32;
        low + i32::MIN
    }
}

/// What the lookup needs of a socket, from the kernel's account of it; none
/// where the account is cut short.
pub fn socket_row(pid: u32, info: &[u8]) -> (r: Option<SocketRow>)
    ensures
        r is Some <==> info@.len() >= SOCKET_INFO_LEN,
        r matches Some(s) ==> {
            &&& s.pid == pid
            &&& s.kind == signed(bytes::val32_le(info@, KIND_AT as int))
            &&& s.state == signed(bytes::val32_le(info@, STATE_AT as int))
            &&& s.lport == bytes::val32_le(info@, LPORT_AT as int)
            &&& s.v4 == (info@[VFLAG_AT as int] % 2 == 1)
            &&& s.v6 == (info@[VFLAG_AT as int] / 2 % 2 == 1)
            &&& s.laddr@ == info@.subrange(LADDR_AT as int, LADDR_AT + 16)
        },
{
    if info.len() < SOCKET_INFO_LEN {
        return None;
    }
    let mut laddr: [u8; 16] = [0u8; 16];
    let mut i: usize = 0;
    while i < 16
        invariant
            i <= 16,
            info@.len() >= SOCKET_INFO_LEN,
            forall|j: int| 0 <= j < i ==> laddr@[j] == info@[LADDR_AT + j],
        decreases 16 - i,
    {
        laddr[i] = info[LADDR_AT + i];
        i += 1;
    }
    assert(laddr@ =~= info@.subrange(LADDR_AT as int, LADDR_AT + 16));
    let flags: u8 = info[VFLAG_AT];
    Some(
        SocketRow {
            pid,
            kind: as_signed(bytes::get_le32(info, KIND_AT)),
            state: as_signed(bytes::get_le32(info, STATE_AT)),
            lport: bytes::get_le32(info, LPORT_AT),
            v4: flags % 2 == 1,
            v6: flags / 2 % 2 == 1,
            laddr,
        },
    )
}

/// The port number of a field in network order.
pub open spec fn port_of(lport: u32) -> int {
    lport as int % 256 * 256 + lport as int / 256 % 256
}

/// Whether a socket is the peer's own end. The first pass takes established
/// streams alone; the second, everything else.
pub open spec fn matches_peer(
    s: SocketRow,
    peer: super::SockAddrView,
    kind: SockKind,
    want_established: bool,
) -> bool {
    &&& match kind {
        SockKind::Tcp => s.kind == SOCKINFO_TCP && (s.state == TCPS_ESTABLISHED)
            == want_established,
        SockKind::Udp => s.kind == SOCKINFO_IN && !want_established,
    }
    &&& port_of(s.lport) == peer.port
    &&& if peer.ip.len() == 4 {
        s.v4 && s.laddr@.subrange(12, 16) == peer.ip
    } else {
        s.v6 && s.laddr@ == peer.ip
    }
}

/// Whether a socket is the peer's own end.
pub fn socket_matches(s: &SocketRow, peer: &SockAddr, kind: SockKind, want_established: bool) -> (r:
    bool)
    ensures
        r == matches_peer(*s, peer@, kind, want_established),
{
    let kind_fits = match kind {
        SockKind::Tcp => s.kind == SOCKINFO_TCP && (s.state == TCPS_ESTABLISHED)
            == want_established,
        SockKind::Udp => s.kind == SOCKINFO_IN && !want_established,
    };
    if !kind_fits {
        return false;
    }
    let port: u32 = s.lport % 256 * 256 + s.lport / 256 % 256;
    if port != peer.port as u32 {
        return false;
    }
    if peer.ip.len() == 4 {
        s.v4 && bytes::bytes_eq(
            vstd::slice::slice_subrange(s.laddr.as_slice(), 12, 16),
            peer.ip.as_slice(),
        )
    } else {
        s.v6 && bytes::bytes_eq(s.laddr.as_slice(), peer.ip.as_slice())
    }
}

/// Process of the first socket that matches.
pub open spec fn first_match(
    rows: Seq<SocketRow>,
    peer: super::SockAddrView,
    kind: SockKind,
    want_established: bool,
) -> Option<u32>
    decreases rows.len(),
{
    if rows.len() == 0 {
        None
    } else if matches_peer(rows[0], peer, kind, want_established) {
        Some(rows[0].pid)
    } else {
        first_match(rows.drop_first(), peer, kind, want_established)
    }
}

fn scan_once(rows: &Vec<SocketRow>, peer: &SockAddr, kind: SockKind, want_established: bool) -> (r:
    Option<u32>)
    ensures
        r == first_match(rows@, peer@, kind, want_established),
{
    let mut i: usize = 0;
    assert(rows@.subrange(0, rows@.len() as int) =~= rows@);
    while i < rows.len()
        invariant
            i <= rows@.len(),
            first_match(rows@, peer@, kind, want_established) == first_match(
                rows@.subrange(i as int, rows@.len() as int),
                peer@,
                kind,
                want_established,
            ),
        decreases rows@.len() - i,
    {
        let ghost tail = rows@.subrange(i as int, rows@.len() as int);
        assert(tail[0] == rows@[i as int]);
        assert(tail.drop_first() =~= rows@.subrange(i + 1, rows@.len() as int));
        if socket_matches(&rows[i], peer, kind, want_established) {
            return Some(rows[i].pid);
        }
        i += 1;
    }
    assert(rows@.subrange(i as int, rows@.len() as int) =~= Seq::<SocketRow>::empty());
    None
}

/// Finds the process at the peer's end: an established stream before others.
pub fn scan_for_owner(rows: &Vec<SocketRow>, peer: &SockAddr, kind: SockKind) -> (r: Result<
    u32,
    PeerError,
>)
    ensures
        match (
            first_match(rows@, peer@, kind, true),
            first_match(rows@, peer@, kind, false),
        ) {
            (Some(p), _) => r == Ok::<u32, PeerError>(p),
            (None, Some(p)) => r == Ok::<u32, PeerError>(p),
            (None, None) => r == Err::<u32, PeerError>(PeerError::NoRow),
        },
{
    match scan_once(rows, peer, kind, true) {
        Some(p) => Ok(p),
        None => match scan_once(rows, peer, kind, false) {
            Some(p) => Ok(p),
            None => Err(PeerError::NoRow),
        },
    }
}

/// The owner of a process with a user id; an unreadable one is an error.
pub fn owner_of_uid(pid: u32, uid: Option<u32>) -> (r: Result<PeerOwner, PeerError>)
    ensures
        match (r, uid) {
            (Ok(o), Some(u)) => o.pid == pid && o.sid@ == text::decimal(u as nat) && o.session == 0,
            (Err(e), None) => e == PeerError::NoUser(pid),
            _ => false,
        },
{
    match uid {
        Some(u) => {
            let d = text::dec(u as u64);
            Ok(PeerOwner { pid, sid: text::string(d.as_slice()), session: 0 })
        },
        None => Err(PeerError::NoUser(pid)),
    }
}

/// Law: a port in network order has its high byte first: of a field's two low
/// bytes the lower one counts 256 times the other.
pub proof fn law_port_of(hi: u8, lo: u8, above: u16)
    ensures
        port_of((above * 65536 + lo * 256 + hi) as u32) == hi * 256 + lo,
{
    let x = above * 65536 + lo * 256 + hi;
    assert(0 <= x <= u32::MAX);
    vstd::arithmetic::div_mod::lemma_fundamental_div_mod_converse(
        x,
        256,
        above as int * 256 + lo as int,
        hi as int,
    );
    vstd::arithmetic::div_mod::lemma_fundamental_div_mod_converse(
        above as int * 256 + lo as int,
        256,
        above as int,
        lo as int,
    );
}

/// Law: a number's bits in two's complement: the lower half stands for itself,
/// the upper half for what is as far below zero.
pub proof fn law_signed(n: int)
    requires
        -0x8000_0000 <= n < 0x8000_0000,
    ensures
        signed(
            if n >= 0 {
                n
            } else {
                n + 0x1_0000_0000
            },
        ) == n,
{
}

/// Law: which sockets are the peer's: of its kind, at its port and its
/// address, of its address family; for streams established ones in the first
/// pass and all others in the second, for datagrams only in the second.
pub proof fn law_peer_sockets(
    s: SocketRow,
    peer: super::SockAddrView,
    kind: SockKind,
    want_established: bool,
)
    ensures
        matches_peer(s, peer, kind, want_established) ==> port_of(s.lport) == peer.port,
        matches_peer(s, peer, kind, want_established) && peer.ip.len() == 4 ==> s.v4
            && s.laddr@[12] == peer.ip[0] && s.laddr@[13] == peer.ip[1] && s.laddr@[14]
            == peer.ip[2] && s.laddr@[15] == peer.ip[3],
        matches_peer(s, peer, kind, want_established) && peer.ip.len() != 4 ==> s.v6 && s.laddr@
            == peer.ip,
        kind == SockKind::Udp && want_established ==> !matches_peer(
            s,
            peer,
            kind,
            want_established,
        ),
        kind == SockKind::Tcp && matches_peer(s, peer, kind, want_established) ==> (s.state == 4
            <==> want_established) && s.kind == 2,
        kind == SockKind::Udp && matches_peer(s, peer, kind, want_established) ==> s.kind == 1,
        kind == SockKind::Tcp && s.kind == 2 && port_of(s.lport) == peer.port && peer.ip.len() == 16
            && s.v6 && s.laddr@ == peer.ip ==> matches_peer(s, peer, kind, s.state == 4),
        kind == SockKind::Udp && s.kind == 1 && port_of(s.lport) == peer.port && peer.ip.len() == 16
            && s.v6 && s.laddr@ == peer.ip ==> matches_peer(s, peer, kind, false),
{
    if peer.ip.len() == 4 && matches_peer(s, peer, kind, want_established) {
        let a = s.laddr@.subrange(12, 16);
        assert(a[0] == s.laddr@[12] && a[1] == s.laddr@[13] && a[2] == s.laddr@[14] && a[3]
            == s.laddr@[15]);
    }
}

/// Law: the process is that of the first socket that is the peer's; there is
/// none exactly where none is.
pub proof fn law_first_match(
    rows: Seq<SocketRow>,
    peer: super::SockAddrView,
    kind: SockKind,
    want: bool,
)
    ensures
        match first_match(rows, peer, kind, want) {
            Some(p) => exists|i: int|
                #![trigger rows[i]]
                0 <= i < rows.len() && rows[i].pid == p && matches_peer(rows[i], peer, kind, want)
                    && forall|j: int|
                    0 <= j < i ==> !matches_peer(#[trigger] rows[j], peer, kind, want),
            None => forall|j: int|
                0 <= j < rows.len() ==> !matches_peer(#[trigger] rows[j], peer, kind, want),
        },
    decreases rows.len(),
{
    if rows.len() > 0 {
        if matches_peer(rows[0], peer, kind, want) {
            assert(rows[0].pid == first_match(rows, peer, kind, want)->Some_0);
        } else {
            let t = rows.drop_first();
            law_first_match(t, peer, kind, want);
            match first_match(t, peer, kind, want) {
                Some(p) => {
                    let k = choose|i: int|
                        #![trigger t[i]]
                        0 <= i < t.len() && t[i].pid == p && matches_peer(t[i], peer, kind, want)
                            && forall|j: int|
                            0 <= j < i ==> !matches_peer(#[trigger] t[j], peer, kind, want);
                    assert(rows[k + 1] == t[k]);
                    assert forall|j: int| 0 <= j < k + 1 implies !matches_peer(
                        #[trigger] rows[j],
                        peer,
                        kind,
                        want,
                    ) by {
                        if j > 0 {
                            assert(rows[j] == t[j - 1]);
                        }
                    }
                },
                None => {
                    assert forall|j: int| 0 <= j < rows.len() implies !matches_peer(
                        #[trigger] rows[j],
                        peer,
                        kind,
                        want,
                    ) by {
                        if j > 0 {
                            assert(rows[j] == t[j - 1]);
                        }
                    }
                },
            }
        }
    }
}

} // verus!
