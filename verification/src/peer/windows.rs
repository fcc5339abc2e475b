//! Peer lookup in the owner tables of the Windows network stack.

use vstd::prelude::*;

use super::{PeerError, SockAddr, SockKind};
use crate::bytes;

verus! {

/// Where the fields of a table row lie.
#[derive(Clone, Copy, Debug, PartialEq, Eq, Structural)]
pub struct Layout {
    /// Bytes of a row.
    pub size: usize,
    /// Place and length of the local address.
    pub addr: usize,
    pub addr_len: usize,
    /// Place of the local port.
    pub port: usize,
    /// Place of the process id.
    pub pid: usize,
}

/// The layout of a table's rows.
pub open spec fn layout_of(kind: SockKind, v6: bool) -> Layout {
    match (kind, v6) {
        (SockKind::Tcp, false) => Layout { size: 24, addr: 4, addr_len: 4, port: 8, pid: 20 },
        (SockKind::Tcp, true) => Layout { size: 56, addr: 0, addr_len: 16, port: 20, pid: 52 },
        (SockKind::Udp, false) => Layout { size: 12, addr: 0, addr_len: 4, port: 4, pid: 8 },
        (SockKind::Udp, true) => Layout { size: 28, addr: 0, addr_len: 16, port: 20, pid: 24 },
    }
}

/// The layout of a table's rows.
pub fn layout(kind: SockKind, v6: bool) -> (r: Layout)
    ensures
        r == layout_of(kind, v6),
{
    match (kind, v6) {
        (SockKind::Tcp, false) => Layout { size: 24, addr: 4, addr_len: 4, port: 8, pid: 20 },
        (SockKind::Tcp, true) => Layout { size: 56, addr: 0, addr_len: 16, port: 20, pid: 52 },
        (SockKind::Udp, false) => Layout { size: 12, addr: 0, addr_len: 4, port: 4, pid: 8 },
        (SockKind::Udp, true) => Layout { size: 28, addr: 0, addr_len: 16, port: 20, pid: 24 },
    }
}

/// Whether the row at `off` is the peer's own end.
pub open spec fn row_is_peer(buf: Seq<u8>, off: int, l: Layout, peer: super::SockAddrView) -> bool {
    &&& buf.subrange(off + l.addr, off + l.addr + l.addr_len) == peer.ip
    &&& buf[off + l.port] * 256 + buf[off + l.port + 1] == peer.port
}

/// Process id of the first row at or after place `k` that is the peer's; rows
/// beyond the buffer's end are not read.
pub open spec fn pid_from(
    buf: Seq<u8>,
    l: Layout,
    peer: super::SockAddrView,
    k: int,
    n: int,
) -> Option<u32>
    decreases n - k,
{
    let off = 4 + k * l.size;
    if k < 0 || k >= n || off + l.size > buf.len() {
        None
    } else if row_is_peer(buf, off, l, peer) {
        Some(bytes::val32_le(buf, off + l.pid) as u32)
    } else {
        pid_from(buf, l, peer, k + 1, n)
    }
}

/// Finds the process at the peer's end in an owner table: a count, then the
/// rows. A buffer without a count is refused.
pub fn owner_pid(buf: &Vec<u8>, peer: &SockAddr, kind: SockKind) -> (r: Result<u32, PeerError>)
    requires
        peer.ip@.len() == 4 || peer.ip@.len() == 16,
    ensures
        ({
            let l = layout_of(kind, peer.ip@.len() == 16);
            match r {
                Ok(p) => buf@.len() >= 4 && pid_from(buf@, l, peer@, 0, bytes::val32_le(buf@, 0)) == Some(
                    p,
                ),
                Err(PeerError::BadTable) => buf@.len() < 4,
                Err(e) => e == PeerError::NoRow && buf@.len() >= 4 && pid_from(
                    buf@,
                    l,
                    peer@,
                    0,
                    bytes::val32_le(buf@, 0),
                ) is None,
            }
        }),
{
    if buf.len() < 4 {
        return Err(PeerError::BadTable);
    }
    let l = layout(kind, peer.ip.len() == 16);
    let n: u32 = bytes::get_le32(buf.as_slice(), 0);
    let len: usize = buf.len();
    let mut k: u32 = 0;
    let mut off: usize = 4;
    while k < n && l.size <= len - off
        invariant
            k <= n,
            len == buf@.len(),
            4 <= off <= len,
            off == 4 + k * l.size,
            l == layout_of(kind, peer.ip@.len() == 16),
            peer.ip@.len() == 4 || peer.ip@.len() == 16,
            n == bytes::val32_le(buf@, 0),
            pid_from(buf@, l, peer@, 0, n as int) == pid_from(buf@, l, peer@, k as int, n as int),
        decreases n - k,
    {
        let port: u16 = buf[off + l.port] as u16 * 256 + buf[off + l.port + 1] as u16;
        let a = vstd::slice::slice_subrange(
            buf.as_slice(),
            off + l.addr,
            off + l.addr + l.addr_len,
        );
        if port == peer.port && bytes::bytes_eq(a, peer.ip.as_slice()) {
            return Ok(bytes::get_le32(buf.as_slice(), off + l.pid));
        }
        assert((k + 1) * l.size == k * l.size + l.size) by (nonlinear_arith);
        off = off + l.size;
        k += 1;
    }
    Err(PeerError::NoRow)
}

/// Law: the fields of a row: the address has the length of its family, the
/// port follows it, the process is the last field, and none runs into another
/// or beyond the row.
pub proof fn law_row_fields(kind: SockKind, v6: bool)
    ensures
        ({
            let l = layout_of(kind, v6);
            &&& l.addr_len == if v6 {
                16usize
            } else {
                4usize
            }
            &&& l.addr + l.addr_len <= l.port
            &&& l.port + 4 <= l.pid
            &&& l.pid + 4 == l.size
            &&& kind == SockKind::Udp ==> l.addr == 0 && l.port + 4 == l.pid
            &&& kind == SockKind::Tcp && v6 ==> l.addr == 0 && l.size == 56
            &&& kind == SockKind::Tcp && !v6 ==> l.addr == 4 && l.port == 8 && l.size == 24
            &&& v6 ==> l.port == 20
        }),
{
}

/// Law: the process is that of the first row that is the peer's, among those
/// that are whole; its four bytes count from the lowest.
pub proof fn law_first_row(
    buf: Seq<u8>,
    l: Layout,
    peer: super::SockAddrView,
    k: int,
    n: int,
    j: int,
)
    requires
        0 <= k <= j < n,
        4 + (j + 1) * l.size <= buf.len(),
        l.size >= 4,
        l.pid + 4 <= l.size,
        row_is_peer(buf, 4 + j * l.size, l, peer),
        forall|i: int| k <= i < j ==> !row_is_peer(buf, #[trigger] (4 + i * l.size), l, peer),
    ensures
        ({
            let at = 4 + j * l.size + l.pid;
            pid_from(buf, l, peer, k, n) == Some(
                (buf[at] + buf[at + 1] * 0x100 + buf[at + 2] * 0x10000 + buf[at + 3]
                    * 0x1000000) as u32,
            )
        }),
    decreases j - k,
{
    let off = 4 + k * l.size;
    assert(off + l.size <= 4 + (j + 1) * l.size) by (nonlinear_arith)
        requires
            k <= j,
            off == 4 + k * l.size,
            l.size >= 4,
    ;
    if k < j {
        assert(!row_is_peer(buf, 4 + k * l.size, l, peer));
        law_first_row(buf, l, peer, k + 1, n, j);
    }
}

/// Law: no row, no process: where no row is the peer's, none is found.
pub proof fn law_no_row(buf: Seq<u8>, l: Layout, peer: super::SockAddrView, k: int, n: int)
    requires
        0 <= k,
        forall|i: int| k <= i < n ==> !row_is_peer(buf, #[trigger] (4 + i * l.size), l, peer),
    ensures
        pid_from(buf, l, peer, k, n) is None,
    decreases n - k,
{
    if k < n && 4 + k * l.size + l.size <= buf.len() {
        assert(!row_is_peer(buf, 4 + k * l.size, l, peer));
        law_no_row(buf, l, peer, k + 1, n);
    }
}

/// Law: a row is the peer's exactly if its address is and its port is, high
/// byte first.
pub proof fn law_row_is_peer(
    buf: Seq<u8>,
    off: int,
    l: Layout,
    ip: Seq<u8>,
    port: u16,
)
    requires
        0 <= off,
        off + l.addr + l.addr_len <= buf.len(),
        off + l.port + 2 <= buf.len(),
        ip.len() == l.addr_len,
        forall|i: int| 0 <= i < ip.len() ==> buf[off + l.addr + i] == #[trigger] ip[i],
    ensures
        row_is_peer(buf, off, l, (super::SockAddrView { ip, port, flow: 0, scope: 0 })) <==> buf[off
            + l.port] == port / 256 && buf[off + l.port + 1] == port % 256,
{
    assert(buf.subrange(off + l.addr, off + l.addr + l.addr_len) =~= ip);
}

} // verus!
