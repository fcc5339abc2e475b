//! Peer lookup in the kernel's socket tables and process directories.

use vstd::prelude::*;

use super::{PeerError, PeerOwner, SockAddr, SockKind};
use crate::addr::split_once_at;
use crate::hex::digit_of;
use crate::text;

verus! {

// ---------------------------------------------------------------------
// Hexadecimal addresses
// ---------------------------------------------------------------------

/// The number that hexadecimal digits stand for; none where one is no digit.
pub open spec fn hex_value(s: Seq<char>) -> Option<nat>
    decreases s.len(),
{
    if s.len() == 0 {
        Some(0)
    } else {
        match (hex_value(s.drop_last()), crate::hex::digit_value(s.last())) {
            (Some(v), Some(d)) => Some(v * 16 + d as nat),
            _ => None,
        }
    }
}

/// The number a hexadecimal text spells, at most `max`: digits alone.
pub open spec fn hex_number(s: Seq<char>, max: nat) -> Option<nat> {
    match hex_value(s) {
        Some(v) => if s.len() > 0 && v <= max {
            Some(v)
        } else {
            None
        },
        None => None,
    }
}

proof fn lemma_hex_value_prefix(s: Seq<char>, i: int)
    requires
        0 <= i <= s.len(),
        hex_value(s) is Some,
    ensures
        hex_value(s.subrange(0, i)) is Some,
        hex_value(s.subrange(0, i))->Some_0 <= hex_value(s)->Some_0,
    decreases s.len() - i,
{
    if i == s.len() {
        assert(s.subrange(0, i) =~= s);
    } else {
        lemma_hex_value_prefix(s, i + 1);
        assert(s.subrange(0, i + 1).drop_last() =~= s.subrange(0, i));
        let v = hex_value(s.subrange(0, i))->Some_0;
        assert(hex_value(s.subrange(0, i + 1))->Some_0 == v * 16 + crate::hex::digit_value(
            s[i],
        )->Some_0 as nat);
    }
}

fn parse_hex(s: &[char], max: u32) -> (r: Option<u32>)
    ensures
        match r {
            Some(v) => hex_number(s@, max as nat) == Some(v as nat),
            None => hex_number(s@, max as nat) is None,
        },
{
    if s.len() == 0 {
        return None;
    }
    let mut v: u64 = 0;
    let mut i: usize = 0;
    assert(s@.subrange(0, 0) =~= Seq::<char>::empty());
    while i < s.len()
        invariant
            i <= s.len(),
            hex_value(s@.subrange(0, i as int)) == Some(v as nat),
            v <= max,
        decreases s.len() - i,
    {
        let ghost next = s@.subrange(0, i + 1);
        assert(next.drop_last() =~= s@.subrange(0, i as int));
        assert(next.last() == s@[i as int]);
        match digit_of(s[i]) {
            Some(x) => {
                let w: u64 = v * 16 + x as u64;
                assert(hex_value(next) == Some(w as nat));
                if w > max as u64 {
                    proof {
                        if hex_value(s@) is Some {
                            lemma_hex_value_prefix(s@, i + 1);
                        }
                    }
                    return None;
                }
                v = w;
            },
            None => {
                proof {
                    if hex_value(s@) is Some {
                        lemma_hex_value_prefix(s@, i + 1);
                    }
                }
                return None;
            },
        }
        i += 1;
    }
    assert(s@.subrange(0, i as int) =~= s@);
    Some(v as u32)
}

/// The four bytes of a value, lowest first.
pub open spec fn le32(v: nat) -> Seq<u8> {
    seq![
        (v % 256) as u8,
        (v / 256 % 256) as u8,
        (v / 65536 % 256) as u8,
        (v / 16777216 % 256) as u8,
    ]
}

/// The address bytes of hexadecimal groups: every group of eight digits
/// stands for four bytes, lowest first.
pub open spec fn group_bytes(addr: Seq<char>) -> Option<Seq<u8>>
    decreases addr.len(),
{
    if addr.len() < 8 {
        Some(Seq::empty())
    } else {
        let k = addr.len() - 8;
        match (group_bytes(addr.subrange(0, k)), hex_number(text::rest(addr, k), u32::MAX as nat)) {
            (Some(b), Some(v)) => Some(b + le32(v)),
            _ => None,
        }
    }
}

/// The address of a table entry: eight or thirty-two digits, a colon, and the
/// port.
pub open spec fn sock_of(s: Seq<char>) -> Option<super::SockAddrView> {
    match crate::addr::split_once(s, ':') {
        Some((addr, port)) => match (hex_number(port, u16::MAX as nat), group_bytes(addr)) {
            (Some(p), Some(b)) => if addr.len() == 8 || addr.len() == 32 {
                Some(super::SockAddrView { ip: b, port: p as u16, flow: 0, scope: 0 })
            } else {
                None
            },
            _ => None,
        },
        None => None,
    }
}

fn push_group(out: &mut Vec<u8>, v: u32)
    ensures
        final(out)@ == old(out)@ + le32(v as nat),
{
    out.push((v % 256) as u8);
    out.push((v / 256 % 256) as u8);
    out.push((v / 65536 % 256) as u8);
    out.push((v / 16777216 % 256) as u8);
    assert(out@ =~= old(out)@ + le32(v as nat));
}

proof fn lemma_group_prefix(addr: Seq<char>, i: int)
    requires
        0 <= i,
        i + 8 <= addr.len(),
        i % 8 == 0,
        addr.len() % 8 == 0,
        group_bytes(addr) is Some,
    ensures
        group_bytes(addr.subrange(0, i + 8)) is Some,
    decreases addr.len() - i,
{
    if i + 8 == addr.len() {
        assert(addr.subrange(0, i + 8) =~= addr);
    } else {
        let k = addr.len() - 8;
        assert(addr.subrange(0, k).subrange(0, i + 8) =~= addr.subrange(0, i + 8));
        assert(i + 8 <= k);
        lemma_group_prefix(addr.subrange(0, k), i);
    }
}

/// Reads the address of a table entry.
pub fn parse_hex_sock(s: &str) -> (r: Option<SockAddr>)
    ensures
        match r {
            Some(a) => sock_of(s@) == Some(a@),
            None => sock_of(s@) is None,
        },
{
    let cs = text::chars(s);
    let (addr, port) = match split_once_at(cs.as_slice(), ':') {
        Some(x) => x,
        None => {
            return None;
        },
    };
    let port: u16 = match parse_hex(port.as_slice(), u16::MAX as u32) {
        Some(p) => p as u16,
        None => {
            return None;
        },
    };
    let n: usize = addr.len();
    if n != 8 && n != 32 {
        return None;
    }
    let mut ip: Vec<u8> = Vec::new();
    let mut i: usize = 0;
    assert(addr@.subrange(0, 0) =~= Seq::<char>::empty());
    while i < n
        invariant
            n == addr@.len(),
            n == 8 || n == 32,
            i <= n,
            i % 8 == 0,
            group_bytes(addr@.subrange(0, i as int)) == Some(ip@),
            crate::addr::split_once(s@, ':') matches Some((a, _)) && a == addr@,
        decreases n - i,
    {
        let g = text::cut(addr.as_slice(), i, i + 8);
        let ghost next = addr@.subrange(0, i + 8);
        assert(next.subrange(0, next.len() - 8) =~= addr@.subrange(0, i as int));
        assert(text::rest(next, next.len() - 8) =~= g@);
        match parse_hex(g.as_slice(), u32::MAX) {
            Some(v) => {
                push_group(&mut ip, v);
            },
            None => {
                proof {
                    if group_bytes(addr@) is Some {
                        lemma_group_prefix(addr@, i as int);
                    }
                }
                return None;
            },
        }
        i = i + 8;
    }
    assert(addr@.subrange(0, i as int) =~= addr@);
    Some(SockAddr { ip, port, flow: 0, scope: 0 })
}

// ---------------------------------------------------------------------
// Tables
// ---------------------------------------------------------------------

/// What the lookup needs of a table row.
#[derive(Debug)]
pub struct Row {
    pub local: SockAddr,
    pub state: String,
    pub inode: u32,
}

/// Model of a [`Row`].
pub struct RowView {
    pub local: super::SockAddrView,
    pub state: Seq<char>,
    pub inode: u32,
}

impl View for Row {
    type V = RowView;

    open spec fn view(&self) -> RowView {
        RowView { local: self.local@, state: self.state@, inode: self.inode }
    }
}

/// The row a table line holds: at least ten fields, not the heading, with a
/// readable address and inode. Other lines hold none.
pub open spec fn row_of(line: Seq<char>) -> Option<RowView> {
    let f = text::words(line);
    if f.len() < 10 || f[0] == "sl"@ {
        None
    } else {
        match (sock_of(f[1]), text::number(f[9], u32::MAX as nat)) {
            (Some(a), Some(n)) => Some(RowView { local: a, state: f[3], inode: n as u32 }),
            _ => None,
        }
    }
}

/// The rows of the lines of a table.
pub open spec fn rows_of(lines: Seq<Seq<char>>) -> Seq<RowView>
    decreases lines.len(),
{
    if lines.len() == 0 {
        Seq::empty()
    } else {
        match row_of(lines.last()) {
            Some(r) => rows_of(lines.drop_last()).push(r),
            None => rows_of(lines.drop_last()),
        }
    }
}

/// The contents of rows.
pub open spec fn row_views(v: Seq<Row>) -> Seq<RowView> {
    v.map_values(|r: Row| r@)
}

fn parse_row(line: &[char]) -> (r: Option<Row>)
    ensures
        match r {
            Some(x) => row_of(line@) == Some(x@),
            None => row_of(line@) is None,
        },
{
    let f = text::split_words(line);
    let ghost fv = text::views(f@);
    assert(fv.len() == f@.len());
    if f.len() < 10 {
        return None;
    }
    assert(fv[0] == f@[0]@ && fv[1] == f@[1]@ && fv[3] == f@[3]@ && fv[9] == f@[9]@);
    if text::is_str(f[0].as_slice(), "sl") {
        return None;
    }
    let a = text::string(f[1].as_slice());
    let local = match parse_hex_sock(a.as_str()) {
        Some(x) => x,
        None => {
            return None;
        },
    };
    match text::parse_number(f[9].as_slice(), u32::MAX as u64) {
        Some(n) => Some(
            Row { local, state: text::string(f[3].as_slice()), inode: n as u32 },
        ),
        None => None,
    }
}

/// Reads a socket table.
pub fn parse_table(content: &str) -> (r: Vec<Row>)
    ensures
        row_views(r@) == rows_of(text::lines(content@)),
{
    let cs = text::chars(content);
    let ls = text::split_lines(cs.as_slice());
    let ghost all = text::views(ls@);
    let mut out: Vec<Row> = Vec::new();
    let mut i: usize = 0;
    assert(all.subrange(0, 0) =~= Seq::<Seq<char>>::empty());
    assert(row_views(out@) =~= Seq::<RowView>::empty());
    while i < ls.len()
        invariant
            i <= ls@.len(),
            all == text::views(ls@),
            row_views(out@) == rows_of(all.subrange(0, i as int)),
        decreases ls@.len() - i,
    {
        let ghost next = all.subrange(0, i + 1);
        assert(next.drop_last() =~= all.subrange(0, i as int));
        assert(next.last() == ls@[i as int]@);
        if let Some(x) = parse_row(ls[i].as_slice()) {
            let ghost before = out@;
            let ghost xv = x@;
            out.push(x);
            assert(row_views(out@) =~= row_views(before).push(xv));
        }
        i += 1;
    }
    assert(all.subrange(0, i as int) =~= all);
    out
}

/// Whether a row is the peer's own end with an owner.
pub open spec fn owned_by_peer(r: RowView, peer: super::SockAddrView) -> bool {
    r.local == peer && r.inode != 0
}

/// Whether a row is the one wanted: the peer's, and established or not as
/// asked; any for datagrams.
pub open spec fn wanted_row(
    r: RowView,
    peer: super::SockAddrView,
    established: Option<bool>,
) -> bool {
    owned_by_peer(r, peer) && match established {
        Some(e) => (r.state == "01"@) == e,
        None => true,
    }
}

/// Inode of the first wanted row.
pub open spec fn first_inode(
    rows: Seq<RowView>,
    peer: super::SockAddrView,
    established: Option<bool>,
) -> Option<u32>
    decreases rows.len(),
{
    if rows.len() == 0 {
        None
    } else if wanted_row(rows[0], peer, established) {
        Some(rows[0].inode)
    } else {
        first_inode(rows.drop_first(), peer, established)
    }
}

/// Inode of the peer's socket: for streams an established row before others.
pub open spec fn peer_inode(rows: Seq<RowView>, peer: super::SockAddrView, kind: SockKind) -> Option<
    u32,
> {
    match kind {
        SockKind::Udp => first_inode(rows, peer, None),
        SockKind::Tcp => match first_inode(rows, peer, Some(true)) {
            Some(i) => Some(i),
            None => first_inode(rows, peer, Some(false)),
        },
    }
}

fn find_row(rows: &Vec<Row>, peer: &SockAddr, established: Option<bool>) -> (r: Option<u32>)
    ensures
        r == first_inode(row_views(rows@), peer@, established),
{
    let ghost all = row_views(rows@);
    let mut i: usize = 0;
    assert(all.subrange(0, all.len() as int) =~= all);
    while i < rows.len()
        invariant
            i <= rows@.len(),
            all == row_views(rows@),
            first_inode(all, peer@, established) == first_inode(
                all.subrange(i as int, all.len() as int),
                peer@,
                established,
            ),
        decreases rows@.len() - i,
    {
        let ghost tail = all.subrange(i as int, all.len() as int);
        assert(tail[0] == rows@[i as int]@);
        assert(tail.drop_first() =~= all.subrange(i + 1, all.len() as int));
        let row = &rows[i];
        if row.local.same(peer) && row.inode != 0 {
            let state_fits = match established {
                Some(e) => text::str_eq(row.state.as_str(), "01") == e,
                None => true,
            };
            if state_fits {
                return Some(row.inode);
            }
        }
        i += 1;
    }
    assert(all.subrange(i as int, all.len() as int) =~= Seq::<RowView>::empty());
    None
}

/// Finds the inode of the peer's socket.
pub fn find_inode(rows: &Vec<Row>, peer: &SockAddr, kind: SockKind) -> (r: Option<u32>)
    ensures
        r == peer_inode(row_views(rows@), peer@, kind),
{
    match kind {
        SockKind::Udp => find_row(rows, peer, None),
        SockKind::Tcp => match find_row(rows, peer, Some(true)) {
            Some(i) => Some(i),
            None => find_row(rows, peer, Some(false)),
        },
    }
}

// ---------------------------------------------------------------------
// Processes
// ---------------------------------------------------------------------

/// A process directory: its name, where its descriptors link to, and its
/// status text where it can be read.
#[derive(Debug)]
pub struct ProcEntry {
    pub name: String,
    pub links: Vec<String>,
    pub status: Option<String>,
}

/// What a descriptor of a socket links to.
pub open spec fn socket_link(inode: u32) -> Seq<char> {
    "socket:["@ + text::decimal(inode as nat) + "]"@
}

/// The process id a directory name spells.
pub open spec fn pid_of_name(name: Seq<char>) -> Option<nat> {
    text::number(name, u32::MAX as nat)
}

/// Whether a process holds a socket.
pub open spec fn holds(e: ProcEntry, inode: u32) -> bool {
    text::strs(e.links@).contains(socket_link(inode))
}

/// The first process that holds a socket.
pub open spec fn holder(es: Seq<ProcEntry>, inode: u32) -> Option<u32>
    decreases es.len(),
{
    if es.len() == 0 {
        None
    } else if pid_of_name(es[0].name@) is Some && holds(es[0], inode) {
        Some(pid_of_name(es[0].name@)->Some_0 as u32)
    } else {
        holder(es.drop_first(), inode)
    }
}

/// Finds the process that holds a socket.
pub fn find_pid_by_inode(es: &Vec<ProcEntry>, inode: u32) -> (r: Option<u32>)
    ensures
        r == holder(es@, inode),
{
    let mut want = text::chars("socket:[");
    let d = text::dec(inode as u64);
    text::push_all(&mut want, d.as_slice());
    text::push_str(&mut want, "]");
    assert(want@ == socket_link(inode));
    let mut i: usize = 0;
    assert(es@.subrange(0, es@.len() as int) =~= es@);
    while i < es.len()
        invariant
            i <= es@.len(),
            want@ == socket_link(inode),
            holder(es@, inode) == holder(es@.subrange(i as int, es@.len() as int), inode),
        decreases es@.len() - i,
    {
        let ghost tail = es@.subrange(i as int, es@.len() as int);
        assert(tail[0] == es@[i as int]);
        assert(tail.drop_first() =~= es@.subrange(i + 1, es@.len() as int));
        let e = &es[i];
        let nc = text::chars(e.name.as_str());
        if let Some(pid) = text::parse_number(nc.as_slice(), u32::MAX as u64) {
            if has_link(&e.links, want.as_slice()) {
                return Some(pid as u32);
            }
        }
        i += 1;
    }
    assert(es@.subrange(i as int, es@.len() as int) =~= Seq::<ProcEntry>::empty());
    None
}

fn has_link(links: &Vec<String>, want: &[char]) -> (r: bool)
    ensures
        r == text::strs(links@).contains(want@),
{
    let mut i: usize = 0;
    while i < links.len()
        invariant
            i <= links@.len(),
            forall|j: int| 0 <= j < i ==> (#[trigger] links@[j])@ != want@,
        decreases links@.len() - i,
    {
        if text::is_str(want, links[i].as_str()) {
            assert(text::strs(links@)[i as int] == want@);
            return true;
        }
        i += 1;
    }
    proof {
        if text::strs(links@).contains(want@) {
            let j = choose|j: int| 0 <= j < text::strs(links@).len() && text::strs(links@)[j]
                == want@;
            assert(links@[j]@ == want@);
        }
    }
    false
}

/// The status text of a process.
pub open spec fn status_text(es: Seq<ProcEntry>, pid: u32) -> Option<Seq<char>>
    decreases es.len(),
{
    if es.len() == 0 {
        None
    } else if es[0].name@ == text::decimal(pid as nat) {
        match es[0].status {
            Some(s) => Some(s@),
            None => None,
        }
    } else {
        status_text(es.drop_first(), pid)
    }
}

/// The real user id in a status text: the first field of its first `Uid:`
/// line.
pub open spec fn uid_of(status: Seq<char>) -> Option<Seq<char>> {
    match text::after_prefix(text::lines(status), "Uid:"@) {
        Some(v) => if text::words(v).len() > 0 {
            Some(text::words(v)[0])
        } else {
            None
        },
        None => None,
    }
}

/// Reads the owner of a process out of its status text.
pub fn owner_of_pid(pid: u32, status: &str) -> (r: Result<PeerOwner, PeerError>)
    ensures
        match r {
            Ok(o) => uid_of(status@) == Some(o.sid@) && o.pid == pid && o.session == 0,
            Err(e) => uid_of(status@) is None && e == PeerError::NoUser(pid),
        },
{
    let cs = text::chars(status);
    let ls = text::split_lines(cs.as_slice());
    let key = text::chars("Uid:");
    match text::line_after(&ls, key.as_slice()) {
        Some(v) => {
            let ws = text::split_words(v.as_slice());
            assert(text::views(ws@).len() == ws@.len());
            if ws.len() == 0 {
                return Err(PeerError::NoUser(pid));
            }
            assert(text::views(ws@)[0] == ws@[0]@);
            Ok(PeerOwner { pid, sid: text::string(ws[0].as_slice()), session: 0 })
        },
        None => Err(PeerError::NoUser(pid)),
    }
}

fn find_status(es: &Vec<ProcEntry>, pid: u32) -> (r: Option<String>)
    ensures
        match r {
            Some(s) => status_text(es@, pid) == Some(s@),
            None => status_text(es@, pid) is None,
        },
{
    let name = text::dec(pid as u64);
    let mut i: usize = 0;
    assert(es@.subrange(0, es@.len() as int) =~= es@);
    while i < es.len()
        invariant
            i <= es@.len(),
            name@ == text::decimal(pid as nat),
            status_text(es@, pid) == status_text(es@.subrange(i as int, es@.len() as int), pid),
        decreases es@.len() - i,
    {
        let ghost tail = es@.subrange(i as int, es@.len() as int);
        assert(tail[0] == es@[i as int]);
        assert(tail.drop_first() =~= es@.subrange(i + 1, es@.len() as int));
        if text::is_str(name.as_slice(), es[i].name.as_str()) {
            return match &es[i].status {
                Some(s) => Some(s.clone()),
                None => None,
            };
        }
        i += 1;
    }
    assert(es@.subrange(i as int, es@.len() as int) =~= Seq::<ProcEntry>::empty());
    None
}

/// The owner of the peer's socket.
pub open spec fn owner_of(
    table: Seq<char>,
    es: Seq<ProcEntry>,
    peer: super::SockAddrView,
    kind: SockKind,
) -> Result<super::PeerOwnerView, PeerError> {
    match peer_inode(rows_of(text::lines(table)), peer, kind) {
        None => Err(PeerError::NoRow),
        Some(inode) => match holder(es, inode) {
            None => Err(PeerError::NoProcess(inode)),
            Some(pid) => match status_text(es, pid) {
                None => Err(PeerError::NoUser(pid)),
                Some(s) => match uid_of(s) {
                    None => Err(PeerError::NoUser(pid)),
                    Some(u) => Ok(super::PeerOwnerView { pid, sid: u, session: 0 }),
                },
            },
        },
    }
}

/// Finds the owner of the peer's socket in a socket table and the process
/// directories.
pub fn owner_in(table: &str, es: &Vec<ProcEntry>, peer: &SockAddr, kind: SockKind) -> (r: Result<
    PeerOwner,
    PeerError,
>)
    ensures
        match r {
            Ok(o) => owner_of(table@, es@, peer@, kind) == Ok::<super::PeerOwnerView, PeerError>(
                o@,
            ),
            Err(e) => owner_of(table@, es@, peer@, kind) == Err::<super::PeerOwnerView, PeerError>(
                e,
            ),
        },
{
    let rows = parse_table(table);
    let inode = match find_inode(&rows, peer, kind) {
        Some(i) => i,
        None => {
            return Err(PeerError::NoRow);
        },
    };
    let pid = match find_pid_by_inode(es, inode) {
        Some(p) => p,
        None => {
            return Err(PeerError::NoProcess(inode));
        },
    };
    match find_status(es, pid) {
        Some(s) => owner_of_pid(pid, s.as_str()),
        None => Err(PeerError::NoUser(pid)),
    }
}

/// Whether a row of the table is the peer's, with this inode.
pub open spec fn has_row(rows: Seq<RowView>, peer: super::SockAddrView, inode: u32) -> bool {
    exists|i: int| 0 <= i < rows.len() && owned_by_peer(#[trigger] rows[i], peer) && rows[i].inode
        == inode
}

proof fn lemma_first_inode(
    rows: Seq<RowView>,
    peer: super::SockAddrView,
    established: Option<bool>,
)
    ensures
        first_inode(rows, peer, established) matches Some(i) ==> has_row(rows, peer, i) && i != 0,
    decreases rows.len(),
{
    if rows.len() > 0 {
        if wanted_row(rows[0], peer, established) {
            assert(owned_by_peer(rows[0], peer));
        } else {
            lemma_first_inode(rows.drop_first(), peer, established);
            if let Some(i) = first_inode(rows.drop_first(), peer, established) {
                let k = choose|k: int| 0 <= k < rows.drop_first().len() && owned_by_peer(
                    #[trigger] rows.drop_first()[k],
                    peer,
                ) && rows.drop_first()[k].inode == i;
                assert(rows[k + 1] == rows.drop_first()[k]);
                assert(owned_by_peer(rows[k + 1], peer));
            }
        }
    }
}

proof fn lemma_holder(es: Seq<ProcEntry>, inode: u32)
    ensures
        holder(es, inode) matches Some(p) ==> exists|i: int|
            0 <= i < es.len() && holds(#[trigger] es[i], inode) && pid_of_name(es[i].name@) == Some(
                p as nat,
            ),
    decreases es.len(),
{
    if es.len() > 0 {
        if pid_of_name(es[0].name@) is Some && holds(es[0], inode) {
            assert(holds(es[0], inode));
        } else {
            lemma_holder(es.drop_first(), inode);
            if let Some(p) = holder(es.drop_first(), inode) {
                let k = choose|k: int| 0 <= k < es.drop_first().len() && holds(
                    #[trigger] es.drop_first()[k],
                    inode,
                ) && pid_of_name(es.drop_first()[k].name@) == Some(p as nat);
                assert(es[k + 1] == es.drop_first()[k]);
                assert(holds(es[k + 1], inode));
            }
        }
    }
}

/// Whether a socket of the peer is held by a process.
pub open spec fn held_socket(
    rows: Seq<RowView>,
    es: Seq<ProcEntry>,
    peer: super::SockAddrView,
    pid: u32,
    inode: u32,
    i: int,
) -> bool {
    &&& inode != 0
    &&& has_row(rows, peer, inode)
    &&& 0 <= i < es.len()
    &&& holds(es[i], inode)
    &&& pid_of_name(es[i].name@) == Some(pid as nat)
}

/// An owner is only ever reported for a process that holds a socket whose own
/// end is the peer's address; the user is the one its status names.
pub proof fn law_owner_holds_peer_socket(
    table: Seq<char>,
    es: Seq<ProcEntry>,
    peer: super::SockAddrView,
    kind: SockKind,
)
    requires
        owner_of(table, es, peer, kind) is Ok,
    ensures
        ({
            let o = owner_of(table, es, peer, kind)->Ok_0;
            let rows = rows_of(text::lines(table));
            &&& exists|inode: u32, i: int| #[trigger]
                held_socket(rows, es, peer, o.pid, inode, i)
            &&& status_text(es, o.pid) matches Some(s) && uid_of(s) == Some(o.sid)
        }),
{
    let rows = rows_of(text::lines(table));
    let inode = peer_inode(rows, peer, kind)->Some_0;
    lemma_first_inode(rows, peer, None);
    lemma_first_inode(rows, peer, Some(true));
    lemma_first_inode(rows, peer, Some(false));
    lemma_holder(es, inode);
    let pid = holder(es, inode)->Some_0;
    let i = choose|i: int| 0 <= i < es.len() && holds(#[trigger] es[i], inode) && pid_of_name(
        es[i].name@,
    ) == Some(pid as nat);
    assert(held_socket(rows, es, peer, pid, inode, i));
}

/// Law: hexadecimal digits count by their places, and case does not matter;
/// anything else is no number, and neither is nothing.
pub proof fn law_hex_number(v: u32, s: Seq<char>, c: char)
    ensures
        hex_number(crate::hex::hex(crate::bytes::be32(v)), u32::MAX as nat) == Some(v as nat),
        hex_number(Seq::empty(), u32::MAX as nat) is None,
        crate::hex::digit_value(c) is None ==> hex_value(s.push(c)) is None,
        hex_number(crate::hex::hex(crate::bytes::be32(v)), u16::MAX as nat) is Some <==> v
            <= u16::MAX,
{
    let b = crate::bytes::be32(v);
    let h = crate::hex::hex(b);
    assert(s.push(c).last() == c);
    lemma_eight_digits(b);
    crate::bytes::law_network_order(0, v);
    assert(b =~= seq![b[0], b[1], b[2], b[3]]);
}

proof fn lemma_pair(s: Seq<char>, x: u8)
    requires
        s.len() % 2 == 0,
        hex_value(s) is Some,
    ensures
        ({
            let t = s.push(crate::hex::hex_digit(x as int / 16)).push(
                crate::hex::hex_digit(x as int % 16),
            );
            hex_value(t) == Some((hex_value(s)->Some_0 * 256 + x) as nat)
        }),
{
    let a = s.push(crate::hex::hex_digit(x as int / 16));
    let t = a.push(crate::hex::hex_digit(x as int % 16));
    crate::hex::law_hex_digits(x as int / 16, '0');
    crate::hex::law_hex_digits(x as int % 16, '0');
    assert(a.drop_last() =~= s);
    assert(t.drop_last() =~= a);
    let v = hex_value(s)->Some_0;
    assert(hex_value(a) == Some((v * 16 + x as int / 16) as nat));
    assert((v * 16 + x as int / 16) * 16 + x as int % 16 == v * 256 + x);
}

proof fn lemma_eight_digits(b: Seq<u8>)
    requires
        b.len() == 4,
    ensures
        hex_value(crate::hex::hex(b)) == Some(
            (b[0] * 16777216 + b[1] * 65536 + b[2] * 256 + b[3]) as nat,
        ),
        crate::hex::hex(b).len() == 8,
{
    let h = crate::hex::hex(b);
    let d = |x: u8, lo: bool| crate::hex::hex_digit(
        if lo {
            x as int % 16
        } else {
            x as int / 16
        },
    );
    let s0 = Seq::<char>::empty();
    let s1 = s0.push(d(b[0], false)).push(d(b[0], true));
    let s2 = s1.push(d(b[1], false)).push(d(b[1], true));
    let s3 = s2.push(d(b[2], false)).push(d(b[2], true));
    let s4 = s3.push(d(b[3], false)).push(d(b[3], true));
    assert(hex_value(s0) == Some(0nat));
    lemma_pair(s0, b[0]);
    lemma_pair(s1, b[1]);
    lemma_pair(s2, b[2]);
    lemma_pair(s3, b[3]);
    assert(h =~= s4);
}

/// Law: a table's address reads back: eight digits are the four bytes of an
/// address from the last to the first, and the port follows behind a colon.
#[verifier::spinoff_prover]
#[verifier::rlimit(40)]
pub proof fn law_table_address(a: u8, b: u8, c: u8, d: u8, port: u16)
    ensures
        group_bytes(crate::hex::hex(seq![d, c, b, a])) == Some(seq![a, b, c, d]),
        sock_of(
            crate::hex::hex(seq![d, c, b, a]) + seq![':'] + crate::hex::hex(
                crate::bytes::be32(port as u32),
            ),
        ) == Some(super::SockAddrView { ip: seq![a, b, c, d], port, flow: 0, scope: 0 }),
{
    let w = seq![d, c, b, a];
    let h = crate::hex::hex(w);
    lemma_eight_digits(w);
    let v: int = d * 16777216 + c * 65536 + b * 256 + a;
    assert(h.subrange(0, 0) =~= Seq::<char>::empty());
    assert(text::rest(h, 0) =~= h);
    reveal_with_fuel(group_bytes, 2);
    lemma_le_places(a as int, b as int, c as int, d as int);
    assert(le32(v as nat) =~= seq![a, b, c, d]);
    assert(Seq::<u8>::empty() + le32(v as nat) =~= seq![a, b, c, d]);
    if h.contains(':') {
        let i = choose|i: int| 0 <= i < h.len() && h[i] == ':';
        crate::hex::lemma_hex_text(w);
        assert('0' <= h[i] <= '9' || 'a' <= h[i] <= 'f');
    }
    crate::addr::law_split_once(h, ':', crate::hex::hex(crate::bytes::be32(port as u32)));
    law_hex_number(port as u32, h, ':');
    let p = crate::hex::hex(crate::bytes::be32(port as u32));
    lemma_eight_digits(crate::bytes::be32(port as u32));
    crate::bytes::law_network_order(0, port as u32);
}

proof fn lemma_le_places(a: int, b: int, c: int, d: int)
    requires
        0 <= a < 256,
        0 <= b < 256,
        0 <= c < 256,
        0 <= d < 256,
    ensures
        ({
            let v = d * 16777216 + c * 65536 + b * 256 + a;
            v % 256 == a && v / 256 % 256 == b && v / 65536 % 256 == c && v / 16777216 % 256 == d
        }),
{
    let v = d * 16777216 + c * 65536 + b * 256 + a;
    vstd::arithmetic::div_mod::lemma_fundamental_div_mod_converse(
        v,
        256,
        d * 65536 + c * 256 + b,
        a,
    );
    vstd::arithmetic::div_mod::lemma_fundamental_div_mod_converse(
        d * 65536 + c * 256 + b,
        256,
        d * 256 + c,
        b,
    );
    vstd::arithmetic::div_mod::lemma_fundamental_div_mod_converse(
        v,
        65536,
        d * 256 + c,
        b * 256 + a,
    );
    vstd::arithmetic::div_mod::lemma_fundamental_div_mod_converse(d * 256 + c, 256, d, c);
    vstd::arithmetic::div_mod::lemma_fundamental_div_mod_converse(
        v,
        16777216,
        d,
        c * 65536 + b * 256 + a,
    );
}

/// Law: a table's rows are those of its lines, in order: each line gives its
/// row or none, and two tables in a row give the rows of both.
pub proof fn law_rows(a: Seq<Seq<char>>, b: Seq<Seq<char>>, l: Seq<char>)
    ensures
        rows_of(a + b) == rows_of(a) + rows_of(b),
        row_of(l) matches Some(r) ==> rows_of(seq![l]) == seq![r],
        row_of(l) is None ==> rows_of(seq![l]).len() == 0,
        text::words(l).len() < 10 ==> row_of(l) is None,
        row_of(l) matches Some(r) ==> sock_of(text::words(l)[1]) == Some(r.local)
            && text::words(l)[3] == r.state && text::number(text::words(l)[9], u32::MAX as nat)
            == Some(r.inode as nat) && text::words(l)[0] != "sl"@,
    decreases b.len(),
{
    assert(seq![l].drop_last() =~= Seq::<Seq<char>>::empty());
    reveal_with_fuel(rows_of, 2);
    if row_of(l) is Some {
        assert(rows_of(seq![l]) =~= seq![row_of(l)->Some_0]);
    }
    if b.len() == 0 {
        assert(a + b =~= a);
        assert(rows_of(a) + rows_of(b) =~= rows_of(a));
    } else {
        assert((a + b).drop_last() =~= a + b.drop_last());
        assert((a + b).last() == b.last());
        law_rows(a, b.drop_last(), l);
        assert(rows_of(a + b) =~= rows_of(a) + rows_of(b));
    }
}

/// Law: the inode is that of the first row that is wanted; there is none
/// exactly where none is.
pub proof fn law_first_inode(
    rows: Seq<RowView>,
    peer: super::SockAddrView,
    established: Option<bool>,
)
    ensures
        match first_inode(rows, peer, established) {
            Some(n) => n != 0 && exists|i: int|
                #![trigger rows[i]]
                0 <= i < rows.len() && rows[i].inode == n && rows[i].local == peer && wanted_row(
                    rows[i],
                    peer,
                    established,
                ) && forall|j: int|
                    0 <= j < i ==> !wanted_row(#[trigger] rows[j], peer, established),
            None => forall|j: int|
                0 <= j < rows.len() ==> !wanted_row(#[trigger] rows[j], peer, established),
        },
    decreases rows.len(),
{
    if rows.len() > 0 {
        if wanted_row(rows[0], peer, established) {
            assert(rows[0].inode == first_inode(rows, peer, established)->Some_0);
        } else {
            let t = rows.drop_first();
            law_first_inode(t, peer, established);
            match first_inode(t, peer, established) {
                Some(n) => {
                    let k = choose|i: int|
                        #![trigger t[i]]
                        0 <= i < t.len() && t[i].inode == n && t[i].local == peer && wanted_row(
                            t[i],
                            peer,
                            established,
                        ) && forall|j: int|
                            0 <= j < i ==> !wanted_row(#[trigger] t[j], peer, established);
                    assert(rows[k + 1] == t[k]);
                    assert forall|j: int| 0 <= j < k + 1 implies !wanted_row(
                        #[trigger] rows[j],
                        peer,
                        established,
                    ) by {
                        if j > 0 {
                            assert(rows[j] == t[j - 1]);
                        }
                    }
                },
                None => {
                    assert forall|j: int| 0 <= j < rows.len() implies !wanted_row(
                        #[trigger] rows[j],
                        peer,
                        established,
                    ) by {
                        if j > 0 {
                            assert(rows[j] == t[j - 1]);
                        }
                    }
                },
            }
        }
    }
}

/// Law: which row is wanted: the peer's own, with an owner; for streams one in
/// state `01` before any other, for datagrams the first of any state.
pub proof fn law_peer_inode(rows: Seq<RowView>, peer: super::SockAddrView, i: int)
    requires
        0 <= i < rows.len(),
        rows[i].local == peer,
        rows[i].inode != 0,
    ensures
        peer_inode(rows, peer, SockKind::Udp) is Some,
        peer_inode(rows, peer, SockKind::Tcp) is Some,
        rows[i].state == "01"@ ==> peer_inode(rows, peer, SockKind::Tcp) == first_inode(
            rows,
            peer,
            Some(true),
        ) && first_inode(rows, peer, Some(true)) is Some,
        (forall|j: int| 0 <= j < rows.len() ==> (#[trigger] rows[j]).state != "01"@) ==> peer_inode(
            rows,
            peer,
            SockKind::Tcp,
        ) == peer_inode(rows, peer, SockKind::Udp),
{
    law_first_inode(rows, peer, None);
    law_first_inode(rows, peer, Some(true));
    law_first_inode(rows, peer, Some(false));
    assert(wanted_row(rows[i], peer, None));
    if rows[i].state == "01"@ {
        assert(wanted_row(rows[i], peer, Some(true)));
    } else {
        assert(wanted_row(rows[i], peer, Some(false)));
    }
    if forall|j: int| 0 <= j < rows.len() ==> (#[trigger] rows[j]).state != "01"@ {
        lemma_same_first(rows, peer);
    }
}

proof fn lemma_same_first(rows: Seq<RowView>, peer: super::SockAddrView)
    requires
        forall|j: int| 0 <= j < rows.len() ==> (#[trigger] rows[j]).state != "01"@,
    ensures
        first_inode(rows, peer, Some(true)) is None,
        first_inode(rows, peer, Some(false)) == first_inode(rows, peer, None),
    decreases rows.len(),
{
    if rows.len() > 0 {
        let t = rows.drop_first();
        assert forall|j: int| 0 <= j < t.len() implies (#[trigger] t[j]).state != "01"@ by {
            assert(t[j] == rows[j + 1]);
        }
        lemma_same_first(t, peer);
    }
}

/// Law: the owner is the first process, by its directory's number, that holds
/// the socket.
pub proof fn law_holder(es: Seq<ProcEntry>, inode: u32)
    ensures
        match holder(es, inode) {
            Some(p) => exists|i: int|
                #![trigger es[i]]
                0 <= i < es.len() && holds(es[i], inode) && text::number(
                    es[i].name@,
                    u32::MAX as nat,
                ) == Some(p as nat),
            None => forall|j: int|
                0 <= j < es.len() ==> !(holds(#[trigger] es[j], inode) && text::number(
                    es[j].name@,
                    u32::MAX as nat,
                ) is Some),
        },
    decreases es.len(),
{
    if es.len() > 0 {
        if pid_of_name(es[0].name@) is Some && holds(es[0], inode) {
            assert(holds(es[0], inode));
        } else {
            let t = es.drop_first();
            law_holder(t, inode);
            match holder(t, inode) {
                Some(p) => {
                    let k = choose|i: int|
                        #![trigger t[i]]
                        0 <= i < t.len() && holds(t[i], inode) && text::number(
                            t[i].name@,
                            u32::MAX as nat,
                        ) == Some(p as nat);
                    assert(es[k + 1] == t[k]);
                },
                None => {
                    assert forall|j: int| 0 <= j < es.len() implies !(holds(#[trigger] es[j], inode)
                        && text::number(es[j].name@, u32::MAX as nat) is Some) by {
                        if j > 0 {
                            assert(es[j] == t[j - 1]);
                        }
                    }
                },
            }
        }
    }
}

/// Law: a socket's link holds its inode, and two sockets' links differ.
pub proof fn law_socket_link(a: u32, b: u32)
    ensures
        socket_link(a) == socket_link(b) ==> a == b,
        text::has_prefix(socket_link(a), "socket:["@),
        text::has_suffix(socket_link(a), text::decimal(a as nat) + "]"@),
{
    reveal_strlit("socket:[");
    reveal_strlit("]");
    let (s, t) = (socket_link(a), socket_link(b));
    assert(s.subrange(0, 8) =~= "socket:["@);
    let d = text::decimal(a as nat) + "]"@;
    assert(s.subrange(s.len() - d.len(), s.len() as int) =~= d);
    if s == t {
        assert(s.subrange(8, s.len() - 1) =~= text::decimal(a as nat));
        assert(t.subrange(8, t.len() - 1) =~= text::decimal(b as nat));
        text::law_decimal(a as nat, b as nat);
    }
}

/// Law: attribution goes from the row to the socket to the process to its
/// user, and a step that fails is named; the user is the first field of the
/// process's first user line.
pub proof fn law_attribution_steps(
    table: Seq<char>,
    es: Seq<ProcEntry>,
    peer: super::SockAddrView,
    kind: SockKind,
    inode: u32,
    pid: u32,
    status: Seq<char>,
)
    ensures
        ({
            let rows = rows_of(text::lines(table));
            let r = owner_of(table, es, peer, kind);
            &&& peer_inode(rows, peer, kind) is None <==> r == Err::<
                super::PeerOwnerView,
                PeerError,
            >(PeerError::NoRow)
            &&& peer_inode(rows, peer, kind) == Some(inode) && holder(es, inode) is None ==> r
                == Err::<super::PeerOwnerView, PeerError>(PeerError::NoProcess(inode))
            &&& peer_inode(rows, peer, kind) == Some(inode) && holder(es, inode) == Some(pid)
                && status_text(es, pid) is None ==> r == Err::<super::PeerOwnerView, PeerError>(
                PeerError::NoUser(pid),
            )
            &&& peer_inode(rows, peer, kind) == Some(inode) && holder(es, inode) == Some(pid)
                && status_text(es, pid) == Some(status) ==> {
                &&& uid_of(status) is None ==> r == Err::<super::PeerOwnerView, PeerError>(
                    PeerError::NoUser(pid),
                )
                &&& uid_of(status) matches Some(u) ==> (r matches Ok(o) && o.pid == pid && o.sid
                    == u)
            }
        }),
{
}

/// Law: the user is the first field of the first user line; a line without a
/// field, and a text without such a line, name none.
pub proof fn law_uid_reads_back(uid: Seq<char>, tail: Seq<char>, more: Seq<char>)
    requires
        uid.len() > 0,
        forall|i: int| 0 <= i < uid.len() ==> !text::is_space(#[trigger] uid[i]),
        !tail.contains('\n'),
        !("Uid:"@ + seq!['\t'] + uid + seq!['\t'] + tail).contains('\n'),
        tail.len() == 0 || tail.last() != '\r',
    ensures
        uid_of("Uid:"@ + seq!['\t'] + uid + seq!['\t'] + tail + seq!['\n'] + more) == Some(uid),
        uid_of(Seq::empty()) is None,
{
    reveal_strlit("Uid:");
    let l = "Uid:"@ + seq!['\t'] + uid + seq!['\t'] + tail;
    let none = Seq::<char>::empty();
    assert(l.last() != '\r') by {
        if tail.len() > 0 {
            assert(l.last() == tail.last());
        } else {
            assert(l.last() == '\t');
        }
    }
    text::law_lines(l, more);
    let ls = text::lines(l + seq!['\n'] + more);
    assert(ls[0] == l);
    assert(l.subrange(0, 4) =~= "Uid:"@);
    let v = text::rest(l, 4);
    assert(v =~= seq!['\t'] + (uid + seq!['\t'] + tail));
    text::law_words(uid, '\t', tail);
    text::law_words(uid, '\t', uid + seq!['\t'] + tail);
    assert(text::words(v) == text::words(uid + seq!['\t'] + tail));
    text::law_lines(none, none);
}

/// Law: a process's status is that of the entry named by its number.
pub proof fn law_status_text(e: ProcEntry, more: Seq<ProcEntry>, pid: u32)
    ensures
        e.name@ == text::decimal(pid as nat) ==> status_text(seq![e] + more, pid)
            == if e.status is Some {
            Some(e.status->Some_0@)
        } else {
            None
        },
        e.name@ != text::decimal(pid as nat) ==> status_text(seq![e] + more, pid) == status_text(
            more,
            pid,
        ),
        status_text(Seq::empty(), pid) is None,
{
    let s = seq![e] + more;
    assert(s[0] == e);
    assert(s.drop_first() =~= more);
}

} // verus!
