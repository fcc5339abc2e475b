//! Attribution of local peers.

use aztna_client::peer::darwin;
use aztna_client::peer::linux::{
    find_inode, owner_in, owner_of_pid, parse_hex_sock, parse_table, ProcEntry,
};
use aztna_client::peer::windows;
use aztna_client::peer::{lets_in, peer_allowed, PeerError, PeerOwner, SockAddr, SockKind};

fn v4(a: u8, b: u8, c: u8, d: u8, port: u16) -> SockAddr {
    SockAddr {
        ip: vec![a, b, c, d],
        port,
        flow: 0,
        scope: 0,
    }
}

/// Processes by id, each with one socket, and the id as its user.
fn fake_proc(rows: &[(u32, u32)]) -> Vec<ProcEntry> {
    rows.iter()
        .map(|(pid, inode)| ProcEntry {
            name: pid.to_string(),
            links: vec![format!("socket:[{inode}]")],
            status: Some(format!("Name:\tfake\nUid:\t{pid}\t0\t0\t0\n")),
        })
        .collect()
}

const TCP_TABLE: &str = "  sl  local_address rem_address   st tx_queue rx_queue tr tm->when retrnsmt   uid  timeout inode\n \
   0: 0100007F:1F90 00000000:0000 0A 00000000:00000000 00:00000000 00000000  1000        0 111111 1 0000000000000000 100 0 0 10 0\n \
   1: 6C2B0A0A:C350 0100007F:8AE1 01 00000000:00000000 00:00000000 00000000     0        0 999999 1 0000000000000000 24 4 30 10 -1\n \
   2: 0100007F:C350 6C2B0A0A:8AE1 01 00000000:00000000 00:00000000 00000000     0        0 777777 1 0000000000000000 24 4 30 10 -1\n \
   3: 0100007F:C350 00000000:0000 06 00000000:00000000 00:00000000 00000000     0        0      0 1 0000000000000000 24 4 30 10 -1\n";

const UDP_TABLE: &str = "  sl  local_address rem_address   st tx_queue rx_queue tr tm->when retrnsmt   uid  timeout inode ref pointer\n \
   0: 0100007F:C351 00000000:0000 07 00000000:00000000 00:00000000 00000000  1000        0 555555 2 0000000000000000 0\n";

#[test]
fn peer_allowed_is_exact_uid_equality() {
    assert!(peer_allowed("1000", "1000"));
    assert!(!peer_allowed("1000", "1001"));
    assert!(!peer_allowed("1000", "")); // empty never matches
}

#[test]
fn addr_decode() {
    assert!(parse_hex_sock("0100007F:1F90")
        .unwrap()
        .same(&v4(127, 0, 0, 1, 8080)));
    // ::1 — all-zero groups + final 01000000 (LE of 0x00000001)
    let mut ip = vec![0u8; 16];
    ip[15] = 1;
    let want = SockAddr {
        ip,
        port: 22,
        flow: 0,
        scope: 0,
    };
    assert!(parse_hex_sock("00000000000000000000000001000000:0016")
        .unwrap()
        .same(&want));
    assert!(parse_hex_sock("ZZZZ:1").is_none());
    assert!(parse_hex_sock("+100007F:1F90").is_none());
    assert!(parse_hex_sock("0100007F:+F90").is_none());
}

#[test]
fn tcp_row_match_prefers_established_and_skips_inode0() {
    let procs = fake_proc(&[(4242, 999_999), (5252, 777_777)]);
    let o = owner_in(
        TCP_TABLE,
        &procs,
        &v4(127, 0, 0, 1, 50000),
        SockKind::Tcp,
    )
    .unwrap();
    assert_eq!(o.pid, 5252);
    assert_eq!(o.sid, "5252");
    assert_eq!(o.session, 0);
}

#[test]
fn tcp_row_v4_mapped_elsewhere_is_not_v6() {
    let procs = fake_proc(&[(1, 999_999)]);
    assert!(owner_in(
        TCP_TABLE,
        &procs,
        &v4(127, 0, 0, 2, 50000),
        SockKind::Tcp
    )
    .is_err());
}

#[test]
fn absent_row_fails_closed() {
    let procs = fake_proc(&[(1, 999_999)]);
    assert_eq!(
        owner_in(
            TCP_TABLE,
            &procs,
            &v4(127, 0, 0, 1, 59999),
            SockKind::Tcp
        )
        .unwrap_err(),
        PeerError::NoRow
    );
}

#[test]
fn inode_without_pid_dir_fails_closed() {
    let procs = fake_proc(&[]);
    assert_eq!(
        owner_in(
            TCP_TABLE,
            &procs,
            &v4(127, 0, 0, 1, 50000),
            SockKind::Tcp
        )
        .unwrap_err(),
        PeerError::NoProcess(777_777)
    );
}

#[test]
fn udp_row_match() {
    let procs = fake_proc(&[(7, 555_555)]);
    let o = owner_in(
        UDP_TABLE,
        &procs,
        &v4(127, 0, 0, 1, 50001),
        SockKind::Udp,
    )
    .unwrap();
    assert_eq!(o.pid, 7);
}

#[test]
fn table_rows_are_read() {
    let rows = parse_table(TCP_TABLE);
    assert_eq!(rows.len(), 4);
    assert_eq!(rows[2].inode, 777_777);
    assert_eq!(rows[2].state, "01");
    assert_eq!(
        find_inode(&rows, &v4(127, 0, 0, 1, 50000), SockKind::Tcp),
        Some(777_777)
    );
    // without a connection, any row with an inode will do
    assert_eq!(
        find_inode(&rows, &v4(127, 0, 0, 1, 8080), SockKind::Tcp),
        Some(111_111)
    );
    assert_eq!(
        find_inode(&rows, &v4(127, 0, 0, 1, 8081), SockKind::Tcp),
        None
    );
}

#[test]
fn process_without_user_line_fails_closed() {
    assert_eq!(
        owner_of_pid(9, "Name:\tx\n").unwrap_err(),
        PeerError::NoUser(9)
    );
    assert_eq!(owner_of_pid(9, "Uid:\t1000\t1\t2\t3\n").unwrap().sid, "1000");
}

#[test]
fn unattributable_fabricated_addr_fails_closed() {
    // a loopback address that no socket holds: never an owner
    let rows = vec![darwin::SocketRow {
        pid: 5,
        kind: darwin::SOCKINFO_TCP,
        state: 4,
        lport: 50000u16.to_be() as u32,
        v4: true,
        v6: false,
        laddr: [0, 0, 0, 0, 0, 0, 0, 0, 0, 0, 0, 0, 127, 0, 0, 1],
    }];
    assert!(darwin::scan_for_owner(&rows, &v4(127, 0, 0, 1, 1), SockKind::Tcp).is_err());
    assert_eq!(
        darwin::scan_for_owner(&rows, &v4(127, 0, 0, 1, 50000), SockKind::Tcp),
        Ok(5)
    );
    assert!(darwin::owner_of_uid(5, None).is_err());
    assert_eq!(darwin::owner_of_uid(5, Some(501)).unwrap().sid, "501");
}

#[test]
fn darwin_socket_accounts() {
    let mut info = vec![0u8; darwin::SOCKET_INFO_LEN];
    info[darwin::KIND_AT] = 2;
    info[darwin::STATE_AT] = 4;
    info[darwin::LPORT_AT..darwin::LPORT_AT + 2].copy_from_slice(&50000u16.to_be_bytes());
    info[darwin::VFLAG_AT] = 1;
    info[darwin::LADDR_AT + 12..darwin::LADDR_AT + 16].copy_from_slice(&[127, 0, 0, 1]);
    let row = darwin::socket_row(9, &info).unwrap();
    assert_eq!((row.pid, row.kind, row.state, row.v4, row.v6), (9, 2, 4, true, false));
    assert_eq!(
        darwin::scan_for_owner(&vec![row], &v4(127, 0, 0, 1, 50000), SockKind::Tcp),
        Ok(9)
    );
    info[darwin::KIND_AT..darwin::KIND_AT + 4].copy_from_slice(&(-1i32).to_le_bytes());
    assert_eq!(darwin::socket_row(9, &info).unwrap().kind, -1);
    assert!(darwin::socket_row(9, &info[1..]).is_none());
}

#[test]
fn windows_table_names_the_process() {
    let l = windows::layout(SockKind::Tcp, false);
    let mut row = vec![0u8; l.size];
    row[l.addr..l.addr + 4].copy_from_slice(&[127, 0, 0, 1]);
    row[l.port..l.port + 2].copy_from_slice(&50000u16.to_be_bytes());
    row[l.pid..l.pid + 4].copy_from_slice(&77u32.to_ne_bytes());
    let mut buf = 1u32.to_ne_bytes().to_vec();
    buf.extend_from_slice(&row);
    assert_eq!(
        windows::owner_pid(&buf, &v4(127, 0, 0, 1, 50000), SockKind::Tcp),
        Ok(77)
    );
    assert_eq!(
        windows::owner_pid(&buf, &v4(127, 0, 0, 1, 50001), SockKind::Tcp),
        Err(PeerError::NoRow)
    );
}

#[test]
fn only_an_attributed_owner_is_let_in() {
    let owner = |sid: &str| {
        Ok(PeerOwner {
            pid: 1,
            sid: sid.to_string(),
            session: 0,
        })
    };
    assert!(lets_in("1000", &owner("1000")));
    assert!(!lets_in("1000", &owner("1001")));
    assert!(!lets_in("", &owner("")));
    assert!(!lets_in("1000", &Err(PeerError::TimedOut)));
}
