//! The private DNS responder.

use aztna_client::dns::{build_reply, parse_query, respond, Question, CLASS_IN, TYPE_A};
use aztna_client::zones::{ZoneEntry, Zones};

fn be16(b: &[u8]) -> u16 {
    u16::from_be_bytes([b[0], b[1]])
}

fn query(name: &str, qtype: u16) -> Vec<u8> {
    let mut p = Vec::new();
    p.extend_from_slice(&0xBEEFu16.to_be_bytes());
    p.extend_from_slice(&0x0100u16.to_be_bytes());
    p.extend_from_slice(&1u16.to_be_bytes());
    p.extend_from_slice(&[0u8; 6]);
    for label in name.split('.') {
        p.push(label.len() as u8);
        p.extend_from_slice(label.as_bytes());
    }
    p.push(0);
    p.extend_from_slice(&qtype.to_be_bytes());
    p.extend_from_slice(&CLASS_IN.to_be_bytes());
    p
}

fn rcode_of(p: &[u8]) -> u16 {
    be16(&p[2..4]) & 0x000F
}

fn ancount_of(p: &[u8]) -> u16 {
    be16(&p[6..8])
}

fn answer_ip(p: &[u8]) -> Option<String> {
    let mut i = 12;
    while p.get(i) != Some(&0) {
        i += 1 + *p.get(i)? as usize;
    }
    i += 1 + 4;
    if ancount_of(p) == 0 {
        return None;
    }
    let rr = &p[i..];
    let rdlen = be16(&rr[10..12]) as usize;
    let rdata = &rr[12..12 + rdlen];
    Some(
        rdata
            .iter()
            .map(|b| b.to_string())
            .collect::<Vec<_>>()
            .join("."),
    )
}

fn zones() -> Zones {
    let mut z = Zones::new();
    z.on_zones(&vec![ZoneEntry {
        fqdn: "erp.corp.com".to_string(),
        ip: "127.0.0.10".to_string(),
        ports: vec![443],
    }]);
    z
}

#[test]
fn parse_and_answer_round_trip() {
    let q = parse_query(&query("erp.corp.com", TYPE_A)).expect("parse");
    assert_eq!(q.id, 0xBEEF);
    assert!(q.rd);
    assert_eq!(q.name, "erp.corp.com");
    assert_eq!(q.qtype, TYPE_A);
    assert_eq!(q.qclass, CLASS_IN);

    let r = build_reply(&q, Some("127.0.0.10"));
    assert_eq!(rcode_of(&r), 0);
    assert_eq!(ancount_of(&r), 1);
    assert_eq!(answer_ip(&r).as_deref(), Some("127.0.0.10"));

    // id echoed
    assert_eq!(be16(&r[0..2]), 0xBEEF);
}

#[test]
fn unknown_name_nxdomain() {
    let q = parse_query(&query("unlisted.corp.com", TYPE_A)).unwrap();
    let r = build_reply(&q, None);
    assert_eq!(rcode_of(&r), 3, "NXDOMAIN for unknown names");
    assert_eq!(ancount_of(&r), 0);
}

#[test]
fn known_name_non_a_is_empty_noerror() {
    let q = parse_query(&query("erp.corp.com", 28 /* AAAA */)).unwrap();
    let r = build_reply(&q, Some("127.0.0.10"));
    assert_eq!(rcode_of(&r), 0);
    assert_eq!(ancount_of(&r), 0, "no v6 addresses advertised");
}

#[test]
fn malformed_packets_rejected() {
    assert!(parse_query(&[]).is_none());
    assert!(parse_query(&[0; 4]).is_none());
    // query flag (QR) set -> not a query
    let mut p = query("a.b", TYPE_A);
    p[2] |= 0x80;
    assert!(parse_query(&p).is_none());
    // truncated name (length runs past the packet)
    let mut p = query("erp.corp.com", TYPE_A);
    p.truncate(14);
    assert!(parse_query(&p).is_none());
}

#[test]
fn responder_answers_from_zone_map() {
    let z = zones();
    let (reply, class) = respond(&query("ERP.CORP.COM", TYPE_A), &z).unwrap();
    assert_eq!(rcode_of(&reply), 0);
    assert_eq!(answer_ip(&reply).as_deref(), Some("127.0.0.10"));
    assert_eq!(class, "answered");
    let (reply, class) = respond(&query("nope.corp.com", TYPE_A), &z).unwrap();
    assert_eq!(rcode_of(&reply), 3, "unknown name must NXDOMAIN");
    assert_eq!(class, "nxdomain");
    let (reply, class) = respond(&query("erp.corp.com", 28), &z).unwrap();
    assert_eq!(ancount_of(&reply), 0);
    assert_eq!(class, "empty");
    assert!(respond(&[1, 2, 3], &z).is_none());
}

#[test]
fn reply_bytes_are_exact() {
    let q = parse_query(&query("a.b", TYPE_A)).unwrap();
    let r = build_reply(&q, Some("127.0.0.9"));
    assert_eq!(
        r,
        vec![
            0xBE, 0xEF, 0x81, 0x00, 0, 1, 0, 1, 0, 0, 0, 0, 1, b'a', 1, b'b', 0, 0, 1, 0, 1, 0xC0,
            0x0C, 0, 1, 0, 1, 0, 0, 0, 5, 0, 4, 127, 0, 0, 9,
        ]
    );
}

#[test]
fn a_reply_is_no_query() {
    let q: Question = parse_query(&query("a.b", TYPE_A)).unwrap();
    let r = build_reply(&q, None);
    assert!(parse_query(&r).is_none());
}

#[test]
fn pointers_only_lead_back() {
    // a pointer forward
    let mut p = query("x", TYPE_A);
    p.truncate(12);
    p.extend_from_slice(&[0xC0, 14, 3, b'e', b'r', b'p', 0, 0, 1, 0, 1]);
    assert!(parse_query(&p).is_none());
    // a pointer to itself
    let mut p = query("x", TYPE_A);
    p.truncate(12);
    p.extend_from_slice(&[0xC0, 12, 0, 1, 0, 1]);
    assert!(parse_query(&p).is_none());
    // a name that leads back to its own start never ends
    let mut p = query("x", TYPE_A);
    p.truncate(12);
    p.extend_from_slice(&[1, b'a', 0xC0, 12, 0, 1, 0, 1]);
    assert!(parse_query(&p).is_none());
}

#[test]
fn an_address_of_other_than_four_bytes_is_no_answer() {
    let q = Question {
        id: 1,
        rd: false,
        raw_name: vec![1, 97, 0],
        name: "a".to_string(),
        qtype: 1,
        qclass: 1,
    };
    let none = vec![0, 1, 0x80, 0x03, 0, 1, 0, 0, 0, 0, 0, 0, 1, 97, 0, 0, 1, 0, 1];
    for bad in ["127.0.0.1.bad", "127.0.0.1.1", "127.0.0", "127.0.0.256", "127.0.0.x", ""] {
        assert_eq!(build_reply(&q, Some(bad)), none, "{bad}");
    }
    assert_eq!(build_reply(&q, None), none);
    assert!(build_reply(&q, Some("127.0.0.1")).ends_with(&[0, 4, 127, 0, 0, 1]));
}
