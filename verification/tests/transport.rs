//! Carriers, flows, fragments and zones.

use aztna_client::establish::{
    build_first_datagram, plan, push_reply, raw_answer_ok, raw_session_ended, session_of,
    session_request, step, Downgrade, Finish, Happened, Move, ReplyByte, SessionAnswer, Stage,
    UdpGrant,
};
use aztna_client::flows::{prune_session_entries, udp_flow_live, Egress, Forwarder, Ingress};
use aztna_client::relay::{
    carrier_port, dial_step, refused_fallback_allowed, DialAction, DialEvent, DialPhase,
    PlainReason, TlsMemory, TransportKind,
};
use aztna_client::serve::{
    admission_line, backoff_ms, candidates, read_ack, AckOutcome, AckRead, Action, CloseReason, Event,
    GatewayEntry, Grant, Phase, ServeState,
};
use aztna_client::udp_frag::{
    decode, encode, fragment, send_step, Frame, Outcome, Reassembler, SendStep, Sent,
};
use aztna_client::zones::{
    zone_denial_reason, zones_answer, Endpoint, ZoneEntry, Zones, ZonesFetch,
};
use std::collections::HashMap;

#[test]
fn zone_denial_reason_classifies() {
    assert_eq!(zone_denial_reason(401, ""), Some("unauthorized"));
    assert_eq!(
        zone_denial_reason(403, r#"{"error":"session revoked"}"#),
        Some("revoked")
    );
    assert_eq!(
        zone_denial_reason(403, r#"{"error":"session idle"}"#),
        Some("idle")
    );
    assert_eq!(zone_denial_reason(403, "other"), Some("unauthorized"));
    // not a denial: transient/server statuses and success
    assert_eq!(zone_denial_reason(500, "boom"), None);
    assert_eq!(zone_denial_reason(503, ""), None);
    assert_eq!(zone_denial_reason(200, ""), None);
}

#[test]
fn zone_answers() {
    assert!(matches!(
        zones_answer(200, "", Ok(vec![])),
        ZonesFetch::Current(_)
    ));
    assert!(matches!(
        zones_answer(401, "", Err("x".to_string())),
        ZonesFetch::Denied("unauthorized")
    ));
    match zones_answer(500, "boom", Err("x".to_string())) {
        ZonesFetch::Failed(m) => assert_eq!(m, "dns-zones fetch failed: 500 boom"),
        other => panic!("unexpected: {other:?}"),
    }
    match zones_answer(200, "", Err("bad json".to_string())) {
        ZonesFetch::Failed(m) => assert_eq!(m, "bad json"),
        other => panic!("unexpected: {other:?}"),
    }
}

fn entry(fqdn: &str, ip: &str, ports: &[u16]) -> ZoneEntry {
    ZoneEntry {
        fqdn: fqdn.to_string(),
        ip: ip.to_string(),
        ports: ports.to_vec(),
    }
}

#[test]
fn zones_converge_and_denial_clears() {
    let mut z = Zones::new();
    let (stop, start) = z.on_zones(&vec![entry("Erp.corp", "127.0.0.10", &[443])]);
    assert!(stop.is_empty());
    assert_eq!(start.len(), 1);
    assert_eq!(start[0].dest, "Erp.corp:443");
    z.bound(Endpoint {
        ip: "127.0.0.10".to_string(),
        port: 443,
    });
    assert_eq!(z.live_len(), 1);
    assert_eq!(z.lookup("erp.corp").as_deref(), Some("127.0.0.10"));
    let (stop, start) = z.on_zones(&vec![entry("erp.corp", "127.0.0.11", &[443])]);
    assert_eq!(stop.len(), 1);
    assert_eq!(start[0].at.ip, "127.0.0.11");
    z.bound(Endpoint {
        ip: "127.0.0.11".to_string(),
        port: 443,
    });
    assert_eq!(z.on_denied(), 1);
    assert_eq!(z.lookup("erp.corp"), None);
    assert_eq!(z.live_len(), 0);
}

#[test]
fn prune_session_entries_removes_both_maps() {
    let mut sids: HashMap<u64, u64> = HashMap::new();
    let mut reasms: HashMap<u64, Reassembler> = HashMap::new();
    let peer = 51000;
    sids.insert(7, peer);
    reasms.insert(7, Reassembler::new(16, 256 * 1024));
    sids.insert(9, peer); // a different flow's sid survives
    prune_session_entries(Some(7), &mut sids, &mut reasms);
    assert!(sids.get(&7).is_none());
    assert!(reasms.get(&7).is_none());
    assert!(sids.get(&9).is_some(), "unrelated sid survives");
    // None (raw carrier / no flow) is a no-op
    prune_session_entries(None, &mut sids, &mut reasms);
    assert!(sids.get(&9).is_some());
    // already-pruned sid: idempotent
    prune_session_entries(Some(7), &mut sids, &mut reasms);
    assert!(sids.get(&9).is_some());
}

#[test]
fn first_datagram_encoding() {
    let d = build_first_datagram("QUJD", "h:1", b"PAY");
    assert_eq!(&d[..16], b"TOKEN QUJD DEST ");
    assert!(d.starts_with(b"TOKEN QUJD DEST h:1\n"));
    assert_eq!(&d[d.len() - 3..], b"PAY");
    // empty payload = header-only datagram (still valid)
    let h = build_first_datagram("QUJD", "h:1", b"");
    assert!(h.ends_with(b"\n"));
}

#[test]
fn flow_liveness_boundaries() {
    let idle = 20_000;
    let now_unix = 1_800_000_000;
    let now = 5_000;
    let far_future = now_unix + 3600;
    assert!(
        udp_flow_live(far_future, now, idle, now_unix, now),
        "fresh flow live"
    );
    assert!(
        !udp_flow_live(now_unix - 1, now, idle, now_unix, now),
        "expired token dead"
    );
    assert!(
        !udp_flow_live(far_future, now, 0, now_unix, now),
        "idle-zero dead"
    );
}

#[test]
fn flows_end_with_their_session() {
    let mut f = Forwarder::new();
    assert_eq!(f.on_datagram(1, 20_000, 100, 0), Ingress::Establish);
    f.on_dialed();
    f.admit_quic(1, 7, 30, 100, 0);
    assert_eq!(
        f.on_datagram(1, 20_000, 100, 1),
        Ingress::SendQuic {
            sid: 7,
            dgram_id: 2
        }
    );
    let frames = fragment(7, 3, b"hello", 1200).unwrap();
    assert_eq!(
        f.on_frame(&frames[0], 2),
        Egress::Deliver {
            peer: 1,
            data: b"hello".to_vec()
        }
    );
    f.prune_flow(1);
    assert_eq!(f.sizes(), (0, 0, 0));
    assert_eq!(f.on_frame(&frames[0], 3), Egress::Ignored);
}

#[test]
fn raw_flows() {
    let mut f = Forwarder::new();
    f.admit_raw(4, 30, 100, 0);
    assert_eq!(f.on_datagram(4, 20_000, 100, 1), Ingress::SendRaw);
    f.on_raw_denied(4);
    assert_eq!(f.on_datagram(4, 20_000, 100, 2), Ingress::Establish);
    f.admit_raw(4, 30, 100, 0);
    f.sweep(20_000, 131, 3);
    assert_eq!(f.sizes().0, 0);
}

#[test]
fn w14_refused_downgrade_policy_matrix() {
    // old controller (field absent) — transitional heuristic applies
    assert!(refused_fallback_allowed(None));
    // controller explicitly says legacy — refused is expected
    assert!(refused_fallback_allowed(Some(false)));
    // controller PROMISED the carrier — refused is an anomaly: the
    // client must fail closed, not silently ride plaintext
    assert!(!refused_fallback_allowed(Some(true)));
}

#[test]
fn dials() {
    let mut m = TlsMemory::new();
    let auto = TransportKind::Auto;
    let s = dial_step(&mut m, "r:1", auto, None, DialPhase::Start, DialEvent::Begin);
    assert_eq!(s, (DialPhase::Probing, DialAction::ProbeQuic));
    let s = dial_step(&mut m, "r:1", auto, None, s.0, DialEvent::Failed);
    assert_eq!(s, (DialPhase::Tls, DialAction::TryTls));
    let t = dial_step(&mut m, "r:1", auto, None, s.0, DialEvent::Failed);
    assert_eq!(t, (DialPhase::Done, DialAction::FailTls));
    assert_eq!(m.tls_tcp_known("r:1"), None);
    let t = dial_step(&mut m, "r:1", auto, None, s.0, DialEvent::Refused);
    assert_eq!(
        t,
        (
            DialPhase::Plain,
            DialAction::TryPlain(PlainReason::RefusedLegacy)
        )
    );
    assert_eq!(m.tls_tcp_known("r:1"), Some(false));
    let t = dial_step(
        &mut m,
        "r:2",
        TransportKind::TlsTcp,
        Some(true),
        DialPhase::Tls,
        DialEvent::Refused,
    );
    assert_eq!(t, (DialPhase::Done, DialAction::FailClosed));
    let t = dial_step(
        &mut m,
        "r:1",
        TransportKind::TlsTcp,
        None,
        DialPhase::Start,
        DialEvent::Begin,
    );
    assert_eq!(
        t,
        (
            DialPhase::Plain,
            DialAction::TryPlain(PlainReason::CapabilityAbsent)
        )
    );
    assert_eq!(carrier_port(28443, 3), Some(28446));
    assert_eq!(carrier_port(65535, 1), None);
}

#[test]
fn read_ack_outcomes() {
    // OK
    assert_eq!(read_ack(AckRead::Bytes(*b"OK\n")), AckOutcome::Accepted);
    // Denied (authoritative)
    assert_eq!(read_ack(AckRead::Bytes(*b"NO!")), AckOutcome::Denied);
    // Timed out (silent peer)
    assert_eq!(read_ack(AckRead::TimedOut), AckOutcome::TimedOut);
    // Failed (peer closed before ack)
    assert_eq!(read_ack(AckRead::Failed), AckOutcome::Failed);
}

fn grant(n: usize) -> Event {
    Event::Allowed(Grant {
        matched_policy: Some("p".to_string()),
        ttl: Some(30),
        has_token: true,
        candidates: n,
    })
}

#[test]
fn a_connection_is_served_after_every_stage() {
    let mut s = ServeState::new();
    let (p, a) = s.step(Phase::Peer, &Event::PeerChecked(true), 100, 0);
    assert_eq!(a, Action::BuildPosture);
    let (p, a) = s.step(p, &Event::PostureBuilt, 100, 0);
    assert_eq!(a, Action::AskController);
    let (p, a) = s.step(p, &grant(2), 100, 0);
    assert_eq!(a, Action::Dial(0));
    let (p, a) = s.step(p, &Event::DialFailed, 100, 0);
    assert_eq!(a, Action::Dial(1));
    let (p, a) = s.step(p, &Event::Dialed, 100, 0);
    assert_eq!(a, Action::WriteToken);
    let (p, a) = s.step(p, &Event::Written, 100, 0);
    assert_eq!(a, Action::ReadAck);
    let (_, a) = s.step(p, &Event::Acked(AckOutcome::Accepted), 100, 0);
    assert_eq!(a, Action::Splice);
}

#[test]
fn closed_connections_have_a_reason() {
    let mut s = ServeState::new();
    let (_, a) = s.step(Phase::Peer, &Event::PeerChecked(false), 0, 0);
    assert_eq!(a, Action::Close(CloseReason::PeerDenied));
    let (_, a) = s.step(Phase::Decision, &Event::Unreachable, 0, 0);
    assert_eq!(a, Action::Close(CloseReason::FailClosed));
    let (_, a) = s.step(Phase::Decision, &grant(0), 0, 0);
    assert_eq!(a, Action::Close(CloseReason::NoGateway));
    let (_, a) = s.step(Phase::Ack, &Event::Acked(AckOutcome::Denied), 0, 0);
    assert_eq!(a, Action::Close(CloseReason::GatewayDenied));
    let (_, a) = s.step(Phase::Ack, &Event::Acked(AckOutcome::TimedOut), 0, 0);
    assert_eq!(a, Action::Close(CloseReason::AckFailed));
}

#[test]
fn gateways_and_admission() {
    let entries = vec![GatewayEntry {
        gateway_id: Some("g1".to_string()),
        relay: Some("r:1".to_string()),
        tls_tcp: Some(true),
    }];
    let c = candidates(None, &entries);
    assert_eq!((c[0].gateway_id.as_str(), c[0].relay.as_str()), ("g1", "r:1"));
    let c = candidates(Some("pin:1"), &entries);
    assert_eq!(c.len(), 1);
    assert_eq!(c[0].relay, "pin:1");
    assert_eq!(admission_line("QUJD", "h:1"), "TOKEN QUJD DEST h:1\n");
    assert!(backoff_ms(1, 0) <= backoff_ms(8, 0));
}

#[test]
fn establishment() {
    let g = UdpGrant {
        connection_token_b64: Some("QUJD".to_string()),
        ttl: None,
        first_relay: Some("10.0.0.9:28443".to_string()),
    };
    let p = plan(None, &g).unwrap();
    assert_eq!((p.port, p.udp_port, p.ttl), (28443, Some(28445), 30));
    // the carrier is dialed even where no port is left for datagrams
    let edge = plan(Some("10.0.0.9:65534"), &g).unwrap();
    assert_eq!((edge.port, edge.udp_port), (65534, None));
    let last = plan(Some("10.0.0.9:65533"), &g).unwrap();
    assert_eq!((last.port, last.udp_port), (65533, Some(65535)));
    let no_relay = UdpGrant {
        first_relay: None,
        ..g.clone()
    };
    assert_eq!(plan(None, &no_relay), Err(Finish::ErrorNoRelay));
    assert_eq!(plan(Some("r:x"), &g), Err(Finish::ErrorBadRelay));
    assert_eq!(
        step(Stage::Posture, Happened::PostureBuilt),
        (Stage::Decision, Move::AskController)
    );
    assert_eq!(
        step(Stage::Session, Happened::Session(SessionAnswer::Opened(7))),
        (Stage::Over, Move::AdmitQuic { sid: 7 })
    );
    assert_eq!(
        step(Stage::Dial, Happened::Dialed(false)),
        (Stage::RawSend, Move::SendRaw(Downgrade::DialFailed))
    );
    assert_eq!(
        step(Stage::RawAck, Happened::AnswerTimedOut),
        (Stage::Over, Move::Stop(Finish::ErrorAckTimeout))
    );
}

#[test]
fn session_replies() {
    assert_eq!(session_of("OK 7"), Some(7));
    assert_eq!(session_of("DENIED"), None);
    assert_eq!(
        session_request("QUJD", "h:1"),
        "UDPOPEN QUJD DEST h:1\n"
    );
    let mut line = Vec::new();
    assert_eq!(push_reply(&mut line, b'O'), ReplyByte::More);
    assert_eq!(push_reply(&mut line, b'\n'), ReplyByte::Whole);
    assert!(raw_answer_ok(b"OK\n"));
    assert!(!raw_answer_ok(b"DENIED\n"));
    assert!(!raw_session_ended(b"payload"));
}

#[test]
fn fragments_reassemble_in_any_order() {
    let data: Vec<u8> = (0..3000u32).map(|i| (i % 251) as u8).collect();
    let frames = fragment(5, 9, &data, 1200).unwrap();
    assert_eq!(frames.len(), 3);
    let mut r = Reassembler::new(16, 262_144);
    let at = |i: usize| decode(&frames[i]).unwrap();
    assert_eq!(r.accept(&at(2), 0), Outcome::Partial);
    assert_eq!(r.accept(&at(0), 0), Outcome::Partial);
    assert_eq!(r.accept(&at(1), 0), Outcome::Complete(data));
    assert_eq!(r.slots_len(), 0);
}

#[test]
fn a_missing_frame_means_no_delivery() {
    let data: Vec<u8> = (0..4000u32).map(|i| (i % 241) as u8).collect();
    let frames = fragment(5, 9, &data, 1200).unwrap();
    for missing in 0..frames.len() {
        let mut r = Reassembler::new(16, 262_144);
        for (i, f) in frames.iter().enumerate() {
            if i != missing {
                assert_eq!(r.accept(&decode(f).unwrap(), 0), Outcome::Partial);
            }
        }
        // a repeated frame does not stand in for it
        let again = if missing == 0 { 1 } else { 0 };
        assert!(!matches!(r.accept(&decode(&frames[again]).unwrap(), 0), Outcome::Complete(_)));
        assert!(r.buffered() < data.len());
    }
    let mut r = Reassembler::new(16, 262_144);
    let last = frames.len() - 1;
    for (i, f) in frames.iter().enumerate() {
        let out = r.accept(&decode(f).unwrap(), 0);
        assert_eq!(matches!(out, Outcome::Complete(_)), i == last);
    }
    assert_eq!((r.slots_len(), r.buffered()), (0, 0));
}

#[test]
fn frame_layout() {
    let f = Frame {
        session_id: 0x0102_0304,
        dgram_id: 0x0506,
        frag_offset: 0x0708,
        total_len: 0x090a,
        payload: b"x",
    };
    let mut out = Vec::new();
    encode(&mut out, &f);
    assert_eq!(out, vec![1, 2, 3, 4, 5, 6, 7, 8, 9, 10, b'x']);
    assert_eq!(decode(&out), Some(f));
    assert_eq!(decode(&out[..9]), None);
    assert!(fragment(1, 1, &vec![0u8; 65508], 1200).is_none());
    assert!(fragment(1, 1, b"x", 11).is_none());
}

#[test]
fn reassembly_limits() {
    let mut r = Reassembler::new(1, 262_144);
    let part = |id: u16| Frame {
        session_id: 1,
        dgram_id: id,
        frag_offset: 0,
        total_len: 10,
        payload: b"abc",
    };
    assert_eq!(r.oldest_id(), None);
    assert_eq!(r.accept(&part(1), 0), Outcome::Partial);
    assert_eq!(r.oldest_id(), Some(1));
    assert_eq!(r.accept(&part(2), 1), Outcome::Evicted);
    assert_eq!(r.oldest_id(), Some(2));
    assert_eq!(r.slots_len(), 1);
    let beyond = Frame {
        frag_offset: 9,
        ..part(3)
    };
    assert_eq!(r.accept(&beyond, 2), Outcome::Malformed);
    assert_eq!(r.reap_older(10_000, 5_000), 1);
    assert_eq!(r.buffered(), 0);
}

#[test]
fn shrunk_frames_are_sent_again_once() {
    assert_eq!(send_step(false, 0, 3, Sent::Gone), SendStep::Next);
    assert_eq!(send_step(false, 1, 3, Sent::TooLarge), SendStep::Again);
    assert_eq!(send_step(false, 2, 3, Sent::Failed), SendStep::Finished);
    assert_eq!(send_step(true, 0, 3, Sent::TooLarge), SendStep::GivenUp);
    assert_eq!(send_step(true, 2, 3, Sent::Gone), SendStep::Finished);
}
