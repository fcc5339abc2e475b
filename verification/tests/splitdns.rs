//! Split DNS: names, tags, rules and their watchdog.

use aztna_client::splitdns::channel::{
    enumerate_sync, retries, status_line, tagged_rule, InstalledRule,
};
use aztna_client::splitdns::cycle::{Cycle, CycleAction, CycleEvent};
use aztna_client::splitdns::journal::{accept, owned_namespaces, rule_is_ours, Journal, JournalEntry};
use aztna_client::splitdns::nrpt::{self, err_is_access_denied, NrptRule, Val};
use aztna_client::splitdns::punycode::punycode_encode;
use aztna_client::splitdns::reconciler::{
    heartbeat_text, lease_decision, platform_label, read_prev_heartbeat_secs, tagged,
    LeaseDecision, Reconciler, TickStats, STALENESS_SECS,
};
use aztna_client::splitdns::resolver_files::{add, err_is_denied, remove, rule_of_file, FileState, Removal};
use aztna_client::splitdns::watchdog::{
    alive_name, check_main, companion_step, count_recoveries, evidence_line, heartbeat_stale,
    recovery_note, standdown_name, task_xml, CleanReason, Session, Wake,
};
use aztna_client::splitdns::watchdog_macos;
use aztna_client::splitdns::{
    comment_for, default_mode, desired_namespaces, generation_drawn, generation_from, generation_of, is_ours,
    marker_generation, marker_line, new_generation, normalize_name, resolver_file_body,
    suffix_matches, RejectReason, SplitDnsConfig, SplitDnsMode, SuffixError,
};

#[test]
fn normalize_matrix() {
    // clean pass-through + case + one trailing dot
    assert_eq!(
        normalize_name("Corp.Example.COM.").unwrap(),
        "corp.example.com"
    );
    // rejections
    assert_eq!(normalize_name(""), Err(SuffixError::Empty));
    assert_eq!(normalize_name("  "), Err(SuffixError::Empty));
    assert_eq!(normalize_name("*.corp.com"), Err(SuffixError::Wildcard));
    assert_eq!(normalize_name(".corp.com"), Err(SuffixError::LeadingDot));
    assert_eq!(normalize_name("corp..com"), Err(SuffixError::EmptyLabel));
    assert_eq!(normalize_name("10.1.2.3"), Err(SuffixError::IpLiteral));
    assert_eq!(normalize_name("[2001:db8::1]"), Err(SuffixError::IpLiteral));
    assert_eq!(normalize_name("2001:db8::1"), Err(SuffixError::IpLiteral));
}

#[test]
fn a_normal_form_is_its_own() {
    for raw in ["Corp.Example.COM.", "Bücher.corp", "日本語.jp", "a-b.c_d"] {
        let once = normalize_name(raw).unwrap();
        assert!(once.is_ascii());
        assert_eq!(normalize_name(&once), Ok(once.clone()));
    }
}

#[test]
fn labels_encode_apart() {
    let labels = ["bücher", "bucher", "büchér", "ü", "üü", "日本語", "日本", "a-ü", "aü-", ""];
    for (i, a) in labels.iter().enumerate() {
        for b in &labels[i + 1..] {
            assert_ne!(punycode_encode(a).unwrap(), punycode_encode(b).unwrap());
        }
    }
}

#[test]
fn normalize_idn_to_alabels() {
    // RFC 3492 vectors (the xn-- prefix is added per label)
    assert_eq!(normalize_name("Bücher.corp").unwrap(), "xn--bcher-kva.corp");
    assert_eq!(normalize_name("münchen.de").unwrap(), "xn--mnchen-3ya.de");
    assert_eq!(normalize_name("日本語.jp").unwrap(), "xn--wgv71a119e.jp");
}

#[test]
fn labels_encode() {
    assert_eq!(punycode_encode("bücher").as_deref(), Some("bcher-kva"));
    assert_eq!(punycode_encode("ü").as_deref(), Some("tda"));
    assert_eq!(
        punycode_encode("ليهمابتكلموشعربي؟").as_deref(),
        Some("egbpdaj6bu4bxfgehfvwxn")
    );
}

#[test]
fn suffix_matching_is_label_aligned() {
    assert!(suffix_matches("erp.corp.example.com", "corp.example.com"));
    assert!(suffix_matches("corp.example.com", "corp.example.com"));
    assert!(!suffix_matches("notcorp.example.com", "corp.example.com"));
    assert!(!suffix_matches(
        "corp.example.com.evil.net",
        "corp.example.com"
    ));
}

#[test]
fn desired_set_respects_allowlist() {
    let zones = vec![
        "erp.corp.example.com".to_string(),
        "ERP.CORP.EXAMPLE.COM.".to_string(), // dup after normalization
        "api.erp.corp.example.com".to_string(),
        "stray.example.com".to_string(), // well-formed, not allowlisted
        "bad..name".to_string(),         // malformed
    ];
    let allow = vec!["Corp.Example.COM".to_string()];
    let (desired, rejected) = desired_namespaces(&zones, &allow);
    assert_eq!(
        desired,
        vec![
            "api.erp.corp.example.com".to_string(),
            "erp.corp.example.com".to_string()
        ]
    );
    assert_eq!(rejected.len(), 2);
    assert!(rejected.contains(&(
        "stray.example.com".to_string(),
        RejectReason::NotAllowlisted
    )));
    assert!(rejected.contains(&("bad..name".to_string(), RejectReason::InvalidSuffix)));
}

#[test]
fn empty_allowlist_desires_nothing() {
    let (desired, rejected) = desired_namespaces(&vec!["erp.corp".to_string()], &vec![]);
    assert!(desired.is_empty());
    assert_eq!(rejected.len(), 1);
}

#[test]
fn tag_roundtrip() {
    let gen = new_generation(1).unwrap();
    let c = comment_for(&gen);
    assert!(is_ours(&c));
    assert_eq!(generation_of(&c).as_deref(), Some(gen.as_str()));
    assert!(!is_ours(""));
    assert!(!is_ours("aztna:w43-probe-legacy"));
    assert_eq!(generation_of("some admin rule"), None);
}

#[test]
fn marker_roundtrip_and_foreign_detection() {
    let gen = new_generation(1).unwrap();
    let m = marker_line(&gen);
    assert_eq!(m, format!("# aztna:w43:{gen} managed"));
    assert_eq!(marker_generation(&m).as_deref(), Some(gen.as_str()));
    // a foreign file's first line carries no generation — the conflict
    // signal; the channel must never touch it
    assert_eq!(marker_generation("# some admin tool managed"), None);
    assert_eq!(marker_generation("nameserver 10.0.0.1"), None);
    assert_eq!(marker_generation(""), None);
    // the body is exactly marker + our loopback responder
    assert_eq!(
        resolver_file_body(&gen),
        format!("{m}\nnameserver 127.0.0.1\n")
    );
}

#[test]
fn generation_is_unique() {
    assert_ne!(new_generation(1).unwrap(), new_generation(1).unwrap());
    assert_eq!(
        generation_from([1, 2, 3, 4, 5, 6, 7, 255], 26),
        "01020304050607ff-000000000000001a"
    );
    assert_eq!(generation_drawn(None, 26), None);
    assert_eq!(
        generation_drawn(Some([1, 2, 3, 4, 5, 6, 7, 255]), 26).as_deref(),
        Some("01020304050607ff-000000000000001a")
    );
}

#[test]
fn access_denied_detector() {
    let e = "ExecMethod(Add): Error { code: HRESULT(0x80041003) }";
    assert!(err_is_access_denied(e));
    let e2 = "some other failure 0x80041005";
    assert!(!err_is_access_denied(e2));
}

#[test]
fn lease_decision_matrix() {
    let d = |stale, clear_hold| LeaseDecision { stale, clear_hold };
    // first cycle: nothing to compare — not stale, hold untouched
    assert_eq!(lease_decision(None, true, false), d(false, false));
    // fresh lease, no hold
    assert_eq!(lease_decision(Some(5), true, false), d(false, false));
    // stale engages (compare before the new write)
    assert_eq!(lease_decision(Some(30), true, false), d(true, false));
    // hold lifts only on a FULLY healthy cycle: stale ⇒ stays held ...
    assert_eq!(lease_decision(Some(30), true, true), d(true, false));
    // ... fresh but fetch failed ⇒ not fully healthy ...
    assert_eq!(lease_decision(Some(5), false, true), d(false, false));
    // ... fresh + fetch ok ⇒ lift
    assert_eq!(lease_decision(Some(5), true, true), d(false, true));
    // boundary: exactly the threshold is NOT stale (> is)
    assert!(!lease_decision(Some(STALENESS_SECS), true, false).stale);
    assert!(lease_decision(Some(STALENESS_SECS + 1), true, false).stale);
}

#[test]
fn journal_roundtrip_unknown_schema_and_ownership() {
    let j = Journal {
        schema: 1,
        generation: "gen-abc".to_string(),
        installed: vec![
            JournalEntry {
                namespace: "erp.corp".to_string(),
                guid: "{1111}".to_string(),
            },
            JournalEntry {
                namespace: "api.erp.corp".to_string(),
                guid: "{2222}".to_string(),
            },
        ],
    };
    let back = accept(Some(j)).unwrap();
    assert_eq!(
        owned_namespaces(&back),
        vec!["erp.corp".to_string(), "api.erp.corp".to_string()]
    );
    // an unknown future schema is ignored
    let future = Journal {
        schema: 99,
        generation: "x".to_string(),
        installed: vec![],
    };
    assert!(accept(Some(future)).is_none());
    assert!(rule_is_ours("aztna:w43:gen-1"));
    assert!(!rule_is_ours("admin's own rule"));
    assert!(!rule_is_ours(""));
}

fn rule(ns: &str, id: &str, generation: Option<&str>) -> InstalledRule {
    InstalledRule {
        namespace: ns.to_string(),
        id: id.to_string(),
        generation: generation.map(|g| g.to_string()),
    }
}

fn reconciler() -> Reconciler {
    Reconciler::new(
        SplitDnsConfig {
            mode: SplitDnsMode::Auto,
            suffix_allowlist: vec!["corp".to_string()],
        },
        true,
        "g1".to_string(),
    )
}

#[test]
fn a_cycle_converges() {
    let mut r = reconciler();
    assert!(r.active());
    r.begin(None, true, "g2".to_string());
    let ground = vec![
        rule("old.corp", "{1}", Some("g0")),
        rule("web.corp", "{2}", None),
        rule("admin.net", "{3}", None),
    ];
    let names = vec!["erp.corp".to_string(), "web.corp".to_string()];
    let p = r.plan(&ground, &names);
    assert_eq!(p.desired, vec!["erp.corp".to_string()]);
    assert_eq!(p.conflicts, vec!["web.corp".to_string()]);
    assert_eq!(p.removals, vec![0]);
    r.removed(&"old.corp".to_string());
    assert_eq!(r.installs(&p.desired), vec!["erp.corp".to_string()]);
    let fresh = vec![rule("erp.corp", "{4}", Some("g1"))];
    r.refresh(&fresh);
    assert_eq!(r.rules_active(), 1);
    let j = r.journal();
    assert_eq!(j.installed[0].guid, "{4}");
    assert!(r.installs(&p.desired).is_empty());
    assert_eq!(tagged(&ground), vec![0]);
    r.clear();
    assert_eq!(r.rules_active(), 0);
}

#[test]
fn a_stale_lease_holds_installs() {
    let mut r = reconciler();
    let d = r.begin(Some(60), true, "g2".to_string());
    assert!(d.stale);
    assert_eq!(r.generation(), "g2");
    assert!(r.installs(&vec!["erp.corp".to_string()]).is_empty());
    r.begin(Some(5), true, "g3".to_string());
    assert_eq!(r.installs(&vec!["erp.corp".to_string()]).len(), 1);
}

#[test]
fn a_session_ends_with_every_tagged_rule_removed() {
    let ground = Some(vec![
        rule("old.corp", "{1}", Some("g0")),
        rule("admin.net", "{2}", None),
        rule("erp.corp", "{3}", Some("g1")),
    ]);
    let mut r = reconciler();
    r.refresh(ground.as_ref().unwrap());
    let (places, journal) = r.shutdown(&ground, "g9".to_string()).unwrap();
    assert_eq!(places, vec![0, 2]);
    assert_eq!((journal.schema, journal.generation.as_str()), (1, "g9"));
    assert!(journal.installed.is_empty());
    assert_eq!(r.rules_active(), 0);
    // rules that could not be looked at stay
    let (places, journal) = r.shutdown(&None, "g9".to_string()).unwrap();
    assert!(places.is_empty() && journal.installed.is_empty());
    // one that was turned off does nothing
    r.deactivate();
    assert!(r.shutdown(&ground, "g9".to_string()).is_none());
}

#[test]
fn a_reconciler_turned_off_starts_no_cycle() {
    let mut r = reconciler();
    r.deactivate();
    assert!(Cycle::start(&mut r, Some(60), true, "g2".to_string()).is_none());
    assert!(Cycle::start(&mut r, None, true, "g2".to_string()).is_none());
    assert_eq!(r.generation(), "g1");
}

#[test]
fn a_hold_lasts_until_a_healthy_cycle() {
    let mut r = reconciler();
    let names = vec!["erp.corp".to_string()];
    r.begin(Some(60), true, "g2".to_string());
    r.begin(Some(5), false, "g3".to_string());
    assert!(r.on_hold());
    assert!(r.installs(&names).is_empty());
    assert_eq!(r.generation(), "g2");
    r.begin(Some(5), true, "g4".to_string());
    assert!(!r.on_hold());
    assert_eq!(r.installs(&names).len(), 1);
}

#[test]
fn a_new_generation_replaces_every_rule() {
    let mut r = reconciler();
    r.begin(Some(60), true, "g2".to_string());
    let ground = vec![rule("erp.corp", "{1}", Some("g1")), rule("web.corp", "{2}", Some("g2"))];
    let names = vec!["erp.corp".to_string(), "web.corp".to_string()];
    assert_eq!(r.plan(&ground, &names).removals, vec![0]);
}

#[test]
fn a_normal_name_is_its_own_normal_form() {
    for raw in ["Corp.Example.COM.", "b\u{fc}cher.example", "a-b.c"] {
        let once = normalize_name(raw).unwrap();
        assert_eq!(normalize_name(&once).unwrap(), once);
        assert!(once.is_ascii());
    }
}

#[test]
fn allowlist_problems_come_once_and_in_order() {
    let list = ["*.corp", "corp", "", "10.0.0.1"].map(str::to_string).to_vec();
    let cfg = SplitDnsConfig { mode: SplitDnsMode::Auto, suffix_allowlist: list };
    let r = Reconciler::new(cfg, true, "g1".to_string());
    assert_eq!(
        r.config_problems(),
        vec![(0, SuffixError::Wildcard), (2, SuffixError::Empty), (3, SuffixError::IpLiteral)]
    );
}

#[test]
fn cycle_figures() {
    let s = TickStats {
        installed: 1,
        removed: 0,
        conflicts: vec!["a.corp".to_string(), "b.corp".to_string()],
        rejected_invalid: 0,
        rejected_not_allowlisted: 3,
        errors: 1,
    };
    assert_eq!(
        s.counts(),
        vec![
            ("conflict", "conflict"),
            ("install", "ok"),
            ("install", "error")
        ]
    );
    assert!(s.rereads(false));
    assert!(!s.rereads(true));
}

#[test]
fn heartbeats() {
    let t = heartbeat_text(5_000_000);
    assert_eq!(
        read_prev_heartbeat_secs(&Some(t.clone()), 35_000_000),
        Some(30)
    );
    assert_eq!(read_prev_heartbeat_secs(&None, 35_000_000), None);
    assert!(heartbeat_stale(&Some(t.clone()), Some(35_000_000)));
    assert!(!heartbeat_stale(&Some(t), Some(6_000_000)));
}

#[test]
fn resolver_files_belong_to_their_writer() {
    let body = add(&FileState::Absent, "g1").unwrap();
    let r = rule_of_file("erp.corp", &Some(body.clone())).unwrap();
    assert_eq!(r.generation.as_deref(), Some("g1"));
    let foreign = FileState::Present(Some("nameserver 10.0.0.1\n".to_string()));
    assert!(add(&foreign, "g1").is_none());
    assert!(matches!(remove(&foreign), Removal::Refuse));
    assert!(matches!(
        remove(&FileState::Present(Some(body))),
        Removal::Delete
    ));
    assert!(matches!(remove(&FileState::Absent), Removal::Done));
    assert!(err_is_denied("Permission denied (os error 13)"));
}

#[test]
fn rules_and_platforms() {
    let r = tagged_rule("erp.corp".to_string(), "aztna:w43:g1", "{1}".to_string());
    assert_eq!(
        status_line(&r),
        "{\"namespace\":\"erp.corp\",\"id\":\"{1}\",\"ours\":true,\"generation\":\"g1\"}"
    );
    assert!(retries(0));
    assert!(!retries(9));
    assert_eq!(platform_label(false, true), "linux");
    assert_eq!(default_mode(true), SplitDnsMode::Auto);
}

#[test]
fn watchdog_steps() {
    assert_eq!(
        companion_step(Wake::Abandoned, false).clean,
        Some(CleanReason::CompanionDeath)
    );
    assert_eq!(companion_step(Wake::StandDown, true).clean, None);
    assert_eq!(
        companion_step(Wake::Timeout, true).clean,
        Some(CleanReason::CompanionHang)
    );
    assert_eq!(check_main(false, Session::Dead, true), None);
    assert_eq!(
        check_main(true, Session::Dead, false),
        Some(CleanReason::TaskMutexDead)
    );
    assert_eq!(
        check_main(true, Session::Held, true),
        Some(CleanReason::TaskHang)
    );
    assert_eq!(check_main(true, Session::Held, false), None);
    assert_ne!(alive_name("g"), standdown_name("g"));
}

#[test]
fn watchdog_evidence() {
    let log = format!(
        "{}noise\n{}",
        evidence_line(1, "companion_death", 2),
        evidence_line(2, "task_hang", 1)
    );
    assert_eq!(count_recoveries(&Some(log)), 2);
    assert_eq!(count_recoveries(&None), 0);
    assert_eq!(recovery_note("x", 0), None);
    assert_eq!(recovery_note("x", 3).as_deref(), Some("source=x rules=3"));
}

#[test]
fn watchdog_definitions() {
    let xml = task_xml("C:\\p\\glmsvc.exe");
    assert_eq!(&xml[..2], &[0xFF, 0xFE], "UTF-16 with a byte order mark");
    let plist = watchdog_macos::plist_xml("/opt/glmsvc", "/var/db/aztna");
    assert!(plist.contains("/opt/glmsvc") && plist.contains("/var/db/aztna"));
    assert!(plist.contains("com.aztna.splitdns.watchdog"));
}

#[test]
fn a_cycle_goes_call_by_call() {
    let mut r = reconciler();
    let names = ["erp.corp", "web.corp", "erp.other", "*.corp"].map(str::to_string).to_vec();
    let (mut c, lease) = Cycle::start(&mut r, None, true, "g2".to_string()).unwrap();
    assert!(!lease.stale);
    let ground = vec![
        rule("web.corp", "{1}", None),
        rule("old.corp", "{2}", Some("g0")),
        rule("older.corp", "{3}", Some("g0")),
    ];
    assert_eq!(c.step(&mut r, CycleEvent::Seen(ground), &names), CycleAction::Remove(1));
    assert_eq!(c.conflicts(), &vec!["web.corp".to_string()]);
    assert_eq!(c.rule(1).unwrap().id, "{2}");
    assert_eq!(c.step(&mut r, CycleEvent::Done, &names), CycleAction::Remove(2));
    assert_eq!(c.step(&mut r, CycleEvent::Failed, &names), CycleAction::Install(0));
    assert_eq!(c.name(0).unwrap(), "erp.corp");
    assert!(c.name(1).is_none());
    assert_eq!(c.step(&mut r, CycleEvent::Done, &names), CycleAction::LookAgain);
    let fresh = vec![rule("erp.corp", "{4}", Some("g1"))];
    assert_eq!(c.step(&mut r, CycleEvent::Seen(fresh), &names), CycleAction::Finish);
    assert_eq!(r.rules_active(), 1);
    let s = c.stats();
    assert_eq!((s.installed, s.removed, s.errors), (1, 1, 1));
    assert_eq!(s.conflicts, vec!["web.corp".to_string()]);
    assert_eq!((s.rejected_invalid, s.rejected_not_allowlisted), (1, 1));
    // over is over
    assert_eq!(c.step(&mut r, CycleEvent::Done, &names), CycleAction::Ignore);
}

#[test]
fn a_held_cycle_only_removes() {
    let mut r = reconciler();
    let names = vec!["erp.corp".to_string()];
    let (mut c, lease) = Cycle::start(&mut r, Some(60), true, "g2".to_string()).unwrap();
    assert!(lease.stale);
    let ground = vec![rule("erp.corp", "{1}", Some("g1"))];
    assert_eq!(c.step(&mut r, CycleEvent::Seen(ground), &names), CycleAction::Remove(0));
    assert_eq!(c.step(&mut r, CycleEvent::Done, &names), CycleAction::Finish);
    assert_eq!(r.rules_active(), 0);
}

#[test]
fn a_cycle_that_sees_nothing_only_beats() {
    let mut r = reconciler();
    let (mut c, _) = Cycle::start(&mut r, None, true, "g2".to_string()).unwrap();
    assert_eq!(c.step(&mut r, CycleEvent::Unseen, &vec![]), CycleAction::Beat);
    r.deactivate();
    assert!(Cycle::start(&mut r, None, true, "g2".to_string()).is_none());
}

#[test]
fn windows_rules() {
    let rules = vec![
        NrptRule {
            namespace: "erp.corp".to_string(),
            comment: "aztna:w43:g7".to_string(),
            guid: "{1}".to_string(),
        },
        NrptRule {
            namespace: "admin.net".to_string(),
            comment: "".to_string(),
            guid: "{2}".to_string(),
        },
    ];
    let seen = enumerate_sync(&rules);
    assert_eq!(seen.len(), 2);
    assert_eq!(seen[0].generation.as_deref(), Some("g7"));
    assert_eq!(seen[0].id, "{1}");
    assert!(seen[1].generation.is_none());
    let params = nrpt::add("erp.corp", "aztna:w43:g7");
    assert_eq!(params.len(), 3);
    assert_eq!(params[1].0, "NameServers");
    assert!(matches!(&params[1].1, Val::StrArray(v) if v == &vec!["127.0.0.1".to_string()]));
    assert!(matches!(&params[2].1, Val::Str(s) if s == "aztna:w43:g7"));
    let params = nrpt::remove("{1}");
    assert_eq!(params.len(), 1);
    assert!(matches!(&params[0].1, Val::Str(s) if s == "{1}"));
}
