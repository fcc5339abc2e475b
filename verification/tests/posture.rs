//! Posture: what is collected, probed and reported.

use aztna_client::calendar::{date_to_unix, iso_date_to_unix};
use aztna_client::hex::{seed_from_hex, HexError};
use aztna_client::posture::{
    canonical_text, hash_of_report, posture_values_hash, report_url, report_values,
    signed_posture_from, spec_changed, Built, FullAnswer, KeyCache, Push, ReportFields, Reporter,
};
use aztna_client::posture_collector::linux::{
    disk_crypto_from, domain_joined, firewall_from, os_build_from, root_mount_source,
};
use aztna_client::posture_collector::macos::{
    enrollment_from, fdesetup_from, firewall_macos_from, newest_update_receipt_unix, swvers_field,
};
use aztna_client::posture_collector::windows::{
    bitlocker, defender, firewall, install_date, patch_age_days, Antivirus,
};
use aztna_client::posture_collector::{
    linux, macos, patch_age_from, windows, Collector, Refresh, Snapshot, Wait, CLIENT_VERSION,
    TTL_SECS,
};
use aztna_client::posture_probes::{
    env_names, expand_env, probe_for, probe_value, registry_value, result_class, signal_env_names,
    split_hive, wql_quote, Hive, Probe, ProbeRun, Probes, PostureSpec, Reading, SignalSpec,
};
use base64::Engine;
use sha2::Digest;

#[test]
fn os_release_parsing() {
    let rel = "NAME=\"Ubuntu\"\nPRETTY_NAME=\"Ubuntu 24.04 LTS\"\nVERSION_ID=\"24.04\"\n";
    let (name, kr) = os_build_from(rel, "6.8.0-1014-azure\n").expect("parses");
    assert_eq!(name, "Ubuntu 24.04 LTS");
    assert_eq!(kr, "6.8.0-1014-azure");
    // PRETTY_NAME absent -> NAME fallback; empty kernel -> None
    assert_eq!(
        os_build_from("NAME=\"Rocky Linux\"\n", "6.18.0\n")
            .unwrap()
            .0,
        "Rocky Linux"
    );
    assert!(os_build_from("PRETTY_NAME=\"X\"\n", "  ").is_none());
    assert!(os_build_from("", "6.1\n").is_none());
}

#[test]
fn patch_age_math_including_clock_skew() {
    assert_eq!(patch_age_from(1_800_000_000, 1_800_000_000), 0);
    assert_eq!(patch_age_from(1_800_086_400, 1_800_000_000), 1);
    // future mtime (skew) clamps to 0, never negative
    assert_eq!(patch_age_from(1_800_000_000, 1_800_100_000), 0);
}

#[test]
fn firewall_service_parsing() {
    assert_eq!(firewall_from("active\ninactive\nactive\n"), Some(true));
    assert_eq!(firewall_from("inactive\ninactive\n"), Some(false));
    assert_eq!(firewall_from("failed\ninactive\n"), Some(false));
    assert_eq!(firewall_from("active\n"), Some(true));
    assert_eq!(firewall_from(""), None);
    assert_eq!(firewall_from("\n \n"), None);
}

#[test]
fn root_mount_and_crypto_chain_parsing() {
    let mounts = "/dev/mapper/root--vg-root / ext4 rw 0 0\nproc /proc proc defaults 0 0\n/dev/sda1 /boot ext4 rw 0 0\n";
    assert_eq!(
        root_mount_source(mounts).as_deref(),
        Some("/dev/mapper/root--vg-root")
    );
    // LUKS chain: crypt anywhere in the lsblk output
    assert_eq!(disk_crypto_from("crypt\npart\ndisk\n"), Some(true));
    // plain LVM, no crypt
    assert_eq!(disk_crypto_from("lvm\npart\ndisk\n"), Some(false));
    assert_eq!(disk_crypto_from("part\ndisk\n"), Some(false));
    assert_eq!(disk_crypto_from(""), None);
    // container-ish roots are undeterminable
    assert_eq!(root_mount_source("overlay / overlay rw 0 0\n"), None);
    assert_eq!(root_mount_source("rootfs / rootfs rw 0 0\n"), None);
    assert_eq!(root_mount_source("proc /proc proc defaults 0 0\n"), None);
}

#[test]
fn live_collect_os_and_patch_age() {
    let s = linux::collect(&linux::Readings {
        os_release: Some("PRETTY_NAME=\"Ubuntu 24.04 LTS\"\n".to_string()),
        kernel_release: Some("6.8.0\n".to_string()),
        package_db_mtime: Some(1_800_000_000),
        now_unix: 1_800_172_800,
        firewall_units: None,
        mounts: None,
        root_types: None,
        sssd_configured: false,
        realm_listing: None,
    });
    let os = s.os_version.expect("os_release+kernel read must work");
    assert!(
        os.contains("kernel"),
        "formatted like '<name> (kernel x)': {os}"
    );
    assert_eq!(os, "Ubuntu 24.04 LTS (kernel 6.8.0)");
    assert!(s.days_since_patch.is_some());
    assert_eq!(s.days_since_patch, Some(2));
    assert_eq!(s.defender_healthy, None);
}

#[test]
fn domain_membership() {
    assert_eq!(domain_joined(true, &None), Some(true));
    assert_eq!(domain_joined(false, &None), None);
    assert_eq!(domain_joined(false, &Some(" \n".to_string())), Some(false));
    assert_eq!(
        domain_joined(false, &Some("corp.example\n".to_string())),
        Some(true)
    );
}

#[test]
fn date_math() {
    let t = date_to_unix(2026, 8, 28).unwrap();
    assert!(
        t > 1_700_000_000 && t < 1_900_000_000,
        "2026 epoch sanity: {t}"
    );
    assert_eq!(date_to_unix(1970, 1, 1), Some(0));
    assert_eq!(t, 20_693 * 86_400);
}

#[test]
fn real_os_build_collected() {
    let s = windows::collect(&windows::Readings {
        os: Some(("Microsoft Windows 11 Pro".to_string(), "26200".to_string())),
        installed_on: None,
        now_unix: 0,
        firewall_profiles: None,
        protection_status: None,
        antivirus: None,
    });
    let os = s.os_version.expect("the operating system was read");
    assert!(os.contains("build"), "os_version carries the build: {os}");
    assert!(os.contains("26200"));
}

#[test]
fn windows_signals() {
    assert_eq!(bitlocker(Some(1)), Some(true));
    assert_eq!(bitlocker(Some(0)), Some(false));
    assert_eq!(bitlocker(None), None);
    assert_eq!(firewall(&vec![true, false]), Some(false));
    assert_eq!(firewall(&vec![true, true]), Some(true));
    assert_eq!(firewall(&vec![]), None);
    assert_eq!(install_date(&Some("20260828000000.000000+060".to_string())), date_to_unix(2026, 8, 28));
    assert_eq!(install_date(&Some("soon".to_string())), None);
    let age = patch_age_days(
        &vec![Some("20260801".to_string()), Some("20260828".to_string()), None],
        date_to_unix(2026, 8, 30).unwrap(),
    );
    assert_eq!(age, Some(2));
    assert_eq!(defender(&vec![]), None);
    let av = |name: &str, state: u32| Antivirus {
        display_name: name.to_string(),
        product_state: state,
    };
    assert_eq!(defender(&vec![av("Windows Defender", 0x61100)]), Some(true));
    assert_eq!(defender(&vec![av("Windows Defender", 0x60100)]), Some(false));
}

#[test]
fn client_version_present() {
    assert!(!CLIENT_VERSION.is_empty());
}

#[test]
fn slot_class_semantics() {
    let mut s = Snapshot::unknown();
    assert_eq!(s.slot_class(), "empty");
    s.slot_age_secs = Some(0);
    assert_eq!(s.slot_class(), "fresh");
    s.slot_age_secs = Some(TTL_SECS as i64 - 1);
    assert_eq!(s.slot_class(), "fresh");
    s.slot_age_secs = Some(TTL_SECS as i64);
    assert_eq!(s.slot_class(), "stale");
}

fn planted() -> Snapshot {
    Snapshot {
        bitlocker_on: Some(true),
        defender_healthy: Some(true),
        firewall_enabled: Some(true),
        os_version: Some("planted (build 0)".to_string()),
        days_since_patch: Some(1),
        domain_joined: None,
        slot_age_secs: Some(0),
    }
}

#[test]
fn stale_slot_served_without_blocking() {
    let mut c = Collector::new();
    assert_eq!(c.kick_refresh(1_000), Refresh::Start);
    assert!(!c.worker_done(1_000, Some(planted())));
    let later = 1_000 + (TTL_SECS + 5) * 1_000;
    let s = c.collect_cached(later);
    assert_eq!(s.os_version.as_deref(), Some("planted (build 0)"));
    assert_eq!(s.slot_class(), "stale");
    assert_eq!(c.kick_refresh(later), Refresh::Start);
}

#[test]
fn worker_supersede_semantics() {
    let mut c = Collector::new();
    let t0 = 100_000;
    assert_eq!(c.kick_refresh(t0), Refresh::Start);
    // fresh worker: a second kick must not replace it
    assert_eq!(c.kick_refresh(t0 + 1), Refresh::Idle);
    // wedged worker (past the deadline): orphaned, counted, replaced
    assert_eq!(c.kick_refresh(t0 + 20_000), Refresh::Replace);
    assert_eq!(c.kick_refresh(t0 + 20_001), Refresh::Idle);
}

#[test]
fn panicking_worker_counts_failure_and_unblocks() {
    let mut c = Collector::new();
    assert_eq!(c.kick_refresh(0), Refresh::Start);
    assert!(c.worker_done(10, None), "a failure is counted");
    assert_eq!(c.kick_refresh(11), Refresh::Start);
}

#[test]
fn bounded_wait_for_fresh_findings() {
    let mut c = Collector::new();
    assert!(matches!(c.collect_fresh_bounded(0, 100), Wait::Again));
    assert!(matches!(c.collect_fresh_bounded(100, 100), Wait::TimedOut(_)));
    c.worker_done(50, Some(planted()));
    assert!(matches!(c.collect_fresh_bounded(60, 100), Wait::Ready(_)));
}

const INSTALL_HISTORY: &str = "<?xml version=\"1.0\" encoding=\"UTF-8\"?>\n<!DOCTYPE plist PUBLIC \"-//Apple//DTD PLIST 1.0//EN\" \"http://www.apple.com/DTDs/PropertyList-1.0.dtd\">\n<plist version=\"1.0\">\n<array>\n\t<dict>\n\t\t<key>date</key>\n\t\t<date>2025-11-02T09:14:03Z</date>\n\t\t<key>displayName</key>\n\t\t<string>XProtect Plist Data Service</string>\n\t\t<key>packageIdentifiers</key>\n\t\t<array>\n\t\t\t<string>com.apple.pkg.XProtectPlistDataService</string>\n\t\t</array>\n\t</dict>\n\t<dict>\n\t\t<key>date</key>\n\t\t<date>2026-01-15T14:32:11Z</date>\n\t\t<key>displayName</key>\n\t\t<string>macOS Sonoma 15.7.9 Update</string>\n\t\t<key>packageIdentifiers</key>\n\t\t<array>\n\t\t\t<string>com.apple.pkg.update.os.15.7.9</string>\n\t\t</array>\n\t</dict>\n\t<dict>\n\t\t<key>date</key>\n\t\t<date>2026-02-20T08:00:00Z</date>\n\t\t<key>displayName</key>\n\t\t<string>SomeApp</string>\n\t\t<key>packageIdentifiers</key>\n\t\t<array>\n\t\t\t<string>com.somecorp.pkg.app</string>\n\t\t</array>\n\t</dict>\n</array>\n</plist>";

#[test]
fn newest_update_receipt_ignores_non_updates() {
    // 2026-01-15 is the ONLY update-class receipt; 2026-02-20 (app)
    // and 2025-11-02 (XProtect, not pkg.update) must not win
    let unix = newest_update_receipt_unix(INSTALL_HISTORY).unwrap();
    // 2026-01-15 = day 20468 (2026-01-01 = 20454 + 14)
    assert_eq!(unix, 20_468 * 86_400);
}

#[test]
fn corrupt_or_missing_receipts_are_none() {
    assert_eq!(newest_update_receipt_unix(""), None);
    assert_eq!(newest_update_receipt_unix("not a plist"), None);
    // update-class dict WITHOUT a parseable date = skipped
    assert_eq!(
        newest_update_receipt_unix(
            "<dict><key>packageIdentifiers</key><array><string>com.apple.pkg.update.x</string></array><key>date</key><date>garbage</date></dict>"
        ),
        None
    );
}

#[test]
fn iso_date_math() {
    assert_eq!(iso_date_to_unix("1970-01-01T00:00:00Z"), Some(0));
    assert_eq!(
        iso_date_to_unix("2026-01-15T14:32:11Z"),
        Some(20_468 * 86_400)
    );
    // leap year + month boundaries
    assert_eq!(
        iso_date_to_unix("2024-02-29T00:00:00Z"),
        Some(19_782 * 86_400)
    );
    // 2000-01-01 = day 10957; leap year -> +60 days to Mar 1 = 11017
    assert_eq!(
        iso_date_to_unix("2000-03-01T00:00:00Z"),
        Some(11_017 * 86_400)
    );
    // rejects malformed
    assert_eq!(iso_date_to_unix("20260115"), None);
    assert_eq!(iso_date_to_unix("2026-13-01T00:00:00Z"), None);
    assert_eq!(iso_date_to_unix("2026-+1-01T00:00:00Z"), None);
    assert_eq!(iso_date_to_unix("-026-01-01T00:00:00Z"), None);
}

#[test]
fn fdesetup_parsing() {
    assert_eq!(fdesetup_from("FileVault is On.\n"), Some(true));
    assert_eq!(fdesetup_from("FileVault is Off.\n"), Some(false));
    assert_eq!(fdesetup_from("FileVault is Deferred.\n"), Some(false));
    assert_eq!(fdesetup_from("something else"), None);
}

#[test]
fn firewall_state_parsing() {
    assert_eq!(
        firewall_macos_from("Firewall is enabled. (State = 1)\n"),
        Some(true)
    );
    assert_eq!(
        firewall_macos_from("Firewall is disabled. (State = 0)\n"),
        Some(false)
    );
    assert_eq!(firewall_macos_from("unknown"), None);
}

#[test]
fn enrollment_parsing() {
    assert_eq!(
        enrollment_from("Enrolled via DEP: Yes\nProfiles Status: ...\n"),
        Some(true)
    );
    assert_eq!(enrollment_from("Enrolled via DEP: No\n"), Some(false));
    assert_eq!(enrollment_from("Not Enrolled\n"), Some(false));
    assert_eq!(enrollment_from("mystery"), None);
}

#[test]
fn swvers_parsing() {
    let out = "ProductName:\tmacOS\nProductVersion:\t15.7.9\nBuildVersion:\t24G830\n";
    assert_eq!(swvers_field(out, "ProductName").as_deref(), Some("macOS"));
    assert_eq!(
        swvers_field(out, "ProductVersion").as_deref(),
        Some("15.7.9")
    );
    assert_eq!(swvers_field(out, "BuildVersion").as_deref(), Some("24G830"));
    assert_eq!(swvers_field(out, "Missing"), None);
}

#[test]
fn live_collectors_report_shapes() {
    let s = macos::collect(&macos::Readings {
        swvers: Some("ProductName:\tmacOS\nProductVersion:\t15.7.9\nBuildVersion:\t24G830\n".to_string()),
        kernel_build: Some("24G830\n".to_string()),
        install_history: None,
        now_unix: 0,
        firewall_state: Some("Firewall is enabled. (State = 1)\n".to_string()),
        fdesetup: Some("FileVault is Off.\n".to_string()),
        enrollment: None,
    });
    let os = s.os_version.expect("os_version on a real Mac");
    assert!(os.contains("macOS"), "unexpected os_version: {os}");
    assert!(os.contains("(build "), "unexpected os_version: {os}");
    assert!(s.bitlocker_on.is_some(), "fdesetup must answer on macOS");
    assert!(
        s.firewall_enabled.is_some(),
        "socketfilterfw must answer on macOS"
    );
    assert_eq!(s.defender_healthy, None);
}

fn env() -> Vec<(String, String)> {
    vec![("AZTNA_PROBE_TEST".to_string(), "C:\\x".to_string())]
}

#[test]
fn env_expansion() {
    assert_eq!(
        expand_env("%AZTNA_PROBE_TEST%\\a.txt", &env()).unwrap(),
        "C:\\x\\a.txt"
    );
    assert_eq!(expand_env("plain\\path", &env()).unwrap(), "plain\\path");
    assert!(
        expand_env("%NO_SUCH_VAR_ZZZ%\\a", &env()).is_none(),
        "unset var -> unknown"
    );
    assert!(
        expand_env("%AZTNA_PROBE_TEST", &env()).is_none(),
        "unclosed var"
    );
}

fn signal(id: &str, family: &str, params: &[(&str, &str)]) -> SignalSpec {
    SignalSpec {
        id: id.to_string(),
        family: family.to_string(),
        params: params
            .iter()
            .map(|(k, v)| (k.to_string(), v.to_string()))
            .collect(),
        required: false,
    }
}

/// Probes every signal; no file exists and no other reading can be had.
fn run(probes: &Probes) -> ProbeRun {
    let spec = probes.current_spec().unwrap();
    let mut run = ProbeRun::new(spec);
    while let Some(i) = run.next_signal(spec, 0) {
        let probe = probe_for(&spec.signals[i], &env(), false);
        let reading = match probe {
            Probe::File(_) => Reading::Exists(false),
            _ => Reading::Failed,
        };
        run.record(spec, probe_value(&probe, &reading));
    }
    run
}

#[test]
fn spec_set_and_snapshot() {
    // unsupported family surfaces as `unsupported`; unprobed as `unknown`
    let mut p = Probes::new();
    p.set_spec(PostureSpec {
        spec_version: 5,
        signals: vec![
            signal("a", "tpm_quote", &[]),
            signal("b", "file_exists", &[("path", "C:/definitely-not-here-xyz")]),
        ],
    });
    assert_eq!(p.current_spec_version(), Some(5));
    let done = run(&p);
    let res = p.run_probes_now(done).unwrap();
    assert_eq!(res.0, 5);
    assert_eq!(res.1[0], ("a".to_string(), "unsupported".to_string()));
    assert_eq!(
        res.1[1],
        ("b".to_string(), "false".to_string()),
        "missing file must be an explicit false"
    );
    // snapshot without probes for b2 stays unknown
    p.set_spec(PostureSpec {
        spec_version: 6,
        signals: vec![signal("b2", "file_exists", &[("path", "C:/zzz")])],
    });
    let (v, ext) = p.snapshot_results().unwrap();
    assert_eq!(v, 6);
    assert_eq!(ext[0].1, "unknown", "unprobed signal reports unknown");
    // clearing (version 0 / no signals) returns None
    p.set_spec(PostureSpec {
        spec_version: 0,
        signals: vec![],
    });
    assert!(p.current_spec_version().is_none());
}

#[test]
fn probe_runs_stop_at_the_budget() {
    let spec = PostureSpec {
        spec_version: 1,
        signals: vec![signal("a", "file_exists", &[("path", "x")])],
    };
    let run = ProbeRun::new(&spec);
    assert_eq!(run.next_signal(&spec, 4), Some(0));
    assert_eq!(run.next_signal(&spec, 5), None);
}

#[test]
fn registry_probe_known_values() {
    let units: Vec<u16> = "Windows 11 Pro\0".encode_utf16().collect();
    let size = (units.len() * 2) as u32;
    let pn = registry_value(0, 1, &units, size).unwrap();
    assert_eq!(pn, "Windows 11 Pro");
    // absent value: an explicit false
    assert_eq!(registry_value(2, 0, &vec![], 0).as_deref(), Some("false"));
    // a number reads as digits
    assert_eq!(
        registry_value(0, 4, &vec![7, 1], 4).as_deref(),
        Some("65543")
    );
}

#[test]
fn probe_choice_and_quoting() {
    assert_eq!(wql_quote("it's"), "it''s");
    let (hive, key) = split_hive("hklm/SOFTWARE/X").unwrap();
    assert_eq!(hive, Hive::LocalMachine);
    assert_eq!(key, "SOFTWARE\\X");
    assert!(split_hive("HKCR\\X").is_none());
    assert!(matches!(
        probe_for(&signal("s", "service_state", &[("name", "wuauserv")]), &env(), true),
        Probe::Service(_)
    ));
    assert!(matches!(
        probe_for(&signal("s", "service_state", &[("name", "wuauserv")]), &env(), false),
        Probe::Unsupported
    ));
    assert_eq!(result_class("true"), "match");
    assert_eq!(result_class("unknown"), "error");
}

#[test]
fn signals_past_the_limit_are_unsupported() {
    let mut p = Probes::new();
    let many: Vec<SignalSpec> = (0..33).map(|i| signal(&format!("s{i}"), "tpm_quote", &[])).collect();
    assert_eq!(p.set_spec(PostureSpec { spec_version: 1, signals: many }), Some(1));
    let done = run(&p);
    let (version, ext) = p.run_probes_now(done).unwrap();
    assert_eq!(version, 1);
    assert_eq!(ext.len(), 33);
    assert!(ext.iter().all(|(_, v)| v == "unsupported"));
    // one that could be probed is not, past the limit
    let many: Vec<SignalSpec> =
        (0..33).map(|i| signal(&format!("f{i}"), "file_exists", &[("path", "/x")])).collect();
    p.set_spec(PostureSpec { spec_version: 2, signals: many });
    let done = run(&p);
    let (_, ext) = p.run_probes_now(done).unwrap();
    assert_eq!(ext[31].1, "false");
    assert_eq!(ext[32].1, "unsupported");
}

#[test]
fn the_specification_in_force_is_the_last_one_set() {
    let mut p = Probes::new();
    assert!(p.current_spec().is_none());
    let spec = |v: i64, id: &str| PostureSpec {
        spec_version: v,
        signals: vec![signal(id, "file_exists", &[("path", "/a")])],
    };
    p.set_spec(spec(3, "x"));
    p.set_spec(spec(4, "y"));
    let s = p.current_spec().unwrap();
    assert_eq!((s.spec_version, s.signals.len()), (4, 1));
    assert_eq!(s.signals[0].id, "y");
    assert_eq!(s.signals[0].family, "file_exists");
    assert_eq!(s.signals[0].params, vec![("path".to_string(), "/a".to_string())]);
    assert_eq!(p.set_spec(spec(0, "z")), None);
    assert!(p.current_spec().is_none());
}

#[test]
fn a_path_names_its_variables() {
    assert_eq!(env_names("%A%\\x\\%b c%"), vec!["A".to_string(), "b c".to_string()]);
    assert!(env_names("plain").is_empty());
    assert_eq!(env_names("%A%%%x%B%"), vec!["A".to_string()]);
    assert_eq!(env_names("%A%\\%B"), vec!["A".to_string()]);
    let file = signal("a", "file_exists", &[("path", "%A%/f")]);
    assert_eq!(signal_env_names(&file), vec!["A".to_string()]);
    let other = signal("a", "registry_value", &[("path", "%A%/f")]);
    assert!(signal_env_names(&other).is_empty());
    // other variables change nothing
    let vars = |extra: &[(&str, &str)]| -> Vec<(String, String)> {
        let mut v = vec![("A".to_string(), "/home".to_string())];
        v.extend(extra.iter().map(|(k, x)| (k.to_string(), x.to_string())));
        v
    };
    assert_eq!(expand_env("%A%/f", &vars(&[])), Some("/home/f".to_string()));
    assert_eq!(expand_env("%A%/f", &vars(&[("B", "q")])), Some("/home/f".to_string()));
}

#[test]
fn dates_take_any_number() {
    // months wrap within the year, days run on
    assert_eq!(date_to_unix(1970, 13, 1), date_to_unix(1971, 1, 1));
    assert_eq!(date_to_unix(1970, 1, 32), date_to_unix(1970, 2, 1));
    assert_eq!(date_to_unix(0, 3, 1), Some(-719_468 * 86_400));
    assert_eq!(date_to_unix(-1, 12, 31), Some(-62_167_305_600));
    assert_eq!(date_to_unix(100_000_000_000, 3, 1), Some((250_000_000 * 146_097 - 719_468) * 86_400));
}

/// Regression test for the hex-decode index bug that produced
/// three distinct Ed25519 keys per enrollment.
#[test]
fn posture_key_hex_round_trip() {
    let sk = ed25519_dalek::SigningKey::generate(&mut rand::rngs::OsRng);
    let hexs: String = sk.to_bytes().iter().map(|x| format!("{x:02x}")).collect();
    assert_eq!(hexs.len(), 64);
    let seed = seed_from_hex(&hexs).expect("decode");
    assert_eq!(seed, sk.to_bytes(), "round-trip must preserve seed bytes");
    let reloaded = ed25519_dalek::SigningKey::from_bytes(&seed);
    assert_eq!(
        reloaded.verifying_key(),
        sk.verifying_key(),
        "public key must survive encode/decode round-trip"
    );
}

#[test]
fn posture_key_rejects_bad_length() {
    assert!(seed_from_hex("abcd").is_err());
    assert!(seed_from_hex(&"a".repeat(63)).is_err());
    assert!(seed_from_hex(&"a".repeat(65)).is_err());
    assert!(matches!(
        seed_from_hex(&"g".repeat(64)),
        Err(HexError::BadDigit(_))
    ));
}

#[test]
fn seeds_name_the_place_that_fails() {
    let at = |head: &str| seed_from_hex(&format!("{head}{}", "0".repeat(64 - head.len())));
    assert_eq!(at("00g0"), Err(HexError::BadDigit(2)));
    assert_eq!(at("000g"), Err(HexError::BadDigit(2)));
    assert_eq!(at("00\u{e9}"), Err(HexError::BadDigit(2)));
    assert_eq!(seed_from_hex("00"), Err(HexError::BadLength(2)));
    assert_eq!(seed_from_hex("\u{e9}"), Err(HexError::BadLength(2)));
    // a sign is no digit
    assert_eq!(at("+a"), Err(HexError::BadDigit(0)));
    assert_eq!(seed_from_hex(&"+0".repeat(32)), Err(HexError::BadDigit(0)));
    assert_eq!(at("a+"), Err(HexError::BadDigit(0)));
}

fn report_fields() -> ReportFields {
    ReportFields {
        bitlocker_on: Some(true),
        defender_healthy: Some(true),
        firewall_enabled: Some(true),
        entra_joined: Some(true),
        os_version: Some("Windows 11 26200".to_string()),
        days_since_patch: Some(3),
        client_version: Some("0.1.0".to_string()),
    }
}

#[test]
fn posture_values_hash_change_detection() {
    let h1 = posture_values_hash(true, true, true, true, "Windows 11 26200", 3, "0.1.0");
    let h2 = posture_values_hash(true, true, true, true, "Windows 11 26200", 3, "0.1.0");
    assert_eq!(h1, h2, "identical values -> identical hash");
    assert_eq!(h1.len(), 64, "sha256 hex");

    // degradation flips the hash (kill-order latency preserved)
    let degraded = posture_values_hash(true, false, true, true, "Windows 11 26200", 3, "0.1.0");
    assert_ne!(h1, degraded, "defender_off must change the hash");

    // os/patch-age drift flips it too
    let drifted = posture_values_hash(true, true, true, true, "Windows 11 26200", 40, "0.1.0");
    assert_ne!(h1, drifted);

    // hash_of_report extracts the same fields as the direct fn; the
    // collection time and the signature are not among them
    assert_eq!(hash_of_report(&report_fields()).as_deref(), Some(h1.as_str()));
    assert_eq!(
        hash_of_report(&report_fields()),
        hash_of_report(&report_fields())
    );
    let mut partial = report_fields();
    partial.os_version = None;
    assert_eq!(hash_of_report(&partial), None);
}

#[test]
fn values_hash_is_the_digest_of_the_values() {
    let h = posture_values_hash(true, true, true, true, "Windows 11 26200", 3, "0.1.0");
    let digest: [u8; 32] = sha2::Sha256::digest(b"true|true|true|true|Windows 11 26200|3|0.1.0").into();
    let hex: String = digest.iter().map(|x| format!("{x:02x}")).collect();
    assert_eq!(h, hex);
}

#[test]
fn unknown_signals_never_deny() {
    let v = report_values(&Snapshot::unknown(), "");
    assert!(v.bitlocker_on && v.defender_healthy && v.firewall_enabled && v.entra_joined);
}

#[test]
fn report_is_signed_over_the_canonical_text() {
    let seed = [9u8; 32];
    let ext = Some((
        5,
        vec![
            ("b".to_string(), "true".to_string()),
            ("a".to_string(), "x".to_string()),
        ],
    ));
    let r = signed_posture_from(&planted(), "", 1_800_000_000, &Some(seed), ext.clone()).unwrap();
    let text = canonical_text(1_800_000_000, &r.values, &ext);
    let sig = base64::engine::general_purpose::STANDARD
        .decode(&r.sig_b64)
        .unwrap();
    let key = ed25519_dalek::SigningKey::from_bytes(&seed).verifying_key();
    let sig = ed25519_dalek::Signature::from_slice(&sig).unwrap();
    assert!(key.verify_strict(text.as_bytes(), &sig).is_ok());
    // extensions are written in the order of their names
    assert!(text.find("a").unwrap() < text.rfind("b").unwrap());
    assert!(signed_posture_from(&planted(), "", 0, &None, None).is_none());
}

#[test]
fn posture_key_is_cached() {
    let mut c = KeyCache::new();
    assert_eq!(c.load_posture_key("d1", None), Ok(None));
    let hex = "ab".repeat(32);
    assert_eq!(
        c.load_posture_key("d1", Some(hex)),
        Ok(Some([0xab; 32]))
    );
    assert_eq!(c.get("d1"), Some([0xab; 32]));
    assert_eq!(c.get("d2"), None);
    assert!(c.load_posture_key("d3", Some("zz".to_string())).is_err());
}

#[test]
fn reporter_pushes_changes_in_full() {
    let mut r = Reporter::new();
    let built = |h: &str| Built::Report(Some(h.to_string()));
    assert_eq!(r.decide(&built("h1")), Push::Full);
    assert_eq!(
        r.after_full(FullAnswer::Taken(Some(true)), Some("h1".to_string())),
        "healthy"
    );
    r.end_tick();
    assert_eq!(r.decide(&built("h1")), Push::Marker);
    assert_eq!(r.after_marker(true), None);
    r.end_tick();
    assert_eq!(r.decide(&built("h2")), Push::Full);
    assert_eq!(r.decide(&Built::NoKey), Push::Skip);
    assert_eq!(r.decide(&Built::Failed), Push::Fail);
    assert_eq!(r.after_full(FullAnswer::Refused, None), "error");
    assert_eq!(
        r.after_full(FullAnswer::Taken(Some(false)), None),
        "unhealthy"
    );
}

#[test]
fn report_address_and_spec_version() {
    assert_eq!(report_url("https://c/"), "https://c/v1/posture");
    assert!(spec_changed(None, 3));
    assert!(!spec_changed(Some(3), 3));
    assert!(spec_changed(Some(3), 4));
}
