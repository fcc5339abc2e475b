//! The service host and the tray.

use aztna_client::peer::{PeerError, PeerOwner};
use aztna_client::state::ClientState;
use aztna_client::svc::{
    activation, default_ipc, fd_line, handed_fd, host_name, load_config, login_state,
    registry_controller_override, reply_line, svc_home, token_uid, Activation, Bootstrap,
    Connected, Detail, FdProbe, IpcReq, Service, Step, SvcConfig, STATE_CONNECTED,
    STATE_DEGRADED, STATE_DISCONNECTED,
};
use aztna_client::tray::{
    icon_event, menu_command, tip_for, tray_bind, IconEvent, MenuAction, Tray, MENU_CONNECT,
    MENU_EXIT,
};

fn req(cmd: &str, token: Option<&str>) -> Option<IpcReq> {
    Some(IpcReq {
        v: 1,
        cmd: cmd.to_string(),
        token: token.map(|t| t.to_string()),
    })
}

fn user(u: &str) -> Option<String> {
    Some(u.to_string())
}

fn config() -> SvcConfig {
    SvcConfig {
        controller_url: "https://c".to_string(),
        dests: vec!["erp.corp:443".to_string()],
        ..SvcConfig::default()
    }
}

fn with_token() -> ClientState {
    ClientState {
        access_token: Some("tok".to_string()),
        ..ClientState::default()
    }
}

/// A service that user 1000 has handed a token to.
fn owned() -> Service {
    let mut s = Service::new();
    s.logged_in("1000");
    s
}

#[test]
fn states_have_names() {
    let mut s = Service::new();
    assert_eq!(s.state_name(), "needs_enrollment");
    assert_eq!(s.last_event_text(), "boot");
    assert_eq!(
        s.set_state(STATE_CONNECTED, "up"),
        "connected note=up"
    );
    assert_eq!(s.state_name(), "connected");
    s.set_state(STATE_DEGRADED, "slow");
    assert_eq!(s.state_name(), "degraded");
    s.set_state(STATE_DISCONNECTED, "down");
    assert_eq!(s.state_name(), "disconnected");
    assert_eq!(s.last_event_text(), "down");
}

#[test]
fn isolation() {
    let owner = |sid: &str| {
        Ok(PeerOwner {
            pid: 1,
            sid: sid.to_string(),
            session: 0,
        })
    };
    let mut s = Service::new();
    assert!(s.isolation_allows(&Err(PeerError::NoRow)));
    s.set_owning_sid("1000");
    assert!(s.isolation_allows(&owner("1000")));
    assert!(!s.isolation_allows(&owner("1001")));
    assert!(!s.isolation_allows(&Err(PeerError::NoRow)));
    assert_eq!(s.owning_sid_get().as_deref(), Some("1000"));
}

#[test]
fn anyone_may_ask_for_the_status() {
    let mut s = owned();
    let (step, labels) = s.ipc_dispatch(req("status", None), None, &config());
    match step {
        Step::Reply(r) => {
            assert!(r.ok);
            assert_eq!(r.state, "disconnected");
            match r.detail {
                Some(Detail::Status { dests, last_event }) => {
                    assert_eq!(dests, vec!["erp.corp:443".to_string()]);
                    assert_eq!(last_event, "token handed off; ready to connect");
                }
                other => panic!("unexpected: {other:?}"),
            }
        }
        other => panic!("unexpected: {other:?}"),
    }
    let labels = labels.unwrap();
    assert_eq!((labels.kind.as_str(), labels.result), ("status", "ok"));
}

#[test]
fn unauthorized_requests_change_nothing() {
    let mut s = owned();
    for caller in [None, user("1001"), user("")] {
        for cmd in ["login", "connect", "disconnect", "diagnostics", "reboot"] {
            let (step, labels) = s.ipc_dispatch(req(cmd, Some("t")), caller.clone(), &config());
            match step {
                Step::Reply(r) => {
                    assert!(!r.ok);
                    assert_eq!(
                        r.error.unwrap(),
                        format!("unknown or unauthorized command {cmd} (owner set: true)")
                    );
                }
                other => panic!("unexpected: {other:?}"),
            }
            assert_eq!(labels.unwrap().result, "error");
        }
    }
    assert_eq!(s.owning_sid_get().as_deref(), Some("1000"));
    assert_eq!(s.state_name(), "disconnected");
}

#[test]
fn bad_requests() {
    let mut s = Service::new();
    let old = IpcReq {
        v: 2,
        cmd: "status".to_string(),
        token: None,
    };
    for r in [None, Some(old)] {
        match s.ipc_dispatch(r, user("1"), &config()).0 {
            Step::Reply(r) => assert_eq!(r.error.as_deref(), Some("bad request")),
            other => panic!("unexpected: {other:?}"),
        }
    }
}

#[test]
fn login_hands_the_service_over() {
    let mut s = Service::new();
    let (step, _) = s.ipc_dispatch(req("login", Some("tok")), user("1000"), &config());
    let (token, caller) = match step {
        Step::Login { token, caller } => (token, caller),
        other => panic!("unexpected: {other:?}"),
    };
    let mut st = ClientState::default();
    login_state(&mut st, token, &config());
    assert_eq!(st.access_token.as_deref(), Some("tok"));
    assert_eq!(st.controller_url, "https://c");
    assert!(s.logged_in(&caller).ok);
    assert_eq!(s.owning_sid_get().as_deref(), Some("1000"));
    match s.ipc_dispatch(req("login", None), user("1000"), &config()).0 {
        Step::Reply(r) => assert_eq!(r.error.as_deref(), Some("login requires a token")),
        other => panic!("unexpected: {other:?}"),
    }
}

#[test]
fn a_stop_goes_to_the_run_that_was_started() {
    let mut s = owned();
    assert!(matches!(
        s.ipc_dispatch(req("connect", None), user("1000"), &config()).0,
        Step::Connect
    ));
    let started = match s.connect(&with_token(), &config()).0 {
        Connected::Started {
            generation,
            controller,
            args,
            resp,
        } => {
            assert_eq!(controller, "https://c");
            assert_eq!(args.local_port, 21600);
            assert!(args.serve);
            assert_eq!(resp.state, "connected");
            generation
        }
        other => panic!("unexpected: {other:?}"),
    };
    assert_eq!(s.engine_cancel(), started);
    match s
        .ipc_dispatch(req("disconnect", None), user("1000"), &config())
        .0
    {
        Step::Stop { generation, resp } => {
            assert_eq!(generation, started);
            assert_eq!(resp.state, "disconnected");
        }
        other => panic!("unexpected: {other:?}"),
    }
}

#[test]
fn connects_that_cannot_serve_are_refused() {
    let mut s = owned();
    let (c, labels) = s.connect(&ClientState::default(), &config());
    match c {
        Connected::Refused(r) => assert_eq!(r.error.as_deref(), Some("no token - login first")),
        other => panic!("unexpected: {other:?}"),
    }
    assert_eq!(labels.result, "error");
    match s.connect(&with_token(), &SvcConfig::default()).0 {
        Connected::Refused(r) => assert!(r.error.unwrap().contains("nothing to serve")),
        other => panic!("unexpected: {other:?}"),
    }
    let dns_only = SvcConfig {
        dns: Some("127.0.0.1".to_string()),
        ..SvcConfig::default()
    };
    assert!(matches!(
        s.connect(&with_token(), &dns_only).0,
        Connected::Started { .. }
    ));
}

#[test]
fn diagnostics_answers() {
    let mut s = owned();
    assert!(matches!(
        s.ipc_dispatch(req("diagnostics", None), user("1000"), &config()).0,
        Step::Diagnose
    ));
    assert!(s.bundle_reply(Ok(("/d".to_string(), true))).ok);
    assert_eq!(
        s.bundle_reply(Err("full".to_string())).error.as_deref(),
        Some("bundle failed: full")
    );
    assert_eq!(
        s.internal_reply("x").error.as_deref(),
        Some("ipc internal: x")
    );
}

#[test]
fn configuration() {
    assert_eq!(default_ipc(false), "/run/aztna-client/ipc.sock");
    assert_eq!(default_ipc(true), "127.0.0.1:29171");
    let h = svc_home(None, None, false);
    assert_eq!(h.base, "/var/lib/aztna-client");
    let h = svc_home(None, Some("C:\\ProgramData".to_string()), true);
    assert_eq!(h.leaf.as_deref(), Some("aztna"));
    let h = svc_home(Some("/tmp/h".to_string()), None, true);
    assert_eq!(h.base, "/tmp/h");
    let c = load_config(SvcConfig::default(), true, Some("https://msi".to_string()));
    assert_eq!(c.controller_url, "https://msi");
    let c = load_config(config(), true, Some("https://msi".to_string()));
    assert_eq!(c.controller_url, "https://c");
    let c = load_config(SvcConfig::default(), false, Some("https://msi".to_string()));
    assert_eq!(c.controller_url, "");
    let units: Vec<u16> = "https://msi\0".encode_utf16().collect();
    assert_eq!(
        registry_controller_override(true, &units, (units.len() * 2) as u32).as_deref(),
        Some("https://msi")
    );
    assert_eq!(registry_controller_override(false, &units, 0), None);
}

#[test]
fn bootstrap() {
    let mut s = Service::new();
    let st = ClientState::default();
    assert!(matches!(
        s.bootstrap(&st, &Some(" \n".to_string())),
        Bootstrap::Wait
    ));
    assert_eq!(s.last_event_text(), "no device + no bootstrap token");
    match s.bootstrap(&st, &Some(" tok\n".to_string())) {
        Bootstrap::Enroll(t) => assert_eq!(t, "tok"),
        other => panic!("unexpected: {other:?}"),
    }
    s.bootstrap_failed();
    assert_eq!(s.last_event_text(), "bootstrap enroll failed");
    let device = ClientState {
        device_id: Some("d1".to_string()),
        ..ClientState::default()
    };
    assert!(matches!(s.bootstrap(&device, &None), Bootstrap::Enrolled));
    s.ready(&device);
    assert_eq!(s.state_name(), "disconnected");
}

#[test]
fn host_names() {
    let n = |e: Option<&str>, f: Option<&str>, h: Option<&str>| {
        host_name(
            false,
            e.map(|x| x.to_string()),
            &f.map(|x| x.to_string()),
            h.map(|x| x.to_string()),
        )
    };
    assert_eq!(n(Some("env"), Some("file"), None), "env");
    assert_eq!(n(Some(""), Some(" file\n"), None), "file");
    assert_eq!(n(None, Some(" \n"), Some("uuid")), "uuid");
    assert_eq!(n(None, None, None), "svc-host");
    assert_eq!(host_name(true, user(""), &None, None), "");
}

#[test]
fn activated_sockets() {
    let one = Some("1".to_string());
    assert_eq!(activation(&one, &one), Activation::Launchd);
    assert_eq!(activation(&None, &one), Activation::Systemd);
    assert_eq!(activation(&None, &None), Activation::Own);
    let fd = |wanted, local| FdProbe { wanted, local };
    assert_eq!(
        handed_fd(&vec![fd(false, true), fd(true, true)]),
        Some(1)
    );
    assert_eq!(
        handed_fd(&vec![fd(false, false), fd(false, true)]),
        Some(1)
    );
    assert_eq!(handed_fd(&vec![fd(false, true), fd(false, true)]), None);
    assert_eq!(handed_fd(&vec![]), None);
    assert_eq!(
        fd_line(3, true, false, "/x", true),
        "fd 3: socket=true accept=false path=/x match=true\n"
    );
}

#[test]
fn answers_on_the_wire() {
    assert_eq!(reply_line(&Some(" {} \n".to_string())).as_deref(), Some("{}"));
    assert_eq!(reply_line(&Some("\n".to_string())), None);
    assert_eq!(reply_line(&None), None);
    let token = [0, 501, 0, 0, 0, 0, 0, 0];
    assert_eq!(token_uid(0, 32, &token), Some(501));
    assert_eq!(token_uid(0, 16, &token), None);
    assert_eq!(token_uid(-1, 32, &token), None);
}

#[test]
fn tray_follows_the_service() {
    let mut t = Tray::new();
    let s = t.poll(Some("connected")).unwrap();
    assert_eq!(s.tip, "aZTNA - connected");
    assert_eq!(s.info, "aZTNA is connected");
    assert!(t.poll(Some("connected")).is_none());
    assert_eq!(t.poll(None).unwrap().tip, "aZTNA - unreachable");
    assert!(t.poll(None).is_none());
    assert_eq!(tip_for("x"), "aZTNA - x");
}

#[test]
fn tray_menu() {
    assert_eq!(menu_command(MENU_CONNECT).request(), Some("connect"));
    assert_eq!(menu_command(MENU_EXIT), MenuAction::Exit);
    assert_eq!(menu_command(1), MenuAction::Nothing);
    assert_eq!(icon_event(0x0001_0205), IconEvent::OpenMenu);
    assert_eq!(icon_event(0x0203), IconEvent::Connect);
    assert_eq!(icon_event(0x0201), IconEvent::Nothing);
    assert_eq!(tray_bind(None, None), "127.0.0.1:29171");
    assert_eq!(tray_bind(None, Some("a:1".to_string())), "a:1");
}
