//! Key material and tokens at rest.

use aztna_client::atrest::{
    clamp_u32, env_lookup, log_mode_once, mint, mint_drawn, resolve_with, unwrap, unwrap_strict, wrap,
    wrap_drawn, ClientWrap, FileText, KeyfileFound, KeyfileState, Resolution, WrapError, WrapSettings,
};
use aztna_client::keys::azdp2;
use aztna_client::keys::wrapmode::{resolve, WrapMode};
use aztna_client::keys::{
    is_wrapped, is_wrapped_key, key_path_override_with, protect, unprotect, KeyError,
};
use aztna_client::state::{
    load_state, load_state_opened, save_state, save_state_drawn, save_state_stored, ClientState, LoadNote,
    QuicIdent,
};
use aztna_client::tokenstore::{
    token_blob, token_stored, token_text, unwrap_token, wrap_token, wrap_token_drawn, Profile,
};
use base64::Engine;
use chacha20poly1305::aead::Aead;
use chacha20poly1305::KeyInit;

fn settings() -> WrapSettings {
    WrapSettings {
        passphrase: None,
        passphrase_file: None,
        mode: None,
        m_kib: None,
        t: None,
    }
}

fn found(file: KeyfileFound) -> KeyfileState {
    KeyfileState {
        path: "/state/atrest.key".to_string(),
        dir_mode: Some(0o700),
        file,
    }
}

fn light(pass: &str) -> ClientWrap {
    ClientWrap::Passphrase {
        pass: pass.to_string(),
        m_kib: 64,
        t: 1,
    }
}

fn ready(s: &WrapSettings, k: &KeyfileState) -> ClientWrap {
    match resolve_with(s, k, true).unwrap() {
        Resolution::Ready(w) => w,
        Resolution::Mint { .. } => panic!("a secret is there"),
    }
}

#[test]
fn azdp1_roundtrip_and_magic() {
    let w = protect(b"secret-key-bytes").unwrap();
    assert!(is_wrapped(&w));
    assert!(is_wrapped_key(&w));
    assert_eq!(unprotect(&w).unwrap(), b"secret-key-bytes");
    assert!(!is_wrapped(b"-----BEGIN"));
    assert_eq!(w, b"AZDP1secret-key-bytes");
    assert_eq!(unprotect(b"-----BEGIN"), Err(KeyError::NotWrapped));
}

#[test]
fn azdp2_roundtrip_byte_layout() {
    let key = azdp2::derive_key(b"pass", b"[0123456789abcde]", 8, 1).unwrap();
    let salt = [7u8; azdp2::SALT_LEN];
    let blob = azdp2::wrap(b"payload", &key, &salt).unwrap();
    assert!(azdp2::is_azdp2(&blob));
    assert_eq!(azdp2::unwrap(&blob, &key).unwrap(), b"payload");
    let wrong = azdp2::derive_key(b"pass2", b"[0123456789abcde]", 8, 1).unwrap();
    assert!(azdp2::unwrap(&blob, &wrong).is_err());
    // magic, salt, nonce, then the sealed payload and its tag
    assert_eq!(blob.len(), 5 + azdp2::SALT_LEN + 24 + 7 + 16);
    assert_eq!(&blob[5..5 + azdp2::SALT_LEN], &salt[..]);
}

#[test]
fn azdp2_errors() {
    let key = [1u8; 32];
    assert_eq!(azdp2::unwrap(b"AZDP1x", &key), Err(KeyError::NotAzdp2));
    assert_eq!(azdp2::unwrap(b"AZDP2abc", &key), Err(KeyError::Truncated(3)));
    assert_eq!(
        KeyError::Truncated(3).message(),
        "AZDP2 blob truncated (3B body)"
    );
    // the derivation refuses a salt that is too short
    assert_eq!(azdp2::derive_key(b"p", b"short", 8, 1), Err(KeyError::Kdf));
}

#[test]
fn sealed_bytes_are_those_of_the_cipher() {
    let key = [3u8; 32];
    let nonce = [4u8; 24];
    let blob = azdp2::wrap_with_nonce(b"payload", &key, &[5u8; azdp2::SALT_LEN], &nonce).unwrap();
    let cipher = chacha20poly1305::XChaCha20Poly1305::new((&key).into());
    let sealed = cipher
        .encrypt((&nonce).into(), b"payload".as_ref())
        .unwrap();
    assert_eq!(&blob[5 + azdp2::SALT_LEN + 24..], &sealed[..]);
}

#[test]
fn derived_key_is_argon2id() {
    let mut expected = [0u8; 32];
    argon2::Argon2::new(
        argon2::Algorithm::Argon2id,
        argon2::Version::V0x13,
        argon2::Params::new(64, 2, 1, Some(32)).unwrap(),
    )
    .hash_password_into(b"pass", b"0123456789abcdef", &mut expected)
    .unwrap();
    assert_eq!(
        azdp2::derive_key(b"pass", b"0123456789abcdef", 64, 2),
        Ok(expected)
    );
}

#[test]
fn resolve_core_matrix() {
    assert!(matches!(
        resolve(Some("auto"), Some("p"), false),
        Ok(WrapMode::Azdp2)
    ));
    assert!(matches!(
        resolve(Some("auto"), None, true),
        Ok(WrapMode::Plaintext)
    ));
    assert!(resolve(Some("auto"), None, false).is_err());
    assert!(resolve(Some("passphrase"), None, true).is_err());
    assert!(resolve(Some("plaintext-pilot"), Some("p"), false).is_err());
    assert!(resolve(Some("bogus"), None, false).is_err());
}

#[test]
fn resolve_errors_are_named() {
    let text = |m: &str, s: Option<&str>| resolve(Some(m), s, false).unwrap_err().message();
    assert!(text("auto", None).contains("AZTNA_ALLOW_PLAINTEXT_KEYS=1"));
    assert!(text("passphrase", Some("  ")).contains("no passphrase source"));
    assert!(text("plaintext-pilot", Some("p")).contains("pick one"));
    assert_eq!(
        text(" Bogus ", None),
        "AZTNA_KEY_WRAP_MODE='bogus' is invalid (expected auto | passphrase | plaintext-pilot)"
    );
    assert!(matches!(resolve(None, Some("p"), false), Ok(WrapMode::Azdp2)));
}

#[test]
fn key_path_is_not_redirected_to_nothing() {
    assert_eq!(key_path_override_with(Some(" "), "/d/key"), "/d/key");
    assert_eq!(key_path_override_with(None, "/d/key"), "/d/key");
    assert_eq!(key_path_override_with(Some(" /x "), "/d/key"), "/x");
}

#[test]
fn default_keyfile_roundtrip_and_hygiene() {
    let k = found(KeyfileFound::Absent);
    let (m_kib, t) = match resolve_with(&settings(), &k, true).unwrap() {
        Resolution::Mint { m_kib, t } => (m_kib, t),
        Resolution::Ready(_) => panic!("no key file yet"),
    };
    let w = mint("/state/atrest.key", m_kib, t).unwrap();
    assert_eq!(w.mode_name(), "keyfile");
    let blob = wrap(&w, b"secret-material").unwrap();
    assert!(azdp2::is_azdp2(&blob), "auto default wraps AZDP2");
    assert!(!blob.windows(7).any(|w| w == b"secret-"));
    assert_eq!(unwrap(&blob, Ok(w)).unwrap(), b"secret-material");
}

#[test]
fn keyfile_reused_not_reminted() {
    let k = found(KeyfileFound::Text(0o600, "c2VjcmV0\n".to_string()));
    let mut s = settings();
    s.m_kib = Some("8192".to_string());
    s.t = Some("1".to_string());
    let b1 = wrap(&ready(&s, &k), b"one").unwrap();
    let b2 = wrap(&ready(&s, &k), b"two").unwrap();
    // both unwrap with the same key file
    assert_eq!(unwrap(&b1, Ok(ready(&s, &k))).unwrap(), b"one");
    assert_eq!(unwrap(&b2, Ok(ready(&s, &k))).unwrap(), b"two");
}

#[test]
fn passphrase_env_roundtrip_and_no_keyfile() {
    let mut s = settings();
    s.passphrase = Some("op-secret".to_string());
    s.m_kib = Some("8192".to_string());
    let w = ready(&s, &found(KeyfileFound::Absent));
    assert_eq!(w.mode_name(), "passphrase");
    let blob = wrap(&w, b"material").unwrap();
    assert!(azdp2::is_azdp2(&blob));
    assert_eq!(unwrap(&blob, Ok(w)).unwrap(), b"material");
}

#[test]
fn both_sources_is_an_error() {
    let mut s = settings();
    s.passphrase = Some("x".to_string());
    s.passphrase_file = Some(FileText::Text("x".to_string()));
    let e = resolve_with(&s, &found(KeyfileFound::Absent), true).unwrap_err();
    assert!(e.message("x").contains("pick one"));
}

#[test]
fn wrong_passphrase_fails_closed_with_named_error() {
    let blob = wrap(&light("right"), b"material").unwrap();
    let e = unwrap(&blob, Ok(light("wrong"))).unwrap_err();
    assert!(e.message("").contains("wrong passphrase"));
}

#[test]
fn mode_passphrase_without_source_is_an_error() {
    let mut s = settings();
    s.mode = Some("passphrase".to_string());
    let e = resolve_with(&s, &found(KeyfileFound::Absent), true).unwrap_err();
    assert!(e.message("").contains("no passphrase source"));
}

#[test]
fn explicit_plaintext_pilot_is_loud_and_tolerated() {
    let mut s = settings();
    s.mode = Some("plaintext-pilot".to_string());
    let w = ready(&s, &found(KeyfileFound::Absent));
    let blob = wrap(&w, b"material").unwrap();
    assert_eq!(blob, b"material", "plaintext-pilot writes plaintext");
    assert_eq!(unwrap(&blob, Ok(w)).unwrap(), b"material");
}

#[test]
fn invalid_mode_name_is_an_error() {
    let mut s = settings();
    s.mode = Some("rot13".to_string());
    let e = resolve_with(&s, &found(KeyfileFound::Absent), true).unwrap_err();
    assert!(e.message("").contains("is invalid"));
    assert_eq!(e, WrapError::InvalidMode("rot13".to_string()));
}

#[test]
fn legacy_azdp1_and_plaintext_blobs_are_tolerated_reads() {
    let none = || Err(WrapError::KeyfileMissing);
    let azdp1 = protect(b"legacy-bytes").unwrap();
    assert_eq!(unwrap(&azdp1, none()).unwrap(), b"legacy-bytes");
    assert_eq!(unwrap(b"bare", none()).unwrap(), b"bare");
    assert_eq!(unwrap_strict(b"bare", none()), Err(WrapError::NotWrapped));
}

#[test]
fn missing_keyfile_on_unwrap_is_a_named_error_not_a_remint() {
    let e = resolve_with(&settings(), &found(KeyfileFound::Absent), false).unwrap_err();
    assert!(e.message("/state/atrest.key").contains("missing"));
    let blob = wrap(&light("p"), b"material").unwrap();
    assert_eq!(
        unwrap(&blob, Err(e)).unwrap_err(),
        WrapError::KeyfileMissing
    );
}

#[test]
fn insecure_keyfile_mode_is_refused() {
    let k = found(KeyfileFound::Text(0o644, "x".to_string()));
    let e = resolve_with(&settings(), &k, false).unwrap_err();
    assert_eq!(
        e.message("/state/atrest.key"),
        "key file /state/atrest.key has insecure mode 644 — fix with: chmod 600 /state/atrest.key"
    );
}

#[test]
fn tampered_ciphertext_fails_auth() {
    let mut blob = wrap(&light("p"), b"material").unwrap();
    let n = blob.len();
    blob[n - 1] ^= 0xFF; // flip a tag byte
    let e = unwrap(&blob, Ok(light("p"))).unwrap_err();
    assert!(e.message("").contains("corrupted"));
}

#[test]
fn insecure_state_dir_is_refused() {
    let mut k = found(KeyfileFound::Absent);
    k.dir_mode = Some(0o40755);
    let e = resolve_with(&settings(), &k, true).unwrap_err();
    assert!(e.message("/state").contains("chmod 700"));
    assert!(e.message("/state").contains("insecure mode 755"));
}

#[test]
fn other_keyfile_and_credential_errors() {
    let err = |s: &WrapSettings, f| resolve_with(s, &found(f), true).unwrap_err();
    assert_eq!(
        err(&settings(), KeyfileFound::Unreadable(0o600)),
        WrapError::KeyfileUnreadable
    );
    assert_eq!(
        err(&settings(), KeyfileFound::Text(0o600, "\n".to_string())),
        WrapError::KeyfileEmpty
    );
    let mut s = settings();
    s.passphrase_file = Some(FileText::Unreadable);
    assert_eq!(err(&s, KeyfileFound::Absent), WrapError::FileUnreadable);
    s.passphrase_file = Some(FileText::Text("\n".to_string()));
    assert_eq!(err(&s, KeyfileFound::Absent), WrapError::EmptyPassphrase);
}

#[test]
fn settings_are_clamped() {
    assert_eq!(clamp_u32(&Some("1".to_string()), 19456, 8192, 262144), 8192);
    assert_eq!(clamp_u32(&None, 19456, 8192, 262144), 19456);
    assert_eq!(
        clamp_u32(&Some("999999999".to_string()), 19456, 8192, 262144),
        262144
    );
    assert_eq!(env_lookup(Some("  ".to_string())), None);
    assert!(log_mode_once(None, "keyfile"));
    assert!(!log_mode_once(Some("keyfile"), "keyfile"));
}

#[test]
fn roundtrip_is_azdp2_encrypted() {
    let w = wrap_token(&light("p"), "sekret-token-1").unwrap();
    assert_ne!(w, "sekret-token-1");
    assert!(!w.contains("sekret"));
    let raw = base64::engine::general_purpose::STANDARD.decode(&w).unwrap();
    assert!(raw.starts_with(b"AZDP2"), "token blob must be AZDP2");
    assert_eq!(unwrap_token(&w, Ok(light("p"))).unwrap(), "sekret-token-1");
}

#[test]
fn garbage_blob_fails_closed() {
    let garbage = base64::engine::general_purpose::STANDARD.encode([7u8; 32]);
    assert_eq!(
        unwrap_token(&garbage, Ok(light("p"))),
        Err(WrapError::NotWrapped)
    );
    assert!(unwrap_token("AAAAnotablob==", Ok(light("p"))).is_err());
    let not_text = base64::engine::general_purpose::STANDARD.encode(b"AZDP1\xff\xfe");
    assert_eq!(
        unwrap_token(&not_text, Ok(light("p"))),
        Err(WrapError::NotText)
    );
}

#[test]
fn corrupt_blob_fails_closed() {
    assert!(unwrap_token("AAAAnotablob==", Ok(light("p"))).is_err());
    let garbage = base64::engine::general_purpose::STANDARD.encode([7u8; 32]);
    assert!(unwrap_token(&garbage, Ok(light("p"))).is_err());
    assert_eq!(
        unwrap_token("not base64!", Ok(light("p"))),
        Err(WrapError::NotBase64)
    );
}

#[test]
fn saved_state_hides_the_token_and_loads_it() {
    let st = ClientState {
        access_token: Some("sekret".to_string()),
        device_id: Some("d1".to_string()),
        ..ClientState::default()
    };
    let on_disk = save_state(&st, &light("p")).unwrap();
    assert!(on_disk.access_token.is_none());
    assert!(!on_disk.access_token_wrapped.clone().unwrap().contains("sekret"));
    let (back, note) = load_state(on_disk, Ok(light("p")));
    assert_eq!(back.access_token.as_deref(), Some("sekret"));
    assert!(matches!(note, LoadNote::Nothing));
}

#[test]
fn a_logged_out_state_stays_logged_out() {
    let st = ClientState {
        device_id: Some("d1".to_string()),
        access_token_wrapped: Some("left over".to_string()),
        ..ClientState::default()
    };
    let on_disk = save_state(&st, &light("p")).unwrap();
    assert!(on_disk.access_token_wrapped.is_none());
    let (back, note) = load_state(on_disk, Ok(light("p")));
    assert!(back.access_token.is_none());
    assert_eq!(back.device_id.as_deref(), Some("d1"));
    assert!(matches!(note, LoadNote::Nothing));
}

#[test]
fn unreadable_token_is_logged_out() {
    let st = ClientState {
        access_token: Some("sekret".to_string()),
        ..ClientState::default()
    };
    let on_disk = save_state(&st, &light("p")).unwrap();
    let (back, note) = load_state(on_disk, Ok(light("other")));
    assert!(back.access_token.is_none());
    assert!(matches!(
        note,
        LoadNote::TokenUnwrapFailed(WrapError::Key(KeyError::Auth))
    ));
}

#[test]
fn quic_ident_open_requires_cert() {
    let st = ClientState {
        controller_url: String::new(),
        controller_enroll_url: None,
        device_id: None,
        cert_pem: None,
        access_token: None,
        access_token_wrapped: None,
        posture_pubkey: None,
        ca_pem: None,
        key_origin: None,
        mgmt_url: None,
    };
    let err = QuicIdent::open(&st).unwrap_err().message();
    assert!(
        err.contains("device certificate missing"),
        "error must name the missing material: {err}"
    );
}

#[test]
fn the_profile_is_the_users_until_set() {
    let mut p = Profile::new();
    p.set_machine_profile();
    assert!(p.machine_profile());
    p.set_machine_profile();
    assert!(p.machine_profile());
    // what was read stays
    let mut q = Profile::new();
    assert!(!q.machine_profile());
    q.set_machine_profile();
    assert!(!q.machine_profile());
}

#[test]
fn a_drawn_key_file_is_its_digits() {
    let w = mint_drawn("/state/atrest.key", Some([0xab; 32]), 64, 1).unwrap();
    let ClientWrap::Keyfile { path, secret, m_kib, t } = &w else {
        panic!("a key file is minted")
    };
    assert_eq!((path.as_str(), *m_kib, *t), ("/state/atrest.key", 64, 1));
    assert_eq!(secret, &"ab".repeat(32));
    assert_eq!(mint_drawn("k", None, 64, 1), Err(WrapError::Key(KeyError::Random)));
    // what was minted is what the next look finds
    let mut s = settings();
    s.m_kib = Some("64".to_string());
    s.t = Some("1".to_string());
    let again = ready(&s, &found(KeyfileFound::Text(0o600, secret.clone())));
    assert_eq!(again, w);
    let blob = wrap(&w, b"material").unwrap();
    assert_eq!(unwrap(&blob, Ok(again)).unwrap(), b"material");
}

#[test]
fn drawn_bytes_frame_a_blob() {
    let w = light("p");
    let blob = wrap_drawn(&w, b"material", Some([1; 16]), Some([2; 24])).unwrap();
    assert_eq!(&blob[..5], b"AZDP2");
    assert_eq!(&blob[5..21], &[1; 16]);
    assert_eq!(&blob[21..45], &[2; 24]);
    assert_eq!(blob.len(), 45 + 8 + 16);
    assert_eq!(wrap_drawn(&w, b"material", Some([1; 16]), Some([2; 24])).unwrap(), blob);
    assert_eq!(unwrap(&blob, Ok(w.clone())).unwrap(), b"material");
    let none = Err(WrapError::Key(KeyError::Random));
    assert_eq!(wrap_drawn(&w, b"m", None, Some([2; 24])), none);
    assert_eq!(wrap_drawn(&w, b"m", Some([1; 16]), None), none);
    assert_eq!(wrap_drawn(&ClientWrap::Plaintext, b"m", None, None).unwrap(), b"m");
}

#[test]
fn drawn_bytes_wrap_a_token() {
    let w = light("p");
    let blob = wrap_drawn(&w, b"tok", Some([1; 16]), Some([2; 24])).unwrap();
    let stored = wrap_token_drawn(&w, "tok", Some([1; 16]), Some([2; 24])).unwrap();
    assert_eq!(stored, base64::engine::general_purpose::STANDARD.encode(&blob));
    assert_eq!(unwrap_token(&stored, Ok(w.clone())).unwrap(), "tok");
    assert_eq!(wrap_token_drawn(&w, "tok", None, None), Err(WrapError::Key(KeyError::Random)));
    let st = ClientState { access_token: Some("tok".to_string()), ..ClientState::default() };
    let d = save_state_drawn(&st, &w, Some([1; 16]), Some([2; 24])).unwrap();
    assert_eq!(d.access_token, None);
    assert_eq!(d.access_token_wrapped, Some(stored));
    assert_eq!(
        save_state_drawn(&st, &w, None, None).unwrap_err(),
        WrapError::Key(KeyError::Random)
    );
    assert!(save_state_drawn(&ClientState::default(), &w, None, None).is_ok());
}

#[test]
fn a_token_the_system_protects() {
    let stored = token_stored(&[0xff, 0x00, 0x10]);
    assert_eq!(stored, "/wAQ");
    assert_eq!(token_blob(&stored).unwrap(), vec![0xff, 0x00, 0x10]);
    assert_eq!(token_blob("***"), Err(WrapError::NotBase64));
    assert_eq!(token_text(b"tok".to_vec()).unwrap(), "tok");
    assert_eq!(token_text(vec![0xff]), Err(WrapError::NotText));
    let st = ClientState { access_token: Some("tok".to_string()), ..ClientState::default() };
    let d = save_state_stored(&st, Some(stored.clone()));
    assert_eq!((d.access_token.clone(), d.access_token_wrapped.clone()), (None, Some(stored)));
    let (back, note) = load_state_opened(d, Ok("tok".to_string()));
    assert_eq!(back.access_token.as_deref(), Some("tok"));
    assert!(matches!(note, LoadNote::Nothing));
    // what the system will not open is logged out
    let d = save_state_stored(&st, Some("AAAA".to_string()));
    let e = WrapError::System("CryptUnprotectData: refused".to_string());
    assert_eq!(e.message(""), "CryptUnprotectData: refused");
    let (back, note) = load_state_opened(d, Err(e));
    assert_eq!((back.access_token, back.access_token_wrapped), (None, None));
    assert!(matches!(note, LoadNote::TokenUnwrapFailed(WrapError::System(_))));
}
