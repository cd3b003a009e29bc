use lightcore::pairing::{
    characteristic_read, configured_flag_value, CredentialFramer, PairingSession, SessionAction,
    SessionPhase,
};

fn expect_buffer(framer: &CredentialFramer, content: &[u8]) {
    let buf = framer.buffer();
    assert_eq!(buf.len(), 128);
    assert_eq!(&buf[0..content.len()], content);
    for k in content.len()..128 {
        assert_eq!(buf[k], 0, "byte {} should be NUL padding", k);
    }
}

#[test]
fn whole_credential_in_one_chunk() {
    let mut framer = CredentialFramer::new();
    let finished = framer.handle_write(b"....MySSID....");
    assert!(finished);
    assert!(framer.is_finished());
    expect_buffer(&framer, b"MySSID");
}

#[test]
fn end_sentinel_split_across_chunks() {
    let mut framer = CredentialFramer::new();
    assert!(!framer.handle_write(b"....My"));
    assert!(!framer.handle_write(b"SSID.."));
    assert!(framer.handle_write(b".."));
    assert!(framer.is_finished());
    expect_buffer(&framer, b"MySSID");
}

#[test]
fn noise_outside_message_is_ignored() {
    let mut framer = CredentialFramer::new();
    assert!(!framer.handle_write(b"hello world"));
    assert!(!framer.is_finished());
    expect_buffer(&framer, b"");
}

#[test]
fn chunks_after_finish_need_a_new_start() {
    let mut framer = CredentialFramer::new();
    assert!(framer.handle_write(b"....abc...."));
    assert!(!framer.handle_write(b"junk"));
    expect_buffer(&framer, b"abc");
    // A new start sentinel restarts accumulation from offset zero.
    assert!(framer.handle_write(b"....xy...."));
    expect_buffer(&framer, b"xy");
}

#[test]
fn new_start_sentinel_resets_partial_message() {
    let mut framer = CredentialFramer::new();
    assert!(!framer.handle_write(b"....partial"));
    // Not in-message start detection: the framer is mid-message, so the
    // sentinel bytes count as payload here; close it out first.
    assert!(framer.handle_write(b"...."));
    expect_buffer(&framer, b"partial");
    assert!(framer.handle_write(b"....second...."));
    expect_buffer(&framer, b"second");
}

#[test]
fn session_happy_path() {
    let mut session = PairingSession::new();
    assert_eq!(session.poll(), SessionAction::Idle);
    assert!(session.on_ssid_write(b"....net...."));
    assert!(session.ssid_written);
    assert_eq!(session.poll(), SessionAction::Idle);
    assert!(session.on_password_write(b"....pw...."));
    assert!(session.password_written);
    assert_eq!(session.poll(), SessionAction::AttemptConnect);
    assert_eq!(session.phase, SessionPhase::Connecting);
    assert_eq!(
        session.on_connect_result(true),
        SessionAction::NotifyConfigured
    );
    assert_eq!(session.phase, SessionPhase::AwaitingAppAck);
    assert_eq!(session.poll(), SessionAction::Idle);
    session.on_app_ack();
    assert_eq!(session.poll(), SessionAction::PersistConfiguredFlag);
    assert_eq!(session.phase, SessionPhase::Finished);
}

#[test]
fn session_resets_on_connect_failure() {
    let mut session = PairingSession::new();
    assert!(session.on_ssid_write(b"....net...."));
    assert!(session.on_password_write(b"....pw...."));
    assert_eq!(session.poll(), SessionAction::AttemptConnect);
    assert_eq!(session.on_connect_result(false), SessionAction::Idle);
    assert_eq!(session.phase, SessionPhase::AwaitingCredentials);
    assert!(!session.ssid_written);
    assert!(!session.password_written);
    assert!(!session.config_confirmed);
    // The user resends credentials and the session tries again.
    assert!(session.on_ssid_write(b"....net2...."));
    assert!(session.on_password_write(b"....pw2...."));
    assert_eq!(session.poll(), SessionAction::AttemptConnect);
}

#[test]
fn configured_flag_values() {
    assert_eq!(&configured_flag_value(true), b"true\0\0\0\0");
    assert_eq!(&configured_flag_value(false), b"false\0\0\0");
}

#[test]
fn characteristic_read_resumes_at_offset() {
    let id = b"0123456789";
    assert_eq!(characteristic_read(id, 0), b"0123456789".to_vec());
    assert_eq!(characteristic_read(id, 4), b"456789".to_vec());
    assert_eq!(characteristic_read(id, 10), Vec::<u8>::new());
}
