use lightcore::errors::{PasswordFlashError, SSIDFlashError};
use lightcore::utils::{
    actual_ip, configured_flag_bytes, is_device_configured, unconfigured_flag_bytes,
};
use lightcore::wifi_utils::{
    get_wifi_config, initialize_network_or_pair, should_attempt_reconnect, ConnPoll,
    ConnectionSupervisor, NetworkInitAction, SupervisorPhase, WifiConfigError,
    MAX_CONNECTION_TRIES,
};

fn padded_field(content: &[u8]) -> Vec<u8> {
    let mut buf = content.to_vec();
    buf.resize(128, 0);
    buf
}

#[test]
fn wifi_config_reads_back_padded_credentials() {
    let ssid = padded_field(b"MyNetwork");
    let pass = padded_field(b"hunter2!");
    let config = get_wifi_config(&ssid, &pass).unwrap();
    assert_eq!(config.ssid, "MyNetwork");
    assert_eq!(config.password, "hunter2!");
}

#[test]
fn wifi_config_rejects_invalid_ssid_first() {
    let bad = padded_field(&[0xff, 0xfe, 0x41]);
    let pass = padded_field(b"ok");
    assert!(matches!(
        get_wifi_config(&bad, &pass),
        Err(WifiConfigError::Ssid(SSIDFlashError))
    ));
    // Both fields invalid still reports the SSID.
    assert!(matches!(
        get_wifi_config(&bad, &bad),
        Err(WifiConfigError::Ssid(SSIDFlashError))
    ));
}

#[test]
fn wifi_config_rejects_invalid_password() {
    let ssid = padded_field(b"net");
    let bad = padded_field(&[0xc3]);
    assert!(matches!(
        get_wifi_config(&ssid, &bad),
        Err(WifiConfigError::Password(PasswordFlashError))
    ));
}

#[test]
fn error_messages() {
    assert_eq!(SSIDFlashError.message(), "Could not read SSID from flash");
    assert_eq!(
        PasswordFlashError.message(),
        "Could not read Password from flash"
    );
}

#[test]
fn supervisor_fails_after_exactly_budget_plus_one_attempts() {
    let mut supervisor = ConnectionSupervisor::new(MAX_CONNECTION_TRIES);
    let mut attempts = 0u32;
    while supervisor.phase == SupervisorPhase::AwaitingConnection {
        supervisor.on_connection_poll(ConnPoll::PollError);
        attempts += 1;
        assert!(attempts < 1000, "the supervisor must never hang");
    }
    assert_eq!(attempts, MAX_CONNECTION_TRIES as u32 + 1);
    assert_eq!(supervisor.phase, SupervisorPhase::Failed);
}

#[test]
fn supervisor_succeeds_after_association_and_address() {
    let mut supervisor = ConnectionSupervisor::new(MAX_CONNECTION_TRIES);
    supervisor.on_connection_poll(ConnPoll::NotConnected);
    supervisor.on_connection_poll(ConnPoll::PollError);
    supervisor.on_connection_poll(ConnPoll::Connected);
    assert_eq!(supervisor.phase, SupervisorPhase::AwaitingAddress);
    supervisor.on_address_poll(false);
    assert_eq!(supervisor.phase, SupervisorPhase::AwaitingAddress);
    supervisor.on_address_poll(true);
    assert_eq!(supervisor.phase, SupervisorPhase::Succeeded);
}

#[test]
fn supervisor_tolerates_errors_within_budget() {
    let mut supervisor = ConnectionSupervisor::new(MAX_CONNECTION_TRIES);
    for _ in 0..MAX_CONNECTION_TRIES {
        supervisor.on_connection_poll(ConnPoll::PollError);
        assert_eq!(supervisor.phase, SupervisorPhase::AwaitingConnection);
    }
    supervisor.on_connection_poll(ConnPoll::Connected);
    assert_eq!(supervisor.phase, SupervisorPhase::AwaitingAddress);
}

#[test]
fn configured_device_connects_directly() {
    let flag = [0u8, 0, 0, 0];
    let configured = is_device_configured(&flag);
    assert!(configured);
    assert_eq!(
        initialize_network_or_pair(configured),
        NetworkInitAction::ConnectToNetwork
    );
}

#[test]
fn unconfigured_device_pairs_first() {
    let flag = [0xffu8, 0xff, 0xff, 0xff];
    let configured = is_device_configured(&flag);
    assert!(!configured);
    assert_eq!(
        initialize_network_or_pair(configured),
        NetworkInitAction::StartPairing
    );
}

#[test]
fn partially_zero_flag_is_not_configured() {
    assert!(!is_device_configured(&[0, 0, 0, 1]));
}

#[test]
fn flag_constants_round_trip_through_the_check() {
    assert!(is_device_configured(&configured_flag_bytes()));
    assert!(!is_device_configured(&unconfigured_flag_bytes()));
    assert_eq!(unconfigured_flag_bytes(), [0xff; 4]);
}

#[test]
fn reconnect_only_when_poll_reports_no_association() {
    assert!(should_attempt_reconnect(ConnPoll::NotConnected));
    assert!(!should_attempt_reconnect(ConnPoll::Connected));
    assert!(!should_attempt_reconnect(ConnPoll::PollError));
}

#[test]
fn actual_ip_parses_dotted_quads() {
    assert_eq!(actual_ip("192.168.1.7"), Some([192, 168, 1, 7]));
    assert_eq!(actual_ip("0.0.0.0"), Some([0, 0, 0, 0]));
    assert_eq!(actual_ip("255.255.255.255"), Some([255, 255, 255, 255]));
}

#[test]
fn actual_ip_rejects_malformed_addresses() {
    assert_eq!(actual_ip("300.1.1.1"), None);
    assert_eq!(actual_ip("1.2.3"), None);
    assert_eq!(actual_ip("1.2.3.4.5"), None);
    assert_eq!(actual_ip("a.b.c.d"), None);
    assert_eq!(actual_ip("1..2.3"), None);
    assert_eq!(actual_ip(""), None);
    assert_eq!(actual_ip("-1.0.0.1"), None);
}
