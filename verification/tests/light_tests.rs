use lightcore::light::{handle_payload, light_action, parse_light_state, LightAction, LightState};

#[test]
fn deserializes_the_documented_payload() {
    let payload = br#"{"is_on":true,"brightness":200,"color":-1,"removed":false}"#;
    let state = parse_light_state(payload).unwrap();
    assert!(state.is_on);
    assert_eq!(state.brightness, 200);
    assert_eq!(state.color, -1);
    assert!(!state.removed);
}

#[test]
fn field_order_does_not_matter() {
    let payload = br#"{"removed":true,"color":16777215,"is_on":false,"brightness":0}"#;
    let state = parse_light_state(payload).unwrap();
    assert!(!state.is_on);
    assert_eq!(state.brightness, 0);
    assert_eq!(state.color, 16777215);
    assert!(state.removed);
}

#[test]
fn whitespace_between_tokens_is_accepted() {
    let payload =
        b" {\n\t\"is_on\" : true ,\r\n \"brightness\": 7, \"color\" :\t0, \"removed\" : false } ";
    let state = parse_light_state(payload).unwrap();
    assert!(state.is_on);
    assert_eq!(state.brightness, 7);
    assert_eq!(state.color, 0);
}

#[test]
fn missing_field_is_an_error_not_a_panic() {
    let payload = br#"{"is_on":true,"brightness":200,"color":-1}"#;
    assert!(parse_light_state(payload).is_err());
}

#[test]
fn repeated_field_is_an_error() {
    let payload = br#"{"is_on":true,"is_on":false,"brightness":1,"color":0,"removed":false}"#;
    assert!(parse_light_state(payload).is_err());
}

#[test]
fn unknown_field_is_an_error() {
    let payload = br#"{"is_on":true,"brightness":1,"color":0,"removed":false,"x":1}"#;
    assert!(parse_light_state(payload).is_err());
}

#[test]
fn out_of_range_values_are_errors() {
    assert!(parse_light_state(
        br#"{"is_on":true,"brightness":256,"color":0,"removed":false}"#
    )
    .is_err());
    assert!(parse_light_state(
        br#"{"is_on":true,"brightness":-1,"color":0,"removed":false}"#
    )
    .is_err());
    assert!(parse_light_state(
        br#"{"is_on":true,"brightness":1,"color":2147483648,"removed":false}"#
    )
    .is_err());
    assert!(parse_light_state(
        br#"{"is_on":true,"brightness":1,"color":99999999999999999999,"removed":false}"#
    )
    .is_err());
}

#[test]
fn extreme_color_values_round_trip() {
    let low = parse_light_state(
        br#"{"is_on":false,"brightness":1,"color":-2147483648,"removed":false}"#,
    )
    .unwrap();
    assert_eq!(low.color, -2147483648);
    let high = parse_light_state(
        br#"{"is_on":false,"brightness":1,"color":2147483647,"removed":false}"#,
    )
    .unwrap();
    assert_eq!(high.color, 2147483647);
}

#[test]
fn malformed_json_is_an_error() {
    assert!(parse_light_state(b"").is_err());
    assert!(parse_light_state(b"null").is_err());
    assert!(parse_light_state(b"{").is_err());
    assert!(parse_light_state(br#"{"is_on":true"#).is_err());
    assert!(parse_light_state(br#"{"is_on":yes,"brightness":1,"color":0,"removed":false}"#)
        .is_err());
    // A leading zero does not start a longer number.
    assert!(parse_light_state(
        br#"{"is_on":true,"brightness":01,"color":0,"removed":false}"#
    )
    .is_err());
    // Trailing content after the object.
    assert!(parse_light_state(
        br#"{"is_on":true,"brightness":1,"color":0,"removed":false}x"#
    )
    .is_err());
}

#[test]
fn action_for_removed_state_is_reset() {
    let state = LightState { is_on: true, brightness: 50, color: 0, removed: true };
    assert_eq!(light_action(&state, false), LightAction::Reset);
}

#[test]
fn action_scales_brightness_when_on() {
    let state = LightState { is_on: true, brightness: 200, color: 0, removed: false };
    assert_eq!(light_action(&state, false), LightAction::Apply(240, false));
    assert_eq!(light_action(&state, true), LightAction::Apply(240, true));
    let max = LightState { is_on: true, brightness: 255, color: 0, removed: false };
    assert_eq!(light_action(&max, false), LightAction::Apply(251, false));
}

#[test]
fn action_switches_off_when_not_on() {
    let state = LightState { is_on: false, brightness: 200, color: 0, removed: false };
    assert_eq!(light_action(&state, true), LightAction::Off);
}

#[test]
fn handle_payload_combines_parse_and_action() {
    let payload = br#"{"is_on":true,"brightness":100,"color":-1,"removed":false}"#;
    assert_eq!(handle_payload(payload, false), Ok(LightAction::Apply(220, false)));
    assert!(handle_payload(b"not json", false).is_err());
}
