use lightcore::coap::{
    CoapClient, ObserveStep, ReadEvent, ReceiveProgress, ReceiveState, observe_decision, READ_UNIT,
};
use lightcore::codec::{MessageType, Packet};
use lightcore::errors::ReceiveError;

#[test]
fn get_packet_has_expected_shape() {
    let mut client = CoapClient::new([192, 168, 1, 10], 5683);
    let p = client.create_get_packet("lights/abc", true, true, true);
    assert_eq!(p.message_type, MessageType::Confirmable);
    assert_eq!(p.code, 1);
    assert_eq!(p.message_id, 0);
    assert_eq!(p.token, vec![0]);
    assert_eq!(
        p.options,
        vec![
            (6, vec![0]),
            (11, b"lights".to_vec()),
            (11, b"abc".to_vec()),
            (12, vec![0, 0]),
        ]
    );
    assert!(p.payload.is_empty());
    assert_eq!(client.msg_id, 1);
    assert_eq!(client.token, 1);
}

#[test]
fn get_packet_without_observe_or_token_advance() {
    let mut client = CoapClient::new([10, 0, 0, 1], 1234);
    let p = client.create_get_packet("a", false, false, false);
    assert_eq!(p.message_type, MessageType::NonConfirmable);
    assert_eq!(p.options, vec![(11, b"a".to_vec()), (12, vec![0, 0])]);
    assert_eq!(client.msg_id, 1);
    assert_eq!(client.token, 0);
    let q = client.create_get_packet("a", false, false, false);
    assert_eq!(q.token, vec![0]);
    assert_eq!(q.message_id, 1);
}

#[test]
fn counters_wrap_around() {
    let mut client = CoapClient::new([1, 2, 3, 4], 1);
    client.msg_id = 65535;
    client.token = 255;
    let p = client.create_get_packet("x", true, true, false);
    assert_eq!(p.message_id, 65535);
    assert_eq!(p.token, vec![255]);
    assert_eq!(client.msg_id, 0);
    assert_eq!(client.token, 0);
}

#[test]
fn ack_echoes_token_and_message_id() {
    let client = CoapClient::new([1, 2, 3, 4], 1);
    let resp = Packet {
        message_type: MessageType::Confirmable,
        code: 69,
        message_id: 777,
        token: vec![9, 8],
        options: vec![(11, b"z".to_vec())],
        payload: b"data".to_vec(),
    };
    let ack = client.ack_packet(&resp);
    assert_eq!(ack.message_type, MessageType::Acknowledgement);
    assert_eq!(ack.code, 0);
    assert_eq!(ack.message_id, 777);
    assert_eq!(ack.token, vec![9, 8]);
    assert!(ack.options.is_empty());
    assert!(ack.payload.is_empty());
}

fn encoded_sample() -> (Packet, Vec<u8>) {
    let p = Packet {
        message_type: MessageType::Acknowledgement,
        code: 69,
        message_id: 42,
        token: vec![3],
        options: vec![],
        payload: b"{\"k\":1}".to_vec(),
    };
    let bytes = p.encode().unwrap();
    (p, bytes)
}

fn pad_to_unit(mut chunk: Vec<u8>) -> Vec<u8> {
    chunk.resize(READ_UNIT, 0);
    chunk
}

#[test]
fn receive_completes_in_single_read() {
    let (p, bytes) = encoded_sample();
    let total = bytes.len();
    let mut state = ReceiveState::new(1000, 5);
    let outcome = state.poll(ReadEvent::Data(pad_to_unit(bytes), total), 1001);
    match outcome {
        ReceiveProgress::Complete(q) => {
            assert_eq!(q.message_id, p.message_id);
            assert_eq!(q.payload, p.payload);
            assert_eq!(q.token, p.token);
        }
        _ => panic!("expected a complete response"),
    }
}

#[test]
fn receive_assembles_split_response() {
    // A payload long enough that the encoded message spans three reads.
    let p = Packet {
        message_type: MessageType::Acknowledgement,
        code: 69,
        message_id: 7,
        token: vec![1],
        options: vec![],
        payload: vec![b'a'; 1200],
    };
    let bytes = p.encode().unwrap();
    let total = bytes.len();
    assert!(total > 2 * READ_UNIT && total < 3 * READ_UNIT);
    let mut state = ReceiveState::new(0, 5);
    let c1 = bytes[0..READ_UNIT].to_vec();
    let c2 = bytes[READ_UNIT..2 * READ_UNIT].to_vec();
    let c3 = pad_to_unit(bytes[2 * READ_UNIT..].to_vec());
    assert!(matches!(
        state.poll(ReadEvent::Data(c1, total), 1),
        ReceiveProgress::Pending
    ));
    assert!(matches!(
        state.poll(ReadEvent::Data(c2, total), 2),
        ReceiveProgress::Pending
    ));
    match state.poll(ReadEvent::Data(c3, total), 3) {
        ReceiveProgress::Complete(q) => {
            assert_eq!(q.payload, p.payload);
            assert_eq!(q.message_id, 7);
        }
        _ => panic!("expected completion on the third read"),
    }
}

#[test]
fn receive_needs_extra_read_at_exact_unit_multiple() {
    // An encoded message of exactly one read unit: 4 header bytes, no
    // token, a payload marker and 507 payload bytes.
    let p = Packet {
        message_type: MessageType::Acknowledgement,
        code: 69,
        message_id: 9,
        token: vec![],
        options: vec![],
        payload: vec![b'b'; READ_UNIT - 5],
    };
    let bytes = p.encode().unwrap();
    assert_eq!(bytes.len(), READ_UNIT);
    let total = bytes.len();
    let mut state = ReceiveState::new(0, 5);
    // The first read covers the whole datagram but completion is detected
    // only once more bytes than the declared total have been read.
    assert!(matches!(
        state.poll(ReadEvent::Data(bytes.clone(), total), 1),
        ReceiveProgress::Pending
    ));
    match state.poll(ReadEvent::Data(vec![0; READ_UNIT], total), 2) {
        ReceiveProgress::Complete(q) => {
            assert_eq!(q.payload, p.payload);
        }
        _ => panic!("expected completion on the extra read"),
    }
}

#[test]
fn receive_times_out_instead_of_decoding_partial_data() {
    let (_, bytes) = encoded_sample();
    // Claim a total longer than what ever arrives.
    let total = 600;
    let mut state = ReceiveState::new(0, 5);
    // deadline is at 5000
    assert!(matches!(
        state.poll(ReadEvent::Data(pad_to_unit(bytes), total), 100),
        ReceiveProgress::Pending
    ));
    let outcome = state.poll(ReadEvent::Nothing, 5001);
    assert!(matches!(
        outcome,
        ReceiveProgress::Failed(ReceiveError::Timeout)
    ));
}

#[test]
fn receive_reports_transport_failure() {
    let mut state = ReceiveState::new(0, 5);
    assert!(matches!(
        state.poll(ReadEvent::Failure, 1),
        ReceiveProgress::Failed(ReceiveError::Transport)
    ));
}

#[test]
fn receive_reports_decode_failure_on_garbage() {
    let mut state = ReceiveState::new(0, 5);
    let garbage = vec![0xeeu8; READ_UNIT];
    let outcome = state.poll(ReadEvent::Data(garbage, 10), 1);
    assert!(matches!(
        outcome,
        ReceiveProgress::Failed(ReceiveError::Decode)
    ));
}

#[test]
fn observe_decisions() {
    let (p, _) = encoded_sample();
    assert_eq!(
        observe_decision(&ReceiveProgress::Complete(p)),
        ObserveStep::Deliver
    );
    assert_eq!(
        observe_decision(&ReceiveProgress::Failed(ReceiveError::Timeout)),
        ObserveStep::Stop
    );
    assert_eq!(
        observe_decision(&ReceiveProgress::Failed(ReceiveError::Transport)),
        ObserveStep::KeepWaiting
    );
    assert_eq!(
        observe_decision(&ReceiveProgress::Failed(ReceiveError::Decode)),
        ObserveStep::KeepWaiting
    );
    assert_eq!(
        observe_decision(&ReceiveProgress::Pending),
        ObserveStep::KeepWaiting
    );
}
