use lightcore::codec::{MessageType, Packet};

fn sample_packet() -> Packet {
    Packet {
        message_type: MessageType::Confirmable,
        code: 1,
        message_id: 0x1234,
        token: vec![7],
        options: vec![
            (6, vec![0]),
            (11, b"lights".to_vec()),
            (11, b"abc".to_vec()),
            (12, vec![0, 0]),
        ],
        payload: b"{}".to_vec(),
    }
}

fn assert_packets_equal(a: &Packet, b: &Packet) {
    assert_eq!(a.message_type, b.message_type);
    assert_eq!(a.code, b.code);
    assert_eq!(a.message_id, b.message_id);
    assert_eq!(a.token, b.token);
    assert_eq!(a.options, b.options);
    assert_eq!(a.payload, b.payload);
}

#[test]
fn round_trip_request() {
    let p = sample_packet();
    let bytes = p.encode().unwrap();
    let q = Packet::decode(&bytes).unwrap();
    assert_packets_equal(&p, &q);
}

#[test]
fn round_trip_empty_ack() {
    let p = Packet {
        message_type: MessageType::Acknowledgement,
        code: 0,
        message_id: 65535,
        token: vec![],
        options: vec![],
        payload: vec![],
    };
    let bytes = p.encode().unwrap();
    assert_eq!(bytes, vec![0x60, 0, 0xff, 0xff]);
    let q = Packet::decode(&bytes).unwrap();
    assert_packets_equal(&p, &q);
}

#[test]
fn round_trip_long_option_values() {
    // One value needs a one-byte length extension, one a two-byte one.
    let p = Packet {
        message_type: MessageType::NonConfirmable,
        code: 69,
        message_id: 0,
        token: vec![1, 2, 3, 4, 5, 6, 7, 8],
        options: vec![(11, vec![b'x'; 300]), (2049, vec![b'y'; 13])],
        payload: vec![0xff, 0x00, 0x41],
    };
    let bytes = p.encode().unwrap();
    let q = Packet::decode(&bytes).unwrap();
    assert_packets_equal(&p, &q);
}

#[test]
fn header_layout_is_fixed() {
    let p = sample_packet();
    let bytes = p.encode().unwrap();
    // version 1, type Confirmable (0), token length 1
    assert_eq!(bytes[0], 0x41);
    assert_eq!(bytes[1], 1);
    assert_eq!(bytes[2], 0x12);
    assert_eq!(bytes[3], 0x34);
    assert_eq!(bytes[4], 7);
    // Observe option: delta 6, length 1, value 0
    assert_eq!(bytes[5], 0x61);
    assert_eq!(bytes[6], 0);
}

#[test]
fn encode_rejects_oversized_token() {
    let mut p = sample_packet();
    p.token = vec![0; 9];
    assert!(p.encode().is_err());
}

#[test]
fn encode_rejects_unsorted_options() {
    let mut p = sample_packet();
    p.options = vec![(12, vec![]), (11, vec![b'a'])];
    assert!(p.encode().is_err());
}

#[test]
fn encode_rejects_oversized_option_value() {
    let mut p = sample_packet();
    p.options = vec![(11, vec![0u8; 65805])];
    assert!(p.encode().is_err());
}

#[test]
fn decode_rejects_truncated_header() {
    assert!(Packet::decode(&[]).is_err());
    assert!(Packet::decode(&[0x40, 0, 0]).is_err());
}

#[test]
fn decode_rejects_bad_version() {
    assert!(Packet::decode(&[0x80, 0, 0, 0]).is_err());
    assert!(Packet::decode(&[0x00, 0, 0, 0]).is_err());
}

#[test]
fn decode_rejects_oversized_token_length() {
    // token length nibble 9
    assert!(Packet::decode(&[0x49, 0, 0, 0]).is_err());
}

#[test]
fn decode_rejects_truncated_token() {
    // token length 2 but only one byte follows
    assert!(Packet::decode(&[0x42, 0, 0, 0, 7]).is_err());
}

#[test]
fn decode_rejects_marker_without_payload() {
    assert!(Packet::decode(&[0x40, 0, 0, 0, 0xff]).is_err());
}

#[test]
fn decode_rejects_reserved_nibble() {
    // option byte 0xf1: delta nibble 15 is reserved
    assert!(Packet::decode(&[0x40, 0, 0, 0, 0xf1]).is_err());
}

#[test]
fn decode_rejects_truncated_option_value() {
    // delta 1, length 2, but only one value byte present
    assert!(Packet::decode(&[0x40, 0, 0, 0, 0x12, 9]).is_err());
}

#[test]
fn decode_reads_payload_after_marker() {
    let q = Packet::decode(&[0x40, 69, 0, 1, 0xff, b'h', b'i']).unwrap();
    assert_eq!(q.payload, b"hi".to_vec());
    assert_eq!(q.options, vec![]);
    assert_eq!(q.message_id, 1);
}
