use mqtt_ingest::codec::{
    decode, encode, encode_suback, encode_unsuback, encode_connack, encode_connect, encode_pingreq, encode_pingresp, encode_publish,
    ConnectReturnCode, Decoded, Packet,
};

fn publish_of(d: &Decoded) -> Option<(Vec<u8>, Vec<u8>, usize)> {
    match d {
        Decoded::Frame { packet: Packet::Publish { topic, payload }, consumed } => {
            Some((topic.clone(), payload.clone(), *consumed))
        }
        _ => None,
    }
}

#[test]
fn empty_buffer_is_incomplete() {
    assert!(matches!(decode(&[]), Decoded::Incomplete));
}

#[test]
fn header_without_length_is_incomplete() {
    assert!(matches!(decode(&[0x30]), Decoded::Incomplete));
    assert!(matches!(decode(&[0x30, 0x80]), Decoded::Incomplete));
}

#[test]
fn partial_body_is_incomplete() {
    let frame = encode_publish(b"t", b"hello");
    assert!(matches!(decode(&frame[..frame.len() - 1]), Decoded::Incomplete));
}

#[test]
fn reserved_kinds_are_malformed() {
    assert!(matches!(decode(&[0x00, 0x00]), Decoded::Malformed));
    assert!(matches!(decode(&[0xF0, 0x00]), Decoded::Malformed));
}

#[test]
fn five_length_bytes_are_malformed() {
    assert!(matches!(decode(&[0x30, 0x80, 0x80, 0x80, 0x80, 0x01]), Decoded::Malformed));
}

#[test]
fn four_length_bytes_decode() {
    // 0x80 0x80 0x80 0x01 is 2^21, far more than present: incomplete, not malformed.
    assert!(matches!(decode(&[0x30, 0x80, 0x80, 0x80, 0x01]), Decoded::Incomplete));
}

#[test]
fn publish_qos3_is_malformed() {
    assert!(matches!(decode(&[0x36, 0x02, 0x00, 0x00]), Decoded::Malformed));
}

#[test]
fn publish_topic_longer_than_body_is_malformed() {
    assert!(matches!(decode(&[0x30, 0x03, 0x00, 0x05, 0x61]), Decoded::Malformed));
}

#[test]
fn publish_round_trip() {
    let frame = encode_publish(b"devices/a", b"{\"x\":1}");
    assert_eq!(frame[0], 0x30);
    assert_eq!(frame[1] as usize, 2 + 9 + 7);
    let (topic, payload, consumed) = publish_of(&decode(&frame)).unwrap();
    assert_eq!(topic, b"devices/a".to_vec());
    assert_eq!(payload, b"{\"x\":1}".to_vec());
    assert_eq!(consumed, frame.len());
}

#[test]
fn publish_with_two_byte_length() {
    let payload = vec![7u8; 300];
    let frame = encode_publish(b"t", &payload);
    // 2 + 1 + 300 = 303 = 0x2F + 2 * 128
    assert_eq!(&frame[..3], &[0x30, 0xAF, 0x02]);
    let (topic, got, consumed) = publish_of(&decode(&frame)).unwrap();
    assert_eq!(topic, b"t".to_vec());
    assert_eq!(got, payload);
    assert_eq!(consumed, 306);
}

#[test]
fn publish_qos1_skips_packet_id() {
    let bytes = [0x32, 0x06, 0x00, 0x01, b'a', 0x00, 0x07, b'z'];
    let (topic, payload, consumed) = publish_of(&decode(&bytes)).unwrap();
    assert_eq!(topic, b"a".to_vec());
    assert_eq!(payload, b"z".to_vec());
    assert_eq!(consumed, 8);
}

#[test]
fn decode_takes_only_the_first_frame() {
    let mut bytes = encode_pingreq();
    bytes.extend(encode_publish(b"t", b"p"));
    assert!(matches!(decode(&bytes), Decoded::Frame { packet: Packet::Pingreq, consumed: 2 }));
}

#[test]
fn connack_encodes_and_decodes() {
    let frame = encode_connack(false, ConnectReturnCode::Accepted);
    assert_eq!(frame, vec![0x20, 0x02, 0x00, 0x00]);
    let frame = encode_connack(true, ConnectReturnCode::NotAuthorized);
    assert_eq!(frame, vec![0x20, 0x02, 0x01, 0x05]);
    match decode(&frame) {
        Decoded::Frame { packet: Packet::Connack { session_present, code }, consumed } => {
            assert!(session_present);
            assert_eq!(code, ConnectReturnCode::NotAuthorized);
            assert_eq!(consumed, 4);
        }
        other => panic!("unexpected {:?}", other),
    }
}

#[test]
fn connack_bad_code_is_malformed() {
    assert!(matches!(decode(&[0x20, 0x02, 0x00, 0x06]), Decoded::Malformed));
    assert!(matches!(decode(&[0x20, 0x03, 0x00, 0x00, 0x00]), Decoded::Malformed));
}

#[test]
fn ping_frames() {
    assert_eq!(encode_pingreq(), vec![0xC0, 0x00]);
    assert_eq!(encode_pingresp(), vec![0xD0, 0x00]);
    assert!(matches!(decode(&[0xD0, 0x00]), Decoded::Frame { packet: Packet::Pingresp, consumed: 2 }));
    assert!(matches!(decode(&[0xC0, 0x01, 0x00]), Decoded::Malformed));
}

#[test]
fn connect_encodes_and_decodes() {
    let frame = encode_connect(60, b"dev1");
    assert_eq!(frame[0], 0x10);
    assert_eq!(frame[1] as usize, 10 + 2 + 4);
    assert!(matches!(decode(&frame), Decoded::Frame { packet: Packet::Connect, consumed } if consumed == frame.len()));
}

#[test]
fn subscribe_filters() {
    let bytes = [0x82, 0x0A, 0x00, 0x07, 0x00, 0x01, b'#', 0x00, 0x00, 0x01, b'a', 0x01];
    match decode(&bytes) {
        Decoded::Frame { packet: Packet::Subscribe { pkid, filters }, consumed } => {
            assert_eq!(pkid, 7);
            assert_eq!(filters, vec![b"#".to_vec(), b"a".to_vec()]);
            assert_eq!(consumed, 12);
        }
        other => panic!("unexpected {:?}", other),
    }
}

#[test]
fn subscribe_missing_qos_is_malformed() {
    assert!(matches!(decode(&[0x82, 0x05, 0x00, 0x01, 0x00, 0x01, b'#']), Decoded::Malformed));
}

#[test]
fn unsubscribe_filters() {
    let bytes = [0xA2, 0x05, 0x01, 0x02, 0x00, 0x01, b'x'];
    match decode(&bytes) {
        Decoded::Frame { packet: Packet::Unsubscribe { pkid, filters }, consumed } => {
            assert_eq!(pkid, 0x0102);
            assert_eq!(filters, vec![b"x".to_vec()]);
            assert_eq!(consumed, 7);
        }
        other => panic!("unexpected {:?}", other),
    }
}

#[test]
fn other_kind_is_reported() {
    assert!(matches!(decode(&[0x40, 0x02, 0x00, 0x01]), Decoded::Frame { packet: Packet::Other { kind: 4 }, consumed: 4 }));
}

#[test]
fn decode_is_repeatable_and_leaves_buffer() {
    let mut bytes = encode_connect(10, b"a");
    bytes.extend(&encode_publish(b"t", b"p")[..3]);
    let copy = bytes.clone();
    let first = format!("{:?}", decode(&bytes));
    let second = format!("{:?}", decode(&bytes));
    assert_eq!(first, second);
    assert_eq!(bytes, copy);
    let tail = bytes[bytes.len() - 3..].to_vec();
    let a = format!("{:?}", decode(&tail));
    let b = format!("{:?}", decode(&tail));
    assert_eq!(a, "Incomplete");
    assert_eq!(a, b);
}

#[test]
fn encode_subscribe_round_trip() {
    let p = Packet::Subscribe { pkid: 0x1234, filters: vec![b"#".to_vec(), b"dev/+".to_vec()] };
    let frame = encode(&p);
    assert_eq!(
        frame,
        vec![0x82, 0x0E, 0x12, 0x34, 0x00, 0x01, b'#', 0x00, 0x00, 0x05, b'd', b'e', b'v', b'/', b'+', 0x00]
    );
    match decode(&frame) {
        Decoded::Frame { packet: Packet::Subscribe { pkid, filters }, consumed } => {
            assert_eq!(pkid, 0x1234);
            assert_eq!(filters, vec![b"#".to_vec(), b"dev/+".to_vec()]);
            assert_eq!(consumed, frame.len());
        }
        other => panic!("unexpected {:?}", other),
    }
}

#[test]
fn encode_unsubscribe_round_trip() {
    let frame = encode(&Packet::Unsubscribe { pkid: 9, filters: vec![b"a/b".to_vec()] });
    assert_eq!(frame, vec![0xA2, 0x07, 0x00, 0x09, 0x00, 0x03, b'a', b'/', b'b']);
    assert!(matches!(decode(&frame), Decoded::Frame { packet: Packet::Unsubscribe { pkid: 9, .. }, consumed: 9 }));
}

#[test]
fn encode_simple_packets() {
    assert_eq!(encode(&Packet::Pingreq), vec![0xC0, 0x00]);
    assert_eq!(encode(&Packet::Pingresp), vec![0xD0, 0x00]);
    assert_eq!(encode(&Packet::Other { kind: 4 }), vec![0x40, 0x00]);
    assert_eq!(
        encode(&Packet::Connack { session_present: false, code: ConnectReturnCode::BadClientId }),
        vec![0x20, 0x02, 0x00, 0x02]
    );
    let c = encode(&Packet::Connect);
    assert_eq!(&c[..4], &[0x10, 0x0C, 0x00, 0x04]);
    assert!(matches!(decode(&c), Decoded::Frame { packet: Packet::Connect, consumed: 14 }));
    let p = encode(&Packet::Publish { topic: b"t".to_vec(), payload: b"v".to_vec() });
    assert_eq!(p, vec![0x30, 0x04, 0x00, 0x01, b't', b'v']);
}

#[test]
fn encode_large_remaining_length() {
    let payload = vec![1u8; 20000];
    let frame = encode_publish(b"", &payload);
    // 20002 = 0x22 + 0x1C * 128 + 1 * 16384
    assert_eq!(&frame[..4], &[0x30, 0xA2, 0x9C, 0x01]);
    let (topic, got, consumed) = publish_of(&decode(&frame)).unwrap();
    assert!(topic.is_empty());
    assert_eq!(got.len(), 20000);
    assert_eq!(consumed, 20006);
}

#[test]
fn suback_bytes_grant_qos0() {
    assert_eq!(encode_suback(0x1234, 2), vec![0x90, 0x04, 0x12, 0x34, 0x00, 0x00]);
    assert_eq!(encode_suback(7, 0), vec![0x90, 0x02, 0x00, 0x07]);
    let long = encode_suback(1, 200);
    // 202 = 0x4A + 1 * 128
    assert_eq!(&long[..5], &[0x90, 0xCA, 0x01, 0x00, 0x01]);
    assert_eq!(long.len(), 205);
    assert!(long[5..].iter().all(|b| *b == 0));
}

#[test]
fn unsuback_bytes() {
    assert_eq!(encode_unsuback(0x0102), vec![0xB0, 0x02, 0x01, 0x02]);
}

#[test]
fn connect_exact_bytes() {
    let frame = encode_connect(0x0102, b"ab");
    assert_eq!(
        frame,
        vec![0x10, 0x0E, 0x00, 0x04, b'M', b'Q', b'T', b'T', 0x04, 0x02, 0x01, 0x02, 0x00, 0x02, b'a', b'b']
    );
}
