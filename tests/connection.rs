use mqtt_ingest::codec::{encode_connect, encode_pingreq, encode_publish};
use mqtt_ingest::connection::{Action, Connection};
use mqtt_ingest::device::{DeviceControl, DeviceState, I2CADCRead};
use mqtt_ingest::envelope::{interpret, Envelope};
use mqtt_ingest::store::Logger;

fn drain(c: &mut Connection) -> Vec<String> {
    let mut out = Vec::new();
    loop {
        match c.next_action() {
            Action::Wait => return out,
            Action::Close => {
                out.push("Close".to_string());
                return out;
            }
            a => out.push(format!("{:?}", a)),
        }
    }
}

fn sample_state(n: u16) -> DeviceState {
    DeviceState {
        i2c_adc_state: I2CADCRead {
            battery_ma: -5,
            battery_mv: 3700,
            esp_vin_mv: 5000,
            generator_mv: 12000,
            pressure_mv: 1200,
        },
        pwm_pct: 50,
        n_pulses: n,
        time_ms: 1000,
    }
}

fn stream() -> Vec<u8> {
    let mut s = encode_connect(30, b"dev");
    s.extend(encode_publish(b"state", b"{\"n\":1}"));
    s.extend(encode_pingreq());
    s.extend(encode_publish(b"state", &vec![b'x'; 200]));
    s
}

#[test]
fn split_reads_give_same_actions() {
    let s = stream();
    let mut whole = Connection::new();
    whole.receive(&s);
    let expected = drain(&mut whole);
    assert_eq!(expected.len(), 4);
    for chunk in [1usize, 2, 3, 7, 50] {
        let mut c = Connection::new();
        let mut got = Vec::new();
        for piece in s.chunks(chunk) {
            c.receive(piece);
            got.extend(drain(&mut c));
        }
        assert_eq!(got, expected);
        assert_eq!(c.buffered(), 0);
    }
}

#[test]
fn connect_then_pingreq_replies_in_order() {
    let mut s = encode_connect(30, b"dev");
    s.extend(encode_pingreq());
    let mut c = Connection::new();
    assert!(!c.is_handshaked());
    c.receive(&s);
    match c.next_action() {
        Action::Reply(b) => assert_eq!(b, vec![0x20, 0x02, 0x00, 0x00]),
        other => panic!("unexpected {:?}", other),
    }
    assert!(c.is_handshaked());
    match c.next_action() {
        Action::Reply(b) => assert_eq!(b, vec![0xD0, 0x00]),
        other => panic!("unexpected {:?}", other),
    }
    assert!(matches!(c.next_action(), Action::Wait));
    assert_eq!(c.buffered(), 0);
}

#[test]
fn incomplete_leaves_buffer() {
    let frame = encode_publish(b"t", b"payload");
    let mut c = Connection::new();
    c.receive(&frame[..4]);
    assert!(matches!(c.next_action(), Action::Wait));
    assert!(matches!(c.next_action(), Action::Wait));
    assert_eq!(c.buffered(), 4);
    c.receive(&frame[4..]);
    match c.next_action() {
        Action::Deliver(p) => assert_eq!(p, b"payload".to_vec()),
        other => panic!("unexpected {:?}", other),
    }
}

#[test]
fn malformed_closes_connection() {
    let mut c = Connection::new();
    c.receive(&[0xF0, 0x00]);
    c.receive(&encode_pingreq());
    assert!(matches!(c.next_action(), Action::Close));
    assert!(c.is_closed());
    assert!(matches!(c.next_action(), Action::Close));
}

#[test]
fn malformed_peer_does_not_stop_other_producer() {
    let mut bad = Connection::new();
    let mut good = Connection::new();
    let mut logger = Logger::new();
    good.receive(&encode_connect(30, b"good"));
    bad.receive(&encode_connect(30, b"bad"));
    assert!(matches!(good.next_action(), Action::Reply(_)));
    assert!(matches!(bad.next_action(), Action::Reply(_)));
    bad.receive(&[0x00, 0x00]);
    assert!(matches!(bad.next_action(), Action::Close));
    good.receive(&encode_publish(b"s", b"{\"r\":1}"));
    match good.next_action() {
        Action::Deliver(p) => {
            let env = interpret(Some(sample_state(1)), None);
            assert!(logger.record(&env, &p).is_some());
        }
        other => panic!("unexpected {:?}", other),
    }
    assert!(!good.is_closed());
    assert_eq!(logger.rows(), 1);
}

#[test]
fn unknown_shape_is_dropped_and_connection_stays() {
    let mut c = Connection::new();
    let mut logger = Logger::new();
    c.receive(&encode_connect(30, b"dev"));
    c.receive(&encode_publish(b"s", b"{\"unknown\":true}"));
    c.receive(&encode_publish(b"s", b"{\"r\":2}"));
    assert!(matches!(c.next_action(), Action::Reply(_)));
    match c.next_action() {
        Action::Deliver(p) => assert!(logger.record(&interpret(None, None), &p).is_none()),
        other => panic!("unexpected {:?}", other),
    }
    assert_eq!(logger.rows(), 0);
    assert!(!c.is_closed());
    match c.next_action() {
        Action::Deliver(p) => {
            let chunk = logger.record(&interpret(Some(sample_state(2)), None), &p).unwrap();
            assert_eq!(chunk, b"{\"r\":2}]".to_vec());
        }
        other => panic!("unexpected {:?}", other),
    }
    assert_eq!(logger.rows(), 1);
}

#[test]
fn end_to_end_report_ping_control() {
    let report = b"{\"n_pulses\":3,\"pressure_ma\":1.2,\"generator_v\":12.0,\"battery_v\":3.7,\"regulator_output_v\":5.0}";
    let control = b"{\"enable_charger\":true,\"enable_pressure\":false}";
    let mut file = Logger::initial_text();
    let mut logger = Logger::new();
    let mut c = Connection::new();
    c.receive(&encode_connect(30, b"dev"));
    match c.next_action() {
        Action::Reply(b) => assert_eq!(b, vec![0x20, 0x02, 0x00, 0x00]),
        other => panic!("unexpected {:?}", other),
    }
    c.receive(&encode_publish(b"state", report));
    match c.next_action() {
        Action::Deliver(p) => {
            let env = interpret(Some(sample_state(3)), None);
            let chunk = logger.record(&env, &p).unwrap();
            file.pop();
            file.extend(chunk);
        }
        other => panic!("unexpected {:?}", other),
    }
    let mut want = b"[".to_vec();
    want.extend_from_slice(report);
    want.push(b']');
    assert_eq!(file, want);
    c.receive(&encode_pingreq());
    match c.next_action() {
        Action::Reply(b) => assert_eq!(b, vec![0xD0, 0x00]),
        other => panic!("unexpected {:?}", other),
    }
    c.receive(&encode_publish(b"state", control));
    match c.next_action() {
        Action::Deliver(p) => {
            let env = interpret(None, Some(DeviceControl { enable_charger: true, enable_pressure: false }));
            assert!(matches!(env, Envelope::Control(_)));
            assert!(logger.record(&env, &p).is_none());
        }
        other => panic!("unexpected {:?}", other),
    }
    assert_eq!(file, want);
    assert_eq!(logger.rows(), 1);
}

#[test]
fn subscribe_is_acknowledged() {
    let mut c = Connection::new();
    c.receive(&encode_connect(30, b"dev"));
    c.receive(&[0x82, 0x0A, 0x00, 0x07, 0x00, 0x01, b'#', 0x00, 0x00, 0x01, b'a', 0x01]);
    assert!(matches!(c.next_action(), Action::Reply(_)));
    match c.next_action() {
        Action::Reply(b) => assert_eq!(b, vec![0x90, 0x04, 0x00, 0x07, 0x00, 0x00]),
        other => panic!("unexpected {:?}", other),
    }
    assert!(matches!(c.next_action(), Action::Wait));
    assert!(!c.is_closed());
}

#[test]
fn unsubscribe_is_acknowledged() {
    let mut c = Connection::new();
    c.receive(&[0xA2, 0x05, 0x01, 0x02, 0x00, 0x01, b'x']);
    match c.next_action() {
        Action::Reply(b) => assert_eq!(b, vec![0xB0, 0x02, 0x01, 0x02]),
        other => panic!("unexpected {:?}", other),
    }
    assert!(matches!(c.next_action(), Action::Wait));
}

#[test]
fn overlong_length_closes_only_sender() {
    let mut a = Connection::new();
    let mut b = Connection::new();
    a.receive(&encode_connect(30, b"a"));
    b.receive(&encode_connect(30, b"b"));
    assert!(matches!(a.next_action(), Action::Reply(_)));
    assert!(matches!(b.next_action(), Action::Reply(_)));
    a.receive(&[0x30, 0xFF, 0xFF, 0xFF, 0xFF, 0x7F]);
    assert!(matches!(a.next_action(), Action::Close));
    assert!(a.is_closed());
    b.receive(&encode_publish(b"s", b"{\"r\":1}"));
    match b.next_action() {
        Action::Deliver(p) => assert_eq!(p, b"{\"r\":1}".to_vec()),
        other => panic!("unexpected {:?}", other),
    }
    assert!(!b.is_closed());
}
