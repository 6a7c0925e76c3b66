use mqttrs::{
    decode, encode, read_header, read_length, Connack, Connect, ConnectReturnCode, Error, Packet,
    PacketType, Pid, Protocol, Publish, QoS, QosPid, Suback, Subscribe, SubscribeReturnCodes,
    SubscribeTopic, Unsubscribe,
};

fn pid(v: u16) -> Pid {
    Pid::new(v).unwrap()
}

fn roundtrip(p: Packet) {
    let mut buf: Vec<u8> = Vec::new();
    encode(&p, &mut buf).unwrap();
    let decoded = decode(&mut buf).unwrap().unwrap();
    assert_eq!(decoded, p);
    assert!(buf.is_empty());
}

#[test]
fn pingreq_decodes_from_two_bytes() {
    let mut buf = vec![0xC0u8, 0x00];
    let p = decode(&mut buf).unwrap();
    assert_eq!(p, Some(Packet::Pingreq));
    assert!(buf.is_empty());
}

#[test]
fn suback_encodes_to_expected_bytes() {
    let p = Packet::Suback(Suback::new(pid(1), vec![SubscribeReturnCodes::Success(
        QoS::AtMostOnce,
    )]));
    let mut buf: Vec<u8> = Vec::new();
    encode(&p, &mut buf).unwrap();
    assert_eq!(buf, vec![0x90u8, 0x03, 0x00, 0x01, 0x00]);
}

#[test]
fn short_subscribe_waits_for_more_bytes() {
    // Header claims remaining length 50 with only 10 payload bytes buffered.
    let mut buf = vec![0x82u8, 50];
    buf.extend_from_slice(&[0u8; 10]);
    // The header itself parses: the availability check is decode's own step.
    let (h, size) = read_header(&buf).unwrap().unwrap();
    assert_eq!(h.typ, PacketType::Subscribe);
    assert_eq!(h.len, 50);
    assert_eq!(size, 2);
    // decode sees the declared body is not buffered and consumes nothing.
    let before = buf.clone();
    let r = decode(&mut buf).unwrap();
    assert!(r.is_none());
    assert_eq!(buf, before);
}

#[test]
fn suback_with_zero_pid_fails_with_invalid_pid() {
    let mut buf = vec![0x90u8, 0x03, 0x00, 0x00, 0x00];
    assert_eq!(decode(&mut buf).unwrap_err(), Error::InvalidPid);
}

#[test]
fn subscribe_topic_with_bad_qos_fails_with_invalid_qos() {
    // pid 1, topic "a" requesting QoS byte 3.
    let mut buf = vec![0x82u8, 0x06, 0x00, 0x01, 0x00, 0x01, b'a', 0x03];
    assert_eq!(decode(&mut buf).unwrap_err(), Error::InvalidQos);
}

#[test]
fn pid_rejects_zero_and_roundtrips() {
    assert_eq!(Pid::new(0).unwrap_err(), Error::InvalidPid);
    let p = Pid::new(1).unwrap();
    assert_eq!(p.value(), 1);
    roundtrip(Packet::Puback(p));
}

#[test]
fn qos_domain() {
    for b in 0u8..=2 {
        let q = QoS::from_u8(b).unwrap();
        assert_eq!(q.to_u8(), b);
    }
    assert_eq!(QoS::from_u8(3).unwrap_err(), Error::InvalidQos);
}

#[test]
fn subscribe_return_code_domain() {
    let mut buf = vec![0x80u8, 0x00, 0x01, 0x02];
    let mut off = 0usize;
    assert_eq!(
        SubscribeReturnCodes::from_buffer(&buf, &mut off).unwrap(),
        SubscribeReturnCodes::Failure
    );
    for b in 0u8..=2 {
        let c = SubscribeReturnCodes::from_buffer(&buf, &mut off).unwrap();
        assert_eq!(c, SubscribeReturnCodes::Success(QoS::from_u8(b).unwrap()));
        assert_eq!(c.to_u8(), b);
    }
    buf = vec![0x03u8];
    off = 0;
    assert_eq!(
        SubscribeReturnCodes::from_buffer(&buf, &mut off).unwrap_err(),
        Error::InvalidQos
    );
}

#[test]
fn varint_boundaries() {
    for (len, bytes) in [
        (0usize, 1usize),
        (127, 1),
        (128, 2),
        (16383, 2),
        (16384, 3),
        (2097151, 3),
        (2097152, 4),
        (268435455, 4),
    ] {
        let mut buf: Vec<u8> = Vec::new();
        let w = mqttrs::encoder::write_length(len, &mut buf);
        assert_eq!(w, bytes);
        assert_eq!(buf.len(), bytes);
        let (back, end) = read_length(&buf, 0).unwrap().unwrap();
        assert_eq!(back, len);
        assert_eq!(end, bytes);
    }
    // A fourth byte with its continuation bit set is rejected.
    let over = vec![0x80u8, 0x80, 0x80, 0x80, 0x01];
    assert_eq!(read_length(&over, 0).unwrap_err(), Error::InvalidLength);
}

#[test]
fn header_parses_type_and_flags() {
    let buf = vec![0x82u8, 0x02, 0x00, 0x01];
    let (h, size) = read_header(&buf).unwrap().unwrap();
    assert_eq!(h.typ, PacketType::Subscribe);
    assert_eq!(h.flags, 2);
    assert_eq!(h.len, 2);
    assert_eq!(size, 2);
}

#[test]
fn unknown_packet_type_is_rejected() {
    let mut buf = vec![0x00u8, 0x00];
    assert_eq!(decode(&mut buf).unwrap_err(), Error::UnknownPacketType);
}

#[test]
fn roundtrip_all_pid_packets() {
    roundtrip(Packet::Puback(pid(42)));
    roundtrip(Packet::Pubrec(pid(65535)));
    roundtrip(Packet::Pubrel(pid(7)));
    roundtrip(Packet::Pubcomp(pid(8)));
    roundtrip(Packet::Unsuback(pid(9)));
    roundtrip(Packet::Pingreq);
    roundtrip(Packet::Pingresp);
    roundtrip(Packet::Disconnect);
}

#[test]
fn roundtrip_connack() {
    roundtrip(Packet::Connack(Connack { session_present: true, code: ConnectReturnCode::Accepted }));
    roundtrip(Packet::Connack(Connack {
        session_present: false,
        code: ConnectReturnCode::NotAuthorized,
    }));
}

#[test]
fn roundtrip_publish() {
    for qospid in [QosPid::AtMostOnce, QosPid::AtLeastOnce(pid(3)), QosPid::ExactlyOnce(pid(4))] {
        roundtrip(Packet::Publish(Publish {
            dup: false,
            qospid,
            retain: true,
            topic_name: "to/pic".to_string(),
            payload: b"payload".to_vec(),
        }));
    }
}

#[test]
fn roundtrip_subscribe_suback_unsubscribe() {
    roundtrip(Packet::Subscribe(Subscribe::new(pid(10), vec![
        SubscribeTopic { topic_path: "a/b".to_string(), qos: QoS::AtLeastOnce },
        SubscribeTopic { topic_path: "c/#".to_string(), qos: QoS::ExactlyOnce },
    ])));
    roundtrip(Packet::Suback(Suback::new(pid(11), vec![
        SubscribeReturnCodes::Success(QoS::ExactlyOnce),
        SubscribeReturnCodes::Failure,
    ])));
    roundtrip(Packet::Unsubscribe(Unsubscribe::new(pid(12), vec![
        "a/b".to_string(),
        "c".to_string(),
    ])));
    // An empty list is structurally valid for the codec.
    roundtrip(Packet::Subscribe(Subscribe::new(pid(13), vec![])));
}

#[test]
fn roundtrip_connect() {
    roundtrip(Packet::Connect(Connect {
        protocol: Protocol::MQTT311,
        keep_alive: 30,
        client_id: "client".to_string(),
        clean_session: true,
        last_will: None,
        username: Some("user".to_string()),
        password: Some(b"pass".to_vec()),
    }));
    roundtrip(Packet::Connect(Connect {
        protocol: Protocol::MQIsdp,
        keep_alive: 0,
        client_id: String::new(),
        clean_session: false,
        last_will: Some(mqttrs::LastWill {
            topic: "will".to_string(),
            message: b"gone".to_vec(),
            qos: QoS::AtLeastOnce,
            retain: true,
        }),
        username: None,
        password: None,
    }));
}

#[test]
fn partial_decode_consumes_nothing() {
    let p = Packet::Subscribe(Subscribe::new(pid(10), vec![SubscribeTopic {
        topic_path: "a/b".to_string(),
        qos: QoS::AtLeastOnce,
    }]));
    let mut full: Vec<u8> = Vec::new();
    encode(&p, &mut full).unwrap();
    for cut in 1..full.len() {
        let mut part = full[..cut].to_vec();
        let before = part.clone();
        let r = decode(&mut part).unwrap();
        assert!(r.is_none());
        assert_eq!(part, before);
    }
}

#[test]
fn get_type_matches_variant() {
    assert_eq!(Packet::Pingreq.get_type(), PacketType::Pingreq);
    assert_eq!(Packet::Puback(pid(1)).get_type(), PacketType::Puback);
}

#[test]
fn decode_leaves_next_packet_in_buffer() {
    let mut buf = vec![0xC0u8, 0x00, 0xD0, 0x00];
    assert_eq!(decode(&mut buf).unwrap(), Some(Packet::Pingreq));
    assert_eq!(buf, vec![0xD0u8, 0x00]);
    assert_eq!(decode(&mut buf).unwrap(), Some(Packet::Pingresp));
    assert!(buf.is_empty());
}

#[test]
fn oversized_string_fails_to_encode() {
    let p = Packet::Publish(Publish {
        dup: false,
        qospid: QosPid::AtMostOnce,
        retain: false,
        topic_name: "x".repeat(70000),
        payload: Vec::new(),
    });
    let mut buf: Vec<u8> = Vec::new();
    assert_eq!(encode(&p, &mut buf).unwrap_err(), Error::InvalidLength);
    assert!(buf.is_empty());
}

#[test]
fn bounded_sequence_rejects_overflow() {
    let mut v: mqttrs::bounded::BoundedVec<u8> = mqttrs::bounded::BoundedVec::bounded(2);
    assert!(v.push(1).is_ok());
    assert!(v.push(2).is_ok());
    assert_eq!(v.push(3).unwrap_err(), Error::WriteZero);
    assert_eq!(v.len(), 2);
    let mut g: mqttrs::bounded::BoundedVec<u8> = mqttrs::bounded::BoundedVec::growable();
    for i in 0..100u8 {
        assert!(g.push(i).is_ok());
    }
    assert_eq!(g.len(), 100);
    assert_eq!(*g.get(7), 7);
}
