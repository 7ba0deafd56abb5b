use pipistrelle::codec::decode::{decode_packet, decode_packet_limited};
use pipistrelle::codec::encode::{
    encode_packet, encode_publish_qos0, encode_publish_qos0_with_topic_alias,
};
use pipistrelle::codec::packet::{
    ConnAck, Connect, Disconnect, Packet, PubAck, Publish, Subscribe, Subscription, Will,
};
use pipistrelle::codec::properties::{
    ConnAckProperties, ConnectProperties, DisconnectProperties, PubAckProperties,
    PublishProperties, SubscribeProperties, WillProperties,
};
use pipistrelle::codec::wire::CodecError;

fn bytes_of(packet: &Packet<'_>) -> Vec<u8> {
    let mut buf = Vec::new();
    encode_packet(packet, &mut buf);
    buf
}

#[test]
fn test_connect_packet_parsing() {
    let connect_pkt = Packet::Connect(Connect {
        client_id: "pipistrelle_client",
        keep_alive: 60,
        clean_start: true,
        will: None,
        username: Some("admin"),
        password: Some(b"secret123"),
        properties: ConnectProperties {
            session_expiry_interval: Some(3600),
            receive_maximum: Some(100),
            max_packet_size: Some(65536),
            user_properties: vec![("env", "prod"), ("region", "eu")],
            ..Default::default()
        },
    });

    let mut buf = Vec::new();
    encode_packet(&connect_pkt, &mut buf);

    let (decoded, bytes_read) = decode_packet(&buf).unwrap();
    assert_eq!(bytes_read, buf.len());
    assert_eq!(decoded, connect_pkt);
}

#[test]
fn test_connack_packet() {
    let connack_pkt = Packet::ConnAck(ConnAck {
        session_present: false,
        reason_code: 0,
        properties: ConnAckProperties {
            assigned_client_identifier: Some("generated_id_123"),
            topic_alias_maximum: Some(10),
            ..Default::default()
        },
    });

    let mut buf = Vec::new();
    encode_packet(&connack_pkt, &mut buf);

    let (decoded, bytes_read) = decode_packet(&buf).unwrap();
    assert_eq!(bytes_read, buf.len());
    assert_eq!(decoded, connack_pkt);
}

#[test]
fn test_publish_packet() {
    let publish_pkt = Packet::Publish(Publish {
        dup: false,
        qos: 1,
        retain: false,
        topic: "sensor/temp/orange_pi",
        packet_id: Some(42),
        properties: PublishProperties {
            content_type: Some("application/json"),
            user_properties: vec![("device", "opi_zero3")],
            ..Default::default()
        },
        payload: b"{\"temperature\": 24.5}",
    });

    let mut buf = Vec::new();
    encode_packet(&publish_pkt, &mut buf);

    let (decoded, bytes_read) = decode_packet(&buf).unwrap();
    assert_eq!(bytes_read, buf.len());
    assert_eq!(decoded, publish_pkt);
}

#[test]
fn test_subscribe_packet() {
    let subscribe_pkt = Packet::Subscribe(Subscribe {
        packet_id: 101,
        properties: SubscribeProperties {
            subscription_identifier: Some(5),
            ..Default::default()
        },
        subscriptions: vec![
            Subscription {
                topic_filter: "sensor/+/cpu",
                options: 1, // QoS 1
            },
            Subscription {
                topic_filter: "alerts/#",
                options: 2, // QoS 2
            },
        ],
    });

    let mut buf = Vec::new();
    encode_packet(&subscribe_pkt, &mut buf);

    let (decoded, bytes_read) = decode_packet(&buf).unwrap();
    assert_eq!(bytes_read, buf.len());
    assert_eq!(decoded, subscribe_pkt);
}

#[test]
fn test_ping_packets() {
    let mut buf = Vec::new();
    encode_packet(&Packet::PingReq, &mut buf);
    let (decoded_req, read_req) = decode_packet(&buf).unwrap();
    assert_eq!(read_req, buf.len());
    assert_eq!(decoded_req, Packet::PingReq);

    buf.clear();
    encode_packet(&Packet::PingResp, &mut buf);
    let (decoded_resp, read_resp) = decode_packet(&buf).unwrap();
    assert_eq!(read_resp, buf.len());
    assert_eq!(decoded_resp, Packet::PingResp);
}

#[test]
fn test_disconnect_packet() {
    let disconnect_pkt = Packet::Disconnect(Disconnect {
        reason_code: 4, // Disconnect with Will Message
        properties: DisconnectProperties {
            reason_string: Some("shutting down node"),
            ..Default::default()
        },
    });

    let mut buf = Vec::new();
    encode_packet(&disconnect_pkt, &mut buf);

    let (decoded, bytes_read) = decode_packet(&buf).unwrap();
    assert_eq!(bytes_read, buf.len());
    assert_eq!(decoded, disconnect_pkt);
}

#[test]
fn packets_have_their_exact_bytes() {
    assert_eq!(bytes_of(&Packet::PingReq), vec![0xC0, 0x00]);
    assert_eq!(bytes_of(&Packet::PingResp), vec![0xD0, 0x00]);
    assert_eq!(
        encode_publish_qos0("a/b", b"hi", false, None),
        vec![0x30, 8, 0, 3, b'a', b'/', b'b', 0, b'h', b'i']
    );
    assert_eq!(
        encode_publish_qos0("a", b"x", true, Some(5)),
        vec![0x31, 7, 0, 1, b'a', 2, 0x0B, 5, b'x']
    );
    assert_eq!(
        encode_publish_qos0_with_topic_alias("", b"x", 258),
        vec![0x30, 7, 0, 0, 3, 0x23, 1, 2, b'x']
    );
}

#[test]
fn will_and_every_publish_property_survive_the_wire() {
    let connect = Packet::Connect(Connect {
        client_id: "c",
        keep_alive: 0,
        clean_start: false,
        will: Some(Will {
            topic: "gone",
            payload: b"bye",
            qos: 2,
            retain: true,
            properties: WillProperties {
                will_delay_interval: Some(30),
                content_type: Some("text/plain"),
                user_properties: vec![("a", "1"), ("a", "2")],
                ..Default::default()
            },
        }),
        username: None,
        password: None,
        properties: Default::default(),
    });
    let buf = bytes_of(&connect);
    assert_eq!(decode_packet(&buf).unwrap(), (connect, buf.len()));

    let publish = Packet::Publish(Publish {
        dup: true,
        qos: 2,
        retain: true,
        topic: "t",
        packet_id: Some(7),
        properties: PublishProperties {
            payload_format_indicator: Some(1),
            message_expiry_interval: Some(9),
            content_type: Some("c"),
            response_topic: Some("r"),
            correlation_data: Some(b"d"),
            topic_alias: Some(3),
            user_properties: vec![("k", "v"), ("k", "v")],
            ..Default::default()
        },
        payload: b"",
    });
    let buf = bytes_of(&publish);
    assert_eq!(decode_packet(&buf).unwrap(), (publish, buf.len()));
}

#[test]
fn what_follows_a_packet_does_not_matter() {
    let ack = Packet::PubAck(PubAck {
        packet_id: 9,
        reason_code: 0x10,
        properties: PubAckProperties::default(),
    });
    let mut buf = bytes_of(&ack);
    let alone = buf.len();
    buf.extend_from_slice(&[0xFF, 0xFF, 0xFF, 0xFF, 0xFF]);
    assert_eq!(decode_packet(&buf).unwrap(), (ack, alone));
}

#[test]
fn every_codec_error_has_an_input() {
    assert_eq!(decode_packet(&[]), Err(CodecError::Incomplete));
    assert_eq!(decode_packet(&[0x30, 5, 0]), Err(CodecError::Incomplete));
    assert_eq!(
        decode_packet(&[0x30, 0xFF, 0xFF, 0xFF, 0xFF, 0x01]),
        Err(CodecError::InvalidVarint)
    );
    assert_eq!(decode_packet(&[0x00, 0x00]), Err(CodecError::MalformedPacket));
    let mut old = bytes_of(&Packet::Connect(Connect {
        client_id: "c",
        keep_alive: 60,
        clean_start: true,
        will: None,
        username: None,
        password: None,
        properties: Default::default(),
    }));
    old[8] = 4;
    assert_eq!(
        decode_packet(&old),
        Err(CodecError::UnsupportedProtocolVersion(4))
    );
    let ping = bytes_of(&Packet::PingReq);
    assert_eq!(
        decode_packet_limited(&ping, 1),
        Err(CodecError::PacketTooLarge)
    );
    assert_eq!(decode_packet_limited(&ping, 2), Ok((Packet::PingReq, 2)));
    // A Topic Alias given twice: the last counts.
    let twice = [0x30, 11, 0, 1, b'a', 6, 0x23, 0, 1, 0x23, 0, 2, b'x'];
    match decode_packet(&twice).unwrap().0 {
        Packet::Publish(p) => assert_eq!(p.properties.topic_alias, Some(2)),
        other => panic!("{other:?}"),
    }
}

#[test]
fn codec_errors_speak() {
    assert_eq!(CodecError::Incomplete.message(), "Incomplete packet");
    assert_eq!(
        CodecError::InvalidVarint.message(),
        "Invalid variable byte integer"
    );
    assert_eq!(
        CodecError::MalformedPacket.message(),
        "Malformed MQTT packet"
    );
    assert_eq!(
        CodecError::UnsupportedProtocolVersion(3).message(),
        "Unsupported protocol version: 3"
    );
}
