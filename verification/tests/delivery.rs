use pipistrelle::broker::connect::ConnectOutcome;
use pipistrelle::broker::handshake::{handshake, Handshake};
use pipistrelle::broker::restore::{OutgoingRow, SessionRow, StoredState};
use pipistrelle::broker::state::{BrokerAction, BrokerState};
use pipistrelle::codec::decode::decode_packet;
use pipistrelle::codec::encode::encode_packet;
use pipistrelle::codec::packet::{
    Connect, Disconnect, Packet, PubAck, Publish, Subscribe, Subscription, Will,
};
use pipistrelle::codec::properties::{ConnectProperties, PublishProperties};
use pipistrelle::config::{AclRule, AuthConfig, CredentialsConfig, CredentialsSource, UserConfig};
use pipistrelle::message::ApplicationProperties;
use pipistrelle::policy::{Limits, Settings};
use pipistrelle::session::client::{OutgoingQos2Message, OutgoingQos2Phase, SessionEffect};

fn limits() -> Limits {
    Limits::from_settings(&Settings {
        client_queue_capacity: None,
        max_subscriptions_per_client: None,
        slow_consumer_policy: None,
        slow_consumer_timeout_ms: None,
        bridge_queue_capacity: None,
        bridge_queue_policy: None,
        latency_sample_rate: None,
        writer_batch_packets: None,
        writer_batch_bytes: None,
        receive_maximum: None,
        max_packet_size: None,
    })
}

fn open_broker() -> BrokerState {
    BrokerState::new(AuthConfig::load(CredentialsSource::Missing, true), limits(), 16)
}

fn greeting<'a>(client_id: &'a str, clean_start: bool) -> Connect<'a> {
    Connect {
        client_id,
        keep_alive: 60,
        clean_start,
        will: None,
        username: None,
        password: None,
        properties: ConnectProperties {
            session_expiry_interval: Some(300),
            ..Default::default()
        },
    }
}

fn join(broker: &mut BrokerState, connect: Connect<'_>, now: u64) -> (u64, Vec<BrokerAction>) {
    let mut bytes = Vec::new();
    encode_packet(&Packet::Connect(connect), &mut bytes);
    let request = match handshake(&bytes, 1_000_000) {
        Handshake::Request(request, _) => request,
        _ => panic!("the packet is a CONNECT"),
    };
    match broker.connect(&request, true, now) {
        ConnectOutcome::Accepted(client) => (client.connection, client.actions),
        _ => panic!("the client is accepted"),
    }
}

fn sent(actions: &[BrokerAction], client: &str) -> Vec<Vec<u8>> {
    let mut list = Vec::new();
    for action in actions {
        if let BrokerAction::Session(to, _, effect) = action {
            if to == client {
                match effect {
                    SessionEffect::Send(bytes) => list.push(bytes.clone()),
                    SessionEffect::SendAndRelease(bytes, _) => list.push(bytes.clone()),
                    _ => {}
                }
            }
        }
    }
    list
}

fn handle(broker: &mut BrokerState, client: &str, packet: Packet<'_>, now: u64) -> Vec<BrokerAction> {
    let (actions, fault) = broker.process_client_packet(client, &packet, now);
    assert_eq!(fault, None);
    actions
}

fn subscribe_to<'a>(filter: &'a str, options: u8) -> Packet<'a> {
    Packet::Subscribe(Subscribe {
        packet_id: 1,
        properties: Default::default(),
        subscriptions: vec![Subscription {
            topic_filter: filter,
            options,
        }],
    })
}

fn message<'a>(topic: &'a str, payload: &'a [u8], qos: u8, id: Option<u16>, retain: bool) -> Packet<'a> {
    Packet::Publish(Publish {
        dup: false,
        qos,
        retain,
        topic,
        packet_id: id,
        properties: Default::default(),
        payload,
    })
}

fn ack(id: u16) -> PubAck<'static> {
    PubAck {
        packet_id: id,
        reason_code: 0,
        properties: Default::default(),
    }
}

fn publish_of(bytes: &[u8]) -> Publish<'_> {
    match decode_packet(bytes).unwrap().0 {
        Packet::Publish(p) => p,
        other => panic!("{other:?}"),
    }
}

#[test]
fn properties_are_kept_on_the_way() {
    let mut broker = open_broker();
    join(&mut broker, greeting("a", true), 0);
    join(&mut broker, greeting("b", true), 0);
    handle(&mut broker, "b", subscribe_to("t", 1), 0);
    let (connection, _) = join(&mut broker, greeting("b", false), 0);
    broker.connection_ended("b", connection, Some(0), 0);
    let packet = Packet::Publish(Publish {
        dup: false,
        qos: 1,
        retain: false,
        topic: "t",
        packet_id: Some(5),
        properties: PublishProperties {
            payload_format_indicator: Some(1),
            message_expiry_interval: Some(10),
            content_type: Some("text/plain"),
            response_topic: Some("reply"),
            correlation_data: Some(&[0, 255]),
            topic_alias: Some(3),
            user_properties: vec![("k", "2"), ("k", "1"), ("k", "2")],
            ..Default::default()
        },
        payload: b"x",
    });
    handle(&mut broker, "a", packet, 1_000);
    let (_, actions) = join(&mut broker, greeting("b", false), 4_500);
    let packets = sent(&actions, "b");
    let p = publish_of(&packets[1]);
    assert_eq!((p.topic, p.payload), ("t", &b"x"[..]));
    assert_eq!(p.properties.payload_format_indicator, Some(1));
    assert_eq!(p.properties.message_expiry_interval, Some(7));
    assert_eq!(p.properties.content_type, Some("text/plain"));
    assert_eq!(p.properties.response_topic, Some("reply"));
    assert_eq!(p.properties.correlation_data, Some(&[0u8, 255][..]));
    assert_eq!(p.properties.topic_alias, None);
    assert_eq!(
        p.properties.user_properties,
        vec![("k", "2"), ("k", "1"), ("k", "2")]
    );
}

#[test]
fn packets_that_are_too_large_are_not_sent() {
    let mut broker = open_broker();
    join(&mut broker, greeting("a", true), 0);
    let mut narrow = greeting("b", true);
    narrow.properties.max_packet_size = Some(40);
    join(&mut broker, narrow, 0);
    handle(&mut broker, "b", subscribe_to("t", 2), 0);
    for qos in 0..3u8 {
        let id = if qos == 0 { None } else { Some(qos as u16) };
        let actions = handle(&mut broker, "a", message("t", &[b'x'; 40], qos, id, false), 1);
        assert!(sent(&actions, "b").is_empty());
    }
    let released = handle(&mut broker, "a", Packet::PubRel(ack(2)), 1);
    assert!(sent(&released, "b").is_empty());
    let actions = handle(&mut broker, "a", message("t", b"small", 1, Some(9), false), 2);
    let packets = sent(&actions, "b");
    assert_eq!(packets.len(), 1);
    assert!(packets[0].len() <= 40);
}

#[test]
fn messages_wait_for_room_and_no_longer() {
    let mut broker = open_broker();
    join(&mut broker, greeting("a", true), 0);
    let mut slow = greeting("b", true);
    slow.properties.receive_maximum = Some(1);
    join(&mut broker, slow, 0);
    handle(&mut broker, "b", subscribe_to("t", 1), 0);
    let first = handle(&mut broker, "a", message("t", b"1", 1, Some(1), false), 1);
    let second = handle(&mut broker, "a", message("t", b"2", 1, Some(2), false), 2);
    assert_eq!(sent(&first, "b").len(), 1);
    assert!(sent(&second, "b").is_empty());
    let freed = handle(&mut broker, "b", Packet::PubAck(ack(1)), 3);
    let packets = sent(&freed, "b");
    let p = publish_of(&packets[0]);
    assert_eq!((p.payload, p.packet_id, p.dup), (&b"2"[..], Some(2), false));
    let session = broker.existing_session("b").unwrap();
    assert_eq!(session.in_flight.len(), 1);
    assert!(freed
        .iter()
        .any(|x| matches!(x, BrokerAction::Session(_, _, SessionEffect::DeleteInFlight(1)))));
}

#[test]
fn unacknowledged_messages_are_sent_again() {
    let mut broker = open_broker();
    join(&mut broker, greeting("a", true), 0);
    let (connection, _) = join(&mut broker, greeting("b", true), 0);
    handle(&mut broker, "b", subscribe_to("t", 2), 0);
    handle(&mut broker, "a", message("t", b"one", 1, Some(1), false), 1);
    for (id, payload) in [(2, &b"two"[..]), (3, &b"three"[..])] {
        handle(&mut broker, "a", message("t", payload, 2, Some(id), false), 1);
        handle(&mut broker, "a", Packet::PubRel(ack(id)), 1);
    }
    let received = handle(&mut broker, "b", Packet::PubRec(ack(2)), 2);
    assert_eq!(sent(&received, "b"), vec![vec![0x62, 2, 0, 2]]);
    broker.connection_ended("b", connection, None, 3);
    let (_, actions) = join(&mut broker, greeting("b", false), 4);
    let packets = sent(&actions, "b");
    assert_eq!(packets.len(), 4);
    assert_eq!(packets[1], vec![0x62, 2, 0, 2]);
    let one = publish_of(&packets[2]);
    assert_eq!((one.payload, one.dup, one.qos, one.packet_id), (&b"one"[..], true, 1, Some(1)));
    let three = publish_of(&packets[3]);
    assert_eq!(
        (three.payload, three.dup, three.qos, three.packet_id),
        (&b"three"[..], true, 2, Some(3))
    );
    handle(&mut broker, "b", Packet::PubComp(ack(2)), 5);
    let session = broker.existing_session("b").unwrap();
    assert_eq!((session.in_flight.len(), session.outgoing_qos2.len()), (1, 1));
}

#[test]
fn a_will_is_stored_before_the_client_is_answered() {
    let mut broker = open_broker();
    let mut connect = greeting("a", true);
    connect.will = Some(Will {
        topic: "gone",
        payload: b"bye",
        qos: 1,
        retain: true,
        properties: Default::default(),
    });
    let (_, actions) = join(&mut broker, connect, 0);
    let stored = actions
        .iter()
        .position(|x| matches!(x, BrokerAction::SaveWill(c, None, _, 300, None) if c == "a"))
        .unwrap();
    let answered = actions
        .iter()
        .position(|x| matches!(x, BrokerAction::Session(_, _, SessionEffect::Send(_))))
        .unwrap();
    assert_eq!(answered, stored + 1);
}

#[test]
fn filters_that_may_not_be_read_are_refused() {
    let rules = CredentialsConfig {
        users: vec![UserConfig {
            username: "sensor".to_string(),
            password_hash: String::new(),
            acl: vec![
                AclRule {
                    topic: "sensor/+".to_string(),
                    access: "write".to_string(),
                },
                AclRule {
                    topic: "alerts/#".to_string(),
                    access: "read".to_string(),
                },
            ],
        }],
    };
    let auth = AuthConfig::load(CredentialsSource::Loaded(rules), false);
    let mut broker = BrokerState::new(auth, limits(), 0);
    let mut connect = greeting("a", true);
    connect.username = Some("sensor");
    join(&mut broker, connect, 0);
    let actions = handle(&mut broker, "a", subscribe_to("sensor/x", 0), 1);
    assert_eq!(sent(&actions, "a"), vec![vec![0x90, 4, 0, 1, 0, 0x87]]);
    assert!(!broker.router.has_routes());
    let actions = handle(&mut broker, "a", subscribe_to("alerts/x", 0), 1);
    assert_eq!(sent(&actions, "a"), vec![vec![0x90, 4, 0, 1, 0, 0]]);
    let actions = handle(&mut broker, "a", message("alerts/x", b"m", 1, Some(4), false), 2);
    match decode_packet(&sent(&actions, "a")[0]).unwrap().0 {
        Packet::PubAck(p) => assert_eq!((p.packet_id, p.reason_code), (4, 0x87)),
        other => panic!("{other:?}"),
    }
    assert_eq!(actions.len(), 1);
}

#[test]
fn retain_handling_decides_what_is_replayed() {
    let mut broker = open_broker();
    join(&mut broker, greeting("a", true), 0);
    join(&mut broker, greeting("b", true), 0);
    handle(&mut broker, "a", message("t", b"kept", 1, Some(1), true), 0);
    let replays = |broker: &mut BrokerState, options: u8| {
        let actions = handle(broker, "b", subscribe_to("t", options), 1);
        sent(&actions, "b").len() - 1
    };
    assert_eq!(replays(&mut broker, 0x21), 0);
    assert_eq!(replays(&mut broker, 0x11), 0);
    assert_eq!(replays(&mut broker, 0x01), 1);
    join(&mut broker, greeting("c", true), 0);
    let actions = handle(&mut broker, "c", subscribe_to("+", 0x11), 2);
    let packets = sent(&actions, "c");
    let p = publish_of(&packets[1]);
    assert_eq!((p.payload, p.retain, p.qos), (&b"kept"[..], true, 1));
    let actions = handle(&mut broker, "c", subscribe_to("$share/g/t", 0x01), 2);
    assert_eq!(sent(&actions, "c").len(), 1);
}

#[test]
fn expired_retained_messages_are_not_replayed() {
    let mut broker = open_broker();
    join(&mut broker, greeting("a", true), 0);
    let packet = Packet::Publish(Publish {
        dup: false,
        qos: 0,
        retain: true,
        topic: "t",
        packet_id: None,
        properties: PublishProperties {
            message_expiry_interval: Some(2),
            ..Default::default()
        },
        payload: b"x",
    });
    handle(&mut broker, "a", packet, 1_000);
    let actions = handle(&mut broker, "a", subscribe_to("t", 0), 2_999);
    assert_eq!(sent(&actions, "a").len(), 2);
    let actions = handle(&mut broker, "a", subscribe_to("t", 0), 3_000);
    assert_eq!(sent(&actions, "a").len(), 1);
    assert!(actions
        .iter()
        .any(|x| matches!(x, BrokerAction::DeleteRetained(t) if t == "t")));
    assert_eq!(broker.retained.len(), 0);
}

#[test]
fn messages_reach_whoever_is_away_later() {
    let mut broker = open_broker();
    join(&mut broker, greeting("a", true), 0);
    let (connection, _) = join(&mut broker, greeting("b", true), 0);
    handle(&mut broker, "b", subscribe_to("t", 2), 0);
    broker.connection_ended("b", connection, Some(0), 1);
    handle(&mut broker, "a", message("t", b"0", 0, None, false), 2);
    handle(&mut broker, "a", message("t", b"1", 1, Some(1), false), 2);
    handle(&mut broker, "a", message("t", b"2", 2, Some(2), false), 2);
    handle(&mut broker, "a", Packet::PubRel(ack(2)), 2);
    let session = broker.existing_session("b").unwrap();
    assert_eq!((session.in_flight.len(), session.outgoing_qos2.len()), (1, 1));
    let (_, actions) = join(&mut broker, greeting("b", false), 3);
    let packets = sent(&actions, "b");
    let got: Vec<(u8, bool)> = packets[1..]
        .iter()
        .map(|bytes| (publish_of(bytes).qos, publish_of(bytes).dup))
        .collect();
    assert_eq!(got, vec![(1, false), (2, false)]);
}

#[test]
fn qos2_exchanges_go_on_after_a_restart() {
    let row = |id: u16, phase: OutgoingQos2Phase, started: bool, expiry: Option<u32>| {
        let mut properties = ApplicationProperties::none();
        properties.message_expiry_interval = expiry;
        properties.expiry_started_at_ms = expiry.map(|_| 0);
        OutgoingRow {
            client_id: "a".to_string(),
            packet_id: id,
            message: OutgoingQos2Message {
                topic: "t".to_string(),
                payload: b"p".to_vec(),
                retain: false,
                subscription_identifier: Some(7),
                properties,
                enqueue_order: id as u64,
                delivery_started: started,
                phase,
            },
        }
    };
    let stored = StoredState {
        sessions: vec![SessionRow {
            client_id: "a".to_string(),
            username: None,
            clean_start: false,
            session_expiry: 300,
            last_activity: 0,
            connected: false,
        }],
        subscriptions: Vec::new(),
        in_flight: Vec::new(),
        retained: Vec::new(),
        incoming: Vec::new(),
        outgoing: vec![
            row(3, OutgoingQos2Phase::AwaitPubRec, true, None),
            row(4, OutgoingQos2Phase::AwaitPubComp, true, None),
            row(5, OutgoingQos2Phase::AwaitPubRec, false, Some(1)),
        ],
        wills: Vec::new(),
    };
    let mut broker = open_broker();
    broker.restore_sessions_from_db(stored, 5_000);
    assert_eq!(broker.existing_session("a").unwrap().outgoing_qos2.len(), 2);
    let (_, actions) = join(&mut broker, greeting("a", false), 6_000);
    let packets = sent(&actions, "a");
    assert_eq!(packets.len(), 3);
    assert_eq!(packets[1], vec![0x62, 2, 0, 4]);
    let p = publish_of(&packets[2]);
    assert_eq!((p.packet_id, p.dup), (Some(3), true));
    assert_eq!(p.properties.subscription_identifier, Some(7));
}

#[test]
fn packets_are_taken_by_their_kind() {
    let mut broker = open_broker();
    join(&mut broker, greeting("a", true), 0);
    let taken = broker.take_packet("a", &message("t", b"x", 0, None, false), 1);
    assert!(taken.actions.is_empty() && taken.fault.is_none() && taken.leave.is_none());
    assert!(taken.sampled);
    let taken = broker.take_packet("a", &message("t", b"x", 0, None, false), 1);
    assert!(!taken.sampled);
    assert_eq!(broker.messages_published(), 2);
    let taken = broker.take_packet("a", &subscribe_to("t", 0), 1);
    assert_eq!(sent(&taken.actions, "a").len(), 1);
    let taken = broker.take_packet("a", &message("t", b"x", 0, None, false), 1);
    assert_eq!(sent(&taken.actions, "a").len(), 1);
    let leave = Packet::Disconnect(Disconnect {
        reason_code: 4,
        properties: Default::default(),
    });
    let taken = broker.take_packet("a", &leave, 1);
    assert_eq!((taken.leave, taken.fault), (Some(4), None));
}
