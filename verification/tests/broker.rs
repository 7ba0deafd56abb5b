use pipistrelle::bridge::{
    forward_bytes, login_reply, subscribe_bytes, Backoff, BridgeStep, LoginReply,
};
use pipistrelle::broker::connect::ConnectOutcome;
use pipistrelle::broker::handshake::{handshake, keep_alive_ms, Handshake};
use pipistrelle::broker::restore::{
    IncomingRow, InFlightRow, SessionRow, StoredState, SubscriptionRow, WillRow,
};
use pipistrelle::broker::state::{BrokerAction, BrokerState, RetainedMessage, WillMessage};
use pipistrelle::codec::decode::decode_packet;
use pipistrelle::codec::encode::{
    encode_packet, encode_publish_qos0, encode_publish_qos0_with_topic_alias,
};
use pipistrelle::codec::packet::{
    Connect, Disconnect, Packet, PubAck, Publish, Subscribe, Subscription, Unsubscribe, Will,
};
use pipistrelle::codec::wire::CodecError;
use pipistrelle::codec::properties::{
    ConnectProperties, DisconnectProperties, PublishProperties, WillProperties,
};
use pipistrelle::config::{AuthConfig, CredentialsSource};
use pipistrelle::connection::aliases::OutboundAliases;
use pipistrelle::connection::bytes::BytesStep;
use pipistrelle::connection::queues::{Offer, QueueTallies, WaitEnd};
use pipistrelle::ingest::fast::{FastLayouts, FastStep};
use pipistrelle::message::ApplicationProperties;
use pipistrelle::metrics::http::{page_for, respond, Page};
use pipistrelle::metrics::page::QueueDepths;
use pipistrelle::policy::{BridgeQueuePolicy, Limits, Settings};
use pipistrelle::session::client::{IncomingQos2Message, SessionEffect};
use pipistrelle::session::inbound::{encode_disconnect, PacketFault};

fn no_settings() -> Settings<'static> {
    Settings {
        client_queue_capacity: None,
        max_subscriptions_per_client: None,
        slow_consumer_policy: None,
        slow_consumer_timeout_ms: None,
        bridge_queue_capacity: None,
        bridge_queue_policy: None,
        latency_sample_rate: None,
        writer_batch_packets: None,
        writer_batch_bytes: None,
        receive_maximum: None,
        max_packet_size: None,
    }
}

fn open_broker() -> BrokerState {
    BrokerState::new(
        AuthConfig::load(CredentialsSource::Missing, true),
        Limits::from_settings(&no_settings()),
        16,
    )
}

fn bytes_of(packet: &Packet<'_>) -> Vec<u8> {
    let mut buf = Vec::new();
    encode_packet(packet, &mut buf);
    buf
}

fn connect_as<'a>(client_id: &'a str, clean_start: bool, expiry: u32) -> Connect<'a> {
    Connect {
        client_id,
        keep_alive: 60,
        clean_start,
        will: None,
        username: None,
        password: None,
        properties: ConnectProperties {
            session_expiry_interval: Some(expiry),
            ..Default::default()
        },
    }
}

fn offer(broker: &mut BrokerState, connect: Connect<'_>, now: u64) -> ConnectOutcome {
    let bytes = bytes_of(&Packet::Connect(connect));
    match handshake(&bytes, 1_000_000) {
        Handshake::Request(request, used) => {
            assert_eq!(used, bytes.len());
            broker.authenticate_and_connect(&request, now)
        }
        _ => panic!("the packet is a CONNECT"),
    }
}

fn join(broker: &mut BrokerState, connect: Connect<'_>, now: u64) -> (u64, bool, Vec<BrokerAction>) {
    match offer(broker, connect, now) {
        ConnectOutcome::Accepted(client) => {
            (client.connection, client.session_present, client.actions)
        }
        _ => panic!("the client is accepted"),
    }
}

fn sent(actions: &[BrokerAction], client: &str) -> Vec<Vec<u8>> {
    let mut list = Vec::new();
    for action in actions {
        if let BrokerAction::Session(to, _, effect) = action {
            if to == client {
                match effect {
                    SessionEffect::Send(bytes) => list.push(bytes.clone()),
                    SessionEffect::SendAndRelease(bytes, _) => list.push(bytes.clone()),
                    _ => {}
                }
            }
        }
    }
    list
}

fn handle(
    broker: &mut BrokerState,
    client: &str,
    packet: Packet<'_>,
    now: u64,
) -> (Vec<BrokerAction>, Option<PacketFault>) {
    broker.process_client_packet(client, &packet, now)
}

fn subscribe_to<'a>(filter: &'a str, options: u8) -> Packet<'a> {
    Packet::Subscribe(Subscribe {
        packet_id: 1,
        properties: Default::default(),
        subscriptions: vec![Subscription {
            topic_filter: filter,
            options,
        }],
    })
}

fn message<'a>(topic: &'a str, payload: &'a [u8], qos: u8, id: Option<u16>, retain: bool) -> Packet<'a> {
    Packet::Publish(Publish {
        dup: false,
        qos,
        retain,
        topic,
        packet_id: id,
        properties: Default::default(),
        payload,
    })
}

fn ack(id: u16) -> PubAck<'static> {
    PubAck {
        packet_id: id,
        reason_code: 0,
        properties: Default::default(),
    }
}

#[test]
fn a_message_goes_round() {
    let mut broker = open_broker();
    let (_, present, actions) = join(&mut broker, connect_as("a", true, 0), 0);
    assert!(!present);
    match decode_packet(&sent(&actions, "a")[0]).unwrap().0 {
        Packet::ConnAck(c) => {
            assert_eq!(c.reason_code, 0);
            assert_eq!(c.properties.receive_maximum, Some(1024));
            assert_eq!(c.properties.topic_alias_maximum, Some(16));
        }
        other => panic!("{other:?}"),
    }
    join(&mut broker, connect_as("b", true, 0), 0);
    let (actions, fault) = handle(&mut broker, "b", subscribe_to("sensor/+", 0), 1);
    assert!(fault.is_none());
    assert_eq!(sent(&actions, "b"), vec![vec![0x90, 4, 0, 1, 0, 0]]);
    let (actions, fault) = handle(&mut broker, "a", message("sensor/t", b"21", 0, None, false), 2);
    assert!(fault.is_none());
    assert_eq!(
        sent(&actions, "b"),
        vec![encode_publish_qos0("sensor/t", b"21", false, None)]
    );
    assert_eq!(broker.messages_published(), 1);
}

#[test]
fn qos1_is_acknowledged_on_both_sides() {
    let mut broker = open_broker();
    join(&mut broker, connect_as("a", true, 0), 0);
    join(&mut broker, connect_as("b", true, 0), 0);
    handle(&mut broker, "b", subscribe_to("t", 1), 1);
    let (actions, _) = handle(&mut broker, "a", message("t", b"x", 1, Some(7), false), 2);
    assert_eq!(sent(&actions, "a"), vec![vec![0x40, 2, 0, 7]]);
    match decode_packet(&sent(&actions, "b")[0]).unwrap().0 {
        Packet::Publish(p) => assert_eq!((p.qos, p.packet_id), (1, Some(1))),
        other => panic!("{other:?}"),
    }
    let session = broker.existing_session("b").unwrap();
    assert_eq!(session.in_flight.len(), 1);
    handle(&mut broker, "b", Packet::PubAck(ack(1)), 3);
    assert_eq!(broker.existing_session("b").unwrap().in_flight.len(), 0);
}

#[test]
fn qos2_enters_once() {
    let mut broker = open_broker();
    join(&mut broker, connect_as("a", true, 0), 0);
    join(&mut broker, connect_as("b", true, 0), 0);
    handle(&mut broker, "b", subscribe_to("t", 0), 1);
    let (first, _) = handle(&mut broker, "a", message("t", b"x", 2, Some(9), false), 2);
    assert_eq!(sent(&first, "a"), vec![vec![0x50, 2, 0, 9]]);
    assert!(sent(&first, "b").is_empty());
    let (again, _) = handle(&mut broker, "a", message("t", b"x", 2, Some(9), false), 3);
    assert_eq!(sent(&again, "a"), vec![vec![0x50, 2, 0, 9]]);
    let (released, _) = handle(&mut broker, "a", Packet::PubRel(ack(9)), 4);
    assert_eq!(sent(&released, "b").len(), 1);
    assert_eq!(sent(&released, "a"), vec![vec![0x70, 2, 0, 9]]);
    let (twice, _) = handle(&mut broker, "a", Packet::PubRel(ack(9)), 5);
    assert!(sent(&twice, "b").is_empty());
    match decode_packet(&sent(&twice, "a")[0]).unwrap().0 {
        Packet::PubComp(p) => assert_eq!(p.reason_code, 0x92),
        other => panic!("{other:?}"),
    }
}

#[test]
fn retained_messages_are_replayed_replaced_and_removed() {
    let mut broker = open_broker();
    join(&mut broker, connect_as("a", true, 0), 0);
    handle(&mut broker, "a", message("t", b"1", 0, None, true), 1);
    handle(&mut broker, "a", message("t", b"2", 0, None, true), 2);
    assert_eq!(broker.retained.len(), 1);
    join(&mut broker, connect_as("b", true, 0), 3);
    let (actions, _) = handle(&mut broker, "b", subscribe_to("#", 0), 4);
    let packets = sent(&actions, "b");
    assert_eq!(packets[1], encode_publish_qos0("t", b"2", true, None));
    handle(&mut broker, "a", message("t", b"", 0, None, true), 5);
    assert_eq!(broker.retained.len(), 0);
}

#[test]
fn own_messages_can_be_refused() {
    let mut broker = open_broker();
    join(&mut broker, connect_as("a", true, 0), 0);
    handle(&mut broker, "a", subscribe_to("t", 0x04), 1);
    let (actions, _) = handle(&mut broker, "a", message("t", b"x", 0, None, false), 2);
    assert!(sent(&actions, "a").is_empty());
}

#[test]
fn members_of_a_group_take_turns() {
    let mut broker = open_broker();
    for name in ["a", "b", "p"] {
        join(&mut broker, connect_as(name, true, 0), 0);
    }
    handle(&mut broker, "a", subscribe_to("$share/g/t", 0), 1);
    handle(&mut broker, "b", subscribe_to("$share/g/t", 0), 1);
    let mut counts = (0, 0);
    for now in 2..6 {
        let (actions, _) = handle(&mut broker, "p", message("t", b"x", 0, None, false), now);
        counts.0 += sent(&actions, "a").len();
        counts.1 += sent(&actions, "b").len();
    }
    assert_eq!(counts, (2, 2));
}

#[test]
fn faults_close_the_connection() {
    let mut broker = open_broker();
    join(&mut broker, connect_as("a", true, 0), 0);
    let (actions, fault) = handle(&mut broker, "a", message("a/+", b"x", 0, None, false), 1);
    assert_eq!(fault, Some(PacketFault::TopicForbidden));
    match decode_packet(&sent(&actions, "a")[0]).unwrap().0 {
        Packet::Disconnect(d) => assert_eq!(d.reason_code, 0x82),
        other => panic!("{other:?}"),
    }
    let (_, fault) = handle(&mut broker, "a", message("", b"x", 0, None, false), 1);
    assert_eq!(fault, Some(PacketFault::EmptyTopic));
    let mut aliased = |alias: u16| {
        handle(
            &mut broker,
            "a",
            Packet::Publish(Publish {
                dup: false,
                qos: 0,
                retain: false,
                topic: "",
                packet_id: None,
                properties: PublishProperties {
                    topic_alias: Some(alias),
                    ..Default::default()
                },
                payload: b"x",
            }),
            1,
        )
        .1
    };
    assert_eq!(aliased(17), Some(PacketFault::AliasOutOfRange));
    assert_eq!(aliased(0), Some(PacketFault::AliasOutOfRange));
    assert_eq!(aliased(3), Some(PacketFault::AliasUnmapped));
    let (_, fault) = handle(&mut broker, "a", subscribe_to("a/#/b", 0), 1);
    assert_eq!(fault, Some(PacketFault::TopicFilter));
    let (_, fault) = handle(&mut broker, "a", Packet::Connect(connect_as("a", true, 0)), 1);
    assert_eq!(fault, Some(PacketFault::DuplicateConnect));
    assert_eq!(
        PacketFault::DuplicateConnect.message(),
        "Protocol violation: duplicate CONNECT"
    );
}

#[test]
fn subscriptions_have_a_quota_and_can_be_ended() {
    let limits = Limits::from_settings(&Settings {
        max_subscriptions_per_client: Some("2"),
        ..no_settings()
    });
    let mut broker = BrokerState::new(
        AuthConfig::load(CredentialsSource::Missing, true),
        limits,
        0,
    );
    join(&mut broker, connect_as("a", true, 0), 0);
    handle(&mut broker, "a", subscribe_to("x", 0), 1);
    handle(&mut broker, "a", subscribe_to("y", 0), 1);
    let (actions, _) = handle(&mut broker, "a", subscribe_to("z", 0), 1);
    assert_eq!(sent(&actions, "a"), vec![vec![0x90, 4, 0, 1, 0, 0x97]]);
    assert_eq!(broker.tallies.subscription_quota_rejections, 1);
    let (actions, _) = handle(&mut broker, "a", subscribe_to("x", 0), 1);
    assert_eq!(sent(&actions, "a"), vec![vec![0x90, 4, 0, 1, 0, 0]]);
    let (actions, _) = handle(
        &mut broker,
        "a",
        Packet::Unsubscribe(Unsubscribe {
            packet_id: 5,
            properties: Default::default(),
            topic_filters: vec!["x", "nothing"],
        }),
        2,
    );
    assert_eq!(sent(&actions, "a"), vec![vec![0xB0, 5, 0, 5, 0, 0, 0x11]]);
    assert_eq!(broker.existing_session("a").unwrap().subscription_count(), 1);
}

#[test]
fn assigned_identifiers_are_new_and_told() {
    let mut broker = open_broker();
    let first = match offer(&mut broker, connect_as("", true, 0), 255) {
        ConnectOutcome::Accepted(client) => client,
        _ => panic!("the client is accepted"),
    };
    let second = match offer(&mut broker, connect_as("", true, 0), 255) {
        ConnectOutcome::Accepted(client) => client,
        _ => panic!("the client is accepted"),
    };
    assert!(first.client_id.starts_with("pip-ff-"));
    assert_ne!(first.client_id, second.client_id);
    match decode_packet(&sent(&first.actions, &first.client_id)[0]).unwrap().0 {
        Packet::ConnAck(c) => assert_eq!(
            c.properties.assigned_client_identifier,
            Some(first.client_id.as_str())
        ),
        other => panic!("{other:?}"),
    }
}

#[test]
fn sessions_go_on_where_they_were_left() {
    let mut broker = open_broker();
    let (connection, _, _) = join(&mut broker, connect_as("a", true, 300), 0);
    handle(&mut broker, "a", subscribe_to("t", 1), 1);
    let actions = broker.connection_ended("a", connection, Some(0), 2);
    assert!(actions
        .iter()
        .any(|x| matches!(x, BrokerAction::ArmExpiry(c, _, 300) if c == "a")));
    join(&mut broker, connect_as("b", true, 0), 3);
    let (actions, _) = handle(&mut broker, "b", message("t", b"kept", 1, Some(1), false), 4);
    assert!(sent(&actions, "a").is_empty());
    let (_, present, actions) = join(&mut broker, connect_as("a", false, 300), 5);
    assert!(present);
    match decode_packet(&sent(&actions, "a")[1]).unwrap().0 {
        Packet::Publish(p) => assert_eq!((p.payload, p.qos), (&b"kept"[..], 1)),
        other => panic!("{other:?}"),
    }
    let (_, present, _) = join(&mut broker, connect_as("a", true, 300), 6);
    assert!(!present);
    assert_eq!(broker.existing_session("a").unwrap().subscription_count(), 0);
}

#[test]
fn a_session_ends_when_its_time_is_over() {
    let mut broker = open_broker();
    let (connection, _, _) = join(&mut broker, connect_as("a", true, 300), 0);
    handle(&mut broker, "a", subscribe_to("t", 1), 1);
    broker.connection_ended("a", connection, Some(0), 2);
    broker.session_expired("a", connection, 300_002);
    assert!(broker.existing_session("a").is_none());
    assert!(!broker.router.has_routes());
}

#[test]
fn a_second_connection_takes_the_first_over() {
    let mut broker = open_broker();
    let (old, _, _) = join(&mut broker, connect_as("a", true, 0), 0);
    let (new, _, actions) = join(&mut broker, connect_as("a", true, 0), 1);
    assert_ne!(old, new);
    assert!(actions
        .iter()
        .any(|x| matches!(x, BrokerAction::Close(c, n) if c == "a" && *n == old)));
    match decode_packet(&sent(&actions, "a")[0]).unwrap().0 {
        Packet::Disconnect(d) => assert_eq!(d.reason_code, 0x8E),
        other => panic!("{other:?}"),
    }
    broker.connection_ended("a", old, None, 2);
    assert!(broker.existing_session("a").unwrap().connected);
    assert_eq!(broker.tallies.session_takeovers, 1);
}

#[test]
fn another_user_cannot_take_a_session() {
    let mut broker = open_broker();
    join(&mut broker, connect_as("a", true, 300), 0);
    let mut other = connect_as("a", false, 300);
    other.username = Some("eve");
    other.password = Some(b"x");
    match offer(&mut broker, other, 1) {
        ConnectOutcome::Refused(bytes) => match decode_packet(&bytes).unwrap().0 {
            Packet::ConnAck(c) => assert_eq!(c.reason_code, 0x87),
            other => panic!("{other:?}"),
        },
        _ => panic!("the client is refused"),
    }
    assert_eq!(broker.existing_session("a").unwrap().username, None);
}

#[test]
fn whoever_is_not_authenticated_is_refused() {
    let mut broker = BrokerState::new(
        AuthConfig::load(CredentialsSource::Missing, false),
        Limits::from_settings(&no_settings()),
        0,
    );
    match offer(&mut broker, connect_as("a", true, 0), 1) {
        ConnectOutcome::Refused(bytes) => match decode_packet(&bytes).unwrap().0 {
            Packet::ConnAck(c) => assert_eq!(c.reason_code, 0x86),
            other => panic!("{other:?}"),
        },
        _ => panic!("the client is refused"),
    }
    assert!(broker.existing_session("a").is_none());
}

#[test]
fn beginnings_of_connections_are_told_apart() {
    let connect = bytes_of(&Packet::Connect(connect_as("a", true, 0)));
    assert!(matches!(handshake(&connect[..5], 1000), Handshake::NeedMore));
    assert!(matches!(handshake(&[0xC0, 0], 1000), Handshake::Close));
    match handshake(&connect, 5) {
        Handshake::Refuse(bytes) => match decode_packet(&bytes).unwrap().0 {
            Packet::ConnAck(c) => assert_eq!(c.reason_code, 0x95),
            other => panic!("{other:?}"),
        },
        _ => panic!("the packet is too large"),
    }
    let mut old = connect.clone();
    old[8] = 3;
    match handshake(&old, 1000) {
        Handshake::Refuse(bytes) => match decode_packet(&bytes).unwrap().0 {
            Packet::ConnAck(c) => assert_eq!(c.reason_code, 0x84),
            other => panic!("{other:?}"),
        },
        _ => panic!("the version is too old"),
    }
    assert_eq!(keep_alive_ms(60), 90_000);
    assert_eq!(keep_alive_ms(0), 86_400_000);
}

#[test]
fn passwords_that_are_no_text_are_read_with_replacements() {
    let mut odd = connect_as("a", true, 0);
    odd.username = Some("u");
    odd.password = Some(&[b'p', 0xFF, b'w']);
    let bytes = bytes_of(&Packet::Connect(odd));
    match handshake(&bytes, 1000) {
        Handshake::Request(request, _) => {
            assert_eq!(request.password.as_deref(), Some("p\u{fffd}w"));
        }
        _ => panic!("the packet is a CONNECT"),
    }
}

fn with_will<'a>(client_id: &'a str, delay: u32, expiry: u32) -> Connect<'a> {
    let mut connect = connect_as(client_id, true, expiry);
    connect.will = Some(Will {
        topic: "gone",
        payload: b"bye",
        qos: 0,
        retain: false,
        properties: WillProperties {
            will_delay_interval: Some(delay),
            ..Default::default()
        },
    });
    connect
}

#[test]
fn a_will_is_published_when_the_connection_is_lost() {
    let mut broker = open_broker();
    join(&mut broker, connect_as("w", true, 0), 0);
    handle(&mut broker, "w", subscribe_to("gone", 0), 0);
    let (lost, _, _) = join(&mut broker, with_will("a", 0, 0), 0);
    let actions = broker.connection_ended("a", lost, None, 1);
    let ticket = actions
        .iter()
        .find_map(|x| match x {
            BrokerAction::ArmWill(_, ticket, 0) => Some(*ticket),
            _ => None,
        })
        .unwrap();
    let actions = broker.will_due("a", ticket, 1);
    assert_eq!(
        sent(&actions, "w"),
        vec![encode_publish_qos0("gone", b"bye", false, None)]
    );
    let (polite, _, _) = join(&mut broker, with_will("b", 0, 0), 0);
    let actions = broker.connection_ended("b", polite, Some(0), 1);
    assert!(!actions.iter().any(|x| matches!(x, BrokerAction::ArmWill(..))));
    assert_eq!(broker.tallies.wills_published, 1);
}

#[test]
fn a_delayed_will_is_cancelled_when_the_client_is_back() {
    let mut broker = open_broker();
    join(&mut broker, connect_as("w", true, 0), 0);
    handle(&mut broker, "w", subscribe_to("gone", 0), 0);
    let (lost, _, _) = join(&mut broker, with_will("a", 10, 300), 0);
    let actions = broker.connection_ended("a", lost, None, 1);
    let ticket = actions
        .iter()
        .find_map(|x| match x {
            BrokerAction::ArmWill(_, ticket, 10_000) => Some(*ticket),
            _ => None,
        })
        .unwrap();
    assert_eq!(broker.pending_wills_count(), 1);
    join(&mut broker, connect_as("a", false, 300), 2);
    assert_eq!(broker.pending_wills_count(), 0);
    assert!(broker.will_due("a", ticket, 10_001).is_empty());

    let (lost, _, _) = join(&mut broker, with_will("c", 10, 300), 0);
    let actions = broker.connection_ended("c", lost, None, 1);
    let ticket = actions
        .iter()
        .find_map(|x| match x {
            BrokerAction::ArmWill(_, ticket, 10_000) => Some(*ticket),
            _ => None,
        })
        .unwrap();
    let actions = broker.will_due("c", ticket, 10_001);
    assert_eq!(sent(&actions, "w").len(), 1);
}

#[test]
fn a_disconnect_cannot_give_a_session_an_expiry() {
    let mut broker = open_broker();
    join(&mut broker, connect_as("a", true, 0), 0);
    let (_, fault) = broker.process_disconnect(
        "a",
        &Disconnect {
            reason_code: 0,
            properties: DisconnectProperties {
                session_expiry_interval: Some(5),
                ..Default::default()
            },
        },
    );
    assert_eq!(fault, Some(PacketFault::RaisedExpiry));
    join(&mut broker, connect_as("b", true, 100), 0);
    let (actions, fault) = broker.process_disconnect(
        "b",
        &Disconnect {
            reason_code: 0,
            properties: DisconnectProperties {
                session_expiry_interval: Some(5),
                ..Default::default()
            },
        },
    );
    assert_eq!(fault, None);
    assert_eq!(broker.existing_session("b").unwrap().session_expiry(), 5);
    assert!(actions
        .iter()
        .any(|x| matches!(x, BrokerAction::SaveSession(c, None, true, 5) if c == "b")));
}

#[test]
fn expired_messages_go_nowhere() {
    let mut broker = open_broker();
    join(&mut broker, connect_as("b", true, 0), 0);
    handle(&mut broker, "b", subscribe_to("t", 0), 0);
    let mut properties = ApplicationProperties::none();
    properties.message_expiry_interval = Some(1);
    properties.start_expiry_at(1_000);
    let late = broker.route_publish("x", "t", b"p", 0, false, &properties, 2_000);
    assert!(sent(&late, "b").is_empty());
    let early = broker.route_publish("x", "t", b"p", 0, false, &properties, 1_999);
    assert_eq!(sent(&early, "b").len(), 1);
}

#[test]
fn stored_state_comes_back() {
    let mut broker = open_broker();
    let now = ApplicationProperties::now_ms();
    let stored = StoredState {
        sessions: vec![SessionRow {
            client_id: "a".to_string(),
            username: None,
            clean_start: false,
            session_expiry: 1_000,
            last_activity: now / 1000,
            connected: false,
        }],
        subscriptions: vec![SubscriptionRow {
            client_id: "a".to_string(),
            topic_filter: "t".to_string(),
            qos: 1,
            subscription_identifier: None,
            options: 1,
        }],
        in_flight: vec![InFlightRow {
            client_id: "a".to_string(),
            packet_id: 4,
            topic: "t".to_string(),
            payload: b"p".to_vec(),
            qos: 1,
            retain: false,
            subscription_identifier: None,
            properties: ApplicationProperties::none(),
            enqueue_order: 1,
            delivery_started: true,
        }],
        retained: vec![RetainedMessage {
            topic: "r".to_string(),
            payload: b"kept".to_vec(),
            qos: 0,
            properties: ApplicationProperties::none(),
        }],
        incoming: vec![IncomingRow {
            client_id: "a".to_string(),
            packet_id: 9,
            message: IncomingQos2Message {
                topic: "t".to_string(),
                payload: b"q".to_vec(),
                retain: false,
                properties: ApplicationProperties::none(),
            },
        }],
        outgoing: Vec::new(),
        wills: vec![WillRow {
            client_id: "a".to_string(),
            username: None,
            message: WillMessage {
                topic: "gone".to_string(),
                payload: b"bye".to_vec(),
                qos: 0,
                retain: false,
                delay_interval: 60,
                properties: ApplicationProperties::none(),
            },
            session_expiry: 1_000,
            due_at_ms: Some(now + 30_000),
        }],
    };
    broker.restore_sessions_from_db(stored, now);
    let session = broker.existing_session("a").unwrap();
    assert!(!session.connected);
    assert_eq!(session.subscription_count(), 1);
    assert_eq!(session.in_flight.len(), 1);
    assert_eq!(session.incoming_qos2.len(), 1);
    assert_eq!(broker.retained.len(), 1);
    assert_eq!(broker.pending_wills_count(), 1);
    let (_, present, actions) = join(&mut broker, connect_as("a", false, 1_000), now + 1);
    assert!(present);
    match decode_packet(&sent(&actions, "a")[1]).unwrap().0 {
        Packet::Publish(p) => assert_eq!((p.packet_id, p.dup), (Some(4), true)),
        other => panic!("{other:?}"),
    }
}

#[test]
fn the_clock_runs() {
    let first = ApplicationProperties::now_ms();
    assert!(first > 1_600_000_000_000);
    assert!(ApplicationProperties::now_ms() >= first);
}

#[test]
fn the_short_way_agrees_with_the_long_one() {
    let mut broker = open_broker();
    join(&mut broker, connect_as("a", true, 0), 0);
    let one = encode_publish_qos0("t", b"1", false, None);
    let mut two = one.clone();
    two.extend_from_slice(&one);
    let mut layouts = FastLayouts::new();
    match broker.fast_step("a", &two, &mut layouts) {
        FastStep::Drop(batch) => assert_eq!((batch.messages, batch.bytes), (2, two.len())),
        _ => panic!("nobody receives the messages"),
    }
    broker.count_batch("a", 2);
    assert_eq!(broker.messages_published(), 2);
    join(&mut broker, connect_as("b", true, 0), 0);
    handle(&mut broker, "b", subscribe_to("t", 0), 0);
    match broker.fast_step("a", &two, &mut layouts) {
        FastStep::Direct(batch, target) => {
            assert_eq!(batch.messages, 2);
            assert_eq!(target.client_id, "b");
        }
        _ => panic!("there is one receiver"),
    }
    let (actions, _) = handle(&mut broker, "a", message("t", b"1", 0, None, false), 1);
    assert_eq!(sent(&actions, "b"), vec![one.clone()]);

    let mut mixed = one.clone();
    mixed.extend_from_slice(&encode_publish_qos0("u", b"1", false, None));
    assert!(matches!(
        broker.fast_step("a", &mixed, &mut layouts),
        FastStep::Decode
    ));

    handle(
        &mut broker,
        "a",
        Packet::Publish(Publish {
            dup: false,
            qos: 0,
            retain: false,
            topic: "t",
            packet_id: None,
            properties: PublishProperties {
                topic_alias: Some(1),
                ..Default::default()
            },
            payload: b"1",
        }),
        1,
    );
    let aliased = encode_publish_qos0_with_topic_alias("", b"1", 1);
    match broker.fast_step("a", &aliased, &mut layouts) {
        FastStep::Aliased(batch, target, topic) => {
            assert_eq!(batch.messages, 1);
            assert_eq!(target.client_id, "b");
            assert_eq!(topic, "t");
        }
        _ => panic!("there is one receiver"),
    }
    handle(&mut broker, "b", subscribe_to("u/#", 0), 0);
    assert!(matches!(
        broker.fast_step("a", &two, &mut layouts),
        FastStep::Decode
    ));
}

#[test]
fn aliases_towards_a_client_are_given_in_turn() {
    let mut aliases = OutboundAliases::new(2);
    assert_eq!(aliases.alias_for("x"), Some((1, false)));
    aliases.mark_established("x");
    assert_eq!(aliases.alias_for("x"), Some((1, true)));
    assert_eq!(aliases.alias_for("y"), Some((2, false)));
    assert_eq!(aliases.alias_for("z"), None);
}

#[test]
fn the_bridge_forwards_and_does_not_loop() {
    let mut broker = open_broker();
    broker.open_bridge();
    let none = ApplicationProperties::none();
    let actions = broker.route_publish("a", "sensor/t", b"1", 0, false, &none, 0);
    match &actions[0] {
        BrokerAction::Forward(m) => assert_eq!(
            forward_bytes(m),
            Some(encode_publish_qos0("sensor/t", b"1", false, None))
        ),
        _ => panic!("the message is forwarded"),
    }
    assert!(broker
        .route_publish("a", "other/t", b"1", 0, false, &none, 0)
        .is_empty());
    let remote = message("sensor/t", b"2", 0, None, false);
    assert!(broker.bridge_packet(&remote, 1).is_empty());
    assert_eq!(login_reply(&[0x20, 3, 0, 0, 0]), LoginReply::Accepted(5));
    assert_eq!(login_reply(&[0x20, 3, 0, 0x86, 0]), LoginReply::Refused(0x86));
    assert_eq!(login_reply(&[0xD0, 0]), LoginReply::Unexpected);
    match decode_packet(&subscribe_bytes()).unwrap().0 {
        Packet::Subscribe(s) => assert_eq!(s.subscriptions[0].topic_filter, "alerts/#"),
        other => panic!("{other:?}"),
    }
    let mut backoff = Backoff::new();
    let waits: Vec<u64> = (0..6).map(|_| backoff.ended(true)).collect();
    assert_eq!(waits, vec![10, 15, 25, 45, 65, 65]);
    assert_eq!(backoff.ended(false), 5);
    assert_eq!(backoff.ended(true), 10);
}

#[test]
fn messages_for_a_remote_broker_that_cannot_be_reached_fill_the_queue() {
    let mut broker = open_broker();
    join(&mut broker, connect_as("a", true, 0), 0);
    broker.open_bridge();
    let mut layouts = FastLayouts::new();
    let bytes = bytes_of(&message("sensor/t", b"1", 0, None, false));
    let mut tallies = QueueTallies::new();
    let mut queue = Vec::new();
    for _ in 0..100 {
        assert!(matches!(broker.fast_step("a", &bytes, &mut layouts), FastStep::Decode));
        let taken = match broker.take_bytes("a", &bytes, 0) {
            BytesStep::Packet(used, taken) if used == bytes.len() => taken,
            _ => panic!("a whole packet is taken"),
        };
        for action in taken.actions {
            if let BrokerAction::Forward(m) = action {
                let offer = if queue.len() < 16 { Offer::Taken } else { Offer::Full };
                if offer == Offer::Taken {
                    queue.push(m);
                }
                tallies.bridge_offered(offer, BridgeQueuePolicy::DropNewest);
            }
        }
    }
    assert_eq!(queue.len(), 16);
    assert_eq!(tallies.bridge_backpressure_events, 84);
    assert_eq!(tallies.bridge_dropped, 84);
}

#[test]
fn bytes_of_a_client_are_taken_packet_by_packet() {
    let mut broker = open_broker();
    join(&mut broker, connect_as("a", true, 0), 0);
    let mut bytes = bytes_of(&subscribe_to("t", 0));
    let first = bytes.len();
    bytes.extend_from_slice(&[0xC0, 0, 0x30]);
    match broker.take_bytes("a", &bytes, 0) {
        BytesStep::Packet(used, taken) => {
            assert_eq!(used, first);
            assert_eq!(sent(&taken.actions, "a")[0], vec![0x90, 4, 0, 1, 0, 0]);
            assert!(taken.fault.is_none() && taken.leave.is_none());
        }
        _ => panic!("the first packet is whole"),
    }
    assert_eq!(broker.router.route_count(), 1);
    match broker.take_bytes("a", &bytes[first..], 0) {
        BytesStep::Packet(2, taken) => assert_eq!(sent(&taken.actions, "a"), vec![vec![0xD0, 0]]),
        _ => panic!("the second packet is whole"),
    }
    assert!(matches!(broker.take_bytes("a", &bytes[first + 2..], 0), BytesStep::More));
    assert!(matches!(broker.take_bytes("a", &[], 0), BytesStep::More));
    let cases: [(&[u8], CodecError, u8); 3] = [
        (&[0xC1, 0], CodecError::MalformedPacket, 0x81),
        (&[0x30, 0xFF, 0xFF, 0xFF, 0x7F], CodecError::PacketTooLarge, 0x95),
        (&[0x30, 0xFF, 0xFF, 0xFF, 0xFF], CodecError::InvalidVarint, 0x81),
    ];
    for (bad, error, reason) in cases {
        match broker.take_bytes("a", bad, 0) {
            BytesStep::Refused(answer, e) => {
                assert_eq!(e, error);
                assert_eq!(answer, encode_disconnect(reason));
            }
            _ => panic!("these bytes are no packet"),
        }
    }
    match broker.take_bytes("a", &[0xE0, 0], 0) {
        BytesStep::Packet(2, taken) => assert_eq!(taken.leave, Some(0)),
        _ => panic!("the client takes leave"),
    }
}

#[test]
fn bytes_of_the_remote_broker_are_taken_packet_by_packet() {
    let mut broker = open_broker();
    join(&mut broker, connect_as("a", true, 0), 0);
    handle(&mut broker, "a", subscribe_to("alerts/#", 0), 0);
    let one = bytes_of(&message("alerts/x", b"1", 0, None, false));
    match broker.bridge_bytes(&one, 0) {
        BridgeStep::Packet(used, actions) => {
            assert_eq!(used, one.len());
            assert_eq!(sent(&actions, "a"), vec![one.clone()]);
        }
        _ => panic!("the packet is whole"),
    }
    assert!(matches!(broker.bridge_bytes(&one[..5], 0), BridgeStep::More));
    assert!(matches!(
        broker.bridge_bytes(&[0xF0, 0], 0),
        BridgeStep::Refused(CodecError::MalformedPacket)
    ));
    match broker.bridge_bytes(&[0xD0, 0], 0) {
        BridgeStep::Packet(2, actions) => assert!(actions.is_empty()),
        _ => panic!("a sign of life asks for nothing"),
    }
}

#[test]
fn pages_tell_of_the_broker() {
    assert_eq!(page_for("GET /metrics HTTP/1.1\r\nHost: x\r\n"), Page::Metrics);
    assert_eq!(page_for("GET\t/health"), Page::Health);
    assert_eq!(page_for("GET /info\n"), Page::Info);
    assert_eq!(page_for("GET\n/info"), Page::Missing);
    assert_eq!(page_for(""), Page::Missing);
    let mut broker = open_broker();
    join(&mut broker, connect_as("a", true, 10), 0);
    handle(&mut broker, "a", subscribe_to("x", 0), 0);
    let depths = QueueDepths {
        client_messages: 1,
        client_capacity: 2,
        bridge_messages: 3,
        bridge_capacity: 4,
    };
    let mut latency = pipistrelle::latency::LatencyHistogram::new();
    latency.record(8_000);
    let mut queues = pipistrelle::connection::queues::QueueTallies::new();
    queues.bridge_waited(1_500_000_001);
    let report = broker.report(
        queues,
        depths,
        (5, 6),
        &latency,
        "2.1.2.3",
        "V2",
        pipistrelle::crypto::TlsProfile::Hybrid,
    );
    let page = respond(b"GET /metrics HTTP/1.1\r\n\r\n", &report);
    assert!(page.starts_with("HTTP/1.1 200 OK\r\nContent-Type: text/plain; version=0.0.4; charset=utf-8\r\nContent-Length: "));
    for line in [
        "\n# HELP pipistrelle_connections_total Active MQTT client connections\n# TYPE pipistrelle_connections_total gauge\npipistrelle_connections_total 1\n",
        "\npipistrelle_client_subscriptions_current 1\n",
        "\npipistrelle_persistent_sessions_current 1\n",
        "\npipistrelle_persistent_sessions_offline 0\n",
        "\npipistrelle_tls_handshakes_total{kind=\"pqc\"} 5\n",
        "\npipistrelle_bridge_queue_backpressure_wait_seconds_total 1.500000001\n",
        "\npipistrelle_publish_route_latency_seconds_bucket{le=\"0.000010\"} 1\n",
        "\npipistrelle_publish_route_latency_seconds_bucket{le=\"+Inf\"} 1\n",
        "\npipistrelle_publish_route_latency_seconds_sum 0.000008000\n",
        "\npipistrelle_publish_route_latency_p50_seconds 0.000010\n",
        "\npipistrelle_build_info{version=\"2.1.2.3\",series=\"V2\",tls_profile=\"hybrid\"} 1\n",
    ] {
        assert!(page.contains(line.trim_start_matches('\n')), "{line}");
    }
    let (head, body) = page.split_once("\r\n\r\n").unwrap();
    assert!(head.contains(&format!("Content-Length: {}", body.len())));
    assert_eq!(
        respond(b"GET /health HTTP/1.1\r\n\r\n", &report),
        "HTTP/1.1 200 OK\r\nContent-Type: application/json; charset=utf-8\r\nContent-Length: 50\r\nConnection: close\r\n\r\n{\"status\":\"ok\",\"version\":\"2.1.2.3\",\"series\":\"V2\"}\n"
    );
    let info = respond(b"GET /info HTTP/1.1\r\n\r\n", &report);
    assert!(info.contains("\"receive_maximum\":1024,\"maximum_packet_size\":16777216,\"topic_alias_maximum\":16,"));
    assert!(info.contains("\"topic_alias_outbound\":true"));
    assert!(respond(b"\xFF \xFE", &report).starts_with("HTTP/1.1 404 Not Found\r\n"));
}

#[test]
fn a_wait_that_took_too_long_counts_once() {
    let mut broker = open_broker();
    let (connection, _, _) = join(&mut broker, connect_as("a", true, 0), 0);
    let mut tallies = QueueTallies::new();
    assert!(broker.wait_ended("a", connection, &mut tallies, WaitEnd::Taken, 7));
    assert!(!broker.wait_ended("a", connection, &mut tallies, WaitEnd::TimedOut, 10));
    assert!(!broker.wait_ended("a", connection, &mut tallies, WaitEnd::TimedOut, 10));
    assert!(!broker.wait_ended("nobody", 9, &mut tallies, WaitEnd::TimedOut, 1));
    assert_eq!(tallies.slow_consumer_disconnects, 1);
    assert_eq!(tallies.client_backpressure_wait_ns, 28);
    let session = broker.existing_session("a").unwrap();
    assert!(session.disconnect_requested);
}

#[test]
fn a_wait_for_a_replaced_connection_counts_until_it_is_closed() {
    let mut broker = open_broker();
    let mut tallies = QueueTallies::new();
    let (first, _, _) = join(&mut broker, connect_as("a", true, 0), 0);
    let (second, _, actions) = join(&mut broker, connect_as("a", true, 0), 0);
    assert!(actions
        .iter()
        .any(|action| matches!(action, BrokerAction::Close(client, n) if client == "a" && *n == first)));
    assert!(!broker.wait_ended("a", first, &mut tallies, WaitEnd::TimedOut, 1));
    assert!(!broker.wait_ended("a", first, &mut tallies, WaitEnd::TimedOut, 1));
    assert_eq!(tallies.slow_consumer_disconnects, 1);
    assert!(!broker.existing_session("a").unwrap().disconnect_requested);

    join(&mut broker, connect_as("a", true, 0), 0);
    broker.displaced_closed(second);
    assert!(!broker.wait_ended("a", second, &mut tallies, WaitEnd::TimedOut, 1));
    assert_eq!(tallies.slow_consumer_disconnects, 1);

    let (third, _, _) = join(&mut broker, connect_as("b", true, 0), 0);
    assert!(!broker.wait_ended("b", third, &mut tallies, WaitEnd::TimedOut, 1));
    assert_eq!(tallies.slow_consumer_disconnects, 2);
    join(&mut broker, connect_as("b", true, 0), 0);
    assert!(!broker.wait_ended("b", third, &mut tallies, WaitEnd::TimedOut, 1));
    assert_eq!(tallies.slow_consumer_disconnects, 2);
}

#[test]
fn routes_are_counted() {
    let mut broker = open_broker();
    join(&mut broker, connect_as("a", true, 0), 0);
    assert_eq!(broker.router.route_count(), 0);
    handle(&mut broker, "a", subscribe_to("x/+", 0), 0);
    handle(&mut broker, "a", subscribe_to("x/y", 0), 0);
    handle(&mut broker, "a", subscribe_to("x/y", 1), 0);
    assert_eq!(broker.router.route_count(), 2);
}
