use pipistrelle::bench::args::{parse_args, Mode, ParsedArgs};
use pipistrelle::bench::frames::{
    encode_connect, encode_puback, encode_publish, encode_publish_topic_alias, encode_subscribe,
    parse_connack_topic_alias_maximum, parse_publish_packet_id, parse_suback_reason,
    try_packet_bounds, FrameFault,
};
use pipistrelle::bench::plan::{
    mapping_of, packet_of,
    client_name, marker, next_count, numbered_window, packet_id_of, repeat, topic_name,
};
use pipistrelle::bench::reader::{
    scan_qos0_read_batch, validate_server_topic_alias, BenchReader, FastQos0ReadLayout,
};
use pipistrelle::bench::worker::{WorkerPlan, WorkerStep};
use pipistrelle::codec::decode::decode_packet;
use pipistrelle::codec::packet::Packet;

#[test]
fn buffered_packet_bounds_handle_complete_and_partial_packets() {
    let packet = encode_publish("bench/native/7", b"payload", 0, None);
    assert_eq!(
        try_packet_bounds(&packet).unwrap(),
        Some((0x30, 2, packet.len()))
    );
    for cut in 0..packet.len() {
        assert_eq!(try_packet_bounds(&packet[..cut]).unwrap(), None);
    }
}

#[test]
fn connect_can_advertise_server_to_client_topic_alias_maximum() {
    let packet = encode_connect("client", "user", "pass", 7);
    let (_, body_start, packet_len) = try_packet_bounds(&packet).unwrap().unwrap();
    let body = &packet[body_start..packet_len];
    // MQTT(6 bytes) + level + flags + keepalive = 10 bytes before properties.
    let properties_len = body[10] as usize;
    assert_eq!(properties_len, 3);
    assert_eq!(&body[11..14], &[0x22, 0x00, 0x07]);
}

#[test]
fn server_topic_alias_requires_mapping_before_reuse() {
    let mut mappings = std::collections::HashMap::new();
    let unmapped = encode_publish_topic_alias("", b"x", 1);
    let (_, body_start, packet_len) = try_packet_bounds(&unmapped).unwrap().unwrap();
    assert!(
        validate_server_topic_alias(&unmapped[body_start..packet_len], 8, &mut mappings).is_err()
    );

    let mapping = encode_publish_topic_alias("bench/native/1", b"x", 1);
    let (_, body_start, packet_len) = try_packet_bounds(&mapping).unwrap().unwrap();
    assert!(
        validate_server_topic_alias(&mapping[body_start..packet_len], 8, &mut mappings)
            .unwrap()
            .is_some()
    );
    let (_, body_start, packet_len) = try_packet_bounds(&unmapped).unwrap().unwrap();
    assert!(
        validate_server_topic_alias(&unmapped[body_start..packet_len], 8, &mut mappings)
            .unwrap()
            .is_some()
    );
}

#[test]
fn buffered_packet_bounds_support_multiple_packets() {
    let first = encode_publish("a", b"1", 0, None);
    let second = encode_puback(42);
    let mut combined = first.clone();
    combined.extend_from_slice(&second);
    let (_, _, first_len) = try_packet_bounds(&combined).unwrap().unwrap();
    assert_eq!(first_len, first.len());
    let (header, _, second_len) = try_packet_bounds(&combined[first_len..]).unwrap().unwrap();
    assert_eq!(header >> 4, 4);
    assert_eq!(second_len, second.len());
}

#[test]
fn fast_qos0_reader_batches_stable_frames_and_stops_on_change() {
    let packet = encode_publish("bench/native/1", b"payload", 0, None);
    let (_, body_start, packet_len) = try_packet_bounds(&packet)
        .unwrap()
        .expect("complete packet");
    let mut layout = FastQos0ReadLayout::default();
    layout.cache(&packet[..body_start], packet_len);

    let mut block = Vec::new();
    block.extend_from_slice(&packet);
    block.extend_from_slice(&packet);
    block.extend_from_slice(&packet);
    let batch = scan_qos0_read_batch(&block, &layout);
    assert_eq!(batch.messages, 3);
    assert_eq!(batch.bytes, packet_len * 3);

    let mut changed = packet.clone();
    changed[0] = 0x31; // RETAIN=1 changes the fixed header and must end the fast run.
    let mut mixed = Vec::new();
    mixed.extend_from_slice(&packet);
    mixed.extend_from_slice(&changed);
    mixed.extend_from_slice(&packet);
    let batch = scan_qos0_read_batch(&mixed, &layout);
    assert_eq!(batch.messages, 1);
    assert_eq!(batch.bytes, packet_len);
}

#[test]
fn packets_of_the_client_are_decoded_by_the_broker() {
    let connect = encode_connect("me", "user", "pass", 0);
    match decode_packet(&connect).unwrap().0 {
        Packet::Connect(c) => {
            assert_eq!(c.client_id, "me");
            assert_eq!(c.username, Some("user"));
            assert_eq!(c.password, Some(&b"pass"[..]));
            assert_eq!(c.keep_alive, 60);
            assert!(c.clean_start);
        }
        other => panic!("{other:?}"),
    }
    let subscribe = encode_subscribe(1, "bench/native/3", 1);
    match decode_packet(&subscribe).unwrap().0 {
        Packet::Subscribe(s) => {
            assert_eq!(s.packet_id, 1);
            assert_eq!(s.subscriptions[0].topic_filter, "bench/native/3");
            assert_eq!(s.subscriptions[0].options, 1);
        }
        other => panic!("{other:?}"),
    }
    let publish = encode_publish("t", b"p", 1, Some(9));
    match decode_packet(&publish).unwrap().0 {
        Packet::Publish(p) => {
            assert_eq!((p.topic, p.payload, p.qos, p.packet_id), ("t", &b"p"[..], 1, Some(9)));
        }
        other => panic!("{other:?}"),
    }
}

#[test]
fn answers_of_the_broker_are_read() {
    let connack = [0, 0, 6, 0x21, 0, 10, 0x22, 0, 7];
    assert_eq!(parse_connack_topic_alias_maximum(&connack), Ok(7));
    assert_eq!(parse_connack_topic_alias_maximum(&[0, 0, 0]), Ok(0));
    assert_eq!(
        parse_connack_topic_alias_maximum(&[0, 0]),
        Err(FrameFault::ShortConnack)
    );
    assert_eq!(
        parse_connack_topic_alias_maximum(&[0, 0, 2, 0x22]),
        Err(FrameFault::ShortConnackProperties)
    );
    assert_eq!(
        parse_connack_topic_alias_maximum(&[0, 0, 2, 0x22, 0]),
        Err(FrameFault::ShortTopicAliasMaximum)
    );
    assert_eq!(
        parse_connack_topic_alias_maximum(&[0, 0, 1, 0x12]),
        Err(FrameFault::ShortConnackText)
    );
    assert_eq!(
        parse_connack_topic_alias_maximum(&[0, 0, 1, 0x16]),
        Err(FrameFault::ShortConnackBinary)
    );
    assert_eq!(
        parse_connack_topic_alias_maximum(&[0, 0, 3, 0x26, 0, 0]),
        Err(FrameFault::ShortConnackUserProperty)
    );
    assert_eq!(
        parse_connack_topic_alias_maximum(&[0, 0, 1, 0x7F]),
        Err(FrameFault::UnknownConnackProperty(0x7F))
    );
    assert_eq!(
        parse_connack_topic_alias_maximum(&[0, 0, 2, 0x27, 0]),
        Err(FrameFault::TruncatedConnackProperty)
    );
    assert_eq!(
        parse_connack_topic_alias_maximum(&[0, 0, 0x80]),
        Err(FrameFault::TruncatedVarint)
    );
    assert_eq!(
        parse_connack_topic_alias_maximum(&[0, 0, 0x80, 0x80, 0x80, 0x80]),
        Err(FrameFault::InvalidVarint)
    );
    assert_eq!(parse_suback_reason(&[0, 1, 0, 2]), Ok(2));
    assert_eq!(parse_suback_reason(&[0, 1]), Err(FrameFault::ShortSuback));
    assert_eq!(
        parse_suback_reason(&[0, 1, 0]),
        Err(FrameFault::SubackMissingReason)
    );
    assert_eq!(
        parse_publish_packet_id(&[0, 1, b'a', 1, 2, 0], 1),
        Ok(Some(258))
    );
    assert_eq!(parse_publish_packet_id(&[0, 1, b'a', 0], 0), Ok(None));
    assert_eq!(
        parse_publish_packet_id(&[0], 1),
        Err(FrameFault::ShortPublish)
    );
    assert_eq!(
        parse_publish_packet_id(&[0, 9, b'a'], 1),
        Err(FrameFault::ShortPublishTopic)
    );
    assert_eq!(
        parse_publish_packet_id(&[0, 1, b'a', 1], 1),
        Err(FrameFault::MissingPacketId)
    );
    assert_eq!(
        try_packet_bounds(&[0x30, 0xFF, 0xFF, 0xFF, 0xFF]),
        Err(FrameFault::MalformedLength)
    );
    assert_eq!(FrameFault::ShortSuback.message(), "short SUBACK");
}

#[test]
fn faults_of_server_aliases_are_told_apart() {
    let mut mappings = std::collections::HashMap::new();
    let mut check = |body: &[u8]| validate_server_topic_alias(body, 8, &mut mappings);
    assert_eq!(check(&[0, 0]), Err(FrameFault::ShortPublishBody));
    assert_eq!(check(&[0, 9, 0]), Err(FrameFault::ShortPublishTopic));
    assert_eq!(check(&[0, 0, 0x80]), Err(FrameFault::MalformedVarint));
    assert_eq!(check(&[0, 0, 4, 0]), Err(FrameFault::ShortPublishProperties));
    assert_eq!(check(&[0, 0, 3, 0x23, 0, 9]), Err(FrameFault::InvalidServerAlias));
    assert_eq!(check(&[0, 0, 3, 0x23, 0, 0]), Err(FrameFault::InvalidServerAlias));
    assert_eq!(check(&[0, 0, 3, 0x23, 0, 1]), Err(FrameFault::UnmappedServerAlias));
    assert_eq!(check(&[0, 1, b'a', 0]), Ok(None));
    assert_eq!(check(&[0, 1, b'a', 3, 0x23, 0, 1, b'x']), Ok(Some(7)));
    assert_eq!(check(&[0, 0, 3, 0x23, 0, 1, b'x']), Ok(Some(6)));
}

#[test]
fn reader_counts_messages_and_acknowledges_them() {
    let mut reader = BenchReader::new(false, 0);
    let message = encode_publish("t", b"p", 1, Some(5));
    let step = reader.step(&message).ok().unwrap();
    assert_eq!((step.taken, step.received, step.acknowledged), (message.len(), 1, 0));
    assert_eq!(step.reply, vec![0x40, 2, 0, 5]);
    let ack = encode_puback(5);
    let step = reader.step(&ack).ok().unwrap();
    assert_eq!((step.taken, step.received, step.acknowledged), (4, 0, 1));

    let mut fast = BenchReader::new(true, 0);
    let one = encode_publish("t", b"p", 0, None);
    let many = repeat(&one, 5);
    let first = fast.step(&many).ok().unwrap();
    assert_eq!((first.taken, first.received), (one.len(), 1));
    let rest = fast.step(&many[one.len()..]).ok().unwrap();
    assert_eq!((rest.taken, rest.received), (4 * one.len(), 4));
    assert_eq!(fast.step(&[0x30]).ok().unwrap().taken, 0);
}

#[test]
fn windows_are_made_of_whole_messages() {
    let packet = encode_publish("t", b"p", 0, None);
    let window = repeat(&packet, 3);
    assert_eq!(window.len(), 3 * packet.len());
    assert_eq!(window[..2 * packet.len()], repeat(&packet, 2)[..]);
    assert_eq!(next_count(90, 100, 64), 10);
    assert_eq!(next_count(0, 100, 64), 64);
    assert_eq!(packet_id_of(0), 1);
    assert_eq!(packet_id_of(65_534), 65_535);
    assert_eq!(packet_id_of(65_535), 1);
    let both = numbered_window("t", b"p", 65_534, 2);
    let mut expected = encode_publish("t", b"p", 1, Some(65_535));
    expected.extend_from_slice(&encode_publish("t", b"p", 1, Some(1)));
    assert_eq!(both, expected);
    assert_eq!(client_name(12), "pipistrelle_native_bench_12");
    assert_eq!(topic_name(Mode::Loopback, 7), "bench/native/7");
    assert_eq!(topic_name(Mode::Ingest, 7), "bench/native/ingest/7");
    assert_eq!(
        marker(3),
        encode_publish("bench/native/ingest/3/marker", b"done", 1, Some(65_535))
    );
}

fn run(args: &[&str]) -> Result<ParsedArgs, String> {
    let raw: Vec<String> = args.iter().map(|s| s.to_string()).collect();
    parse_args(&raw, None, Some("secret")).map_err(|e| e.message())
}

#[test]
fn arguments_are_read() {
    match run(&["--mode", "ingest", "--clients", "50", "--qos", "1", "--tls"]).ok().unwrap() {
        ParsedArgs::Run(args) => {
            assert_eq!(args.mode, Mode::Ingest);
            assert_eq!(args.clients, 50);
            assert_eq!(args.qos, 1);
            assert_eq!(args.port, 8883);
            assert_eq!(args.ca.as_deref(), Some("config/cert.pem"));
            assert_eq!(args.username, "admin");
            assert_eq!(args.password, "secret");
            assert_eq!(args.messages, 100_000);
        }
        ParsedArgs::Help => panic!("no help was asked for"),
    }
    match run(&["--tls", "--port", "9"]).ok().unwrap() {
        ParsedArgs::Run(args) => assert_eq!(args.port, 9),
        ParsedArgs::Help => panic!("no help was asked for"),
    }
    assert!(matches!(run(&["--help"]), Ok(ParsedArgs::Help)));
}

#[test]
fn faults_of_arguments_are_told_apart() {
    assert_eq!(run(&["--host"]).err().unwrap(), "missing value for --host");
    assert_eq!(run(&["--port", "x"]).err().unwrap(), "invalid number for --port");
    assert_eq!(
        run(&["--mode", "x"]).err().unwrap(),
        "unknown mode 'x', expected loopback|ingest"
    );
    assert_eq!(
        run(&["--tls-profile", "x"]).err().unwrap(),
        "invalid TLS profile 'x'"
    );
    assert_eq!(run(&["--what"]).err().unwrap(), "unknown argument '--what'");
    assert_eq!(
        run(&["--clients", "0"]).err().unwrap(),
        "clients, messages and window must be > 0"
    );
    assert_eq!(
        run(&["--qos", "2"]).err().unwrap(),
        "native benchmark currently supports QoS 0 and 1"
    );
    assert_eq!(
        run(&["--qos", "1", "--topic-alias"]).err().unwrap(),
        "--topic-alias currently benchmarks QoS 0 only"
    );
    assert_eq!(
        run(&["--sendfile"]).err().unwrap(),
        "--sendfile requires plain-TCP --mode ingest --qos 0"
    );
}

fn steps_of(mut plan: WorkerPlan) -> Vec<WorkerStep> {
    let mut steps = Vec::new();
    loop {
        match plan.next() {
            WorkerStep::Done => return steps,
            step => steps.push(step),
        }
    }
}

#[test]
fn a_client_sends_and_waits_as_its_mode_asks() {
    assert_eq!(
        steps_of(WorkerPlan::new(Mode::Loopback, 0, false, 5, 2)),
        vec![
            WorkerStep::Window(2),
            WorkerStep::Window(2),
            WorkerStep::Window(1),
            WorkerStep::AwaitReceived(5),
        ]
    );
    assert_eq!(
        steps_of(WorkerPlan::new(Mode::Loopback, 1, false, 3, 2)),
        vec![
            WorkerStep::Window(2),
            WorkerStep::AwaitAcknowledged(2),
            WorkerStep::Window(1),
            WorkerStep::AwaitAcknowledged(3),
            WorkerStep::AwaitReceived(3),
            WorkerStep::AwaitAcknowledged(3),
        ]
    );
    assert_eq!(
        steps_of(WorkerPlan::new(Mode::Ingest, 0, true, 5, 3)),
        vec![
            WorkerStep::Mapping,
            WorkerStep::Window(3),
            WorkerStep::Window(1),
            WorkerStep::Marker,
            WorkerStep::AwaitAcknowledged(1),
        ]
    );
    assert_eq!(
        steps_of(WorkerPlan::new(Mode::Ingest, 1, false, 2, 8)),
        vec![
            WorkerStep::Window(2),
            WorkerStep::AwaitAcknowledged(2),
            WorkerStep::AwaitAcknowledged(2),
        ]
    );
    assert_eq!(
        steps_of(WorkerPlan::new(Mode::Ingest, 0, true, 0, 8)),
        vec![WorkerStep::Marker, WorkerStep::AwaitAcknowledged(1)]
    );
}

#[test]
fn a_client_sends_each_message_once_and_comes_to_its_end() {
    for messages in 0..20u64 {
        for window in 0..7u64 {
            for (qos, alias) in [(0u8, false), (0, true), (1, false)] {
                for mode in [Mode::Loopback, Mode::Ingest] {
                    let steps = steps_of(WorkerPlan::new(mode, qos, alias, messages, window));
                    let sent: u64 = steps
                        .iter()
                        .map(|step| match step {
                            WorkerStep::Mapping => 1,
                            WorkerStep::Window(n) => *n,
                            _ => 0,
                        })
                        .sum();
                    assert_eq!(sent, messages);
                    for pair in steps.windows(2) {
                        if qos == 1 && matches!(pair[0], WorkerStep::Window(_)) {
                            assert!(matches!(pair[1], WorkerStep::AwaitAcknowledged(_)));
                        }
                    }
                }
            }
        }
    }
}

#[test]
fn packets_of_a_window_use_the_alias_or_the_topic() {
    assert_eq!(packet_of("t", b"x", false), vec![0x30, 5, 0, 1, b't', 0, b'x']);
    assert_eq!(packet_of("t", b"x", true), vec![0x30, 7, 0, 0, 3, 0x23, 0, 1, b'x']);
    assert_eq!(mapping_of("t", b"x"), vec![0x30, 8, 0, 1, b't', 3, 0x23, 0, 1, b'x']);
}
