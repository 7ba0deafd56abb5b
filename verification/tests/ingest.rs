use pipistrelle::codec::encode::{
    encode_packet, encode_publish_qos0, encode_publish_qos0_with_topic_alias,
};
use pipistrelle::codec::packet::{Packet, Publish};
use pipistrelle::codec::properties::PublishProperties;
use pipistrelle::ingest::egress::{next_egress, EgressStep};
use pipistrelle::ingest::forward::{
    expand_fast_alias_batch, rewrite_fast_alias_batch, FastAliasEgressCache,
};
use pipistrelle::ingest::scan::{
    fast_ingest_layout_matches, fast_ingest_layout_matches_8, scan_zero_route_qos0_alias_batch,
    scan_zero_route_qos0_batch, FastIngestLayout,
};
use pipistrelle::session::client::ClientSession;

fn session_with_aliases(client_id: &str) -> ClientSession {
    let mut session = ClientSession::new(
        client_id.into(),
        None,
        true,
        true,
        true,
        60,
        u16::MAX,
        268_435_455,
        0,
    );
    session.set_topic_alias_maximum(32);
    session
}

#[test]
fn disconnect_request_is_idempotent() {
    let mut session = ClientSession::new(
        "slow".to_string(),
        None,
        true,
        false,
        false,
        60,
        u16::MAX,
        268_435_455,
        0,
    );
    assert!(session.request_disconnect());
    assert!(!session.request_disconnect());
    assert!(session.disconnect_requested());
}

#[test]
fn native_batch_scans_multiple_simple_publishes() {
    let one = encode_publish_qos0("bench/native/1", b"payload", false, None);
    let two = encode_publish_qos0("bench/native/2", b"payload2", false, None);
    let mut joined = one.clone();
    joined.extend_from_slice(&two);
    let batch = scan_zero_route_qos0_batch(&joined, 1024 * 1024, &mut FastIngestLayout::default());
    assert_eq!(batch.messages, 2);
    assert_eq!(batch.bytes, joined.len());
}

#[test]
fn native_batch_falls_back_for_non_ascii_or_properties() {
    let non_ascii = encode_publish_qos0("bench/café", b"x", false, None);
    assert_eq!(
        scan_zero_route_qos0_batch(&non_ascii, 1024, &mut FastIngestLayout::default()).messages,
        0
    );

    let packet = Packet::Publish(Publish {
        dup: false,
        qos: 0,
        retain: false,
        topic: "bench/native/props",
        packet_id: None,
        properties: PublishProperties {
            content_type: Some("application/octet-stream"),
            ..Default::default()
        },
        payload: b"x",
    });
    let mut buf = Vec::new();
    encode_packet(&packet, &mut buf);
    assert_eq!(
        scan_zero_route_qos0_batch(&buf, 1024, &mut FastIngestLayout::default()).messages,
        0
    );
}

#[test]
fn native_layout_cache_revalidates_when_header_changes() {
    let one = encode_publish_qos0("bench/native/a", b"payload", false, None);
    let two = encode_publish_qos0("bench/native/b", b"different-size", false, None);
    let mut joined = one;
    joined.extend_from_slice(&two);
    let mut layout = FastIngestLayout::default();
    let batch = scan_zero_route_qos0_batch(&joined, 1024 * 1024, &mut layout);
    assert_eq!(batch.messages, 2);
    assert_eq!(batch.bytes, joined.len());
}

#[test]
fn vector_layout_match_masks_payload_and_rejects_header_change() {
    let first = encode_publish_qos0("bench/native/a", &[b'a'; 128], false, None);
    let second = encode_publish_qos0("bench/native/a", &[b'z'; 128], false, None);
    let mut layout = FastIngestLayout::default();
    assert_eq!(
        scan_zero_route_qos0_batch(&first, 1024 * 1024, &mut layout).messages,
        1
    );
    assert!(fast_ingest_layout_matches(&second, 0, &layout));
    let changed_topic = encode_publish_qos0("bench/native/b", &[b'z'; 128], false, None);
    assert!(!fast_ingest_layout_matches(&changed_topic, 0, &layout));
}

#[test]
fn vector_layout_match_8_detects_any_header_change() {
    let packet = encode_publish_qos0("bench/native/eight", &[b'x'; 128], false, None);
    let mut layout = FastIngestLayout::default();
    assert_eq!(
        scan_zero_route_qos0_batch(&packet, 1024 * 1024, &mut layout).messages,
        1
    );
    let mut eight = Vec::with_capacity(packet.len() * 8);
    for _ in 0..8 {
        eight.extend_from_slice(&packet);
    }
    assert!(fast_ingest_layout_matches_8(
        &eight,
        0,
        packet.len(),
        &layout
    ));
    let second_packet = packet.len();
    let topic_byte = 5usize;
    eight[second_packet + topic_byte] ^= 1;
    assert!(!fast_ingest_layout_matches_8(
        &eight,
        0,
        packet.len(),
        &layout
    ));
}

#[test]
fn alias_batch_requires_established_connection_mapping() {
    let mut session = session_with_aliases("alias-fast");
    let payload = [b'x'; 128];
    let packet = encode_publish_qos0_with_topic_alias("", &payload, 1);
    let mut layout = FastIngestLayout::default();
    assert_eq!(
        scan_zero_route_qos0_alias_batch(&packet, 1024 * 1024, &mut layout, &session).messages,
        0
    );
    session.set_inbound_topic_alias(1, "bench/alias");
    assert_eq!(
        scan_zero_route_qos0_alias_batch(&packet, 1024 * 1024, &mut layout, &session).messages,
        1
    );
}

#[test]
fn alias_scalar9_batch_accepts_variable_payload_and_stops_on_alias_change() {
    let mut session = session_with_aliases("alias-scalar9");
    session.set_inbound_topic_alias(1, "bench/alias");
    let seed = encode_publish_qos0_with_topic_alias("", &[b'x'; 128], 1);
    let mut layout = FastIngestLayout::default();
    assert_eq!(
        scan_zero_route_qos0_alias_batch(&seed, 1024 * 1024, &mut layout, &session).messages,
        1
    );
    assert!(layout.scalar9);

    let mut batch = Vec::with_capacity(seed.len() * 16);
    for lane in 0..16u8 {
        let mut payload = [b'x'; 128];
        payload[0] = lane;
        batch.extend_from_slice(&encode_publish_qos0_with_topic_alias("", &payload, 1));
    }
    let accepted = scan_zero_route_qos0_alias_batch(&batch, 1024 * 1024, &mut layout, &session);
    assert_eq!(accepted.messages, 16);
    assert_eq!(accepted.bytes, batch.len());

    let packet_len = seed.len();
    batch[7 * packet_len + 8] = 2;
    let stopped = scan_zero_route_qos0_alias_batch(&batch, 1024 * 1024, &mut layout, &session);
    assert_eq!(stopped.messages, 7);
    assert_eq!(stopped.bytes, 7 * packet_len);
}

#[test]
fn alias_fast_egress_expands_to_full_topic_and_preserves_variable_payloads() {
    let mut session = session_with_aliases("alias-egress");
    let topic = "bench/native/alias-egress";
    session.set_inbound_topic_alias(1, topic);

    let mut input = Vec::new();
    let mut expected = Vec::new();
    for lane in 0..16u8 {
        let mut payload = [b'x'; 128];
        payload[0] = lane;
        input.extend_from_slice(&encode_publish_qos0_with_topic_alias("", &payload, 1));
        expected.extend_from_slice(&encode_publish_qos0(topic, &payload, false, None));
    }

    let mut layout = FastIngestLayout::default();
    let batch = scan_zero_route_qos0_alias_batch(&input, 1024 * 1024, &mut layout, &session);
    assert_eq!(batch.messages, 16);
    assert_eq!(layout.alias, Some(1));
    let mut cache = FastAliasEgressCache::default();
    let (expanded, packet_len) =
        expand_fast_alias_batch(&input, batch, &layout, topic, &mut cache).unwrap();
    assert_eq!(expanded, expected);
    assert_eq!(packet_len * 16, expected.len());
}

#[test]
fn alias_rewrite_changes_only_alias_and_preserves_payloads() {
    let mut session = session_with_aliases("alias-rewrite");
    session.set_inbound_topic_alias(1, "bench/rewrite");
    let mut input = Vec::new();
    let mut expected = Vec::new();
    for lane in 0..16u8 {
        let mut payload = [b'x'; 128];
        payload[0] = lane;
        input.extend_from_slice(&encode_publish_qos0_with_topic_alias("", &payload, 1));
        expected.extend_from_slice(&encode_publish_qos0_with_topic_alias("", &payload, 2));
    }
    let mut layout = FastIngestLayout::default();
    let batch = scan_zero_route_qos0_alias_batch(&input, 1024 * 1024, &mut layout, &session);
    assert_eq!(batch.messages, 16);
    let rewritten = rewrite_fast_alias_batch(&input, batch, &layout, 2).unwrap();
    assert_eq!(rewritten, expected);
}

#[test]
fn form_of_forwarded_packets_follows_what_the_receiver_knows() {
    let topic = "bench/egress";
    let mut session = session_with_aliases("egress");
    session.set_inbound_topic_alias(1, topic);
    let payloads: Vec<[u8; 128]> = (0..3u8).map(|lane| [lane; 128]).collect();
    let with = |name: &str, alias: u16, from: usize| -> Vec<u8> {
        let of = |p: &[u8; 128]| encode_publish_qos0_with_topic_alias(name, p, alias);
        payloads[from..].iter().flat_map(of).collect()
    };
    let named: Vec<u8> = payloads
        .iter()
        .flat_map(|p| encode_publish_qos0(topic, p, false, None))
        .collect();
    let input = with("", 1, 0);
    let one = input.len() / 3;
    let mut layout = FastIngestLayout::default();
    let batch = scan_zero_route_qos0_alias_batch(&input, 1024 * 1024, &mut layout, &session);
    assert_eq!(batch.messages, 3);
    let mut cache = FastAliasEgressCache::default();
    let mut step =
        |outbound, mapped| next_egress(&input, batch, &layout, topic, outbound, mapped, &mut cache);
    let sends = |step: EgressStep, bytes: &[u8], length: usize| {
        matches!(step, EgressStep::Packets(b, n) if b == bytes && n == length)
    };

    assert!(sends(step(Some((7, true)), None), &with("", 7, 0), one));
    let first = encode_publish_qos0_with_topic_alias(topic, &payloads[0], 7);
    assert!(matches!(step(Some((7, false)), None), EgressStep::Mapping(b) if b == first));
    assert!(sends(step(Some((7, false)), Some(true)), &with("", 7, 1), one));
    assert!(sends(step(Some((7, false)), Some(false)), &named, named.len() / 3));
    assert!(sends(step(None, None), &named, named.len() / 3));

    let mut other = FastAliasEgressCache::default();
    let cut = &input[..one];
    let step = next_egress(cut, batch, &layout, topic, Some((7, false)), None, &mut other);
    assert!(matches!(step, EgressStep::Decode));
}
