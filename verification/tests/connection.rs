use pipistrelle::broker::state::OutboundPacket;
use pipistrelle::connection::frames::{FrameBuffer, FrameKind, FrameStep};
use pipistrelle::connection::queues::{fits, Offer, QueueTallies, SendStep, WaitEnd};
use pipistrelle::connection::reading::ReadPace;
use pipistrelle::connection::writing::{
    advance, all_plain, has_room, joined, release_ids, rest_of_packet, WritePlace,
};
use pipistrelle::policy::{BridgeQueuePolicy, SlowConsumerPolicy};
use pipistrelle::session::client::ClientSession;

fn packet(bytes: &[u8], release: Option<u16>) -> OutboundPacket {
    OutboundPacket {
        bytes: bytes.to_vec(),
        release_inbound_packet_id: release,
    }
}

#[test]
fn full_reads_raise_the_pace() {
    let mut pace = ReadPace::new();
    assert_eq!(pace.target, 4096);
    assert!(pace.wants_room(4095));
    pace.note(4096, 131_072);
    assert_eq!(pace.target, 4096);
    pace.note(3584, 131_072);
    assert_eq!(pace.target, 8192);
    pace.note(100, 131_072);
    assert_eq!((pace.target, pace.saturated), (8192, 0));
    for _ in 0..20 {
        pace.note(1_000_000, 131_072);
    }
    assert_eq!(pace.target, 131_072);
}

#[test]
fn pieces_of_any_size_write_the_stream() {
    let packets = vec![packet(b"abc", None), packet(b"", None), packet(b"defg", None)];
    let whole = joined(&packets);
    assert_eq!(whole, b"abcdefg");
    for piece in 1..8usize {
        let mut place = WritePlace { index: 0, offset: 0 };
        let mut out = Vec::new();
        while place.index < packets.len() {
            let left = whole.len() - out.len();
            if left == 0 {
                break;
            }
            let n = piece.min(left);
            let first = rest_of_packet(&packets, place);
            assert_eq!(first[..], whole[out.len()..out.len() + first.len()]);
            out.extend_from_slice(&whole[out.len()..out.len() + n]);
            place = advance(&packets, place, n);
        }
        assert_eq!(out, whole);
    }
}

#[test]
fn places_are_freed_for_what_was_written() {
    let packets = vec![packet(b"a", Some(3)), packet(b"b", None), packet(b"c", Some(1))];
    assert_eq!(release_ids(&packets), vec![3, 1]);
    assert!(!all_plain(&packets));
    assert!(all_plain(&packets[1..2].iter().map(|p| packet(&p.bytes, None)).collect()));
    assert!(has_room(0, 0, 1, 1));
    assert!(!has_room(1, 1, 1, 10));
    assert!(has_room(1, 1, 2, 10));
}

#[test]
fn full_queues_follow_the_policy() {
    assert!(fits(10, 10));
    assert!(!fits(11, 10));
    let mut tallies = QueueTallies::new();
    assert_eq!(
        tallies.client_offered(Offer::Taken, SlowConsumerPolicy::Disconnect, 100),
        SendStep::Done(true)
    );
    assert_eq!(
        tallies.client_offered(Offer::Closed, SlowConsumerPolicy::Disconnect, 100),
        SendStep::Done(false)
    );
    assert_eq!(
        tallies.client_offered(Offer::Full, SlowConsumerPolicy::Disconnect, 100),
        SendStep::Wait(Some(100))
    );
    assert_eq!(
        tallies.client_offered(Offer::Full, SlowConsumerPolicy::Backpressure, 100),
        SendStep::Wait(None)
    );
    assert_eq!(tallies.client_backpressure_events, 2);
    let mut session = ClientSession::new(
        "slow".to_string(),
        None,
        true,
        false,
        false,
        60,
        u16::MAX,
        268_435_455,
        0,
    );
    assert!(!tallies.client_waited(&mut session, WaitEnd::TimedOut, 5));
    assert!(!tallies.client_waited(&mut session, WaitEnd::TimedOut, 5));
    assert!(tallies.client_waited(&mut session, WaitEnd::Taken, 5));
    assert!(session.disconnect_requested());
    assert_eq!(tallies.slow_consumer_disconnects, 1);
    assert_eq!(tallies.client_backpressure_wait_ns, 15);
    assert_eq!(
        tallies.bridge_offered(Offer::Full, BridgeQueuePolicy::DropNewest),
        SendStep::Done(false)
    );
    assert_eq!(
        tallies.bridge_offered(Offer::Full, BridgeQueuePolicy::Backpressure),
        SendStep::Wait(None)
    );
    assert_eq!((tallies.bridge_backpressure_events, tallies.bridge_dropped), (2, 1));
}

#[test]
fn frames_are_read_in_pieces() {
    let mut buffer = FrameBuffer::new();
    assert!(!buffer.has_bytes());
    assert_eq!(buffer.take(5), Vec::<u8>::new());
    assert_eq!(buffer.offer(FrameKind::Binary, Vec::new()), FrameStep::Next);
    assert_eq!(buffer.offer(FrameKind::Other, b"ping".to_vec()), FrameStep::Next);
    assert!(!buffer.has_bytes());
    assert_eq!(buffer.offer(FrameKind::Binary, b"abcde".to_vec()), FrameStep::Data);
    assert_eq!(buffer.take(2), b"ab".to_vec());
    assert!(buffer.has_bytes());
    assert_eq!(buffer.take(9), b"cde".to_vec());
    assert!(!buffer.has_bytes());
    assert_eq!(buffer.offer(FrameKind::Text, b"hi".to_vec()), FrameStep::Data);
    assert_eq!(buffer.offer(FrameKind::Close, Vec::new()), FrameStep::End);
    assert_eq!(buffer.take(2), b"hi".to_vec());
}
