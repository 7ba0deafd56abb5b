//! What is written to a client next.

use vstd::prelude::*;
use crate::broker::state::OutboundPacket;
use crate::text::copy_bytes;

verus! {

/// The packets, one after the other.
pub open spec fn stream(packets: Seq<OutboundPacket>) -> Seq<u8>
    decreases packets.len(),
{
    if packets.len() == 0 {
        Seq::empty()
    } else {
        stream(packets.drop_last()) + packets.last().bytes@
    }
}

/// The packet identifiers whose places are freed once the packets are written, in their order.
pub open spec fn releases(packets: Seq<OutboundPacket>) -> Seq<u16>
    decreases packets.len(),
{
    if packets.len() == 0 {
        Seq::empty()
    } else {
        match packets.last().release_inbound_packet_id {
            Some(id) => releases(packets.drop_last()).push(id),
            None => releases(packets.drop_last()),
        }
    }
}

/// A place in a list of packets: so many packets are written, and so much of the next.
#[derive(Debug, Clone, Copy, PartialEq, Eq, Structural)]
pub struct WritePlace {
    /// How many packets are written.
    pub index: usize,
    /// How much of the next is written.
    pub offset: usize,
}

impl WritePlace {
    /// Whether the place is in the list, or at its end.
    pub open spec fn within(self, packets: Seq<OutboundPacket>) -> bool {
        if self.index < packets.len() {
            self.offset <= packets[self.index as int].bytes@.len()
        } else {
            self.index == packets.len() && self.offset == 0
        }
    }

    /// How many bytes of the list are written.
    pub open spec fn written(self, packets: Seq<OutboundPacket>) -> nat {
        stream(packets.take(self.index as int)).len() + self.offset as nat
    }
}

/// The stream of the first packets is the front of the whole stream.
pub proof fn lemma_stream_front(packets: Seq<OutboundPacket>, n: nat)
    requires
        n <= packets.len(),
    ensures
        stream(packets.take(n as int)).len() <= stream(packets).len(),
        stream(packets).take(stream(packets.take(n as int)).len() as int) == stream(
            packets.take(n as int),
        ),
    decreases packets.len(),
{
    if n == packets.len() {
        assert(packets.take(n as int) =~= packets);
        assert(stream(packets).take(stream(packets).len() as int) =~= stream(packets));
    } else {
        let front = packets.drop_last();
        lemma_stream_front(front, n);
        assert(front.take(n as int) =~= packets.take(n as int));
        let k = stream(packets.take(n as int)).len() as int;
        assert(stream(packets).take(k) =~= stream(front).take(k));
    }
}

/// One more packet adds its bytes to the stream.
proof fn lemma_stream_step(packets: Seq<OutboundPacket>, n: int)
    requires
        0 <= n < packets.len(),
    ensures
        stream(packets.take(n + 1)) == stream(packets.take(n)) + packets[n].bytes@,
        releases(packets.take(n + 1)) == match packets[n].release_inbound_packet_id {
            Some(id) => releases(packets.take(n)).push(id),
            None => releases(packets.take(n)),
        },
{
    assert(packets.take(n + 1).drop_last() =~= packets.take(n));
    assert(packets.take(n + 1).last() == packets[n]);
}

/// The place after `written` more bytes of the list went out.
pub fn advance(packets: &Vec<OutboundPacket>, place: WritePlace, written: usize) -> (r: WritePlace)
    requires
        place.within(packets@),
        place.index < packets@.len(),
        place.written(packets@) + written <= stream(packets@).len(),
        written > 0,
    ensures
        r.within(packets@),
        r.written(packets@) == place.written(packets@) + written,
        r.index < packets@.len() ==> r.offset < packets@[r.index as int].bytes@.len()
            || r.offset == 0,
{
    let mut index: usize = place.index;
    let mut offset: usize = place.offset;
    let mut left: usize = written;
    let total: usize = packets.len();
    loop
        invariant
            total == packets@.len(),
            index < packets@.len(),
            offset <= packets@[index as int].bytes@.len(),
            place.written(packets@) + written <= stream(packets@).len(),
            (WritePlace { index, offset }).written(packets@) + left == place.written(packets@)
                + written,
            left > 0,
        decreases packets@.len() - index,
    {
        proof {
            lemma_stream_step(packets@, index as int);
        }
        let remaining: usize = packets[index].bytes.len() - offset;
        if left < remaining {
            return WritePlace { index, offset: offset + left };
        }
        left = left - remaining;
        index = index + 1;
        offset = 0;
        if left == 0 {
            return WritePlace { index, offset };
        }
        if index == total {
            assert(packets@.take(index as int) =~= packets@);
            return WritePlace { index, offset };
        }
    }
}

/// What remains to be written: the rest of the next packet.
pub fn rest_of_packet<'a>(packets: &'a Vec<OutboundPacket>, place: WritePlace) -> (r: &'a [u8])
    requires
        place.within(packets@),
        place.index < packets@.len(),
    ensures
        r@ == packets@[place.index as int].bytes@.skip(place.offset as int),
{
    let bytes = packets[place.index].bytes.as_slice();
    let r = vstd::slice::slice_subrange(bytes, place.offset, bytes.len());
    assert(r@ =~= packets@[place.index as int].bytes@.skip(place.offset as int));
    r
}

/// Whatever pieces a list of packets is written in, a place says exactly which bytes are out: the
/// front of the stream, of the length that was written.
pub proof fn law_place_is_the_front_of_the_stream(packets: Seq<OutboundPacket>, place: WritePlace)
    requires
        place.within(packets),
    ensures
        place.written(packets) <= stream(packets).len(),
        stream(packets).take(place.written(packets) as int) == stream(
            packets.take(place.index as int),
        ) + (if place.index < packets.len() {
            packets[place.index as int].bytes@.take(place.offset as int)
        } else {
            Seq::empty()
        }),
        place.index == packets.len() ==> place.written(packets) == stream(packets).len(),
{
    let done = stream(packets.take(place.index as int));
    if place.index < packets.len() {
        lemma_stream_step(packets, place.index as int);
        lemma_stream_front(packets, (place.index + 1) as nat);
        let next = stream(packets.take(place.index + 1));
        let k = place.written(packets) as int;
        assert(stream(packets).take(next.len() as int).take(k) =~= stream(packets).take(k));
        assert(next.take(k) =~= done + packets[place.index as int].bytes@.take(
            place.offset as int,
        ));
    } else {
        assert(packets.take(place.index as int) =~= packets);
        assert(stream(packets).take(stream(packets).len() as int) =~= done + Seq::<u8>::empty());
    }
}

/// The packet identifiers whose places are freed once the packets are written.
pub fn release_ids(packets: &Vec<OutboundPacket>) -> (ids: Vec<u16>)
    ensures
        ids@ == releases(packets@),
{
    let mut ids: Vec<u16> = Vec::new();
    let mut i: usize = 0;
    assert(packets@.take(0) =~= Seq::empty());
    while i < packets.len()
        invariant
            i <= packets@.len(),
            ids@ == releases(packets@.take(i as int)),
        decreases packets@.len() - i,
    {
        proof {
            lemma_stream_step(packets@, i as int);
        }
        if let Some(id) = packets[i].release_inbound_packet_id {
            ids.push(id);
        }
        i = i + 1;
    }
    assert(packets@.take(i as int) =~= packets@);
    ids
}

/// Whether no place is freed once the packets are written, so that they need not be joined.
pub fn all_plain(packets: &Vec<OutboundPacket>) -> (r: bool)
    ensures
        r == forall|i: int|
            0 <= i < packets@.len() ==> (#[trigger] packets@[i]).release_inbound_packet_id is None,
{
    let mut i: usize = 0;
    while i < packets.len()
        invariant
            i <= packets@.len(),
            forall|j: int|
                0 <= j < i ==> (#[trigger] packets@[j]).release_inbound_packet_id is None,
        decreases packets@.len() - i,
    {
        if packets[i].release_inbound_packet_id.is_some() {
            assert(packets@[i as int].release_inbound_packet_id is Some);
            return false;
        }
        i = i + 1;
    }
    true
}

/// The packets, one after the other.
pub fn joined(packets: &Vec<OutboundPacket>) -> (bytes: Vec<u8>)
    ensures
        bytes@ == stream(packets@),
{
    let mut bytes: Vec<u8> = Vec::new();
    let mut i: usize = 0;
    assert(packets@.take(0) =~= Seq::empty());
    while i < packets.len()
        invariant
            i <= packets@.len(),
            bytes@ == stream(packets@.take(i as int)),
        decreases packets@.len() - i,
    {
        proof {
            lemma_stream_step(packets@, i as int);
        }
        let mut part = copy_bytes(packets[i].bytes.as_slice());
        bytes.append(&mut part);
        i = i + 1;
    }
    assert(packets@.take(i as int) =~= packets@);
    bytes
}

/// Whether another packet may join those that are written at a time.
pub fn has_room(packets: u64, bytes: u64, maximum_packets: u64, maximum_bytes: u64) -> (r: bool)
    ensures
        r == (packets == 0 || (packets < maximum_packets && bytes < maximum_bytes)),
{
    packets == 0 || (packets < maximum_packets && bytes < maximum_bytes)
}

/// Once packets are written, exactly the places that they name are freed.
pub proof fn law_written_packets_free_their_places(packets: Seq<OutboundPacket>, id: u16)
    ensures
        releases(packets).contains(id) <==> exists|i: int|
            0 <= i < packets.len() && (#[trigger] packets[i]).release_inbound_packet_id == Some(id),
    decreases packets.len(),
{
    if packets.len() > 0 {
        let front = packets.drop_last();
        let last = packets.last();
        law_written_packets_free_their_places(front, id);
        let before = releases(front);
        let all = releases(packets);
        if all.contains(id) {
            let k = choose|k: int| 0 <= k < all.len() && all[k] == id;
            if k < before.len() {
                assert(before[k] == id);
                assert(before.contains(id));
                let i = choose|i: int|
                    0 <= i < front.len() && (#[trigger] front[i]).release_inbound_packet_id
                        == Some(id);
                assert(packets[i].release_inbound_packet_id == Some(id));
            } else {
                assert(packets[packets.len() - 1].release_inbound_packet_id == Some(id));
            }
        }
        if exists|i: int|
            0 <= i < packets.len() && (#[trigger] packets[i]).release_inbound_packet_id == Some(
                id,
            ) {
            let i = choose|i: int|
                0 <= i < packets.len() && (#[trigger] packets[i]).release_inbound_packet_id == Some(
                    id,
                );
            if i < front.len() {
                assert(front[i].release_inbound_packet_id == Some(id));
                assert(before.contains(id));
                let k = choose|k: int| 0 <= k < before.len() && before[k] == id;
                assert(all[k] == id);
            } else {
                assert(all[before.len() as int] == id);
            }
        }
    }
}

/// Of packets each comes after those before it, whole.
pub proof fn law_packets_follow_each_other(packets: Seq<OutboundPacket>, i: int, j: int)
    requires
        0 <= i < packets.len(),
        0 <= j < packets[i].bytes@.len(),
    ensures
        stream(packets.take(i)).len() + j < stream(packets).len(),
        stream(packets)[stream(packets.take(i)).len() + j] == packets[i].bytes@[j],
{
    lemma_stream_step(packets, i);
    lemma_stream_front(packets, (i + 1) as nat);
    let next = stream(packets.take(i + 1));
    let k = stream(packets.take(i)).len() + j;
    assert(stream(packets).take(next.len() as int)[k] == next[k]);
}

} // verus!
