//! What a client may do, and what of its packets is looked at.

use vstd::prelude::*;
use crate::broker::model::{BrokerView, EntryView};
use crate::codec::packet;
use crate::codec::packet::{Packet, Publish, Subscribe, Unsubscribe};
use crate::codec::property::ValueView;
use crate::config;
use crate::message;
use crate::session::inbound;
use crate::session::inbound::PublishIn;

verus! {

/// A client may write a topic where its user may write every topic, or may write this one; and read
/// what a filter matches where its user may read every topic, or this one. A client without a user
/// name counts as the user with the empty name.
pub proof fn law_rights_of_a_client(b: BrokerView, c: Seq<char>, name: Seq<char>, t: Seq<char>)
    requires
        match b.sessions[c].session.username {
            Some(n) => name == n,
            None => name.len() == 0,
        },
    ensures
        b.may_write(c, t) <==> b.sessions[c].session.allow_all_write || config::authorized(
            b.auth,
            name,
            t,
            seq!['w', 'r', 'i', 't', 'e'],
        ),
        b.may_read(c, t) <==> b.sessions[c].session.allow_all_read || config::authorized(
            b.auth,
            name,
            t,
            seq!['r', 'e', 'a', 'd'],
        ),
{
    reveal_strlit("read");
    reveal_strlit("write");
    assert("read"@ =~= seq!['r', 'e', 'a', 'd']);
    assert("write"@ =~= seq!['w', 'r', 'i', 't', 'e']);
    if b.sessions[c].session.username is None {
        assert(name =~= Seq::empty());
    }
}

/// Whether what is looked at of a PUBLISH is what it says: its QoS, its retain flag, its topic, its
/// packet identifier, its payload, its topic alias, its subscription identifier, and what it says of
/// its message, whose expiry counts from when it came.
pub open spec fn taken_as_sent(x: PublishIn, p: Publish<'_>, now_ms: u64) -> bool {
    &&& x.qos == p.qos
    &&& x.retain == p.retain
    &&& x.topic == p.topic@
    &&& x.packet_id == p.packet_id
    &&& x.payload == p.payload@
    &&& match x.alias {
        Some(a) => p.properties@.values.contains_key(0x23) && p.properties@.values[0x23]
            == ValueView::Two(a),
        None => !p.properties@.values.contains_key(0x23),
    }
    &&& match x.subscription_identifier {
        Some(n) => p.properties@.values.contains_key(0x0B) && p.properties@.values[0x0B]
            == ValueView::Varint(n),
        None => !p.properties@.values.contains_key(0x0B),
    }
    &&& x.properties.user_properties == p.properties@.user
    &&& x.properties.expiry_started_at_ms == if p.properties@.values.contains_key(0x02) {
        Some(now_ms)
    } else {
        None
    }
    &&& x.properties == message::received(p.properties, now_ms)
}

/// A PUBLISH of a client is taken as it was sent.
pub proof fn law_publish_is_taken_as_sent(
    b: BrokerView,
    c: Seq<char>,
    p: Publish<'_>,
    now_ms: u64,
    groups: Seq<Seq<u8>>,
)
    ensures
        taken_as_sent(inbound::publish_in(p, now_ms), p, now_ms),
        b.on_packet(c, Packet::Publish(p), now_ms, groups) == b.on_publish(
            c,
            inbound::publish_in(p, now_ms),
            now_ms,
            groups,
        ),
{
    message::law_received_properties(p.properties, now_ms);
    assert(p.properties.value(0x23) is Some == p.properties@.values.contains_key(0x23));
    assert(p.properties.value(0x0B) is Some == p.properties@.values.contains_key(0x0B));
}

/// A SUBSCRIBE of a client is taken with all its filters and options, in their order, its packet
/// identifier and its subscription identifier.
pub proof fn law_subscribe_is_taken_as_sent(
    b: BrokerView,
    c: Seq<char>,
    p: Subscribe<'_>,
    list: Seq<(Seq<char>, u8)>,
    now_ms: u64,
    groups: Seq<Seq<u8>>,
)
    requires
        list.len() == p.subscriptions@.len(),
        forall|i: int|
            0 <= i < list.len() ==> #[trigger] list[i] == (
                p.subscriptions@[i].topic_filter@,
                p.subscriptions@[i].options,
            ),
    ensures
        b.on_packet(c, Packet::Subscribe(p), now_ms, groups) == b.on_subscribe(
            c,
            p.packet_id,
            list,
            p.properties.subscription_identifier,
            now_ms,
        ),
{
    assert(packet::subscriptions_view(p.subscriptions@) =~= list);
}

/// An UNSUBSCRIBE of a client is taken with all its filters, in their order, and its packet
/// identifier.
pub proof fn law_unsubscribe_is_taken_as_sent(
    b: BrokerView,
    c: Seq<char>,
    p: Unsubscribe<'_>,
    filters: Seq<Seq<char>>,
    now_ms: u64,
    groups: Seq<Seq<u8>>,
)
    requires
        filters.len() == p.topic_filters@.len(),
        forall|i: int| 0 <= i < filters.len() ==> #[trigger] filters[i] == p.topic_filters@[i]@,
    ensures
        b.on_packet(c, Packet::Unsubscribe(p), now_ms, groups) == b.on_unsubscribe(
            c,
            p.packet_id,
            filters,
        ),
{
    assert(packet::texts_view(p.topic_filters@) =~= filters);
}

/// A packet that is neither a DISCONNECT nor a PUBLISH is dealt with as any is, and a DISCONNECT by
/// the expiry that it says.
pub proof fn law_packets_are_passed_on(
    b: BrokerView,
    c: Seq<char>,
    packet: Packet<'_>,
    now_ms: u64,
    groups: Seq<Seq<u8>>,
)
    ensures
        !(packet is Disconnect) && !(packet is Publish) ==> b.take(c, packet, now_ms, groups) == (
            b.on_packet(c, packet, now_ms, groups),
            None::<u8>,
        ),
        packet is Disconnect ==> b.take(c, packet, now_ms, groups).0 == b.on_disconnect(
            c,
            packet->Disconnect_0.properties.session_expiry_interval,
        ),
{
}

/// A connection that is taken over is remembered until it is closed, unless it was to be closed
/// already, and counts as one more that was taken over; no other that is remembered is forgotten.
pub proof fn law_taken_over_connection_is_remembered(b: BrokerView, entry: EntryView, other: u64)
    ensures
        b.displacing(entry).displaced.contains(entry.connection) <==> b.displaced.contains(
            entry.connection,
        ) || !entry.session.disconnect_requested,
        other != entry.connection ==> (b.displacing(entry).displaced.contains(other)
            <==> b.displaced.contains(other)),
        b.displacing(entry).tallies.session_takeovers == b.tallies.session_takeovers.wrapping_add(
            1,
        ),
{
}

} // verus!
