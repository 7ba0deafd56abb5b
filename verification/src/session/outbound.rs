//! What is sent to a client, and what must not be.

use vstd::prelude::*;
use crate::codec::layout;
use crate::codec::packet::PacketView;
use crate::codec::property;
use crate::codec::property::{PropertiesView, PropertySet, ValueView};
use crate::message::ApplicationView;
use crate::session::delivery;
use crate::session::delivery::finite;
use crate::session::laws;
use crate::session::model::{
    ack_packet, allocate, publish_packet, EffectView, MessageView, OutView, SessionView,
};

verus! {

/// Whether a message is past its time: its interval is 0, or has gone by since it began to count.
pub open spec fn past(p: ApplicationView, now_ms: u64) -> bool {
    match (p.message_expiry_interval, p.expiry_started_at_ms) {
        (Some(interval), Some(since)) => interval == 0 || now_ms >= since + interval * 1000,
        (Some(interval), None) => interval == 0,
        _ => false,
    }
}

/// A message that is past its time has expired, and no other.
pub proof fn law_expired_is_past(p: ApplicationView, now_ms: u64)
    ensures
        p.expired(now_ms) <==> past(p, now_ms),
{
}

/// Whether the properties of a PUBLISH say of a message what it says of itself: all of its
/// properties, the identifier of the subscription that matched, and of its expiry interval the
/// whole seconds that are left.
pub open spec fn tells(
    said: PropertiesView,
    p: ApplicationView,
    subscription_identifier: Option<u32>,
    now_ms: u64,
) -> bool {
    &&& said.user == p.user_properties
    &&& match p.payload_format_indicator {
        Some(v) => said.values.contains_key(0x01) && said.values[0x01] == ValueView::Byte(v),
        None => !said.values.contains_key(0x01),
    }
    &&& match p.content_type {
        Some(v) => said.values.contains_key(0x03) && said.values[0x03] == ValueView::Text(v),
        None => !said.values.contains_key(0x03),
    }
    &&& match p.response_topic {
        Some(v) => said.values.contains_key(0x08) && said.values[0x08] == ValueView::Text(v),
        None => !said.values.contains_key(0x08),
    }
    &&& match p.correlation_data {
        Some(v) => said.values.contains_key(0x09) && said.values[0x09] == ValueView::Binary(v),
        None => !said.values.contains_key(0x09),
    }
    &&& match subscription_identifier {
        Some(v) => said.values.contains_key(0x0B) && said.values[0x0B] == ValueView::Varint(v),
        None => !said.values.contains_key(0x0B),
    }
    &&& match p.message_expiry_interval {
        Some(interval) => said.values.contains_key(0x02) && said.values[0x02] is Four && ({
            let left = said.values[0x02]->Four_0;
            &&& left <= interval
            &&& left == 0 <==> past(p, now_ms)
            &&& match p.expiry_started_at_ms {
                Some(since) => if now_ms < since {
                    left == interval
                } else {
                    left > 0 ==> (interval - left) * 1000 <= now_ms - since < (interval - left + 1)
                        * 1000
                },
                None => left == interval,
            }
        }),
        None => !said.values.contains_key(0x02),
    }
    &&& forall|id: u8| #[trigger]
        said.values.contains_key(id) ==> id == 0x01 || id == 0x02 || id == 0x03 || id == 0x08 || id
            == 0x09 || id == 0x0B
}

/// Whether bytes are a PUBLISH that carries a message at a time.
pub open spec fn carries(
    bytes: Seq<u8>,
    dup: bool,
    qos: u8,
    packet_id: Option<u16>,
    m: MessageView,
    now_ms: u64,
) -> bool {
    exists|said: PropertiesView| #[trigger]
        tells(said, m.properties, m.subscription_identifier, now_ms) && bytes
            == (PacketView::Publish {
            dup,
            qos,
            retain: m.retain,
            topic: m.topic,
            packet_id,
            properties: said,
            payload: m.payload,
        }).bytes()
}

/// The packet in which a message is sent carries it, with all that it says of itself.
pub proof fn law_packet_carries_its_message(
    dup: bool,
    qos: u8,
    packet_id: Option<u16>,
    m: MessageView,
    now_ms: u64,
)
    ensures
        carries(
            publish_packet(dup, qos, packet_id, m, now_ms).bytes(),
            dup,
            qos,
            packet_id,
            m,
            now_ms,
        ),
{
    let said = m.properties.publish_properties(m.subscription_identifier, now_ms);
    let p = m.properties;
    if let Some(interval) = p.message_expiry_interval {
        if let Some(since) = p.expiry_started_at_ms {
            let elapsed = now_ms - since;
            if 0 <= elapsed < interval * 1000 {
                assert(elapsed / 1000 < interval);
            }
        }
    }
    assert(tells(said, p, m.subscription_identifier, now_ms));
}

/// The bytes of an acknowledgement without properties and with the reason code 0: its first byte,
/// the length 2, and the packet identifier.
pub open spec fn plain_ack(first: u8, id: u16) -> Seq<u8> {
    seq![first, 2, (id / 256) as u8, (id % 256) as u8]
}

/// An acknowledgement with the reason code 0 has four bytes; one with another code has the code
/// and an empty property block behind them.
pub proof fn law_acknowledgement_bytes(packet_type: u8, id: u16, reason_code: u8)
    requires
        4 <= packet_type <= 7,
    ensures
        ({
            let first: u8 = if packet_type == 4 {
                0x40
            } else if packet_type == 5 {
                0x50
            } else if packet_type == 6 {
                0x62
            } else {
                0x70
            };
            ack_packet(packet_type, id, reason_code).bytes() == if reason_code == 0 {
                plain_ack(first, id)
            } else {
                seq![first, 4, (id / 256) as u8, (id % 256) as u8, reason_code, 0]
            }
        }),
{
    let none = property::meaning(Seq::empty());
    assert(none.values =~= Map::<u8, ValueView>::empty());
    assert(none.user =~= Seq::empty());
    let empty = PropertiesView { values: Map::empty(), user: Seq::empty() };
    assert(none =~= empty);
    layout::law_property_block(
        PropertySet::Ack,
        0x1F,
        ValueView::Text(Seq::empty()),
    );
    let p = ack_packet(packet_type, id, reason_code);
    let first: u8 = if packet_type == 4 {
        0x40
    } else if packet_type == 5 {
        0x50
    } else if packet_type == 6 {
        0x62
    } else {
        0x70
    };
    if reason_code == 0 {
        assert(p.body() =~= seq![(id / 256) as u8, (id % 256) as u8]);
        assert(p.bytes() =~= plain_ack(first, id));
    } else {
        assert(p.body() =~= seq![(id / 256) as u8, (id % 256) as u8, reason_code, 0]);
        assert(p.bytes() =~= seq![
            first,
            4,
            (id / 256) as u8,
            (id % 256) as u8,
            reason_code,
            0,
        ]);
    }
}

/// A message that is queued with QoS 0 is sent to a client that is connected, as it is, and kept
/// for nobody. One that is past its time is neither sent nor kept, with any QoS; nor is one whose
/// packet a connected client does not accept.
pub proof fn law_queued_qos0_message_is_sent_or_dropped(
    s: SessionView,
    m: MessageView,
    qos: u8,
    now_ms: u64,
)
    ensures
        ({
            let (end, effects) = s.enqueue(m, qos, now_ms);
            &&& past(m.properties, now_ms) ==> end == s && effects.len() == 0
            &&& qos == 0 ==> end == s
            &&& qos == 0 && !s.connected ==> effects.len() == 0
            &&& qos == 0 && s.connected ==> effects.len() <= 1
            &&& qos == 0 && effects.len() == 1 ==> effects[0] is Send && carries(
                effects[0]->Send_0,
                false,
                0,
                None,
                m,
                now_ms,
            )
            &&& qos == 0 && s.connected && !past(m.properties, now_ms) && effects.len() == 0
                ==> exists|bytes: Seq<u8>| #[trigger]
                carries(bytes, false, 0, None, m, now_ms) && bytes.len() > s.maximum_packet_size
        }),
{
    law_packet_carries_its_message(false, 0, None, m, now_ms);
    law_expired_is_past(m.properties, now_ms);
}

/// A message that is queued with QoS 1 or 2, is not past its time, and is accepted by the client,
/// is kept under a new identifier, behind all that were queued before, until the client
/// acknowledges it; it is stored where the session outlives its connection, and sent at once
/// where the client is connected and its Receive Maximum has room. Nothing else is done. Where no
/// identifier is free nothing is kept and nothing done.
pub proof fn law_queued_message_is_kept(s: SessionView, m: MessageView, qos: u8, now_ms: u64)
    requires
        qos == 1 || qos == 2,
        !past(m.properties, now_ms),
        s.connected ==> publish_packet(false, qos, Some(1u16), m, now_ms).bytes().len()
            <= s.maximum_packet_size,
    ensures
        no_free_identifier(s) ==> s.enqueue(m, qos, now_ms).0.in_flight == s.in_flight && s.enqueue(
            m,
            qos,
            now_ms,
        ).0.outgoing_qos2 == s.outgoing_qos2 && s.enqueue(m, qos, now_ms).1.len() == 0,
        !no_free_identifier(s) ==> exists|id: u16| #[trigger]
            kept_as(
                s,
                m,
                qos,
                now_ms,
                id,
                s.enqueue(m, qos, now_ms).0,
                s.enqueue(m, qos, now_ms).1,
            ),
{
    law_expired_is_past(m.properties, now_ms);
    let (id, _) = allocate(s.used(), s.next_packet_id, 65535);
    delivery::law_allocated_id_is_free(s.used(), s.next_packet_id, 65535);
    if id == 0 {
        assert forall|free: u16| free != 0 implies #[trigger] s.in_flight.contains_key(free)
            || s.outgoing_qos2.contains_key(free) by {
            if !s.used().contains(free) {
                delivery::law_allocation_fails_only_when_full(s.used(), s.next_packet_id, free);
            }
        }
    } else {
        assert(!s.in_flight.contains_key(id));
        law_packet_carries_its_message(false, qos, Some(id), m, now_ms);
        assert(kept_as(
            s,
            m,
            qos,
            now_ms,
            id,
            s.enqueue(m, qos, now_ms).0,
            s.enqueue(m, qos, now_ms).1,
        ));
    }
}

/// Whether every packet identifier belongs to an exchange that is not complete.
pub open spec fn no_free_identifier(s: SessionView) -> bool {
    forall|id: u16|
        id != 0 ==> #[trigger] s.in_flight.contains_key(id) || s.outgoing_qos2.contains_key(id)
}

/// Whether a message is kept under an identifier, and stored and sent as it is to be.
pub open spec fn kept_as(
    s: SessionView,
    m: MessageView,
    qos: u8,
    now_ms: u64,
    id: u16,
    end: SessionView,
    effects: Seq<EffectView>,
) -> bool {
    let sent = s.connected && s.outbound_active.len() < s.receive_maximum;
    let out = OutView { message: m, qos, order: s.next_order, started: sent, completing: false };
    let stored: nat = if s.expiry > 0 {
        1
    } else {
        0
    };
    &&& id != 0 && !s.in_flight.contains_key(id) && !s.outgoing_qos2.contains_key(id)
    &&& qos == 1 ==> end.in_flight == s.in_flight.insert(id, out) && end.outgoing_qos2
        == s.outgoing_qos2
    &&& qos == 2 ==> end.outgoing_qos2 == s.outgoing_qos2.insert(id, out) && end.in_flight
        == s.in_flight
    &&& end.outbound_active == if sent {
        s.outbound_active.insert(id)
    } else {
        s.outbound_active
    }
    &&& end.next_order == s.next_order.wrapping_add(1)
    &&& effects.len() == stored + (if sent {
        1nat
    } else {
        0
    })
    &&& s.expiry > 0 ==> effects[0] == if qos == 1 {
        EffectView::SaveInFlight(id, out)
    } else {
        EffectView::SaveOutgoing(id, out)
    }
    &&& sent ==> effects.last() is Send && carries(
        effects.last()->Send_0,
        false,
        qos,
        Some(id),
        m,
        now_ms,
    )
}

/// A message that a session holds: with QoS 1 or with QoS 2.
pub open spec fn held(s: SessionView, qos: u8, id: u16) -> bool {
    (qos == 1 && s.in_flight.contains_key(id)) || (qos == 2 && s.outgoing_qos2.contains_key(id))
}

/// The message that a session holds under an identifier.
pub open spec fn holding(s: SessionView, qos: u8, id: u16) -> OutView {
    if qos == 1 {
        s.in_flight[id]
    } else {
        s.outgoing_qos2[id]
    }
}

/// Whether a packet is one of a message that a session holds and may be sent: it was sent before,
/// or is not past its time; and the client has not received it yet.
pub open spec fn may_be_sent(s: SessionView, qos: u8, id: u16, bytes: Seq<u8>, now_ms: u64) -> bool {
    let out = holding(s, qos, id);
    &&& held(s, qos, id)
    &&& qos == 2 ==> !out.completing
    &&& past(out.message.properties, now_ms) ==> out.started
    &&& !s.outbound_active.contains(id)
    &&& carries(bytes, out.started, qos, Some(id), out.message, now_ms)
}

/// What taking up one message does to a message of the session.
proof fn lemma_one_taken_up(s: SessionView, now_ms: u64)
    requires
        s.may_send(),
        laws::identifiers_apart(s),
    ensures
        ({
            let (qos, id) = s.next_waiting()->0;
            let (next, effects) = s.send_next(now_ms);
            let out = holding(s, qos, id);
            let dropped = (past(out.message.properties, now_ms) && !out.started) || publish_packet(
                out.started,
                qos,
                Some(id),
                out.message,
                now_ms,
            ).bytes().len() > s.maximum_packet_size;
            &&& qos == 1 || qos == 2
            &&& held(s, qos, id) && !s.outbound_active.contains(id)
            &&& qos == 2 ==> !out.completing
            &&& laws::identifiers_apart(next)
            &&& dropped ==> !held(next, qos, id) && next.outbound_active == s.outbound_active
                && effects == seq![
                if qos == 1 {
                    EffectView::DeleteInFlight(id)
                } else {
                    EffectView::DeleteOutgoing(id)
                },
            ]
            &&& !dropped ==> held(next, qos, id) && holding(next, qos, id) == (OutView {
                started: true,
                ..out
            }) && next.outbound_active == s.outbound_active.insert(id) && effects.last()
                is Send && may_be_sent(s, qos, id, effects.last()->Send_0, now_ms) && forall|k: int|
                0 <= k < effects.len() - 1 ==> !(#[trigger] effects[k] is Send)
            &&& forall|q: u8, k: u16|
                (q == 1 || q == 2) && (q != qos || k != id) ==> #[trigger] held(next, q, k) == held(
                    s,
                    q,
                    k,
                ) && (held(s, q, k) ==> holding(next, q, k) == holding(s, q, k))
        }),
{
    laws::lemma_next_waits(s);
    let (qos, id) = s.next_waiting()->0;
    let out = holding(s, qos, id);
    law_expired_is_past(out.message.properties, now_ms);
    law_packet_carries_its_message(out.started, qos, Some(id), out.message, now_ms);
}

/// Whatever waiting messages are taken up at a time: every PUBLISH that is sent carries a message
/// that the session held and that waited, as a duplicate where it was sent before; and none of
/// them is past its time, unless it was sent before.
pub proof fn law_expired_message_is_never_sent(s: SessionView, now_ms: u64, n: nat, bytes: Seq<u8>)
    requires
        laws::identifiers_apart(s),
        s.drain(now_ms, n).1.contains(EffectView::Send(bytes)),
    ensures
        exists|qos: u8, id: u16| #[trigger] may_be_sent(s, qos, id, bytes, now_ms),
    decreases n,
{
    let all = s.drain(now_ms, n).1;
    let k = choose|k: int| 0 <= k < all.len() && all[k] == EffectView::Send(bytes);
    let (next, effects) = s.send_next(now_ms);
    let more = next.drain(now_ms, (n - 1) as nat).1;
    assert(all == effects + more);
    lemma_one_taken_up(s, now_ms);
    let (qos, id) = s.next_waiting()->0;
    if k < effects.len() {
        assert(effects[k] == EffectView::Send(bytes));
        assert(may_be_sent(s, qos, id, bytes, now_ms));
    } else {
        assert(more[k - effects.len()] == EffectView::Send(bytes));
        law_expired_message_is_never_sent(next, now_ms, (n - 1) as nat, bytes);
        let (q, i) = choose|q: u8, i: u16| #[trigger] may_be_sent(next, q, i, bytes, now_ms);
        assert(held(next, q, i));
        if q == qos && i == id {
            assert(false);
        }
        assert(may_be_sent(s, q, i, bytes, now_ms));
    }
}

/// What becomes of a message when waiting messages are taken up.
proof fn lemma_taken_up(s: SessionView, now_ms: u64, n: nat, qos: u8, id: u16)
    requires
        laws::identifiers_apart(s),
        held(s, qos, id),
    ensures
        ({
            let (end, effects) = s.drain(now_ms, n);
            let out = holding(s, qos, id);
            let gone = if qos == 1 {
                EffectView::DeleteInFlight(id)
            } else {
                EffectView::DeleteOutgoing(id)
            };
            &&& held(end, qos, id) ==> ({
                let now = holding(end, qos, id);
                ||| now == out && (end.outbound_active.contains(id) <==> s.outbound_active.contains(
                    id,
                ))
                ||| now == (OutView { started: true, ..out }) && end.outbound_active.contains(id)
                    && !s.outbound_active.contains(id) && (past(out.message.properties, now_ms)
                    ==> out.started)
            })
            &&& !held(end, qos, id) ==> effects.contains(gone)
            &&& !held(end, qos, id) && !(past(out.message.properties, now_ms) && !out.started)
                ==> publish_packet(
                out.started,
                qos,
                Some(id),
                out.message,
                now_ms,
            ).bytes().len() > s.maximum_packet_size
            &&& s.outbound_active.subset_of(end.outbound_active)
        }),
    decreases n,
{
    if n > 0 && s.may_send() {
        lemma_one_taken_up(s, now_ms);
        let (q, first) = s.next_waiting()->0;
        let (next, effects) = s.send_next(now_ms);
        let (end, more) = next.drain(now_ms, (n - 1) as nat);
        let all = s.drain(now_ms, n).1;
        assert(all == effects + more);
        let gone = if qos == 1 {
            EffectView::DeleteInFlight(id)
        } else {
            EffectView::DeleteOutgoing(id)
        };
        if held(next, qos, id) {
            lemma_taken_up(next, now_ms, (n - 1) as nat, qos, id);
            if more.contains(gone) {
                let k = choose|k: int| 0 <= k < more.len() && more[k] == gone;
                assert(all[effects.len() + k] == gone);
            }
            if !(q == qos && first == id) {
                assert(holding(next, qos, id) == holding(s, qos, id));
                if first == id {
                    assert(s.in_flight.dom().contains(id) && s.outgoing_qos2.dom().contains(id));
                }
            }
        } else {
            assert(q == qos && first == id);
            assert(all[0] == gone);
            lemma_not_begun(next, now_ms, (n - 1) as nat, qos, id);
        }
    }
}

/// What is not held is not held after messages are taken up.
proof fn lemma_not_begun(s: SessionView, now_ms: u64, n: nat, qos: u8, id: u16)
    requires
        laws::identifiers_apart(s),
        qos == 1 || qos == 2,
        !held(s, qos, id),
    ensures
        !held(s.drain(now_ms, n).0, qos, id),
        s.outbound_active.subset_of(s.drain(now_ms, n).0.outbound_active),
    decreases n,
{
    if n > 0 && s.may_send() {
        lemma_one_taken_up(s, now_ms);
        lemma_not_begun(s.send_next(now_ms).0, now_ms, (n - 1) as nat, qos, id);
    }
}

/// Once all waiting messages are taken up for which there is room, a message that is past its
/// time and was never sent is not in the session any more, and is forgotten where it is stored,
/// as long as the client is connected and there is still room.
pub proof fn law_expired_message_is_forgotten(s: SessionView, now_ms: u64, qos: u8, id: u16)
    requires
        finite(s),
        laws::identifiers_apart(s),
        s.connected,
        held(s, qos, id),
        qos == 2 ==> !s.outgoing_qos2[id].completing,
        !s.outbound_active.contains(id),
        !holding(s, qos, id).started,
        past(holding(s, qos, id).message.properties, now_ms),
        s.drained(now_ms).0.outbound_active.len() < s.receive_maximum,
    ensures
        !held(s.drained(now_ms).0, qos, id),
        s.drained(now_ms).1.contains(
            if qos == 1 {
                EffectView::DeleteInFlight(id)
            } else {
                EffectView::DeleteOutgoing(id)
            },
        ),
{
    let n = s.in_flight.dom().len() + s.outgoing_qos2.dom().len();
    laws::law_no_message_waits_while_there_is_room(s, now_ms);
    lemma_taken_up(s, now_ms, n, qos, id);
    lemma_drain_keeps_limits(s, now_ms, n);
    let end = s.drained(now_ms).0;
    if held(end, qos, id) {
        assert(!end.outbound_active.contains(id));
        if qos == 1 {
            assert(end.waits1(id));
        } else {
            assert(end.waits2(id));
        }
    }
}

/// Taking up messages does not change what the client accepts.
proof fn lemma_drain_keeps_limits(s: SessionView, now_ms: u64, n: nat)
    ensures
        s.drain(now_ms, n).0.connected == s.connected,
        s.drain(now_ms, n).0.receive_maximum == s.receive_maximum,
        s.drain(now_ms, n).0.maximum_packet_size == s.maximum_packet_size,
    decreases n,
{
    if n > 0 && s.may_send() {
        lemma_drain_keeps_limits(s.send_next(now_ms).0, now_ms, (n - 1) as nat);
    }
}

/// No message is lost when waiting messages are taken up: one that is gone was past its time
/// before it was ever sent, or is larger than the client accepts. One that stays is as it was,
/// but that it may have been sent by now.
pub proof fn law_taking_up_loses_no_message(s: SessionView, now_ms: u64, n: nat, qos: u8, id: u16)
    requires
        laws::identifiers_apart(s),
        held(s, qos, id),
    ensures
        ({
            let end = s.drain(now_ms, n).0;
            let out = holding(s, qos, id);
            &&& held(end, qos, id) ==> holding(end, qos, id) == out || holding(end, qos, id) == (
            OutView { started: true, ..out })
            &&& !held(end, qos, id) ==> (past(out.message.properties, now_ms) && !out.started)
                || publish_packet(
                out.started,
                qos,
                Some(id),
                out.message,
                now_ms,
            ).bytes().len() > s.maximum_packet_size
        }),
{
    lemma_taken_up(s, now_ms, n, qos, id);
}

/// Messages are sent in the order in which they were queued: the one that is taken up next was
/// queued before every other that waits.
pub proof fn law_messages_are_sent_in_order(s: SessionView, qos: u8, id: u16, q: u8, k: u16)
    requires
        s.next_waiting() == Some((qos, id)),
        held(s, q, k),
        !s.outbound_active.contains(k),
        q == 2 ==> !s.outgoing_qos2[k].completing,
    ensures
        held(s, qos, id),
        !s.outbound_active.contains(id),
        holding(s, qos, id).order <= holding(s, q, k).order,
{
    laws::lemma_next_waits(s);
    if q == 1 {
        assert(s.waits1(k));
        laws::lemma_first1_exists(s, k);
    } else {
        assert(s.waits2(k));
        laws::lemma_first2_exists(s, k);
    }
    if exists|i: u16| s.waits1(i) {
        let i = choose|i: u16| s.waits1(i);
        laws::lemma_first1_exists(s, i);
    }
    if exists|i: u16| s.waits2(i) {
        let i = choose|i: u16| s.waits2(i);
        laws::lemma_first2_exists(s, i);
    }
}

/// A message is taken up exactly while the client is connected, its Receive Maximum has room, and
/// a message waits.
pub proof fn law_messages_wait_for_room(s: SessionView, now_ms: u64, n: nat)
    ensures
        !s.connected || s.outbound_active.len() >= s.receive_maximum ==> s.drain(now_ms, n) == (
            s,
            Seq::<EffectView>::empty(),
        ),
        (exists|id: u16|
            (s.in_flight.contains_key(id) && !s.outbound_active.contains(id)) || (
            s.outgoing_qos2.contains_key(id) && !s.outgoing_qos2[id].completing
                && !s.outbound_active.contains(id))) ==> s.next_waiting() is Some,
{
    if exists|id: u16|
        (s.in_flight.contains_key(id) && !s.outbound_active.contains(id)) || (
        s.outgoing_qos2.contains_key(id) && !s.outgoing_qos2[id].completing
            && !s.outbound_active.contains(id)) {
        let id = choose|id: u16|
            (s.in_flight.contains_key(id) && !s.outbound_active.contains(id)) || (
            s.outgoing_qos2.contains_key(id) && !s.outgoing_qos2[id].completing
                && !s.outbound_active.contains(id));
        assert(s.waits1(id) || s.waits2(id));
    }
}

/// An acknowledgement ends the exchange, and frees its place of the Receive Maximum before other
/// messages are taken up: PUBACK for QoS 1, PUBCOMP for QoS 2, and a PUBREC that refuses the
/// message. A PUBREC that does not is answered with a PUBREL, and the message is not sent again.
pub proof fn law_acknowledgements_end_exchanges(s: SessionView, id: u16, code: u8, now_ms: u64)
    ensures
        ({
            let freed = SessionView {
                in_flight: s.in_flight.remove(id),
                outbound_active: s.outbound_active.remove(id),
                ..s
            };
            let (end, effects) = s.on_puback(id, now_ms);
            end == freed.drained(now_ms).0 && effects == seq![EffectView::DeleteInFlight(id)]
                + freed.drained(now_ms).1
        }),
        ({
            let freed = SessionView {
                outgoing_qos2: s.outgoing_qos2.remove(id),
                outbound_active: s.outbound_active.remove(id),
                ..s
            };
            let refused = s.on_pubrec(id, code, now_ms);
            let complete = s.on_pubcomp(id, now_ms);
            if s.outgoing_qos2.contains_key(id) {
                &&& complete.0 == freed.drained(now_ms).0
                &&& complete.1 == seq![EffectView::DeleteOutgoing(id)] + freed.drained(now_ms).1
                &&& code >= 0x80 ==> refused == complete
                &&& code < 0x80 ==> {
                    &&& refused.0.outgoing_qos2 == s.outgoing_qos2.insert(
                        id,
                        OutView { completing: true, started: true, ..s.outgoing_qos2[id] },
                    )
                    &&& refused.0.in_flight == s.in_flight
                    &&& refused.0.outbound_active == s.outbound_active
                    &&& refused.1.last() == EffectView::Send(plain_ack(0x62, id))
                    &&& s.expiry > 0 ==> refused.1.len() == 2 && refused.1[0]
                        == EffectView::SaveOutgoing(
                        id,
                        OutView { completing: true, started: true, ..s.outgoing_qos2[id] },
                    )
                    &&& s.expiry == 0 ==> refused.1.len() == 1
                }
            } else {
                complete == (freed, Seq::<EffectView>::empty()) && refused == (
                    s,
                    Seq::<EffectView>::empty(),
                )
            }
        }),
{
    law_acknowledgement_bytes(6, id, 0);
}

/// When a session goes on, only exchanges of which the end is missing occupy the Receive Maximum;
/// a PUBREL is sent for each of them.
pub proof fn law_open_releases_are_repeated(s: SessionView, ids: Seq<u16>, i: int, id: u16)
    requires
        0 <= i < ids.len(),
    ensures
        delivery::pubrels(ids).len() == ids.len(),
        delivery::pubrels(ids)[i] == EffectView::Send(plain_ack(0x62, ids[i])),
        s.window_reset().outbound_active.contains(id) <==> s.outgoing_qos2.contains_key(id)
            && s.outgoing_qos2[id].completing,
        s.window_reset().in_flight == s.in_flight && s.window_reset().outgoing_qos2
            == s.outgoing_qos2,
        s.completing().contains(id) <==> s.outgoing_qos2.contains_key(id)
            && s.outgoing_qos2[id].completing,
{
    law_acknowledgement_bytes(6, ids[i], 0);
}

/// A message that occupies a place stays as it is while others are taken up.
proof fn lemma_begun_stays(s: SessionView, now_ms: u64, n: nat, id: u16)
    requires
        s.outbound_active.contains(id),
    ensures
        ({
            let end = s.drain(now_ms, n).0;
            &&& end.in_flight.contains_key(id) == s.in_flight.contains_key(id)
            &&& s.in_flight.contains_key(id) ==> end.in_flight[id] == s.in_flight[id]
            &&& end.outgoing_qos2.contains_key(id) == s.outgoing_qos2.contains_key(id)
            &&& s.outgoing_qos2.contains_key(id) ==> end.outgoing_qos2[id] == s.outgoing_qos2[id]
        }),
    decreases n,
{
    if n > 0 && s.may_send() {
        laws::lemma_next_waits(s);
        lemma_begun_stays(s.send_next(now_ms).0, now_ms, (n - 1) as nat, id);
    }
}

/// What is in one of two lists is in both together.
proof fn lemma_in_both(a: Seq<EffectView>, z: Seq<EffectView>, y: EffectView)
    requires
        a.contains(y) || z.contains(y),
    ensures
        (a + z).contains(y),
{
    if a.contains(y) {
        let i = choose|i: int| 0 <= i < a.len() && a[i] == y;
        assert((a + z)[i] == y);
    } else {
        let i = choose|i: int| 0 <= i < z.len() && z[i] == y;
        assert((a + z)[a.len() + i] == y);
    }
}

/// A message that is sent for the first time is stored as sent, where the session outlives its
/// connection; and one that is dropped when it is taken up is deleted from the store.
pub proof fn law_taken_up_message_is_stored(s: SessionView, now_ms: u64, n: nat, id: u16)
    ensures
        ({
            let (end, effects) = s.drain(now_ms, n);
            &&& s.expiry > 0 && s.in_flight.contains_key(id) && !s.in_flight[id].started
                && end.in_flight.contains_key(id) && end.in_flight[id].started ==> effects.contains(
                EffectView::SaveInFlight(id, end.in_flight[id]),
            )
            &&& s.expiry > 0 && s.outgoing_qos2.contains_key(id) && !s.outgoing_qos2[id].started
                && end.outgoing_qos2.contains_key(id) && end.outgoing_qos2[id].started
                ==> effects.contains(EffectView::SaveOutgoing(id, end.outgoing_qos2[id]))
            &&& s.in_flight.contains_key(id) && !end.in_flight.contains_key(id)
                ==> effects.contains(EffectView::DeleteInFlight(id))
            &&& s.outgoing_qos2.contains_key(id) && !end.outgoing_qos2.contains_key(id)
                ==> effects.contains(EffectView::DeleteOutgoing(id))
        }),
    decreases n,
{
    if n > 0 && s.may_send() {
        laws::lemma_next_waits(s);
        let (next, first) = s.send_next(now_ms);
        let (end, more) = next.drain(now_ms, (n - 1) as nat);
        let (qos, taken) = s.next_waiting()->0;
        law_taken_up_message_is_stored(next, now_ms, (n - 1) as nat, id);
        laws::lemma_drain_begins_none(next, now_ms, (n - 1) as nat);
        assert(s.drain(now_ms, n) == (end, first + more));
        assert(end.in_flight.dom().contains(id) ==> next.in_flight.dom().contains(id));
        assert(end.outgoing_qos2.dom().contains(id) ==> next.outgoing_qos2.dom().contains(id));
        if next.outbound_active.contains(id) {
            lemma_begun_stays(next, now_ms, (n - 1) as nat, id);
        }
        if taken == id {
            assert(first.contains(first[0]));
            lemma_in_both(first, more, first[0]);
        }
        let kept1 = EffectView::SaveInFlight(id, end.in_flight[id]);
        let kept2 = EffectView::SaveOutgoing(id, end.outgoing_qos2[id]);
        if more.contains(kept1) {
            lemma_in_both(first, more, kept1);
        }
        if more.contains(kept2) {
            lemma_in_both(first, more, kept2);
        }
        if more.contains(EffectView::DeleteInFlight(id)) {
            lemma_in_both(first, more, EffectView::DeleteInFlight(id));
        }
        if more.contains(EffectView::DeleteOutgoing(id)) {
            lemma_in_both(first, more, EffectView::DeleteOutgoing(id));
        }
    }
}

} // verus!
