//! What a client can rely on.

use vstd::prelude::*;
use crate::session::delivery;
use crate::session::delivery::{finite, waiting};
use crate::session::model::{publish_packet, EffectView, MessageView, SessionView};

verus! {

/// The packet identifier does not change how long a PUBLISH is.
proof fn lemma_length_without_id(dup: bool, qos: u8, a: u16, b: u16, m: MessageView, now_ms: u64)
    ensures
        publish_packet(dup, qos, Some(a), m, now_ms).bytes().len() == publish_packet(
            dup,
            qos,
            Some(b),
            m,
            now_ms,
        ).bytes().len(),
{
    assert(publish_packet(dup, qos, Some(a), m, now_ms).body().len() == publish_packet(
        dup,
        qos,
        Some(b),
        m,
        now_ms,
    ).body().len());
}

/// No message that is queued for a client is sent in a packet that is larger than the client
/// accepts.
pub proof fn law_queued_message_fits_the_client(
    s: SessionView,
    m: MessageView,
    qos: u8,
    now_ms: u64,
    bytes: Seq<u8>,
)
    requires
        s.enqueue(m, qos, now_ms).1.contains(EffectView::Send(bytes)),
    ensures
        bytes.len() <= s.maximum_packet_size,
{
    let effects = s.enqueue(m, qos, now_ms).1;
    let k = choose|k: int| 0 <= k < effects.len() && effects[k] == EffectView::Send(bytes);
    if qos > 0 {
        let id = crate::session::model::allocate(s.used(), s.next_packet_id, 65535).0;
        lemma_length_without_id(false, qos, 1, id, m, now_ms);
    }
}

/// No message that has waited for a client is sent in a packet that is larger than the client
/// accepts.
pub proof fn law_waiting_message_fits_the_client(
    s: SessionView,
    now_ms: u64,
    n: nat,
    bytes: Seq<u8>,
)
    requires
        s.drain(now_ms, n).1.contains(EffectView::Send(bytes)),
    ensures
        bytes.len() <= s.maximum_packet_size,
    decreases n,
{
    let all = s.drain(now_ms, n).1;
    let k = choose|k: int| 0 <= k < all.len() && all[k] == EffectView::Send(bytes);
    let (next, effects) = s.send_next(now_ms);
    let more = next.drain(now_ms, (n - 1) as nat).1;
    if k < effects.len() {
        assert(effects[k] == EffectView::Send(bytes));
    } else {
        assert(more[k - effects.len()] == EffectView::Send(bytes));
        law_waiting_message_fits_the_client(next, now_ms, (n - 1) as nat, bytes);
    }
}

/// Where QoS 1 messages wait, one of them waits first.
pub(crate) proof fn lemma_first1_exists(s: SessionView, id: u16)
    requires
        s.waits1(id),
    ensures
        exists|first: u16| s.first1(first),
    decreases s.in_flight[id].order, id,
{
    if !s.first1(id) {
        let k = choose|k: u16| #[trigger]
            s.waits1(k) && !crate::session::model::comes_first(
                s.in_flight[id].order,
                id,
                s.in_flight[k].order,
                k,
            );
        lemma_first1_exists(s, k);
    }
}

/// Where QoS 2 messages wait, one of them waits first.
pub(crate) proof fn lemma_first2_exists(s: SessionView, id: u16)
    requires
        s.waits2(id),
    ensures
        exists|first: u16| s.first2(first),
    decreases s.outgoing_qos2[id].order, id,
{
    if !s.first2(id) {
        let k = choose|k: u16| #[trigger]
            s.waits2(k) && !crate::session::model::comes_first(
                s.outgoing_qos2[id].order,
                id,
                s.outgoing_qos2[k].order,
                k,
            );
        lemma_first2_exists(s, k);
    }
}

/// The next message to send is one that waits.
pub(crate) proof fn lemma_next_waits(s: SessionView)
    ensures
        s.next_waiting() matches Some((qos, id)) ==> (qos == 1 && s.waits1(id)) || (qos == 2
            && s.waits2(id)),
{
    if exists|id: u16| s.waits1(id) {
        let id = choose|id: u16| s.waits1(id);
        lemma_first1_exists(s, id);
    }
    if exists|id: u16| s.waits2(id) {
        let id = choose|id: u16| s.waits2(id);
        lemma_first2_exists(s, id);
    }
}

/// After enough steps nothing waits for which there is room.
proof fn lemma_drain_is_complete(s: SessionView, now_ms: u64, n: nat)
    requires
        finite(s),
        waiting(s) <= n,
    ensures
        !s.drain(now_ms, n).0.may_send(),
    decreases n,
{
    if s.may_send() {
        lemma_next_waits(s);
        delivery::lemma_waiting_bound(s);
        let (qos, id) = s.next_waiting()->0;
        delivery::lemma_send_next_progress(s, now_ms);
        lemma_drain_is_complete(s.send_next(now_ms).0, now_ms, (n - 1) as nat);
    }
}

/// A connected client never waits for a message for which its Receive Maximum has room: once
/// messages are taken up, nothing waits, or there is no room.
pub proof fn law_no_message_waits_while_there_is_room(s: SessionView, now_ms: u64)
    requires
        finite(s),
    ensures
        ({
            let end = s.drained(now_ms).0;
            end.connected ==> end.next_waiting() is None || end.outbound_active.len()
                >= end.receive_maximum
        }),
{
    delivery::lemma_waiting_bound(s);
    lemma_drain_is_complete(
        s,
        now_ms,
        s.in_flight.dom().len() + s.outgoing_qos2.dom().len(),
    );
}

/// Taking up messages begins no exchange.
pub(crate) proof fn lemma_drain_begins_none(s: SessionView, now_ms: u64, n: nat)
    ensures
        s.drain(now_ms, n).0.in_flight.dom().subset_of(s.in_flight.dom()),
        s.drain(now_ms, n).0.outgoing_qos2.dom().subset_of(s.outgoing_qos2.dom()),
    decreases n,
{
    if n > 0 && s.may_send() {
        lemma_next_waits(s);
        lemma_drain_begins_none(s.send_next(now_ms).0, now_ms, (n - 1) as nat);
    }
}

/// A QoS 1 message that the client acknowledged, and a QoS 2 message whose exchange the client
/// completed, are never sent again: they are forgotten, here and where they are stored.
pub proof fn law_acknowledged_message_is_forgotten(s: SessionView, id: u16, now_ms: u64)
    ensures
        !s.on_puback(id, now_ms).0.in_flight.contains_key(id),
        s.on_puback(id, now_ms).1[0] == EffectView::DeleteInFlight(id),
        !s.on_pubcomp(id, now_ms).0.outgoing_qos2.contains_key(id),
        s.outgoing_qos2.contains_key(id) ==> s.on_pubcomp(id, now_ms).1[0]
            == EffectView::DeleteOutgoing(id),
{
    let one = SessionView {
        in_flight: s.in_flight.remove(id),
        outbound_active: s.outbound_active.remove(id),
        ..s
    };
    lemma_drain_begins_none(
        one,
        now_ms,
        one.in_flight.dom().len() + one.outgoing_qos2.dom().len(),
    );
    let two = SessionView {
        outgoing_qos2: s.outgoing_qos2.remove(id),
        outbound_active: s.outbound_active.remove(id),
        ..s
    };
    lemma_drain_begins_none(
        two,
        now_ms,
        two.in_flight.dom().len() + two.outgoing_qos2.dom().len(),
    );
}

/// Whether the open exchanges have identifiers of their own.
pub open spec fn identifiers_apart(s: SessionView) -> bool {
    s.in_flight.dom().disjoint(s.outgoing_qos2.dom())
}

/// Open exchanges have identifiers of their own, whatever happens in the session.
pub proof fn law_identifiers_stay_apart(
    s: SessionView,
    m: MessageView,
    qos: u8,
    id: u16,
    code: u8,
    now_ms: u64,
    n: nat,
)
    requires
        identifiers_apart(s),
    ensures
        identifiers_apart(s.enqueue(m, qos, now_ms).0),
        identifiers_apart(s.drain(now_ms, n).0),
        identifiers_apart(s.on_puback(id, now_ms).0),
        identifiers_apart(s.on_pubrec(id, code, now_ms).0),
        identifiers_apart(s.on_pubcomp(id, now_ms).0),
        identifiers_apart(s.window_reset()),
{
    delivery::law_allocated_id_is_free(s.used(), s.next_packet_id, 65535);
    lemma_drain_begins_none(s, now_ms, n);
    let one = SessionView {
        in_flight: s.in_flight.remove(id),
        outbound_active: s.outbound_active.remove(id),
        ..s
    };
    lemma_drain_begins_none(
        one,
        now_ms,
        one.in_flight.dom().len() + one.outgoing_qos2.dom().len(),
    );
    let two = SessionView {
        outgoing_qos2: s.outgoing_qos2.remove(id),
        outbound_active: s.outbound_active.remove(id),
        ..s
    };
    lemma_drain_begins_none(
        two,
        now_ms,
        two.in_flight.dom().len() + two.outgoing_qos2.dom().len(),
    );
}

/// A QoS 2 message that the client has received is not sent to it again before the exchange is
/// complete: it does not wait, and only its release is sent.
pub proof fn law_received_message_is_not_sent_again(s: SessionView, id: u16, code: u8, now_ms: u64)
    requires
        s.outgoing_qos2.contains_key(id),
        code < 0x80,
    ensures
        ({
            let (end, effects) = s.on_pubrec(id, code, now_ms);
            &&& !end.waits2(id)
            &&& !end.window_reset().waits2(id)
            &&& effects.last() == EffectView::Send(
                crate::session::model::ack_packet(6, id, 0).bytes(),
            )
        }),
{
}

/// Whether a message that waits is sent when it is taken up: it has not expired unsent, and is
/// not too large for the client.
pub open spec fn sendable(s: SessionView, qos: u8, id: u16, now_ms: u64) -> bool {
    let out = if qos == 1 {
        s.in_flight[id]
    } else {
        s.outgoing_qos2[id]
    };
    &&& out.message.properties.expired(now_ms) ==> out.started
    &&& publish_packet(out.started, qos, Some(id), out.message, now_ms).bytes().len()
        <= s.maximum_packet_size
}

/// The packet in which a message that waits is sent.
pub open spec fn packet_of(s: SessionView, qos: u8, id: u16, now_ms: u64) -> EffectView {
    let out = if qos == 1 {
        s.in_flight[id]
    } else {
        s.outgoing_qos2[id]
    };
    EffectView::Send(publish_packet(out.started, qos, Some(id), out.message, now_ms).bytes())
}

/// A message for which there is room is sent.
proof fn lemma_waiting_is_sent(s: SessionView, now_ms: u64, n: nat, qos: u8, id: u16)
    requires
        finite(s),
        s.connected,
        waiting(s) <= n,
        s.outbound_active.len() + waiting(s) <= s.receive_maximum,
        (qos == 1 && s.waits1(id)) || (qos == 2 && s.waits2(id)),
        sendable(s, qos, id, now_ms),
        identifiers_apart(s),
    ensures
        s.drain(now_ms, n).1.contains(packet_of(s, qos, id, now_ms)),
    decreases n,
{
    lemma_next_waits(s);
    delivery::lemma_waiting_bound(s);
    if qos == 1 {
        assert(delivery::waiting1(s).contains(id));
        vstd::set_lib::lemma_set_empty_equivalency_len(delivery::waiting1(s));
    } else {
        assert(delivery::waiting2(s).contains(id));
        vstd::set_lib::lemma_set_empty_equivalency_len(delivery::waiting2(s));
    }
    assert(s.next_waiting() is Some);
    assert(s.may_send());
    let (q, first) = s.next_waiting()->0;
    let (next, effects) = s.send_next(now_ms);
    let more = next.drain(now_ms, (n - 1) as nat).1;
    let all = s.drain(now_ms, n).1;
    assert(all == effects + more);
    delivery::lemma_send_next_progress(s, now_ms);
    if q == qos && first == id {
        let last = effects.len() - 1;
        assert(effects[last] == packet_of(s, qos, id, now_ms));
        assert(all[last] == effects[last]);
    } else {
        assert(first != id) by {
            if first == id {
                assert(s.in_flight.dom().contains(id));
                assert(s.outgoing_qos2.dom().contains(id));
            }
        }
        assert(next.in_flight.dom().subset_of(s.in_flight.dom()));
        assert(next.outgoing_qos2.dom().subset_of(s.outgoing_qos2.dom()));
        lemma_waiting_is_sent(next, now_ms, (n - 1) as nat, qos, id);
        let want = packet_of(s, qos, id, now_ms);
        assert(want == packet_of(next, qos, id, now_ms));
        let k = choose|k: int| 0 <= k < more.len() && more[k] == want;
        assert(all[effects.len() + k] == want);
    }
}

/// When a session goes on, every message of it that the client has not acknowledged is sent
/// again, as a duplicate where it was sent before, as far as the client's Receive Maximum has
/// room for all of them; but for those that expired unsent or are too large for the client.
pub proof fn law_unacknowledged_message_is_sent_again(
    s: SessionView,
    now_ms: u64,
    qos: u8,
    id: u16,
)
    requires
        finite(s),
        s.connected,
        identifiers_apart(s),
        (qos == 1 && s.in_flight.contains_key(id)) || (qos == 2 && s.outgoing_qos2.contains_key(id)
            && !s.outgoing_qos2[id].completing),
        sendable(s, qos, id, now_ms),
        s.in_flight.dom().len() + s.outgoing_qos2.dom().len() <= s.receive_maximum,
    ensures
        s.window_reset().drained(now_ms).1.contains(packet_of(s, qos, id, now_ms)),
{
    let t = s.window_reset();
    let two = s.outgoing_qos2.dom();
    assert(s.completing().subset_of(two));
    vstd::set_lib::lemma_len_subset(s.completing(), two);
    delivery::lemma_waiting_bound(t);
    let w2 = delivery::waiting2(t);
    assert(w2.disjoint(s.completing()));
    assert((w2 + s.completing()).subset_of(two));
    vstd::set_lib::lemma_len_subset(w2 + s.completing(), two);
    vstd::set_lib::lemma_set_disjoint_lens(w2, s.completing());
    assert(delivery::waiting1(t).subset_of(s.in_flight.dom()));
    vstd::set_lib::lemma_len_subset(delivery::waiting1(t), s.in_flight.dom());
    assert(!s.completing().contains(id)) by {
        if s.completing().contains(id) {
            assert(s.outgoing_qos2.dom().contains(id));
            assert(qos == 1 ==> s.in_flight.dom().contains(id));
        }
    }
    lemma_waiting_is_sent(
        t,
        now_ms,
        t.in_flight.dom().len() + t.outgoing_qos2.dom().len(),
        qos,
        id,
    );
}

} // verus!
