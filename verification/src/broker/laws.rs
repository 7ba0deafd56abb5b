//! What the broker keeps, whatever happens.

use vstd::prelude::*;
use crate::broker::connect;
use crate::broker::connect::{ConnectOrder, ConnectView};
use crate::broker::handshake::{connack_refusing, RequestView};
use crate::broker::model;
use crate::broker::model::{ActionView, BrokerView, PublishedView, RetainedView};
use crate::broker::packets;
use crate::message::ApplicationView;
use crate::router::table::InfoView;
use crate::session::delivery::law_allocated_id_is_free;
use crate::session::inbound::{disconnect_packet, PublishIn};
use crate::session::model::{ack_packet, EffectView, MessageView, SessionView};
use crate::text;

verus! {

/// Whether a session is another one with nothing but more messages on their way to the client.
pub open spec fn has_more(s: SessionView, more: SessionView) -> bool {
    &&& more == (SessionView {
        next_packet_id: more.next_packet_id,
        next_order: more.next_order,
        outbound_active: more.outbound_active,
        in_flight: more.in_flight,
        outgoing_qos2: more.outgoing_qos2,
        ..s
    })
    &&& s.in_flight.submap_of(more.in_flight)
    &&& s.outgoing_qos2.submap_of(more.outgoing_qos2)
}

/// Whether a broker is another one with nothing but more messages on their way to clients, and
/// other turns of groups.
pub open spec fn only_more_messages(b: BrokerView, end: BrokerView) -> bool {
    &&& end == (BrokerView { sessions: end.sessions, served: end.served, ..b })
    &&& end.sessions.dom() == b.sessions.dom()
    &&& forall|c: Seq<char>| #[trigger]
        end.sessions.contains_key(c) ==> ({
            let was = b.sessions[c];
            let now = end.sessions[c];
            now.connection == was.connection && now.will == was.will && has_more(
                was.session,
                now.session,
            )
        })
}

/// Queueing a message loses none.
proof fn lemma_enqueue_has_more(s: SessionView, m: MessageView, qos: u8, now_ms: u64)
    ensures
        has_more(s, s.enqueue(m, qos, now_ms).0),
{
    law_allocated_id_is_free(s.used(), s.next_packet_id, 65535);
}

/// A session with more than more has more.
proof fn lemma_more_of_a_session(a: SessionView, b: SessionView, c: SessionView)
    requires
        has_more(a, b),
        has_more(b, c),
    ensures
        has_more(a, c),
{
    vstd::map_lib::lemma_submap_of_trans(a.in_flight, b.in_flight, c.in_flight);
    vstd::map_lib::lemma_submap_of_trans(a.outgoing_qos2, b.outgoing_qos2, c.outgoing_qos2);
}

/// More of more is more.
pub(crate) proof fn lemma_more_of_more(a: BrokerView, b: BrokerView, c: BrokerView)
    requires
        only_more_messages(a, b),
        only_more_messages(b, c),
    ensures
        only_more_messages(a, c),
{
    assert forall|n: Seq<char>| #[trigger] c.sessions.contains_key(n) implies ({
        let was = a.sessions[n];
        let now = c.sessions[n];
        now.connection == was.connection && now.will == was.will && has_more(
            was.session,
            now.session,
        )
    }) by {
        assert(b.sessions.contains_key(n));
        lemma_more_of_a_session(
            a.sessions[n].session,
            b.sessions[n].session,
            c.sessions[n].session,
        );
    }
}

/// Queueing a message for a client changes nothing else.
pub(crate) proof fn lemma_deliver_only_more(b: BrokerView, c: Seq<char>, m: MessageView, qos: u8, now_ms: u64)
    ensures
        only_more_messages(b, b.deliver(c, m, qos, now_ms).0),
{
    if b.sessions.contains_key(c) {
        lemma_enqueue_has_more(b.sessions[c].session, m, qos, now_ms);
        let end = b.deliver(c, m, qos, now_ms).0;
        assert(end.sessions.dom() =~= b.sessions.dom());
    }
}

/// Queueing a message for subscribers changes nothing else.
pub(crate) proof fn lemma_deliver_to_only_more(
    b: BrokerView,
    list: Seq<InfoView>,
    n: nat,
    from: Seq<char>,
    p: PublishedView,
    now_ms: u64,
)
    ensures
        only_more_messages(b, b.deliver_to(list, n, from, p, now_ms).0),
    decreases n,
{
    if n > 0 {
        lemma_deliver_to_only_more(b, list, (n - 1) as nat, from, p, now_ms);
        let mid = b.deliver_to(list, (n - 1) as nat, from, p, now_ms).0;
        let info = list[n - 1];
        if !(info.no_local && info.client == from) {
            lemma_deliver_only_more(
                mid,
                info.client,
                p.for_subscriber(info),
                model::least(p.qos, info.qos),
                now_ms,
            );
            lemma_more_of_more(b, mid, b.deliver_to(list, n, from, p, now_ms).0);
        }
    }
}

/// Queueing a message for groups changes nothing else but their turns.
pub(crate) proof fn lemma_serve_groups_only_more(
    b: BrokerView,
    groups: Seq<Seq<u8>>,
    n: nat,
    p: PublishedView,
    now_ms: u64,
)
    ensures
        only_more_messages(b, b.serve_groups(groups, n, p, now_ms).0),
    decreases n,
{
    if n > 0 {
        lemma_serve_groups_only_more(b, groups, (n - 1) as nat, p, now_ms);
        let mid = b.serve_groups(groups, (n - 1) as nat, p, now_ms).0;
        let group = groups[n - 1];
        let members = crate::router::table::routed(
            mid.routes,
            Some(group),
            Seq::empty(),
            model::topic_levels(p.topic),
        );
        let turn = model::times_served(mid.served, group);
        let info = members[turn as int % members.len() as int];
        let turned = BrokerView {
            served: mid.served.insert(group, turn.wrapping_add(1)),
            ..mid
        };
        assert(only_more_messages(mid, turned));
        lemma_deliver_only_more(
            turned,
            info.client,
            p.for_subscriber(info),
            model::least(p.qos, info.qos),
            now_ms,
        );
        let end = mid.serve(group, p, now_ms).0;
        lemma_more_of_more(mid, turned, end);
        lemma_more_of_more(b, mid, end);
    }
}

/// Routing a message changes no subscription, no retained message, no Will and no limit; it ends
/// no session, and no message that was on its way to a client is lost.
pub proof fn law_routing_only_adds_messages(
    b: BrokerView,
    from: Seq<char>,
    p: PublishedView,
    now_ms: u64,
    groups: Seq<Seq<u8>>,
)
    ensures
        only_more_messages(b, b.route(from, p, now_ms, groups).0),
{
    let list = crate::router::table::routed(
        b.routes,
        None,
        Seq::empty(),
        model::topic_levels(p.topic),
    );
    lemma_deliver_to_only_more(b, list, list.len(), from, p, now_ms);
    let mid = b.deliver_to(list, list.len(), from, p, now_ms).0;
    lemma_serve_groups_only_more(mid, groups, groups.len(), p, now_ms);
    lemma_more_of_more(b, mid, mid.serve_groups(groups, groups.len(), p, now_ms).0);
}

/// A message that has expired goes nowhere.
pub proof fn law_expired_message_goes_nowhere(
    b: BrokerView,
    from: Seq<char>,
    p: PublishedView,
    now_ms: u64,
    groups: Seq<Seq<u8>>,
)
    requires
        p.properties.expired(now_ms),
    ensures
        b.route(from, p, now_ms, groups) == (b, Seq::<ActionView>::empty()),
{
}

/// A QoS 2 message of a client enters the broker once: with its release. When it is released
/// again, the client is told that there is no such message, and nothing else happens.
pub proof fn law_qos2_message_enters_once(
    b: BrokerView,
    c: Seq<char>,
    id: u16,
    now_ms: u64,
    groups: Seq<Seq<u8>>,
    later_ms: u64,
    other_groups: Seq<Seq<u8>>,
)
    requires
        b.sessions.contains_key(c),
    ensures
        ({
            let (end, _) = b.on_pubrel(c, id, now_ms, groups);
            !end.sessions[c].session.incoming_qos2.contains_key(id) && end.on_pubrel(
                c,
                id,
                later_ms,
                other_groups,
            ) == (
                end,
                packets::tagged_one(
                    c,
                    b.sessions[c].connection,
                    EffectView::Send(ack_packet(7, id, 0x92).bytes()),
                ),
            )
        }),
{
    let s = b.sessions[c].session;
    if s.incoming_qos2.contains_key(id) {
        let m = s.incoming_qos2[id];
        let p = PublishedView {
            topic: m.topic,
            payload: m.payload,
            qos: 2,
            retain: m.retain,
            properties: m.properties,
        };
        let without = b.with_session(
            c,
            SessionView { incoming_qos2: s.incoming_qos2.remove(id), ..s },
        );
        let kept = if p.retain {
            without.retain(p.topic, p.payload, p.qos, p.properties, now_ms).0
        } else {
            without
        };
        let counted = kept.with_session(c, kept.sessions[c].session.published_one());
        assert(counted.sessions.contains_key(c));
        law_routing_only_adds_messages(counted, c, p, now_ms, groups);
        let end = b.on_pubrel(c, id, now_ms, groups).0;
        assert(end == counted.route(c, p, now_ms, groups).0);
        assert(end.sessions.contains_key(c));
    }
}

/// A QoS 2 message that a client sends reaches nobody before it is released.
pub proof fn law_qos2_message_waits_for_its_release(
    b: BrokerView,
    c: Seq<char>,
    p: PublishIn,
    now_ms: u64,
    groups: Seq<Seq<u8>>,
)
    requires
        p.qos == 2,
        b.sessions.contains_key(c),
    ensures
        ({
            let end = b.on_publish(c, p, now_ms, groups).0;
            end.routes == b.routes && end.retained == b.retained && end.sessions.remove(c)
                == b.sessions.remove(c) && end.sessions[c].session.in_flight
                == b.sessions[c].session.in_flight && end.sessions[c].session.outgoing_qos2
                == b.sessions[c].session.outgoing_qos2
        }),
{
    let end = b.on_publish(c, p, now_ms, groups).0;
    assert(end.sessions.remove(c) =~= b.sessions.remove(c));
}

/// A client that may not write a topic changes nothing but its own session by publishing there.
pub proof fn law_unauthorized_message_goes_nowhere(
    b: BrokerView,
    c: Seq<char>,
    p: PublishIn,
    t: Seq<char>,
    now_ms: u64,
    groups: Seq<Seq<u8>>,
)
    requires
        !b.may_write(c, t),
    ensures
        b.on_accepted(c, p, t, now_ms, groups).0 == b,
{
}

/// Retained messages of other topics, and none of this one.
pub(crate) proof fn lemma_without_topic(retained: Seq<RetainedView>, t: Seq<char>)
    ensures
        forall|i: int|
            0 <= i < model::without_topic(retained, t).len() ==> (#[trigger] model::without_topic(
                retained,
                t,
            )[i]).topic != t,
        forall|r: RetainedView| #[trigger]
            model::without_topic(retained, t).contains(r) <==> retained.contains(r) && r.topic != t,
    decreases retained.len(),
{
    let rest = model::without_topic(retained, t);
    if retained.len() > 0 {
        let front = retained.drop_last();
        lemma_without_topic(front, t);
        let fewer = model::without_topic(front, t);
        assert forall|i: int| 0 <= i < rest.len() implies (#[trigger] rest[i]).topic != t by {
            if i < fewer.len() {
                assert(rest[i] == fewer[i]);
            }
        }
        assert forall|r: RetainedView| #[trigger] rest.contains(r) <==> retained.contains(r)
            && r.topic != t by {
            if retained.contains(r) {
                let k = choose|k: int| 0 <= k < retained.len() && retained[k] == r;
                if k < front.len() {
                    assert(front[k] == r);
                }
            }
            if front.contains(r) {
                let k = choose|k: int| 0 <= k < front.len() && front[k] == r;
                assert(retained[k] == r);
            }
            if rest.contains(r) {
                let k = choose|k: int| 0 <= k < rest.len() && rest[k] == r;
                if k < fewer.len() {
                    assert(fewer[k] == r);
                } else {
                    assert(retained.last() == r);
                }
            }
            if fewer.contains(r) {
                let k = choose|k: int| 0 <= k < fewer.len() && fewer[k] == r;
                assert(rest[k] == r);
            }
            if retained.last() == r && r.topic != t {
                assert(rest.last() == r);
                assert(rest[rest.len() - 1] == r);
            }
            assert(retained[retained.len() - 1] == retained.last());
        }
    }
}

/// A retained message takes the place of the one of its topic, and an empty one removes it; those
/// of other topics stay.
pub proof fn law_retained_message_replaces(
    b: BrokerView,
    t: Seq<char>,
    payload: Seq<u8>,
    qos: u8,
    properties: ApplicationView,
    now_ms: u64,
    other: RetainedView,
)
    ensures
        ({
            let end = b.retain(t, payload, qos, properties, now_ms).0;
            end.retained.contains(other) <==> if other.topic == t {
                payload.len() > 0 && !properties.expired(now_ms) && other == (RetainedView {
                    topic: t,
                    payload,
                    qos,
                    properties,
                })
            } else {
                b.retained.contains(other)
            }
        }),
{
    lemma_without_topic(b.retained, t);
    let rest = model::without_topic(b.retained, t);
    let message = RetainedView { topic: t, payload, qos, properties };
    let end = b.retain(t, payload, qos, properties, now_ms).0;
    if payload.len() > 0 && !properties.expired(now_ms) {
        assert(end.retained[rest.len() as int] == message);
        if rest.contains(other) {
            let k = choose|k: int| 0 <= k < rest.len() && rest[k] == other;
            assert(end.retained[k] == other);
        }
        if end.retained.contains(other) {
            let k = choose|k: int| 0 <= k < end.retained.len() && end.retained[k] == other;
            if k < rest.len() {
                assert(rest[k] == other);
            }
        }
    }
}

/// A client never has more subscriptions than its quota, by subscribing; and a filter that it has
/// is always accepted again.
pub proof fn law_quota_is_kept(
    b: BrokerView,
    c: Seq<char>,
    filter: Seq<char>,
    qos: u8,
    subscription_identifier: Option<u32>,
    options: u8,
)
    requires
        b.sessions.contains_key(c),
        b.sessions[c].session.subscriptions.finite(),
        b.sessions[c].session.subscriptions.len() <= b.limits.max_subscriptions_per_client,
    ensures
        b.subscribe(c, filter, qos, subscription_identifier, options).0.sessions[c].session
            .subscriptions.len() <= b.limits.max_subscriptions_per_client,
        b.sessions[c].session.subscriptions.contains(filter) ==> !b.over_quota(c, filter),
{
}

/// A client whose subscriptions all refuse its own messages gets none of them.
pub proof fn law_no_local_is_kept(
    b: BrokerView,
    list: Seq<InfoView>,
    n: nat,
    from: Seq<char>,
    p: PublishedView,
    now_ms: u64,
)
    requires
        n <= list.len(),
        forall|i: int|
            0 <= i < list.len() && (#[trigger] list[i]).client == from ==> list[i].no_local,
    ensures
        ({
            let end = b.deliver_to(list, n, from, p, now_ms).0;
            end.sessions.contains_key(from) == b.sessions.contains_key(from) && end.sessions[from]
                == b.sessions[from]
        }),
    decreases n,
{
    if n > 0 {
        law_no_local_is_kept(b, list, (n - 1) as nat, from, p, now_ms);
        let info = list[n - 1];
    }
}

/// Whoever is not authenticated changes nothing, and is refused.
pub proof fn law_unauthenticated_changes_nothing(
    b: BrokerView,
    r: RequestView,
    now_ms: u64,
    order: ConnectOrder,
)
    ensures
        b.connect(r, false, now_ms, order) == (
            b,
            ConnectView::Refused(connack_refusing(0x86).bytes()),
        ),
{
}

/// A session and a Will belong to the user who began them: another user who comes with the same
/// client identifier is refused, and neither is touched.
pub proof fn law_other_user_is_refused(
    b: BrokerView,
    r: RequestView,
    now_ms: u64,
    order: ConnectOrder,
)
    requires
        r.client_id.len() > 0,
        b.belongs_to_other(r.client_id, r.username),
    ensures
        b.connect(r, true, now_ms, order) == (
            b,
            ConnectView::Refused(connack_refusing(0x87).bytes()),
        ),
{
}

/// With Clean Start nothing of an earlier session is taken over.
pub proof fn law_clean_start_begins_anew(
    b: BrokerView,
    c: Seq<char>,
    r: RequestView,
    aliases: u16,
)
    requires
        r.clean_start,
    ensures
        !b.goes_on(c, r.clean_start),
        b.new_session(c, r, aliases) == b.fresh_session(c, r, aliases),
        b.new_session(c, r, aliases).subscriptions == Set::<Seq<char>>::empty(),
        b.new_session(c, r, aliases).used() == Set::<u16>::empty(),
{
    assert(b.new_session(c, r, aliases).used() =~= Set::<u16>::empty());
}

/// A session that goes on keeps its subscriptions and every message that was on its way, in
/// either direction.
pub proof fn law_resumed_session_is_kept(
    b: BrokerView,
    c: Seq<char>,
    r: RequestView,
    aliases: u16,
)
    requires
        !r.clean_start,
        b.sessions.contains_key(c),
        b.sessions[c].session.expiry > 0,
    ensures
        b.goes_on(c, r.clean_start),
        ({
            let was = b.sessions[c].session;
            let now = b.new_session(c, r, aliases);
            now.subscriptions == was.subscriptions && now.in_flight == was.in_flight
                && now.outgoing_qos2 == was.outgoing_qos2 && now.incoming_qos2
                == was.incoming_qos2
        }),
{
}

/// A client that connects while it is connected takes the place of its earlier connection: that
/// one is told so with reason code 0x8E, and closed.
pub proof fn law_taken_over_connection_is_told(
    b: BrokerView,
    c: Seq<char>,
    r: RequestView,
    answer: Seq<u8>,
    aliases: u16,
    now_ms: u64,
    order: ConnectOrder,
)
    requires
        b.taken_over(c),
    ensures
        ({
            let actions = b.accept(c, r, answer, aliases, now_ms, order).1;
            let connection = b.sessions[c].connection;
            &&& actions.contains(
                ActionView::Session(
                    c,
                    connection,
                    EffectView::Send(disconnect_packet(0x8E).bytes()),
                ),
            )
            &&& actions.contains(ActionView::Close(c, connection))
        }),
{
    let (roomy, first) = b.make_room(c, r.clean_start, now_ms, order.pending);
    let (registered, second) = roomy.register(b.new_session(c, r, aliases), r.will);
    let (alone, third) = registered.take_over(
        c,
        b.sessions[c],
        r.clean_start,
        now_ms,
        order.replaced,
    );
    let installed = b.install(c, r, aliases, now_ms, order).1;
    let actions = b.accept(c, r, answer, aliases, now_ms, order).1;
    let at = (first + second).len() as int;
    assert(installed[at] == third[0]);
    assert(installed[at + third.len() - 1] == third[third.len() - 1]);
    assert(actions[at] == installed[at]);
    assert(actions[at + third.len() - 1] == installed[at + third.len() - 1]);
}

/// The Will of a connection is stored, complete, before the client learns that it is connected.
pub proof fn law_will_is_stored_before_the_answer(
    b: BrokerView,
    c: Seq<char>,
    r: RequestView,
    answer: Seq<u8>,
    aliases: u16,
    now_ms: u64,
    order: ConnectOrder,
)
    requires
        r.will is Some,
    ensures
        ({
            let actions = b.accept(c, r, answer, aliases, now_ms, order).1;
            let n = b.install(c, r, aliases, now_ms, order).1.len() as int;
            &&& 0 < n < actions.len()
            &&& actions[n - 1] == ActionView::SaveWill(c, r.username, r.will->0, r.expiry, None)
            &&& actions[n] == ActionView::Session(
                c,
                b.new_connection(c, r, now_ms, order),
                EffectView::Send(answer),
            )
        }),
{
    let (installed, actions) = b.install(c, r, aliases, now_ms, order);
    let n = actions.len() as int;
    let all = b.accept(c, r, answer, aliases, now_ms, order).1;
    assert(actions[n - 1] == ActionView::SaveWill(c, r.username, r.will->0, r.expiry, None));
    assert(all[n - 1] == actions[n - 1]);
}

/// A client that may not read what a filter matches is told so with reason code 0x87, and is not
/// subscribed.
pub proof fn law_unreadable_filter_is_refused(
    so_far: packets::SubscribingView,
    c: Seq<char>,
    filter: Seq<char>,
    options: u8,
    subscription_identifier: Option<u32>,
)
    requires
        packets::subscription_fault(filter, options) is None,
        !so_far.broker.may_read(c, filter),
    ensures
        so_far.one_more(c, filter, options, subscription_identifier) == (packets::SubscribingView {
            codes: so_far.codes.push(0x87),
            ..so_far
        }),
{
}

/// Retain Handling decides whether an accepted subscription gets the retained messages: with 0 it
/// does, with 1 it does where the client did not have it yet, with 2 it does not. A shared
/// subscription never does.
pub proof fn law_retain_handling_decides(
    so_far: packets::SubscribingView,
    c: Seq<char>,
    filter: Seq<char>,
    options: u8,
    subscription_identifier: Option<u32>,
)
    requires
        packets::subscription_fault(filter, options) is None,
        so_far.broker.may_read(c, filter),
        !so_far.broker.over_quota(c, filter),
    ensures
        ({
            let replays = so_far.one_more(c, filter, options, subscription_identifier).replays;
            let handling = packets::retain_handling(options);
            let wanted = packets::ReplayView { filter, qos: packets::requested_qos(options) };
            if crate::topic::has_share_prefix(vstd::utf8::encode_utf8(filter)) || handling == 2 || (
            handling == 1 && !so_far.broker.is_new(c, filter)) {
                replays == so_far.replays
            } else {
                replays == so_far.replays.push(wanted)
            }
        }),
{
    assert((options >> 4) & 0x03 <= 3) by (bit_vector);
}

/// The value of hexadecimal digits.
spec fn hex_value(digits: Seq<u8>) -> nat
    decreases digits.len(),
{
    if digits.len() == 0 {
        0
    } else {
        let d = digits.last();
        hex_value(digits.drop_last()) * 16 + (if d >= 97 {
            (d - 87) as nat
        } else {
            (d - 48) as nat
        })
    }
}

/// Hexadecimal digits have the value of the number, and are ASCII.
proof fn lemma_hex_value(v: nat)
    ensures
        hex_value(text::hex(v)) == v,
        text::all_ascii(text::hex(v)),
        text::hex(v).len() > 0,
    decreases v,
{
    reveal_with_fuel(hex_value, 2);
    if v >= 16 {
        lemma_hex_value(v / 16);
        let front = text::hex(v / 16);
        let all = text::hex(v);
        assert(all.drop_last() =~= front);
        assert forall|i: int| 0 <= i < all.len() implies #[trigger] all[i] < 128 by {
            if i < front.len() {
                assert(all[i] == front[i]);
            }
        }
    } else {
        assert(text::hex(v).drop_last() =~= Seq::<u8>::empty());
    }
}

/// The identifiers of two numbers differ.
proof fn lemma_candidates_differ(now_ms: u64, a: u64, b: u64)
    requires
        connect::candidate(now_ms, a) == connect::candidate(now_ms, b),
    ensures
        a == b,
{
    let front = seq![112u8, 105, 112, 45] + text::hex(now_ms as nat) + seq![45u8];
    lemma_hex_value(now_ms as nat);
    lemma_hex_value(a as nat);
    lemma_hex_value(b as nat);
    let ca = front + text::hex(a as nat);
    let cb = front + text::hex(b as nat);
    assert(text::all_ascii(ca)) by {
        assert forall|i: int| 0 <= i < ca.len() implies #[trigger] ca[i] < 128 by {
            lemma_front_is_ascii(now_ms, text::hex(a as nat), i);
        }
    }
    assert(text::all_ascii(cb)) by {
        assert forall|i: int| 0 <= i < cb.len() implies #[trigger] cb[i] < 128 by {
            lemma_front_is_ascii(now_ms, text::hex(b as nat), i);
        }
    }
    text::lemma_ascii_decodes(ca);
    text::lemma_ascii_decodes(cb);
    assert(ca == cb);
    assert(ca.skip(front.len() as int) =~= text::hex(a as nat));
    assert(cb.skip(front.len() as int) =~= text::hex(b as nat));
}

/// Every code of an identifier is ASCII.
proof fn lemma_front_is_ascii(now_ms: u64, digits: Seq<u8>, i: int)
    requires
        text::all_ascii(digits),
        0 <= i < 5 + text::hex(now_ms as nat).len() + digits.len(),
    ensures
        (seq![112u8, 105, 112, 45] + text::hex(now_ms as nat) + seq![45u8] + digits)[i] < 128,
{
    lemma_hex_value(now_ms as nat);
    let time = text::hex(now_ms as nat);
    let whole = seq![112u8, 105, 112, 45] + time + seq![45u8] + digits;
    if i < 4 {
    } else if i < 4 + time.len() {
        assert(whole[i] == time[i - 4]);
    } else if i == 4 + time.len() {
    } else {
        assert(whole[i] == digits[i - 5 - time.len()]);
    }
}

/// The number that comes `k` after another.
spec fn number_after(n: u64, k: nat) -> u64 {
    ((n + k) % 0x1_0000_0000_0000_0000) as u64
}

/// The identifiers of so many numbers.
spec fn candidates(now_ms: u64, n: u64, k: nat) -> Set<Seq<char>>
    decreases k,
{
    if k == 0 {
        Set::empty()
    } else {
        candidates(now_ms, n, (k - 1) as nat).insert(
            connect::candidate(now_ms, number_after(n, (k - 1) as nat)),
        )
    }
}

/// So many numbers have so many identifiers.
proof fn lemma_candidates_count(now_ms: u64, n: u64, k: nat)
    requires
        k <= u64::MAX,
    ensures
        candidates(now_ms, n, k).finite(),
        candidates(now_ms, n, k).len() == k,
        forall|c: Seq<char>| #[trigger]
            candidates(now_ms, n, k).contains(c) ==> exists|i: nat|
                i < k && c == #[trigger] connect::candidate(now_ms, number_after(n, i)),
    decreases k,
{
    if k > 0 {
        let fewer = candidates(now_ms, n, (k - 1) as nat);
        lemma_candidates_count(now_ms, n, (k - 1) as nat);
        let next = connect::candidate(now_ms, number_after(n, (k - 1) as nat));
        if fewer.contains(next) {
            let i = choose|i: nat|
                i < k - 1 && next == #[trigger] connect::candidate(now_ms, number_after(n, i));
            lemma_candidates_differ(now_ms, number_after(n, i), number_after(n, (k - 1) as nat));
        }
        assert forall|c: Seq<char>| #[trigger] candidates(now_ms, n, k).contains(c) implies exists|
            i: nat,
        |
            i < k && c == #[trigger] connect::candidate(now_ms, number_after(n, i)) by {
            if fewer.contains(c) {
                let i = choose|i: nat|
                    i < k - 1 && c == #[trigger] connect::candidate(now_ms, number_after(n, i));
                assert(i < k);
            } else {
                assert(c == connect::candidate(now_ms, number_after(n, (k - 1) as nat)));
            }
        }
    }
}

/// Where the search ends in use, all the identifiers it looked at are in use.
proof fn lemma_search(b: BrokerView, now_ms: u64, n: u64, k: nat, tries: nat)
    requires
        k + tries <= u64::MAX,
        forall|c: Seq<char>| #[trigger] candidates(now_ms, n, k).contains(c) ==> b.id_in_use(c),
    ensures
        ({
            let found = b.free_number(now_ms, number_after(n, k), tries);
            b.id_in_use(connect::candidate(now_ms, found)) ==> forall|c: Seq<char>| #[trigger]
                candidates(now_ms, n, k + tries).contains(c) ==> b.id_in_use(c)
        }),
    decreases tries,
{
    let at = number_after(n, k);
    if tries > 0 && b.id_in_use(connect::candidate(now_ms, at)) {
        assert(at.wrapping_add(1) == number_after(n, k + 1));
        assert forall|c: Seq<char>| #[trigger]
            candidates(now_ms, n, k + 1).contains(c) implies b.id_in_use(c) by {
            if !candidates(now_ms, n, k).contains(c) {
                assert(c == connect::candidate(now_ms, at));
            }
        }
        lemma_search(b, now_ms, n, k + 1, (tries - 1) as nat);
        assert(k + 1 + (tries - 1) as nat == k + tries);
        assert(b.free_number(now_ms, at, tries) == b.free_number(
            now_ms,
            number_after(n, k + 1),
            (tries - 1) as nat,
        ));
    } else {
        assert(b.free_number(now_ms, at, tries) == at);
        assert(tries == 0 ==> k + tries == k);
    }
}

/// A client identifier that the broker assigns is in use by nobody, as long as fewer than
/// 2^64 - 1 identifiers are in use.
pub proof fn law_assigned_identifier_is_free(b: BrokerView, now_ms: u64, used: Set<Seq<char>>)
    requires
        used.finite(),
        used.len() < u64::MAX,
        forall|c: Seq<char>| b.id_in_use(c) ==> #[trigger] used.contains(c),
    ensures
        !b.id_in_use(b.assign(now_ms).1),
{
    let n = b.next_client;
    let all = u64::MAX as nat;
    assert(number_after(n, 0) == n);
    lemma_search(b, now_ms, n, 0, all);
    if b.id_in_use(b.assign(now_ms).1) {
        lemma_candidates_count(now_ms, n, all);
        let tried = candidates(now_ms, n, all);
        assert(tried.subset_of(used));
        vstd::set_lib::lemma_len_subset(tried, used);
    }
}

} // verus!
