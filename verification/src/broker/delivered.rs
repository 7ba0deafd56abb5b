//! With what quality of service, and in what form, messages reach their receivers.

use vstd::prelude::*;
use crate::broker::laws;
use crate::broker::model;
use crate::broker::model::{ActionView, BrokerView, EntryView, PublishedView, RetainedView};
use crate::broker::reach;
use crate::broker::reach::subscribers;
use crate::router::table;
use crate::router::table::InfoView;
use crate::session::delivery;
use crate::session::model::{allocate, EffectView, MessageView, SessionView};
use crate::session::outbound::{
    carries, held, holding, law_expired_is_past, law_packet_carries_its_message, past,
};

verus! {

/// A published message as a subscription gets it: the retain flag stays only where the
/// subscription asks for that, and the identifier of the subscription is added.
pub open spec fn as_subscribed(p: PublishedView, info: InfoView) -> MessageView {
    MessageView {
        topic: p.topic,
        payload: p.payload,
        retain: p.retain && info.retain_as_published,
        subscription_identifier: info.subscription_identifier,
        properties: p.properties,
    }
}

/// A retained message as a new subscription gets it: with the retain flag.
pub open spec fn as_retained(r: RetainedView, subscription_identifier: Option<u32>) -> MessageView {
    MessageView {
        topic: r.topic,
        payload: r.payload,
        retain: true,
        subscription_identifier,
        properties: r.properties,
    }
}

/// Whether a session gets one message more, and nothing else happens: what is to be done for it
/// goes to its client's connection.
pub open spec fn gets_one(
    b: BrokerView,
    client: Seq<char>,
    m: MessageView,
    qos: u8,
    now_ms: u64,
    end: BrokerView,
    actions: Seq<ActionView>,
) -> bool {
    if b.sessions.contains_key(client) {
        let entry = b.sessions[client];
        let (session, effects) = entry.session.enqueue(m, qos, now_ms);
        &&& end == (BrokerView {
            sessions: b.sessions.insert(client, EntryView { session, ..entry }),
            ..b
        })
        &&& actions.len() == effects.len()
        &&& forall|i: int|
            0 <= i < actions.len() ==> #[trigger] actions[i] == ActionView::Session(
                client,
                entry.connection,
                effects[i],
            )
    } else {
        end == b && actions.len() == 0
    }
}

/// A message that is published with some QoS and reaches a subscription with another is delivered
/// with the smaller of the two; the publisher does not get it where the subscription refuses its
/// own messages. One subscriber after the other gets it.
pub proof fn law_message_is_delivered_with_the_smaller_qos(
    b: BrokerView,
    list: Seq<InfoView>,
    n: nat,
    from: Seq<char>,
    p: PublishedView,
    now_ms: u64,
)
    requires
        0 < n <= list.len(),
    ensures
        b.deliver_to(list, 0, from, p, now_ms) == (b, Seq::<ActionView>::empty()),
        ({
            let (mid, before) = b.deliver_to(list, (n - 1) as nat, from, p, now_ms);
            let (end, actions) = b.deliver_to(list, n, from, p, now_ms);
            let info = list[n - 1];
            &&& before.len() <= actions.len() && actions.take(before.len() as int) == before
            &&& info.no_local && info.client == from ==> end == mid && actions == before
            &&& !(info.no_local && info.client == from) ==> exists|delivered: u8|
                delivered <= p.qos && delivered <= info.qos && (delivered == p.qos || delivered
                    == info.qos) && #[trigger] gets_one(
                    mid,
                    info.client,
                    as_subscribed(p, info),
                    delivered,
                    now_ms,
                    end,
                    actions.skip(before.len() as int),
                )
        }),
{
    let (mid, before) = b.deliver_to(list, (n - 1) as nat, from, p, now_ms);
    let (end, actions) = b.deliver_to(list, n, from, p, now_ms);
    let info = list[n - 1];
    let qos = model::least(p.qos, info.qos);
    assert(actions.take(before.len() as int) =~= before);
    if !(info.no_local && info.client == from) {
        let more = mid.deliver(info.client, p.for_subscriber(info), qos, now_ms).1;
        assert(actions.skip(before.len() as int) =~= more);
        assert(gets_one(
            mid,
            info.client,
            as_subscribed(p, info),
            qos,
            now_ms,
            end,
            actions.skip(before.len() as int),
        ));
    }
}

/// How often a group was served.
pub open spec fn turns_of(b: BrokerView, group: Seq<u8>) -> u64 {
    if b.served.contains_key(group) {
        b.served[group]
    } else {
        0
    }
}

/// A message for a group goes to the one member whose turn it is, with the smaller of the two
/// QoS; the next message goes to the next member.
pub proof fn law_member_is_served_with_the_smaller_qos(
    b: BrokerView,
    group: Seq<u8>,
    p: PublishedView,
    now_ms: u64,
    info: InfoView,
    delivered: u8,
)
    requires
        members(b, group, p).len() > 0,
        info == members(b, group, p)[turns_of(b, group) as int % members(b, group, p).len() as int],
        delivered <= p.qos,
        delivered <= info.qos,
        delivered == p.qos || delivered == info.qos,
    ensures
        gets_one(
            (BrokerView {
                served: b.served.insert(group, turns_of(b, group).wrapping_add(1)),
                ..b
            }),
            info.client,
            as_subscribed(p, info),
            delivered,
            now_ms,
            b.serve(group, p, now_ms).0,
            b.serve(group, p, now_ms).1,
        ),
{
    assert(model::times_served(b.served, group) == turns_of(b, group));
    assert(model::least(p.qos, info.qos) == delivered);
}

/// A retained message is replayed with the smaller of its QoS and the QoS that was granted, with
/// the retain flag, and with the identifier of the new subscription. One after the other is.
pub proof fn law_retained_message_is_replayed_with_the_smaller_qos(
    b: BrokerView,
    client: Seq<char>,
    list: Seq<RetainedView>,
    n: nat,
    granted: u8,
    subscription_identifier: Option<u32>,
    now_ms: u64,
)
    requires
        0 < n <= list.len(),
    ensures
        b.replay_to(client, list, 0, granted, subscription_identifier, now_ms) == (
            b,
            Seq::<ActionView>::empty(),
        ),
        ({
            let (mid, before) = b.replay_to(
                client,
                list,
                (n - 1) as nat,
                granted,
                subscription_identifier,
                now_ms,
            );
            let (end, actions) = b.replay_to(
                client,
                list,
                n,
                granted,
                subscription_identifier,
                now_ms,
            );
            let r = list[n - 1];
            &&& before.len() <= actions.len() && actions.take(before.len() as int) == before
            &&& exists|delivered: u8|
                delivered <= r.qos && delivered <= granted && (delivered == r.qos || delivered
                    == granted) && #[trigger] gets_one(
                    mid,
                    client,
                    as_retained(r, subscription_identifier),
                    delivered,
                    now_ms,
                    end,
                    actions.skip(before.len() as int),
                )
        }),
{
    let (mid, before) = b.replay_to(
        client,
        list,
        (n - 1) as nat,
        granted,
        subscription_identifier,
        now_ms,
    );
    let (end, actions) = b.replay_to(client, list, n, granted, subscription_identifier, now_ms);
    let r = list[n - 1];
    let qos = model::least(r.qos, granted);
    assert(actions.take(before.len() as int) =~= before);
    assert(actions.skip(before.len() as int) =~= mid.deliver(
        client,
        as_retained(r, subscription_identifier),
        qos,
        now_ms,
    ).1);
    assert(gets_one(
        mid,
        client,
        as_retained(r, subscription_identifier),
        qos,
        now_ms,
        end,
        actions.skip(before.len() as int),
    ));
}

/// Whether a packet brings a published message to a subscription: with a QoS that is at most that
/// of the message, at most that of the subscription, and one of the two; with a packet identifier
/// exactly where the QoS is not 0; and for a message that is not past its time.
pub open spec fn brings(bytes: Seq<u8>, p: PublishedView, info: InfoView, now_ms: u64) -> bool {
    exists|delivered: u8, id: Option<u16>|
        delivered <= p.qos && delivered <= info.qos && (delivered == p.qos || delivered
            == info.qos) && (id is Some <==> delivered > 0) && #[trigger] carries(
            bytes,
            false,
            delivered,
            id,
            as_subscribed(p, info),
            now_ms,
        ) && !past(p.properties, now_ms)
}

/// What is sent when a message is queued carries it.
proof fn lemma_enqueue_sends(s: SessionView, m: MessageView, qos: u8, now_ms: u64, bytes: Seq<u8>)
    requires
        s.enqueue(m, qos, now_ms).1.contains(EffectView::Send(bytes)),
    ensures
        !past(m.properties, now_ms),
        exists|id: Option<u16>|
            (id is Some <==> qos > 0) && #[trigger] carries(bytes, false, qos, id, m, now_ms),
{
    let effects = s.enqueue(m, qos, now_ms).1;
    let k = choose|k: int| 0 <= k < effects.len() && effects[k] == EffectView::Send(bytes);
    law_expired_is_past(m.properties, now_ms);
    if qos == 0 {
        law_packet_carries_its_message(false, 0, None, m, now_ms);
    } else {
        let id = allocate(s.used(), s.next_packet_id, 65535).0;
        law_packet_carries_its_message(false, qos, Some(id), m, now_ms);
    }
}

/// What is sent when a client gets one message carries it.
proof fn lemma_deliver_sends(
    b: BrokerView,
    client: Seq<char>,
    m: MessageView,
    qos: u8,
    now_ms: u64,
    c: Seq<char>,
    connection: u64,
    bytes: Seq<u8>,
)
    requires
        b.deliver(client, m, qos, now_ms).1.contains(
            ActionView::Session(c, connection, EffectView::Send(bytes)),
        ),
    ensures
        c == client,
        b.sessions.contains_key(client) && connection == b.sessions[client].connection,
        !past(m.properties, now_ms),
        exists|id: Option<u16>|
            (id is Some <==> qos > 0) && #[trigger] carries(bytes, false, qos, id, m, now_ms),
{
    let actions = b.deliver(client, m, qos, now_ms).1;
    let want = ActionView::Session(c, connection, EffectView::Send(bytes));
    let k = choose|k: int| 0 <= k < actions.len() && actions[k] == want;
    let effects = b.sessions[client].session.enqueue(m, qos, now_ms).1;
    assert(effects[k] == EffectView::Send(bytes));
    lemma_enqueue_sends(b.sessions[client].session, m, qos, now_ms, bytes);
}

/// What is sent to subscribers brings them the message.
proof fn lemma_subscribers_are_sent(
    b: BrokerView,
    list: Seq<InfoView>,
    n: nat,
    from: Seq<char>,
    p: PublishedView,
    now_ms: u64,
    c: Seq<char>,
    connection: u64,
    bytes: Seq<u8>,
)
    requires
        n <= list.len(),
        b.deliver_to(list, n, from, p, now_ms).1.contains(
            ActionView::Session(c, connection, EffectView::Send(bytes)),
        ),
    ensures
        exists|i: int|
            0 <= i < n && (#[trigger] list[i]).client == c && !(list[i].no_local && c == from)
                && brings(bytes, p, list[i], now_ms),
    decreases n,
{
    let want = ActionView::Session(c, connection, EffectView::Send(bytes));
    let (mid, before) = b.deliver_to(list, (n - 1) as nat, from, p, now_ms);
    let actions = b.deliver_to(list, n, from, p, now_ms).1;
    let k = choose|k: int| 0 <= k < actions.len() && actions[k] == want;
    let info = list[n - 1];
    if k < before.len() {
        assert(before[k] == want);
        lemma_subscribers_are_sent(
            b,
            list,
            (n - 1) as nat,
            from,
            p,
            now_ms,
            c,
            connection,
            bytes,
        );
    } else {
        let qos = model::least(p.qos, info.qos);
        let more = mid.deliver(info.client, p.for_subscriber(info), qos, now_ms).1;
        assert(more[k - before.len()] == want);
        lemma_deliver_sends(
            mid,
            info.client,
            as_subscribed(p, info),
            qos,
            now_ms,
            c,
            connection,
            bytes,
        );
        let id = choose|id: Option<u16>|
            (id is Some <==> qos > 0) && #[trigger] carries(
                bytes,
                false,
                qos,
                id,
                as_subscribed(p, info),
                now_ms,
            );
        assert(carries(bytes, false, qos, id, as_subscribed(p, info), now_ms));
        assert(brings(bytes, p, info, now_ms));
    }
}

/// What is sent to members of groups brings them the message.
proof fn lemma_members_are_sent(
    b: BrokerView,
    groups: Seq<Seq<u8>>,
    n: nat,
    p: PublishedView,
    now_ms: u64,
    c: Seq<char>,
    connection: u64,
    bytes: Seq<u8>,
)
    requires
        n <= groups.len(),
        b.serve_groups(groups, n, p, now_ms).1.contains(
            ActionView::Session(c, connection, EffectView::Send(bytes)),
        ),
    ensures
        exists|g: int, i: int|
            0 <= g < n && (#[trigger] members(b, groups[g], p)[i]).client == c && brings(
                bytes,
                p,
                members(b, groups[g], p)[i],
                now_ms,
            ),
    decreases n,
{
    let want = ActionView::Session(c, connection, EffectView::Send(bytes));
    let (mid, before) = b.serve_groups(groups, (n - 1) as nat, p, now_ms);
    let actions = b.serve_groups(groups, n, p, now_ms).1;
    let k = choose|k: int| 0 <= k < actions.len() && actions[k] == want;
    if k < before.len() {
        assert(before[k] == want);
        lemma_members_are_sent(b, groups, (n - 1) as nat, p, now_ms, c, connection, bytes);
    } else {
        let group = groups[n - 1];
        laws::lemma_serve_groups_only_more(b, groups, (n - 1) as nat, p, now_ms);
        assert(mid.routes == b.routes);
        let list = members(b, group, p);
        let turn = model::times_served(mid.served, group);
        let i = turn as int % list.len() as int;
        let info = list[i];
        let turned = BrokerView {
            served: mid.served.insert(group, turn.wrapping_add(1)),
            ..mid
        };
        let qos = model::least(p.qos, info.qos);
        let more = mid.serve(group, p, now_ms).1;
        assert(more == turned.deliver(info.client, p.for_subscriber(info), qos, now_ms).1);
        assert(more[k - before.len()] == want);
        lemma_deliver_sends(
            turned,
            info.client,
            as_subscribed(p, info),
            qos,
            now_ms,
            c,
            connection,
            bytes,
        );
        let id = choose|id: Option<u16>|
            (id is Some <==> qos > 0) && #[trigger] carries(
                bytes,
                false,
                qos,
                id,
                as_subscribed(p, info),
                now_ms,
            );
        assert(carries(bytes, false, qos, id, as_subscribed(p, info), now_ms));
        assert(brings(bytes, p, info, now_ms));
        assert(members(b, groups[n - 1], p)[i].client == c);
    }
}

/// The members of a group that a message can reach.
pub open spec fn members(b: BrokerView, group: Seq<u8>, p: PublishedView) -> Seq<InfoView> {
    table::routed(b.routes, Some(group), Seq::empty(), model::topic_levels(p.topic))
}

/// Every packet that is sent when a message is published brings it to a subscription of the
/// client that gets it, in the form of that subscription and with the smaller of the two QoS; a
/// subscription that refuses its client's own messages gets none of them.
pub proof fn law_only_the_message_is_sent(
    b: BrokerView,
    from: Seq<char>,
    p: PublishedView,
    now_ms: u64,
    groups: Seq<Seq<u8>>,
    c: Seq<char>,
    connection: u64,
    bytes: Seq<u8>,
)
    requires
        b.route(from, p, now_ms, groups).1.contains(
            ActionView::Session(c, connection, EffectView::Send(bytes)),
        ),
    ensures
        (exists|i: int|
            0 <= i < subscribers(b, p).len() && (#[trigger] subscribers(b, p)[i]).client == c && !(
            subscribers(b, p)[i].no_local && c == from) && brings(
                bytes,
                p,
                subscribers(b, p)[i],
                now_ms,
            )) || (exists|g: int, i: int|
            0 <= g < groups.len() && (#[trigger] members(b, groups[g], p)[i]).client == c && brings(
                bytes,
                p,
                members(b, groups[g], p)[i],
                now_ms,
            )),
{
    let want = ActionView::Session(c, connection, EffectView::Send(bytes));
    let actions = b.route(from, p, now_ms, groups).1;
    let k = choose|k: int| 0 <= k < actions.len() && actions[k] == want;
    let list = subscribers(b, p);
    let forwarded = if b.forwards(from, p.topic) {
        seq![ActionView::Forward(p.for_bridge())]
    } else {
        Seq::empty()
    };
    let (mid, delivered) = b.deliver_to(list, list.len(), from, p, now_ms);
    let served = mid.serve_groups(groups, groups.len(), p, now_ms).1;
    assert(actions == forwarded + delivered + served);
    laws::lemma_deliver_to_only_more(b, list, list.len(), from, p, now_ms);
    assert(mid.routes == b.routes);
    if k < forwarded.len() {
        assert(forwarded[k] == want);
    } else if k < forwarded.len() + delivered.len() {
        assert(delivered[k - forwarded.len()] == want);
        lemma_subscribers_are_sent(b, list, list.len(), from, p, now_ms, c, connection, bytes);
    } else {
        assert(served[k - forwarded.len() - delivered.len()] == want);
        lemma_members_are_sent(mid, groups, groups.len(), p, now_ms, c, connection, bytes);
        let (g, i) = choose|g: int, i: int|
            0 <= g < groups.len() && (#[trigger] members(mid, groups[g], p)[i]).client == c
                && brings(bytes, p, members(mid, groups[g], p)[i], now_ms);
        assert(members(b, groups[g], p)[i].client == c);
    }
}

/// Whether a session owes a message to its client with a QoS: it is kept until it is
/// acknowledged.
pub open spec fn owed(s: SessionView, m: MessageView, qos: u8) -> bool {
    exists|id: u16| #[trigger] held(s, qos, id) && holding(s, qos, id).message == m
}

/// A published message that is not past its time reaches every subscriber with a session, unless
/// it is the publisher who refuses its own messages, and unless the packet is larger than the
/// client accepts: with the smaller of the two QoS. With QoS 0 a client that is connected is sent
/// the packet; with QoS 1 or 2 the session owes the message from then on, unless all of its packet
/// identifiers are in use.
pub proof fn law_every_subscriber_gets_the_message(
    b: BrokerView,
    from: Seq<char>,
    p: PublishedView,
    now_ms: u64,
    groups: Seq<Seq<u8>>,
    i: int,
    delivered: u8,
)
    requires
        0 <= i < subscribers(b, p).len(),
        !past(p.properties, now_ms),
        !(subscribers(b, p)[i].no_local && subscribers(b, p)[i].client == from),
        b.sessions.contains_key(subscribers(b, p)[i].client),
        delivered <= p.qos,
        delivered <= subscribers(b, p)[i].qos,
        delivered == p.qos || delivered == subscribers(b, p)[i].qos,
        delivered <= 2,
        b.sessions[subscribers(b, p)[i].client].session.connected ==> forall|
            bytes: Seq<u8>,
            id: Option<u16>,
        |
            (id is Some <==> delivered > 0) && #[trigger] carries(
                bytes,
                false,
                delivered,
                id,
                as_subscribed(p, subscribers(b, p)[i]),
                now_ms,
            ) ==> bytes.len() <= b.sessions[subscribers(b, p)[i].client].session.maximum_packet_size,
    ensures
        ({
            let info = subscribers(b, p)[i];
            let (end, actions) = b.route(from, p, now_ms, groups);
            let entry = b.sessions[info.client];
            let m = as_subscribed(p, info);
            &&& delivered == 0 && entry.session.connected ==> exists|bytes: Seq<u8>|
                carries(bytes, false, 0, None, m, now_ms) && #[trigger] actions.contains(
                    ActionView::Session(info.client, entry.connection, EffectView::Send(bytes)),
                )
            &&& delivered > 0 ==> owed(end.sessions[info.client].session, m, delivered)
                || reach::exhausted(end.sessions[info.client].session)
        }),
{
    let info = subscribers(b, p)[i];
    let m = as_subscribed(p, info);
    assert(model::least(p.qos, info.qos) == delivered);
    law_expired_is_past(p.properties, now_ms);
    let id: Option<u16> = if delivered > 0 {
        Some(1u16)
    } else {
        None
    };
    law_packet_carries_its_message(false, delivered, id, m, now_ms);
    reach::law_subscriber_gets_the_message(b, from, p, now_ms, groups, i);
    let (end, actions) = b.route(from, p, now_ms, groups);
    let s = end.sessions[info.client].session;
    if delivered == 0 {
        assert(carries(reach::qos0_packet(m, now_ms), false, 0, None, m, now_ms));
    } else if reach::owes(s, m, delivered) {
        if delivered == 1 {
            let k = choose|k: u16| #[trigger]
                s.in_flight.contains_key(k) && s.in_flight[k].message == m;
            assert(held(s, delivered, k));
        } else {
            let k = choose|k: u16| #[trigger]
                s.outgoing_qos2.contains_key(k) && s.outgoing_qos2[k].message == m;
            assert(held(s, delivered, k));
        }
    }
}

/// Every message that a client owes its acknowledgement for, and did not before something was
/// published, is that message, in the form of one of the client's subscriptions.
pub proof fn law_routing_queues_only_the_message(
    b: BrokerView,
    client: Seq<char>,
    m: MessageView,
    qos: u8,
    now_ms: u64,
    q: u8,
    id: u16,
)
    requires
        b.sessions.contains_key(client),
        qos <= 2,
        held(b.deliver(client, m, qos, now_ms).0.sessions[client].session, q, id),
        !held(b.sessions[client].session, q, id),
    ensures
        q == qos,
        holding(b.deliver(client, m, qos, now_ms).0.sessions[client].session, q, id).message == m,
        holding(b.deliver(client, m, qos, now_ms).0.sessions[client].session, q, id).qos == qos,
        !past(m.properties, now_ms),
{
    law_expired_is_past(m.properties, now_ms);
    delivery::law_allocated_id_is_free(
        b.sessions[client].session.used(),
        b.sessions[client].session.next_packet_id,
        65535,
    );
}

/// What goes over the bridge is the message as it was published, for topics under the bridge's
/// prefix and not for what came from the bridge; and it goes first.
pub proof fn law_bridge_gets_the_message(
    b: BrokerView,
    from: Seq<char>,
    p: PublishedView,
    now_ms: u64,
    groups: Seq<Seq<u8>>,
    prefix: Seq<char>,
)
    requires
        b.bridge == Some(prefix),
        b.bridge_active,
        !past(p.properties, now_ms),
    ensures
        ({
            let actions = b.route(from, p, now_ms, groups).1;
            let message = ActionView::Forward(
                MessageView {
                    topic: p.topic,
                    payload: p.payload,
                    retain: p.retain,
                    subscription_identifier: None,
                    properties: p.properties,
                },
            );
            if from != "bridge_client"@ && prefix.len() <= p.topic.len() && p.topic.take(
                prefix.len() as int,
            ) == prefix {
                actions.len() > 0 && actions[0] == message
            } else {
                forall|i: int| 0 <= i < actions.len() ==> !(#[trigger] actions[i] is Forward)
            }
        }),
{
    law_expired_is_past(p.properties, now_ms);
    let list = subscribers(b, p);
    let (mid, delivered) = b.deliver_to(list, list.len(), from, p, now_ms);
    lemma_no_forward(b, list, list.len(), from, p, now_ms);
    lemma_no_forward_of_groups(mid, groups, groups.len(), p, now_ms);
    let served = mid.serve_groups(groups, groups.len(), p, now_ms).1;
    let actions = b.route(from, p, now_ms, groups).1;
    if !b.forwards(from, p.topic) {
        assert(actions =~= delivered + served);
    }
}

/// Delivering forwards nothing.
proof fn lemma_no_forward(
    b: BrokerView,
    list: Seq<InfoView>,
    n: nat,
    from: Seq<char>,
    p: PublishedView,
    now_ms: u64,
)
    ensures
        forall|i: int|
            0 <= i < b.deliver_to(list, n, from, p, now_ms).1.len() ==> !(#[trigger] b.deliver_to(
                list,
                n,
                from,
                p,
                now_ms,
            ).1[i] is Forward),
    decreases n,
{
    if n > 0 {
        lemma_no_forward(b, list, (n - 1) as nat, from, p, now_ms);
        let (mid, before) = b.deliver_to(list, (n - 1) as nat, from, p, now_ms);
        let actions = b.deliver_to(list, n, from, p, now_ms).1;
        assert forall|i: int| 0 <= i < actions.len() implies !(#[trigger] actions[i] is Forward) by {
            if i < before.len() {
                assert(actions[i] == before[i]);
            }
        }
    }
}

/// Serving groups forwards nothing.
proof fn lemma_no_forward_of_groups(
    b: BrokerView,
    groups: Seq<Seq<u8>>,
    n: nat,
    p: PublishedView,
    now_ms: u64,
)
    ensures
        forall|i: int|
            0 <= i < b.serve_groups(groups, n, p, now_ms).1.len() ==> !(#[trigger] b.serve_groups(
                groups,
                n,
                p,
                now_ms,
            ).1[i] is Forward),
    decreases n,
{
    if n > 0 {
        lemma_no_forward_of_groups(b, groups, (n - 1) as nat, p, now_ms);
        let (mid, before) = b.serve_groups(groups, (n - 1) as nat, p, now_ms);
        let actions = b.serve_groups(groups, n, p, now_ms).1;
        assert forall|i: int| 0 <= i < actions.len() implies !(#[trigger] actions[i] is Forward) by {
            if i < before.len() {
                assert(actions[i] == before[i]);
            }
        }
    }
}

/// A published message that is not past its time reaches all subscribers and then one member of
/// each group, each of them once, and in this order; where nobody subscribes and no bridge is
/// there, nothing happens.
pub proof fn law_message_reaches_subscribers_and_groups(
    b: BrokerView,
    from: Seq<char>,
    p: PublishedView,
    now_ms: u64,
    groups: Seq<Seq<u8>>,
    n: nat,
)
    requires
        0 < n <= groups.len(),
        !past(p.properties, now_ms),
        b.routes.len() > 0,
    ensures
        ({
            let list = subscribers(b, p);
            let (mid, delivered) = b.deliver_to(list, list.len(), from, p, now_ms);
            let (end, served) = mid.serve_groups(groups, groups.len(), p, now_ms);
            let (last, actions) = b.route(from, p, now_ms, groups);
            &&& last == end
            &&& actions.len() <= 1 + delivered.len() + served.len()
            &&& actions.skip(actions.len() - served.len() - delivered.len()) == delivered + served
            &&& end.routes == b.routes
        }),
        b.serve_groups(groups, 0, p, now_ms) == (b, Seq::<ActionView>::empty()),
        ({
            let (mid, before) = b.serve_groups(groups, (n - 1) as nat, p, now_ms);
            let (end, all) = b.serve_groups(groups, n, p, now_ms);
            end == mid.serve(groups[n - 1], p, now_ms).0 && all == before + mid.serve(
                groups[n - 1],
                p,
                now_ms,
            ).1
        }),
{
    law_expired_is_past(p.properties, now_ms);
    let list = subscribers(b, p);
    let (mid, delivered) = b.deliver_to(list, list.len(), from, p, now_ms);
    let (end, served) = mid.serve_groups(groups, groups.len(), p, now_ms);
    let actions = b.route(from, p, now_ms, groups).1;
    laws::law_routing_only_adds_messages(b, from, p, now_ms, groups);
    assert(actions.skip(actions.len() - served.len() - delivered.len()) =~= delivered + served);
}

/// Each group that a message reaches has its turn once.
pub proof fn law_each_group_has_one_turn(
    b: BrokerView,
    groups: Seq<Seq<u8>>,
    n: nat,
    p: PublishedView,
    now_ms: u64,
    i: int,
)
    requires
        groups.no_duplicates(),
        n <= groups.len(),
        0 <= i < groups.len(),
    ensures
        turns_of(b.serve_groups(groups, n, p, now_ms).0, groups[i]) == if i < n {
            turns_of(b, groups[i]).wrapping_add(1)
        } else {
            turns_of(b, groups[i])
        },
    decreases n,
{
    if n > 0 {
        law_each_group_has_one_turn(b, groups, (n - 1) as nat, p, now_ms, i);
        law_each_group_has_one_turn(b, groups, (n - 1) as nat, p, now_ms, n - 1);
    }
}

} // verus!
