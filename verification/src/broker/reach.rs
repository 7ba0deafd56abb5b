//! Whom a published message reaches, and with what.

use vstd::prelude::*;
use crate::broker::laws;
use crate::broker::laws::{has_more, only_more_messages};
use crate::broker::model;
use crate::broker::model::{ActionView, BrokerView, PublishedView, RetainedView};
use crate::router::laws::law_only_matching_is_reached;
use crate::router::table;
use crate::router::table::InfoView;
use crate::session::delivery::law_allocation_fails_only_when_full;
use crate::session::model::{allocate, publish_packet, EffectView, MessageView, SessionView};

verus! {

/// The subscribers, outside of groups, that a message reaches.
pub open spec fn subscribers(b: BrokerView, p: PublishedView) -> Seq<InfoView> {
    table::routed(b.routes, None, Seq::empty(), model::topic_levels(p.topic))
}

/// The packet that a client gets of a QoS 0 message.
pub open spec fn qos0_packet(m: MessageView, now_ms: u64) -> Seq<u8> {
    publish_packet(false, 0, None, m, now_ms).bytes()
}

/// Whether a session holds a message that it owes to its client.
pub open spec fn owes(s: SessionView, m: MessageView, qos: u8) -> bool {
    if qos == 1 {
        exists|id: u16| #[trigger] s.in_flight.contains_key(id) && s.in_flight[id].message == m
    } else {
        exists|id: u16| #[trigger]
            s.outgoing_qos2.contains_key(id) && s.outgoing_qos2[id].message == m
    }
}

/// Whether all packet identifiers of a session belong to open exchanges.
pub open spec fn exhausted(s: SessionView) -> bool {
    forall|id: u16| id != 0 ==> #[trigger] s.used().contains(id)
}

/// Whether a client takes a message: it is not connected, or the packet is not too large for it.
pub open spec fn takes(s: SessionView, m: MessageView, qos: u8, now_ms: u64) -> bool {
    s.connected ==> publish_packet(
        false,
        qos,
        if qos > 0 {
            Some(1u16)
        } else {
            None
        },
        m,
        now_ms,
    ).bytes().len() <= s.maximum_packet_size
}

/// What a session owes, and that it has no identifier left, stays so when it gets more messages.
proof fn lemma_owed_stays(s: SessionView, more: SessionView, m: MessageView, qos: u8)
    requires
        has_more(s, more),
        owes(s, m, qos) || exhausted(s),
    ensures
        owes(more, m, qos) || exhausted(more),
{
    if exhausted(s) {
        assert forall|id: u16| id != 0 implies #[trigger] more.used().contains(id) by {
            assert(s.used().contains(id));
        }
    } else if qos == 1 {
        let id = choose|id: u16| #[trigger]
            s.in_flight.contains_key(id) && s.in_flight[id].message == m;
        assert(more.in_flight.contains_key(id));
    } else {
        let id = choose|id: u16| #[trigger]
            s.outgoing_qos2.contains_key(id) && s.outgoing_qos2[id].message == m;
        assert(more.outgoing_qos2.contains_key(id));
    }
}

/// A message whose delivery is acknowledged is owed once it is queued.
proof fn lemma_enqueued_is_owed(s: SessionView, m: MessageView, qos: u8, now_ms: u64)
    requires
        qos == 1 || qos == 2,
        !m.properties.expired(now_ms),
        takes(s, m, qos, now_ms),
    ensures
        ({
            let t = s.enqueue(m, qos, now_ms).0;
            owes(t, m, qos) || exhausted(t)
        }),
{
    let t = s.enqueue(m, qos, now_ms).0;
    let id = allocate(s.used(), s.next_packet_id, 65535).0;
    if id != 0 {
        if qos == 1 {
            assert(t.in_flight.contains_key(id));
        } else {
            assert(t.outgoing_qos2.contains_key(id));
        }
    } else {
        assert forall|free: u16| free != 0 implies #[trigger] t.used().contains(free) by {
            if !s.used().contains(free) {
                law_allocation_fails_only_when_full(s.used(), s.next_packet_id, free);
            }
        }
    }
}

/// What queueing for the first `n` of a list does for one of them.
proof fn lemma_one_of_the_list(
    b: BrokerView,
    list: Seq<InfoView>,
    n: nat,
    from: Seq<char>,
    p: PublishedView,
    now_ms: u64,
    i: int,
)
    requires
        0 <= i < n <= list.len(),
        !p.properties.expired(now_ms),
        !(list[i].no_local && list[i].client == from),
        b.sessions.contains_key(list[i].client),
        takes(
            b.sessions[list[i].client].session,
            p.for_subscriber(list[i]),
            model::least(p.qos, list[i].qos),
            now_ms,
        ),
    ensures
        ({
            let (end, actions) = b.deliver_to(list, n, from, p, now_ms);
            let entry = b.sessions[list[i].client];
            let m = p.for_subscriber(list[i]);
            let qos = model::least(p.qos, list[i].qos);
            &&& only_more_messages(b, end)
            &&& qos == 0 && entry.session.connected ==> actions.contains(
                ActionView::Session(
                    list[i].client,
                    entry.connection,
                    EffectView::Send(qos0_packet(m, now_ms)),
                ),
            )
            &&& (qos == 1 || qos == 2) ==> owes(end.sessions[list[i].client].session, m, qos)
                || exhausted(end.sessions[list[i].client].session)
        }),
    decreases n,
{
    let c = list[i].client;
    let m = p.for_subscriber(list[i]);
    let qos = model::least(p.qos, list[i].qos);
    let entry = b.sessions[c];
    let want = ActionView::Session(
        c,
        entry.connection,
        EffectView::Send(qos0_packet(m, now_ms)),
    );
    let (mid, before) = b.deliver_to(list, (n - 1) as nat, from, p, now_ms);
    let (end, actions) = b.deliver_to(list, n, from, p, now_ms);
    laws::lemma_deliver_to_only_more(b, list, (n - 1) as nat, from, p, now_ms);
    laws::lemma_deliver_to_only_more(b, list, n, from, p, now_ms);
    let info = list[n - 1];
    let step = mid.deliver(
        info.client,
        p.for_subscriber(info),
        model::least(p.qos, info.qos),
        now_ms,
    );
    assert(mid.sessions.contains_key(c));
    let s = mid.sessions[c].session;
    if i == n - 1 {
        assert(actions == before + step.1);
        if qos == 0 && entry.session.connected {
            assert(step.1[0] == want);
            assert(actions[before.len() as int] == want);
        }
        if qos == 1 || qos == 2 {
            lemma_enqueued_is_owed(s, m, qos, now_ms);
            assert(end.sessions[c].session == s.enqueue(m, qos, now_ms).0);
        }
    } else {
        lemma_one_of_the_list(b, list, (n - 1) as nat, from, p, now_ms, i);
        if qos == 0 && entry.session.connected {
            let k = choose|k: int| 0 <= k < before.len() && before[k] == want;
            assert(actions[k] == want);
        }
        if (qos == 1 || qos == 2) && !(info.no_local && info.client == from) {
            laws::lemma_deliver_only_more(
                mid,
                info.client,
                p.for_subscriber(info),
                model::least(p.qos, info.qos),
                now_ms,
            );
            assert(end == step.0);
            assert(end.sessions.contains_key(c));
            lemma_owed_stays(s, end.sessions[c].session, m, qos);
        }
    }
}

/// A published message that has not expired reaches every subscriber that has a session, but for
/// whoever published it and does not want their own messages, and unless the packet is larger
/// than the client accepts. With QoS 0 a client that is connected is sent the packet. With QoS 1
/// and 2 the session owes the message to the client from then on, connected or not, unless all of
/// its packet identifiers are in use.
pub proof fn law_subscriber_gets_the_message(
    b: BrokerView,
    from: Seq<char>,
    p: PublishedView,
    now_ms: u64,
    groups: Seq<Seq<u8>>,
    i: int,
)
    requires
        0 <= i < subscribers(b, p).len(),
        !p.properties.expired(now_ms),
        !(subscribers(b, p)[i].no_local && subscribers(b, p)[i].client == from),
        b.sessions.contains_key(subscribers(b, p)[i].client),
        takes(
            b.sessions[subscribers(b, p)[i].client].session,
            p.for_subscriber(subscribers(b, p)[i]),
            model::least(p.qos, subscribers(b, p)[i].qos),
            now_ms,
        ),
    ensures
        ({
            let info = subscribers(b, p)[i];
            let (end, actions) = b.route(from, p, now_ms, groups);
            let entry = b.sessions[info.client];
            let m = p.for_subscriber(info);
            let qos = model::least(p.qos, info.qos);
            &&& qos == 0 && entry.session.connected ==> actions.contains(
                ActionView::Session(
                    info.client,
                    entry.connection,
                    EffectView::Send(qos0_packet(m, now_ms)),
                ),
            )
            &&& (qos == 1 || qos == 2) ==> owes(end.sessions[info.client].session, m, qos)
                || exhausted(end.sessions[info.client].session)
        }),
{
    let list = subscribers(b, p);
    let info = list[i];
    let c = info.client;
    let m = p.for_subscriber(info);
    let qos = model::least(p.qos, info.qos);
    lemma_one_of_the_list(b, list, list.len(), from, p, now_ms, i);
    let (mid, delivered) = b.deliver_to(list, list.len(), from, p, now_ms);
    let (end, actions) = b.route(from, p, now_ms, groups);
    if b.routes.len() == 0 {
        law_only_matching_is_reached(b.routes, None, model::topic_levels(p.topic), info);
        assert(list.contains(info));
    }
    let forwarded = if b.forwards(from, p.topic) {
        seq![ActionView::Forward(p.for_bridge())]
    } else {
        Seq::empty()
    };
    let (last, served) = mid.serve_groups(groups, groups.len(), p, now_ms);
    assert(end == last);
    assert(actions == forwarded + delivered + served);
    if qos == 0 && b.sessions[c].session.connected {
        let want = ActionView::Session(
            c,
            b.sessions[c].connection,
            EffectView::Send(qos0_packet(m, now_ms)),
        );
        let k = choose|k: int| 0 <= k < delivered.len() && delivered[k] == want;
        assert(actions[forwarded.len() + k] == want);
    }
    if qos == 1 || qos == 2 {
        laws::lemma_serve_groups_only_more(mid, groups, groups.len(), p, now_ms);
        assert(mid.sessions.contains_key(c));
        assert(end.sessions.contains_key(c));
        lemma_owed_stays(mid.sessions[c].session, end.sessions[c].session, m, qos);
    }
}

/// A message for a group reaches one member of it, and no other client; the next message for the
/// group reaches the member whose turn is next.
pub proof fn law_one_member_of_a_group_is_served(
    b: BrokerView,
    group: Seq<u8>,
    p: PublishedView,
    now_ms: u64,
)
    ensures
        ({
            let members = table::routed(
                b.routes,
                Some(group),
                Seq::empty(),
                model::topic_levels(p.topic),
            );
            let turn = model::times_served(b.served, group);
            let c = members[turn as int % members.len() as int].client;
            let (end, actions) = b.serve(group, p, now_ms);
            &&& end.sessions.remove(c) == b.sessions.remove(c)
            &&& forall|i: int|
                0 <= i < actions.len() ==> (#[trigger] actions[i] matches ActionView::Session(
                    to,
                    _,
                    _,
                ) && to == c)
            &&& model::times_served(end.served, group) == turn.wrapping_add(1)
        }),
{
    let members = table::routed(
        b.routes,
        Some(group),
        Seq::empty(),
        model::topic_levels(p.topic),
    );
    let turn = model::times_served(b.served, group);
    let c = members[turn as int % members.len() as int].client;
    let end = b.serve(group, p, now_ms).0;
    assert(end.sessions.remove(c) =~= b.sessions.remove(c));
}

/// The retained messages that a new subscriber gets are those that match its filter and have not
/// expired.
pub proof fn law_replayed_messages_are_live(
    retained: Seq<RetainedView>,
    filter: Seq<char>,
    now_ms: u64,
    r: RetainedView,
)
    ensures
        model::live(retained, filter, now_ms).contains(r) <==> retained.contains(r)
            && model::matches_filter(r.topic, filter) && !r.properties.expired(now_ms),
    decreases retained.len(),
{
    let list = model::live(retained, filter, now_ms);
    if retained.len() > 0 {
        let front = retained.drop_last();
        let fewer = model::live(front, filter, now_ms);
        let last = retained.last();
        law_replayed_messages_are_live(front, filter, now_ms, r);
        if retained.contains(r) {
            let k = choose|k: int| 0 <= k < retained.len() && retained[k] == r;
            if k < front.len() {
                assert(front[k] == r);
            }
        }
        if front.contains(r) {
            let k = choose|k: int| 0 <= k < front.len() && front[k] == r;
            assert(retained[k] == r);
        }
        assert(retained[retained.len() - 1] == last);
        if list.contains(r) {
            let k = choose|k: int| 0 <= k < list.len() && list[k] == r;
            if k < fewer.len() {
                assert(fewer[k] == r);
            }
        }
        if fewer.contains(r) {
            let k = choose|k: int| 0 <= k < fewer.len() && fewer[k] == r;
            assert(list[k] == r);
        }
        if model::matches_filter(last.topic, filter) && !last.properties.expired(now_ms) {
            assert(list[fewer.len() as int] == last);
        }
    }
}

/// A retained message as a new subscriber gets it.
pub open spec fn replayed(r: RetainedView, subscription_identifier: Option<u32>) -> MessageView {
    MessageView {
        topic: r.topic,
        payload: r.payload,
        retain: true,
        subscription_identifier,
        properties: r.properties,
    }
}

/// What queueing the first `n` of a list of retained messages does for one of them.
proof fn lemma_one_of_the_retained(
    b: BrokerView,
    c: Seq<char>,
    list: Seq<RetainedView>,
    n: nat,
    granted: u8,
    subscription_identifier: Option<u32>,
    now_ms: u64,
    i: int,
)
    requires
        n <= list.len(),
        b.sessions.contains_key(c),
    ensures
        ({
            let (end, actions) = b.replay_to(
                c,
                list,
                n,
                granted,
                subscription_identifier,
                now_ms,
            );
            let entry = b.sessions[c];
            let m = replayed(list[i], subscription_identifier);
            let qos = model::least(list[i].qos, granted);
            &&& only_more_messages(b, end)
            &&& 0 <= i < n && !list[i].properties.expired(now_ms) && takes(
                entry.session,
                m,
                qos,
                now_ms,
            ) ==> {
                &&& qos == 0 && entry.session.connected ==> actions.contains(
                    ActionView::Session(
                        c,
                        entry.connection,
                        EffectView::Send(qos0_packet(m, now_ms)),
                    ),
                )
                &&& (qos == 1 || qos == 2) ==> owes(end.sessions[c].session, m, qos) || exhausted(
                    end.sessions[c].session,
                )
            }
        }),
    decreases n,
{
    if n > 0 {
        lemma_one_of_the_retained(
            b,
            c,
            list,
            (n - 1) as nat,
            granted,
            subscription_identifier,
            now_ms,
            i,
        );
        let (mid, before) = b.replay_to(
            c,
            list,
            (n - 1) as nat,
            granted,
            subscription_identifier,
            now_ms,
        );
        let (end, actions) = b.replay_to(c, list, n, granted, subscription_identifier, now_ms);
        let last = list[n - 1];
        let last_m = replayed(last, subscription_identifier);
        let last_qos = model::least(last.qos, granted);
        laws::lemma_deliver_only_more(mid, c, last_m, last_qos, now_ms);
        laws::lemma_more_of_more(b, mid, end);
        assert(mid.sessions.contains_key(c));
        assert(end.sessions.contains_key(c));
        let s = mid.sessions[c].session;
        let entry = b.sessions[c];
        let m = replayed(list[i], subscription_identifier);
        let qos = model::least(list[i].qos, granted);
        let want = ActionView::Session(
            c,
            entry.connection,
            EffectView::Send(qos0_packet(m, now_ms)),
        );
        if 0 <= i < n && !list[i].properties.expired(now_ms) && takes(
            entry.session,
            m,
            qos,
            now_ms,
        ) {
            if i == n - 1 {
                let step = mid.deliver(c, m, qos, now_ms);
                assert(actions == before + step.1);
                if qos == 0 && entry.session.connected {
                    assert(step.1[0] == want);
                    assert(actions[before.len() as int] == want);
                }
                if qos == 1 || qos == 2 {
                    lemma_enqueued_is_owed(s, m, qos, now_ms);
                    assert(end.sessions[c].session == s.enqueue(m, qos, now_ms).0);
                }
            } else {
                if qos == 0 && entry.session.connected {
                    let k = choose|k: int| 0 <= k < before.len() && before[k] == want;
                    assert(actions[k] == want);
                }
                if qos == 1 || qos == 2 {
                    lemma_owed_stays(s, end.sessions[c].session, m, qos);
                }
            }
        }
    }
}

/// A new subscriber gets every retained message that matches its filter and has not expired, with
/// the retain flag set, unless the packet is larger than the client accepts. With QoS 0 a client
/// that is connected is sent the packet. With QoS 1 and 2 the session owes the message from then
/// on, unless all of its packet identifiers are in use.
pub proof fn law_new_subscriber_gets_retained_messages(
    b: BrokerView,
    c: Seq<char>,
    filter: Seq<char>,
    granted: u8,
    subscription_identifier: Option<u32>,
    now_ms: u64,
    r: RetainedView,
)
    requires
        b.sessions.contains_key(c),
        b.retained.contains(r),
        model::matches_filter(r.topic, filter),
        !r.properties.expired(now_ms),
        takes(
            b.sessions[c].session,
            replayed(r, subscription_identifier),
            model::least(r.qos, granted),
            now_ms,
        ),
    ensures
        ({
            let (end, actions) = b.replay(c, filter, granted, subscription_identifier, now_ms);
            let entry = b.sessions[c];
            let m = replayed(r, subscription_identifier);
            let qos = model::least(r.qos, granted);
            &&& qos == 0 && entry.session.connected ==> actions.contains(
                ActionView::Session(
                    c,
                    entry.connection,
                    EffectView::Send(qos0_packet(m, now_ms)),
                ),
            )
            &&& (qos == 1 || qos == 2) ==> owes(end.sessions[c].session, m, qos) || exhausted(
                end.sessions[c].session,
            )
        }),
{
    law_replayed_messages_are_live(b.retained, filter, now_ms, r);
    let list = model::live(b.retained, filter, now_ms);
    let i = choose|i: int| 0 <= i < list.len() && list[i] == r;
    let cleaned = BrokerView {
        retained: model::not_stale(b.retained, filter, now_ms),
        ..b
    };
    lemma_one_of_the_retained(
        cleaned,
        c,
        list,
        list.len(),
        granted,
        subscription_identifier,
        now_ms,
        i,
    );
    let front = model::stale_deleted(b.retained, filter, now_ms);
    let more = cleaned.replay_to(
        c,
        list,
        list.len(),
        granted,
        subscription_identifier,
        now_ms,
    ).1;
    let actions = b.replay(c, filter, granted, subscription_identifier, now_ms).1;
    assert(actions == front + more);
    let want = ActionView::Session(
        c,
        b.sessions[c].connection,
        EffectView::Send(qos0_packet(replayed(r, subscription_identifier), now_ms)),
    );
    if more.contains(want) {
        let k = choose|k: int| 0 <= k < more.len() && more[k] == want;
        assert(actions[front.len() + k] == want);
    }
}

} // verus!
