//! What stands once a client is accepted.

use vstd::prelude::*;
use crate::broker::accepted::{lemma_answer_decodes, lemma_candidate_len};
use crate::broker::connect::{publishes_on_takeover, ConnectOrder, ConnectView};
use crate::broker::handshake::RequestView;
use crate::broker::kept;
use crate::broker::lapsed::lemma_together;
use crate::broker::laws;
use crate::broker::model;
use crate::broker::model::{ActionView, BrokerView, EntryView, WillMessageView};
use crate::codec::packet;
use crate::codec::packet::PacketView;
use crate::codec::property::ValueView;
use crate::session::delivery;
use crate::session::model::{EffectView, InboundView, SessionView};
use crate::session::outbound::{law_open_releases_are_repeated, plain_ack};

verus! {

/// Whether a session is another one with nothing changed but what is on its way to the client.
pub open spec fn same_terms(a: SessionView, z: SessionView) -> bool {
    z == (SessionView {
        next_packet_id: z.next_packet_id,
        next_order: z.next_order,
        outbound_active: z.outbound_active,
        in_flight: z.in_flight,
        outgoing_qos2: z.outgoing_qos2,
        ..a
    })
}

/// Whether an entry is another one with nothing changed but what is on its way to the client.
pub open spec fn same_entry(a: EntryView, z: EntryView) -> bool {
    z.connection == a.connection && z.will == a.will && same_terms(a.session, z.session)
}

/// Whether an entry is another one with nothing but more messages on their way to the client.
pub open spec fn more_entry(a: EntryView, z: EntryView) -> bool {
    &&& same_entry(a, z)
    &&& a.session.in_flight.submap_of(z.session.in_flight)
    &&& a.session.outgoing_qos2.submap_of(z.session.outgoing_qos2)
}

/// Taking up messages that wait changes nothing else.
proof fn lemma_drain_keeps_terms(s: SessionView, now_ms: u64, n: nat)
    ensures
        same_terms(s, s.drain(now_ms, n).0),
    decreases n,
{
    if n > 0 && s.may_send() {
        lemma_drain_keeps_terms(s.send_next(now_ms).0, now_ms, (n - 1) as nat);
    }
}

/// Publishing a Will changes nothing of a client but what is on its way to it.
proof fn lemma_will_keeps_entry(
    b: BrokerView,
    w: WillMessageView,
    now_ms: u64,
    groups: Seq<Seq<u8>>,
    c: Seq<char>,
)
    requires
        b.sessions.contains_key(c),
    ensures
        b.publish_will(w, now_ms, groups).0.sessions.contains_key(c),
        more_entry(b.sessions[c], b.publish_will(w, now_ms, groups).0.sessions[c]),
        b.publish_will(w, now_ms, groups).0.wills == b.wills,
{
    let properties = kept::counting(w.properties, now_ms);
    let counted = kept::will_counted(b);
    let kept = if w.retain {
        counted.retain(w.topic, w.payload, w.qos, properties, now_ms).0
    } else {
        counted
    };
    let p = kept::published_will(w, now_ms);
    laws::law_routing_only_adds_messages(kept, model::will_client(), p, now_ms, groups);
    let end = kept.route(model::will_client(), p, now_ms, groups).0;
    assert(kept.sessions.dom().contains(c));
    assert(end.sessions.dom().contains(c));
    assert(end.sessions.contains_key(c));
}

/// Whether the session of a client is there as the client asked for it.
pub open spec fn installed_as(e: EntryView, r: RequestView, c: Seq<char>, connection: u64) -> bool {
    &&& e.connection == connection
    &&& e.will == r.will
    &&& e.session.client == c
    &&& e.session.username == r.username
    &&& e.session.clean_start == r.clean_start
    &&& e.session.keep_alive == r.keep_alive
    &&& e.session.receive_maximum == r.receive_maximum
    &&& e.session.maximum_packet_size == r.maximum_packet_size
    &&& e.session.expiry == r.expiry
    &&& e.session.connected
    &&& !e.session.disconnect_requested
}

/// What stands once a client is installed.
proof fn lemma_installed(
    b: BrokerView,
    c: Seq<char>,
    r: RequestView,
    aliases: u16,
    now_ms: u64,
    order: ConnectOrder,
)
    ensures
        ({
            let (end, actions) = b.install(c, r, aliases, now_ms, order);
            let s = b.new_session(c, r, aliases);
            &&& end.sessions.contains_key(c)
            &&& more_entry(
                EntryView {
                    session: s,
                    connection: b.new_connection(c, r, now_ms, order),
                    will: r.will,
                },
                end.sessions[c],
            )
            &&& r.will is Some ==> actions.contains(
                ActionView::SaveWill(c, r.username, r.will->0, r.expiry, None),
            )
            &&& r.will is None ==> actions.contains(ActionView::DeleteWill(c))
                && !end.wills.contains_key(c)
            &&& r.expiry > 0 ==> actions.contains(
                ActionView::SaveSession(c, r.username, r.clean_start, r.expiry),
            )
        }),
{
    let (roomy, first) = b.make_room(c, r.clean_start, now_ms, order.pending);
    let s = b.new_session(c, r, aliases);
    let (registered, second) = roomy.register(s, r.will);
    let over = b.taken_over(c);
    let (alone, third) = if over {
        registered.take_over(c, b.sessions[c], r.clean_start, now_ms, order.replaced)
    } else {
        (registered, Seq::empty())
    };
    if over {
        let entry = b.sessions[c];
        let counted = registered.displacing(entry);
        if entry.will is Some && publishes_on_takeover(
            entry.will->0,
            r.clean_start,
            entry.session.expiry,
        ) {
            lemma_will_keeps_entry(counted, entry.will->0, now_ms, order.replaced, c);
        }
    }
    let (end, actions) = b.install(c, r, aliases, now_ms, order);
    let fourth = match r.will {
        Some(w) => seq![ActionView::SaveWill(c, r.username, w, r.expiry, None)],
        None => seq![ActionView::DeleteWill(c)],
    };
    assert(actions == first + second + third + fourth);
    assert(fourth.contains(fourth[0]));
    lemma_together(first + second + third, fourth, fourth[0]);
    if r.expiry > 0 {
        let save = ActionView::SaveSession(c, r.username, r.clean_start, r.expiry);
        assert(second[0] == save);
        assert(second.contains(save));
        lemma_together(first, second, save);
        lemma_together(first + second, third, save);
        lemma_together(first + second + third, fourth, save);
    }
}

/// What is done once a client is installed changes nothing of it but what is on its way.
proof fn lemma_accepted(
    b: BrokerView,
    c: Seq<char>,
    r: RequestView,
    answer: Seq<u8>,
    aliases: u16,
    now_ms: u64,
    order: ConnectOrder,
    y: ActionView,
)
    requires
        b.install(c, r, aliases, now_ms, order).0.sessions.contains_key(c),
    ensures
        ({
            let (installed, front) = b.install(c, r, aliases, now_ms, order);
            let (end, actions) = b.accept(c, r, answer, aliases, now_ms, order);
            &&& end.sessions.contains_key(c)
            &&& same_entry(installed.sessions[c], end.sessions[c])
            &&& end.wills == installed.wills
            &&& front.contains(y) ==> actions.contains(y)
        }),
{
    let (installed, front) = b.install(c, r, aliases, now_ms, order);
    let (end, actions) = b.accept(c, r, answer, aliases, now_ms, order);
    let s = installed.sessions[c].session;
    let reset = s.window_reset();
    lemma_drain_keeps_terms(
        reset,
        now_ms,
        reset.in_flight.dom().len() + reset.outgoing_qos2.dom().len(),
    );
    if front.contains(y) {
        let i = choose|i: int| 0 <= i < front.len() && front[i] == y;
        assert(actions[i] == y);
    }
}

/// Once a client is accepted, its session stands under its identifier and its new connection, for
/// its user, with its limits and its Will, as it asked. A session that goes on has the
/// subscriptions it had and the messages that wait for their release, and a new one has none. The
/// session is stored where it outlives its connection, the Will is stored where there is one, and
/// an earlier one is forgotten where there is none.
pub proof fn law_accepted_client_is_installed(
    b: BrokerView,
    r: RequestView,
    now_ms: u64,
    order: ConnectOrder,
    end: BrokerView,
    c: Seq<char>,
    connection: u64,
    present: bool,
    actions: Seq<ActionView>,
)
    requires
        b.connect(r, true, now_ms, order) == (
            end,
            ConnectView::Accepted(c, connection, present, actions),
        ),
    ensures
        end.sessions.contains_key(c),
        installed_as(end.sessions[c], r, c, connection),
        present ==> end.sessions[c].session.subscriptions == b.sessions[c].session.subscriptions
            && end.sessions[c].session.incoming_qos2 == b.sessions[c].session.incoming_qos2,
        !present ==> end.sessions[c].session.subscriptions == Set::<Seq<char>>::empty()
            && end.sessions[c].session.incoming_qos2 == Map::<u16, InboundView>::empty(),
        r.will is Some ==> actions.contains(
            ActionView::SaveWill(c, r.username, r.will->0, r.expiry, None),
        ),
        r.will is None ==> actions.contains(ActionView::DeleteWill(c)) && !end.wills.contains_key(
            c,
        ),
        r.expiry > 0 ==> actions.contains(
            ActionView::SaveSession(c, r.username, r.clean_start, r.expiry),
        ),
{
    let broker = b.identify(r, now_ms).0;
    let assigned = if r.client_id.len() == 0 {
        Some(c)
    } else {
        None
    };
    let (answer, aliases) = broker.answer(present, assigned, r.maximum_packet_size)->0;
    lemma_installed(broker, c, r, aliases, now_ms, order);
    assert((end, actions) == broker.accept(c, r, answer, aliases, now_ms, order));
    let will = match r.will {
        Some(w) => ActionView::SaveWill(c, r.username, w, r.expiry, None),
        None => ActionView::DeleteWill(c),
    };
    let save = ActionView::SaveSession(c, r.username, r.clean_start, r.expiry);
    lemma_accepted(broker, c, r, answer, aliases, now_ms, order, will);
    lemma_accepted(broker, c, r, answer, aliases, now_ms, order, save);
}

/// Whether a client whose session goes on is served: the messages that were on their way, and those
/// that came meanwhile, are taken up anew from a window that only the exchanges occupy of which the
/// end is missing, and all that this asks for is done on the new connection.
pub open spec fn served_anew(
    was: SessionView,
    now: SessionView,
    s: SessionView,
    c: Seq<char>,
    connection: u64,
    now_ms: u64,
    actions: Seq<ActionView>,
) -> bool {
    let (last, effects) = s.window_reset().drained(now_ms);
    &&& was.in_flight.submap_of(s.in_flight)
    &&& was.outgoing_qos2.submap_of(s.outgoing_qos2)
    &&& now == last
    &&& forall|i: int|
        0 <= i < effects.len() ==> actions.contains(
            ActionView::Session(c, connection, #[trigger] effects[i]),
        )
}

/// A client whose session goes on is sent a PUBREL for each QoS 2 exchange of which only the end is
/// missing, and the messages that wait are taken up.
pub proof fn law_session_that_goes_on_is_served(
    b: BrokerView,
    r: RequestView,
    now_ms: u64,
    order: ConnectOrder,
    end: BrokerView,
    c: Seq<char>,
    connection: u64,
    actions: Seq<ActionView>,
)
    requires
        b.connect(r, true, now_ms, order) == (
            end,
            ConnectView::Accepted(c, connection, true, actions),
        ),
        b.connect_order_fits(r, now_ms, order),
    ensures
        exists|s: SessionView| #[trigger]
            served_anew(
                b.sessions[c].session,
                end.sessions[c].session,
                s,
                c,
                connection,
                now_ms,
                actions,
            ),
        forall|id: u16| #[trigger]
            b.sessions[c].session.outgoing_qos2.contains_key(id)
                && b.sessions[c].session.outgoing_qos2[id].completing ==> actions.contains(
                ActionView::Session(c, connection, EffectView::Send(plain_ack(0x62, id))),
            ),
{
    let broker = b.identify(r, now_ms).0;
    let assigned = if r.client_id.len() == 0 {
        Some(c)
    } else {
        None
    };
    let (answer, aliases) = broker.answer(true, assigned, r.maximum_packet_size)->0;
    lemma_installed(broker, c, r, aliases, now_ms, order);
    let (installed, first) = broker.install(c, r, aliases, now_ms, order);
    let s = installed.sessions[c].session;
    let was = b.sessions[c].session;
    let effects = s.window_reset().drained(now_ms).1;
    let all = delivery::pubrels(order.completing) + effects;
    let told = model::tagged(c, connection, all);
    let answered = ActionView::Session(c, connection, EffectView::Send(answer));
    let front = first + seq![answered];
    assert((end, actions) == broker.accept(c, r, answer, aliases, now_ms, order));
    assert(actions == front + told);
    assert forall|i: int| 0 <= i < all.len() implies actions.contains(
        ActionView::Session(c, connection, #[trigger] all[i]),
    ) by {
        assert(told[i] == ActionView::Session(c, connection, all[i]));
        assert(actions[front.len() + i] == told[i]);
    }
    assert forall|i: int| 0 <= i < effects.len() implies actions.contains(
        ActionView::Session(c, connection, #[trigger] effects[i]),
    ) by {
        assert(all[order.completing.len() + i] == effects[i]);
    }
    assert(served_anew(was, end.sessions[c].session, s, c, connection, now_ms, actions));
    assert forall|id: u16| #[trigger]
        was.outgoing_qos2.contains_key(id) && was.outgoing_qos2[id].completing implies actions.contains(
        ActionView::Session(c, connection, EffectView::Send(plain_ack(0x62, id))),
    ) by {
        assert(s.outgoing_qos2.dom().contains(id));
        assert(s.completing().contains(id));
        assert(order.completing.to_set().contains(id));
        let i = choose|i: int| 0 <= i < order.completing.len() && order.completing[i] == id;
        law_open_releases_are_repeated(s, order.completing, i, id);
        assert(all[i] == delivery::pubrels(order.completing)[i]);
    }
}

/// Whether bytes decode to a CONNACK that accepts a client and announces so many topic aliases, or
/// none.
pub open spec fn announces_aliases(answer: Seq<u8>, present: bool, aliases: Option<u16>) -> bool {
    match packet::parse_packet(answer) {
        Ok((PacketView::ConnAck { session_present, reason_code, properties }, read)) => {
            &&& session_present == present && reason_code == 0 && read == answer.len()
            &&& match aliases {
                Some(n) => properties.values.contains_key(0x22) && properties.values[0x22]
                    == ValueView::Two(n),
                None => !properties.values.contains_key(0x22),
            }
        },
        _ => false,
    }
}

/// A client may use as many topic aliases as its answer announced, and none where the answer said
/// nothing of them.
pub proof fn law_aliases_are_those_announced(
    b: BrokerView,
    r: RequestView,
    now_ms: u64,
    order: ConnectOrder,
    end: BrokerView,
    c: Seq<char>,
    connection: u64,
    present: bool,
    actions: Seq<ActionView>,
)
    requires
        b.connect(r, true, now_ms, order) == (
            end,
            ConnectView::Accepted(c, connection, present, actions),
        ),
    ensures
        exists|answer: Seq<u8>, aliases: Option<u16>| #[trigger]
            announces_aliases(answer, present, aliases) && actions.contains(
                ActionView::Session(c, connection, EffectView::Send(answer)),
            ) && end.sessions[c].session.topic_alias_maximum == (match aliases {
                Some(n) => n,
                None => 0,
            }),
{
    let broker = b.identify(r, now_ms).0;
    let assigned = if r.client_id.len() == 0 {
        Some(c)
    } else {
        None
    };
    if r.client_id.len() == 0 {
        let n = b.free_number(now_ms, b.next_client, u64::MAX as nat);
        lemma_candidate_len(now_ms, n);
    }
    let (answer, aliases) = broker.answer(present, assigned, r.maximum_packet_size)->0;
    lemma_installed(broker, c, r, aliases, now_ms, order);
    let (installed, first) = broker.install(c, r, aliases, now_ms, order);
    let answered = ActionView::Session(c, connection, EffectView::Send(answer));
    assert((end, actions) == broker.accept(c, r, answer, aliases, now_ms, order));
    assert(actions[first.len() as int] == answered);
    assert(actions.contains(answered));
    lemma_accepted(broker, c, r, answer, aliases, now_ms, order, answered);
    if broker.full_answer(present, assigned).len() <= r.maximum_packet_size {
        lemma_answer_decodes(
            present,
            Some(b.limits.receive_maximum),
            Some(b.limits.maximum_packet_size),
            assigned,
            Some(b.topic_alias_maximum),
        );
        assert(announces_aliases(answer, present, Some(b.topic_alias_maximum)));
    } else {
        lemma_answer_decodes(present, None, None, assigned, None);
        assert(announces_aliases(answer, present, None));
    }
}

/// A client that connects while it is connected takes its earlier connection's place: that one is
/// sent the bytes 0xE0 0x02 0x8E 0x00 and is closed.
pub proof fn law_earlier_connection_is_closed(
    b: BrokerView,
    r: RequestView,
    now_ms: u64,
    order: ConnectOrder,
    end: BrokerView,
    c: Seq<char>,
    connection: u64,
    present: bool,
    actions: Seq<ActionView>,
)
    requires
        b.connect(r, true, now_ms, order) == (
            end,
            ConnectView::Accepted(c, connection, present, actions),
        ),
        b.sessions.contains_key(c),
        b.sessions[c].session.connected,
    ensures
        actions.contains(
            ActionView::Session(
                c,
                b.sessions[c].connection,
                EffectView::Send(seq![0xE0u8, 0x02, 0x8E, 0x00]),
            ),
        ),
        actions.contains(ActionView::Close(c, b.sessions[c].connection)),
{
    let broker = b.identify(r, now_ms).0;
    let assigned = if r.client_id.len() == 0 {
        Some(c)
    } else {
        None
    };
    let (answer, aliases) = broker.answer(present, assigned, r.maximum_packet_size)->0;
    laws::law_taken_over_connection_is_told(broker, c, r, answer, aliases, now_ms, order);
    kept::law_disconnect_bytes(0x8E);
}

} // verus!
