//! What the broker keeps for later: retained messages, Wills, and sessions without a connection.

use vstd::prelude::*;
use crate::broker::laws;
use crate::broker::lifecycle;
use crate::broker::model;
use crate::broker::model::{
    ActionView, BrokerView, EntryView, PendingView, PublishedView, RetainedView, WillMessageView,
};
use crate::broker::wills;
use crate::codec::layout;
use crate::codec::property;
use crate::codec::property::{PropertiesView, PropertySet, ValueView};
use crate::message::ApplicationView;
use crate::router::table;
use crate::session::inbound::{disconnect_packet, PacketFault};
use crate::session::model::{EffectView, SessionView};
use crate::session::outbound::{law_expired_is_past, past};

verus! {

/// Whether exactly one of the retained messages is of a topic, and which.
pub open spec fn only_of_topic(retained: Seq<RetainedView>, r: RetainedView) -> bool {
    &&& retained.contains(r)
    &&& forall|i: int, j: int|
        0 <= i < retained.len() && 0 <= j < retained.len() && (#[trigger] retained[i]).topic
            == r.topic && (#[trigger] retained[j]).topic == r.topic ==> i == j
}

/// Whether none of the retained messages is of a topic.
pub open spec fn none_of_topic(retained: Seq<RetainedView>, t: Seq<char>) -> bool {
    forall|i: int| 0 <= i < retained.len() ==> (#[trigger] retained[i]).topic != t
}

/// Whether the retained messages of other topics are the same.
pub open spec fn others_kept(
    before: Seq<RetainedView>,
    after: Seq<RetainedView>,
    t: Seq<char>,
) -> bool {
    forall|r: RetainedView| r.topic != t ==> #[trigger] after.contains(r) == before.contains(r)
}

/// A message that is retained is the only one of its topic from then on, with its payload, its QoS
/// and its properties, and is stored; one that is empty or past its time removes that of its
/// topic. Those of other topics stay, and nothing else changes.
pub proof fn law_retained_message_is_the_only_one(
    b: BrokerView,
    t: Seq<char>,
    payload: Seq<u8>,
    qos: u8,
    properties: ApplicationView,
    now_ms: u64,
)
    ensures
        ({
            let (end, actions) = b.retain(t, payload, qos, properties, now_ms);
            let message = RetainedView { topic: t, payload, qos, properties };
            &&& end == (BrokerView { retained: end.retained, ..b })
            &&& others_kept(b.retained, end.retained, t)
            &&& if payload.len() > 0 && !past(properties, now_ms) {
                only_of_topic(end.retained, message) && actions == seq![
                    ActionView::SaveRetained(message),
                ]
            } else {
                none_of_topic(end.retained, t) && actions == seq![ActionView::DeleteRetained(t)]
            }
        }),
{
    law_expired_is_past(properties, now_ms);
    laws::lemma_without_topic(b.retained, t);
    let rest = model::without_topic(b.retained, t);
    let message = RetainedView { topic: t, payload, qos, properties };
    let end = b.retain(t, payload, qos, properties, now_ms).0;
    if payload.len() > 0 && !past(properties, now_ms) {
        assert(end.retained[rest.len() as int] == message);
        assert forall|i: int, j: int|
            0 <= i < end.retained.len() && 0 <= j < end.retained.len() && (
            #[trigger] end.retained[i]).topic == t && (#[trigger] end.retained[j]).topic
                == t implies i == j by {
            if i < rest.len() {
                assert(rest[i].topic != t);
            }
            if j < rest.len() {
                assert(rest[j].topic != t);
            }
        }
        assert forall|r: RetainedView| r.topic != t implies #[trigger] end.retained.contains(r)
            == b.retained.contains(r) by {
            laws::law_retained_message_replaces(b, t, payload, qos, properties, now_ms, r);
        }
    }
}

/// The properties of a Will once it is published: its expiry counts from then on.
pub open spec fn counting(p: ApplicationView, now_ms: u64) -> ApplicationView {
    if p.message_expiry_interval is Some && p.expiry_started_at_ms is None {
        ApplicationView { expiry_started_at_ms: Some(now_ms), ..p }
    } else {
        p
    }
}

/// A Will with the retain flag that is published becomes the retained message of its topic, with
/// its payload, its QoS and its properties, and is stored; with an empty payload it removes that
/// of its topic. Without the flag no retained message changes. One that is past its time does
/// nothing.
pub proof fn law_published_will_is_retained(
    b: BrokerView,
    w: WillMessageView,
    now_ms: u64,
    groups: Seq<Seq<u8>>,
)
    ensures
        ({
            let (end, actions) = b.publish_will(w, now_ms, groups);
            let properties = counting(w.properties, now_ms);
            let message = RetainedView {
                topic: w.topic,
                payload: w.payload,
                qos: w.qos,
                properties,
            };
            if past(properties, now_ms) {
                end == b && actions.len() == 0
            } else if !w.retain {
                end.retained == b.retained
            } else {
                &&& others_kept(b.retained, end.retained, w.topic)
                &&& if w.payload.len() > 0 {
                    only_of_topic(end.retained, message) && actions.contains(
                        ActionView::SaveRetained(message),
                    )
                } else {
                    none_of_topic(end.retained, w.topic) && actions.contains(
                        ActionView::DeleteRetained(w.topic),
                    )
                }
            }
        }),
{
    let properties = counting(w.properties, now_ms);
    law_expired_is_past(properties, now_ms);
    if !past(properties, now_ms) {
        let counted = will_counted(b);
        let p = published_will(w, now_ms);
        law_retained_message_is_the_only_one(
            counted,
            w.topic,
            w.payload,
            w.qos,
            properties,
            now_ms,
        );
        let (kept, first) = if w.retain {
            counted.retain(w.topic, w.payload, w.qos, properties, now_ms)
        } else {
            (counted, Seq::empty())
        };
        laws::law_routing_only_adds_messages(kept, model::will_client(), p, now_ms, groups);
        let (end, actions) = b.publish_will(w, now_ms, groups);
        assert(end == kept.route(model::will_client(), p, now_ms, groups).0);
        if w.retain {
            assert(actions[0] == first[0]);
        }
    }
}

/// The broker with one more Will counted.
pub open spec fn will_counted(b: BrokerView) -> BrokerView {
    BrokerView {
        tallies: model::Tallies {
            wills_published: b.tallies.wills_published.wrapping_add(1),
            messages_published_retired: b.tallies.messages_published_retired.wrapping_add(1),
            ..b.tallies
        },
        ..b
    }
}

/// A Will as a message that is published.
pub open spec fn published_will(w: WillMessageView, now_ms: u64) -> PublishedView {
    PublishedView {
        topic: w.topic,
        payload: w.payload,
        qos: w.qos,
        retain: w.retain,
        properties: counting(w.properties, now_ms),
    }
}

/// A Will that is published reaches whom any message with its topic, payload, QoS, retain flag and
/// properties reaches, after it was retained where it asks for that; and it is counted.
pub proof fn law_published_will_reaches_its_subscribers(
    b: BrokerView,
    w: WillMessageView,
    now_ms: u64,
    groups: Seq<Seq<u8>>,
)
    requires
        !past(counting(w.properties, now_ms), now_ms),
    ensures
        ({
            let (end, actions) = b.publish_will(w, now_ms, groups);
            let counted = will_counted(b);
            let kept = BrokerView { retained: end.retained, ..counted };
            let (last, sent) = kept.route(
                "__pipistrelle_will__"@,
                published_will(w, now_ms),
                now_ms,
                groups,
            );
            &&& end == last
            &&& sent.len() <= actions.len() && actions.skip(actions.len() - sent.len()) == sent
            &&& actions.len() <= sent.len() + 1
            &&& end.tallies.wills_published == b.tallies.wills_published.wrapping_add(1)
        }),
{
    let properties = counting(w.properties, now_ms);
    law_expired_is_past(properties, now_ms);
    let counted = will_counted(b);
    let p = published_will(w, now_ms);
    let (kept, first) = if w.retain {
        counted.retain(w.topic, w.payload, w.qos, properties, now_ms)
    } else {
        (counted, Seq::empty())
    };
    laws::law_routing_only_adds_messages(kept, model::will_client(), p, now_ms, groups);
    let (end, actions) = b.publish_will(w, now_ms, groups);
    let (last, sent) = kept.route(model::will_client(), p, now_ms, groups);
    assert(end == last);
    assert(kept == (BrokerView { retained: end.retained, ..counted }));
    assert(actions.skip(actions.len() - sent.len()) =~= sent);
}

/// A Will whose timer has run out is published once: it does not wait any more, and is forgotten
/// where it is stored. One that does not wait, or for another timer, is not published.
pub proof fn law_due_will_is_published_once(
    b: BrokerView,
    c: Seq<char>,
    ticket: u64,
    now_ms: u64,
    groups: Seq<Seq<u8>>,
)
    ensures
        ({
            let (end, actions) = b.will_due(c, ticket, now_ms, groups);
            if b.wills.contains_key(c) && b.wills[c].ticket == ticket {
                let alone = BrokerView { wills: b.wills.remove(c), ..b };
                let (last, sent) = alone.publish_will(b.wills[c].message, now_ms, groups);
                &&& end == last
                &&& actions == sent.push(ActionView::DeleteWill(c))
                &&& !end.wills.contains_key(c)
            } else {
                end == b && actions.len() == 0
            }
        }),
{
    if b.wills.contains_key(c) && b.wills[c].ticket == ticket {
        let alone = BrokerView { wills: b.wills.remove(c), ..b };
        lemma_will_keeps_wills(alone, b.wills[c].message, now_ms, groups);
    }
}

/// Publishing a Will leaves the Wills that wait.
proof fn lemma_will_keeps_wills(
    b: BrokerView,
    w: WillMessageView,
    now_ms: u64,
    groups: Seq<Seq<u8>>,
)
    ensures
        b.publish_will(w, now_ms, groups).0.wills == b.wills,
{
    let properties = counting(w.properties, now_ms);
    let counted = will_counted(b);
    let kept = if w.retain {
        counted.retain(w.topic, w.payload, w.qos, properties, now_ms).0
    } else {
        counted
    };
    laws::law_routing_only_adds_messages(
        kept,
        model::will_client(),
        published_will(w, now_ms),
        now_ms,
        groups,
    );
}

/// The Will of a connection that is lost waits for its delay, but not beyond the end of the
/// session: for as many seconds as the smaller of the two says, for its delay where the session
/// never ends, and not at all where one of them is 0. It is stored with the time when it is due,
/// and a timer of its own is started.
pub proof fn law_lost_connection_arms_its_will(
    b: BrokerView,
    c: Seq<char>,
    username: Option<Seq<char>>,
    w: WillMessageView,
    expiry: u32,
    now_ms: u64,
    delay: u32,
)
    requires
        delay <= w.delay_interval,
        delay <= expiry,
        delay == w.delay_interval || delay == expiry,
        now_ms + delay * 1000 <= u64::MAX,
    ensures
        ({
            let (end, actions) = b.delay_will(c, username, w, expiry, now_ms);
            &&& end == (BrokerView {
                wills: b.wills.insert(
                    c,
                    PendingView { message: w, username, ticket: b.next_ticket },
                ),
                next_ticket: b.next_ticket.wrapping_add(1),
                ..b
            })
            &&& actions == seq![
                ActionView::SaveWill(
                    c,
                    username,
                    w,
                    expiry,
                    Some((now_ms + delay * 1000) as u64),
                ),
                ActionView::ArmWill(c, b.next_ticket, (delay * 1000) as u64),
            ]
        }),
{
    assert(wills::will_delay(w.delay_interval, expiry) == delay);
}

/// The connection of a client ends: its session is kept, not connected, where it outlives the
/// connection, and a timer ends it unless it never ends; otherwise it is forgotten with its
/// routes. Of the session nothing else changes. The Will waits, unless the client took leave with
/// the reason code 0.
pub proof fn law_ended_connection(
    b: BrokerView,
    c: Seq<char>,
    connection: u64,
    reason: Option<u8>,
    now_ms: u64,
)
    requires
        b.sessions.contains_key(c),
        b.sessions[c].connection == connection,
    ensures
        ({
            let (end, actions) = b.connection_ended(c, connection, reason, now_ms);
            let entry = b.sessions[c];
            let s = entry.session;
            &&& end.sessions.remove(c) == b.sessions.remove(c)
            &&& end.retained == b.retained
            &&& s.expiry == 0 ==> !end.sessions.contains_key(c) && end.routes
                == table::without_client(b.routes, c) && actions.contains(
                ActionView::DeleteSession(c),
            )
            &&& s.expiry > 0 ==> end.sessions.contains_key(c) && end.sessions[c] == (EntryView {
                session: SessionView { connected: false, ..s },
                connection,
                will: None,
            }) && end.routes == b.routes && actions.contains(ActionView::MarkOffline(c))
            &&& 0 < s.expiry < u32::MAX ==> actions.contains(
                ActionView::ArmExpiry(c, connection, s.expiry as u64),
            )
            &&& s.expiry == 0 || s.expiry == u32::MAX ==> forall|k: int|
                0 <= k < actions.len() ==> !(#[trigger] actions[k] is ArmExpiry)
            &&& reason == Some(0u8) ==> !end.wills.contains_key(c) && actions.contains(
                ActionView::DeleteWill(c),
            )
            &&& reason != Some(0u8) && entry.will is Some ==> end.wills.contains_key(c)
                && end.wills[c].message == entry.will->0 && end.wills[c].username == s.username
            &&& reason != Some(0u8) && entry.will is None ==> end.wills == b.wills
        }),
{
    let entry = b.sessions[c];
    let s = entry.session;
    let (gone, first) = b.disconnected(c);
    let (broker, second) = gone.after_loss(c, s, entry.will, reason, now_ms);
    let third = lifecycle::expiry_timer(c, connection, s.expiry);
    let (end, actions) = b.connection_ended(c, connection, reason, now_ms);
    assert(actions == first + second + third);
    assert(end.sessions.remove(c) =~= b.sessions.remove(c));
    assert(actions[0] == first[0]);
    if reason == Some(0u8) {
        assert(actions[first.len() as int] == ActionView::DeleteWill(c));
    }
    if 0 < s.expiry < u32::MAX {
        assert(actions[first.len() as int + second.len()] == third[0]);
    }
    assert forall|k: int|
        0 <= k < actions.len() && (s.expiry == 0 || s.expiry == u32::MAX) implies !(
    #[trigger] actions[k] is ArmExpiry) by {
        if k < first.len() {
            assert(actions[k] == first[k]);
        } else {
            assert(actions[k] == second[k - first.len()]);
        }
    }
}

/// When the time of a session is over and its client is not back, the session is forgotten with
/// its routes and its Will, which is published. Otherwise nothing happens.
pub proof fn law_session_ends_with_its_time(
    b: BrokerView,
    c: Seq<char>,
    connection: u64,
    now_ms: u64,
    groups: Seq<Seq<u8>>,
)
    ensures
        ({
            let (end, actions) = b.session_expired(c, connection, now_ms, groups);
            if b.sessions.contains_key(c) && b.sessions[c].connection == connection
                && !b.sessions[c].session.connected {
                &&& !end.sessions.contains_key(c)
                &&& !end.wills.contains_key(c)
                &&& end.routes == table::without_client(b.routes, c)
                &&& actions.len() > 0 && actions.last() == ActionView::DeleteSession(c)
                &&& b.wills.contains_key(c) ==> ({
                    let alone = BrokerView { wills: b.wills.remove(c), ..b };
                    let (last, sent) = alone.publish_will(b.wills[c].message, now_ms, groups);
                    &&& end.retained == last.retained
                    &&& actions == sent + seq![
                        ActionView::DeleteWill(c),
                        ActionView::DeleteSession(c),
                    ]
                    &&& end.sessions == last.sessions.remove(c)
                })
                &&& !b.wills.contains_key(c) ==> actions.len() == 1 && end.retained == b.retained
                    && end.sessions == b.sessions.remove(c)
            } else {
                end == b && actions.len() == 0
            }
        }),
{
    if b.wills.contains_key(c) {
        let alone = BrokerView { wills: b.wills.remove(c), ..b };
        let w = b.wills[c].message;
        let (last, sent) = alone.publish_will(w, now_ms, groups);
        lemma_will_keeps_routes(alone, w, now_ms, groups);
        let actions = b.session_expired(c, connection, now_ms, groups).1;
        if b.sessions.contains_key(c) && b.sessions[c].connection == connection
            && !b.sessions[c].session.connected {
            assert(actions =~= sent + seq![
                ActionView::DeleteWill(c),
                ActionView::DeleteSession(c),
            ]);
        }
    }
}

/// Publishing a Will leaves the routes.
pub(crate) proof fn lemma_will_keeps_routes(
    b: BrokerView,
    w: WillMessageView,
    now_ms: u64,
    groups: Seq<Seq<u8>>,
)
    ensures
        b.publish_will(w, now_ms, groups).0.routes == b.routes,
{
    let properties = counting(w.properties, now_ms);
    let counted = will_counted(b);
    let kept = if w.retain {
        counted.retain(w.topic, w.payload, w.qos, properties, now_ms).0
    } else {
        counted
    };
    laws::law_routing_only_adds_messages(
        kept,
        model::will_client(),
        published_will(w, now_ms),
        now_ms,
        groups,
    );
}

/// A client that takes leave may say for how long its session is kept; but where it was not to be
/// kept at all that is a fault, answered with a DISCONNECT of reason code 0x82.
pub proof fn law_leave_may_change_the_expiry(b: BrokerView, c: Seq<char>, expiry: Option<u32>)
    requires
        b.sessions.contains_key(c),
    ensures
        ({
            let (end, actions, fault) = b.on_disconnect(c, expiry);
            let s = b.sessions[c].session;
            match expiry {
                None => end == b && actions.len() == 0 && fault is None,
                Some(e) => if s.expiry == 0 && e > 0 {
                    &&& end == b
                    &&& fault == Some(PacketFault::RaisedExpiry)
                    &&& actions.len() == 1 && actions[0] == ActionView::Session(
                        c,
                        b.sessions[c].connection,
                        EffectView::Send(seq![0xE0u8, 2, 0x82, 0]),
                    )
                } else {
                    &&& fault is None
                    &&& end.sessions[c].session == (SessionView { expiry: e, ..s })
                    &&& end.sessions[c].connection == b.sessions[c].connection
                    &&& end.sessions[c].will == b.sessions[c].will
                    &&& end.sessions.remove(c) == b.sessions.remove(c)
                    &&& e > 0 ==> actions == seq![
                        ActionView::SaveSession(c, s.username, s.clean_start, e),
                    ]
                    &&& e == 0 ==> actions.len() == 0
                },
            }
        }),
{
    law_disconnect_bytes(0x82);
    let end = b.on_disconnect(c, expiry).0;
    assert(end.sessions.remove(c) =~= b.sessions.remove(c));
}

/// A DISCONNECT of the server is 0xE0, and the length 0 where the reason code is 0; otherwise the
/// length 2, the code, and an empty property block.
pub proof fn law_disconnect_bytes(reason_code: u8)
    ensures
        disconnect_packet(reason_code).bytes() == if reason_code == 0 {
            seq![0xE0u8, 0]
        } else {
            seq![0xE0u8, 2, reason_code, 0]
        },
{
    let p = disconnect_packet(reason_code);
    let none = property::meaning(Seq::empty());
    let empty = PropertiesView { values: Map::empty(), user: Seq::empty() };
    assert(none.values =~= empty.values);
    assert(none.user =~= empty.user);
    assert(none =~= empty);
    layout::law_property_block(
        PropertySet::Disconnect,
        0x1F,
        ValueView::Text(Seq::empty()),
    );
    if reason_code == 0 {
        assert(p.bytes() =~= seq![0xE0u8, 0]);
    } else {
        assert(p.body() =~= seq![reason_code, 0]);
        assert(p.bytes() =~= seq![0xE0u8, 2, reason_code, 0]);
    }
}

} // verus!
