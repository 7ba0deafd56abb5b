//! What does not survive a restart of the server, and what is asked for then.

use vstd::prelude::*;
use crate::broker::model;
use crate::broker::model::{ActionView, BrokerView, RetainedView};
use crate::broker::restart::{
    lemma_parts, lemma_reowning_frame, lemma_requeueing1_frame, lemma_requeueing2_frame,
    lemma_reretaining_frame, lemma_restoring_frame, lemma_resubscribing_frame, with_sessions,
};
use crate::broker::restore::{
    session_rest, InFlightRow, OutgoingRow, SessionRest, SessionRow, StoredState, WillRow,
};
use crate::broker::state::RetainedMessage;
use crate::message::string_opt;
use crate::session::model::{EffectView, OutView, SessionView};
use crate::session::outbound::past;

verus! {

/// Whether the time of a stored session is up: it was not to outlive its connection, or the client
/// has been away for as long as it may. The time of a client that was connected when the server
/// stopped has not begun.
pub open spec fn ended(row: SessionRow, now_s: u64) -> bool {
    row.session_expiry == 0 || (row.session_expiry < 0xFFFF_FFFF && !row.connected && now_s
        >= row.last_activity + row.session_expiry)
}

/// A stored session is over exactly where its time is up. Otherwise it goes on without end where
/// its expiry is 0xFFFFFFFF, for its whole time where the client was connected, and else until its
/// time has passed since the client was last active.
pub proof fn law_time_left_to_a_session(row: SessionRow, now_s: u64)
    ensures
        session_rest(row, now_s) is Over <==> ended(row, now_s),
        session_rest(row, now_s) is Endless <==> row.session_expiry == 0xFFFF_FFFF,
        session_rest(row, now_s) is Seconds ==> ({
            let left = session_rest(row, now_s)->Seconds_0;
            &&& 0 < left <= row.session_expiry
            &&& row.connected || now_s < row.last_activity ==> left == row.session_expiry
            &&& !row.connected && now_s >= row.last_activity ==> now_s + left == row.last_activity
                + row.session_expiry
        }),
{
}

/// What was in a list, or is put at its end, is in it then.
pub(crate) proof fn lemma_pushed<A>(list: Seq<A>, x: A, y: A)
    requires
        list.contains(y) || x == y,
    ensures
        list.push(x).contains(y),
{
    if list.contains(y) {
        let i = choose|i: int| 0 <= i < list.len() && list[i] == y;
        assert(list.push(x)[i] == y);
    } else {
        assert(list.push(x)[list.len() as int] == y);
    }
}

/// What is in one of two lists is in both together.
pub(crate) proof fn lemma_together<A>(a: Seq<A>, z: Seq<A>, y: A)
    requires
        a.contains(y) || z.contains(y),
    ensures
        (a + z).contains(y),
{
    if a.contains(y) {
        let i = choose|i: int| 0 <= i < a.len() && a[i] == y;
        assert((a + z)[i] == y);
    } else {
        let i = choose|i: int| 0 <= i < z.len() && z[i] == y;
        assert((a + z)[a.len() + i] == y);
    }
}

/// What each part of restoring asks for, the whole asks for.
proof fn lemma_asked(b: BrokerView, stored: StoredState, now_ms: u64, y: ActionView)
    requires
        ({
            let first = b.restoring(stored.sessions@, stored.sessions@.len(), now_ms / 1000);
            let second = first.broker.resubscribing(
                stored.subscriptions@,
                stored.subscriptions@.len(),
            );
            let (third, a3) = second.requeueing1(stored.in_flight@, stored.in_flight@.len(), now_ms);
            let (fourth, a4) = third.reretaining(stored.retained@, stored.retained@.len(), now_ms);
            let fifth = fourth.reowning(stored.incoming@, stored.incoming@.len());
            let (sixth, a6) = fifth.requeueing2(stored.outgoing@, stored.outgoing@.len(), now_ms);
            let (last, a7) = sixth.rewilling(stored.wills@, stored.wills@.len(), now_ms);
            first.offline.contains(y) || first.deleted.contains(y) || a3.contains(y)
                || a4.contains(y) || a6.contains(y) || a7.contains(y) || first.timers.contains(y)
        }),
    ensures
        b.restored(stored, now_ms).1.contains(y),
{
    let first = b.restoring(stored.sessions@, stored.sessions@.len(), now_ms / 1000);
    let second = first.broker.resubscribing(stored.subscriptions@, stored.subscriptions@.len());
    let (third, a3) = second.requeueing1(stored.in_flight@, stored.in_flight@.len(), now_ms);
    let (fourth, a4) = third.reretaining(stored.retained@, stored.retained@.len(), now_ms);
    let fifth = fourth.reowning(stored.incoming@, stored.incoming@.len());
    let (sixth, a6) = fifth.requeueing2(stored.outgoing@, stored.outgoing@.len(), now_ms);
    let (last, a7) = sixth.rewilling(stored.wills@, stored.wills@.len(), now_ms);
    let l2 = first.offline + first.deleted;
    let l3 = l2 + a3;
    let l4 = l3 + a4;
    let l5 = l4 + a6;
    let l6 = l5 + a7;
    if first.offline.contains(y) || first.deleted.contains(y) {
        lemma_together(first.offline, first.deleted, y);
    }
    if l2.contains(y) || a3.contains(y) {
        lemma_together(l2, a3, y);
    }
    if l3.contains(y) || a4.contains(y) {
        lemma_together(l3, a4, y);
    }
    if l4.contains(y) || a6.contains(y) {
        lemma_together(l4, a6, y);
    }
    if l5.contains(y) || a7.contains(y) {
        lemma_together(l5, a7, y);
    }
    lemma_together(l6, first.timers, y);
}

/// What the first rows of sessions make of a client.
proof fn lemma_restoring(b: BrokerView, rows: Seq<SessionRow>, n: nat, now_s: u64, c: Seq<char>)
    requires
        n <= rows.len(),
        !b.sessions.contains_key(c),
    ensures
        ({
            let end = b.restoring(rows, n, now_s).broker;
            &&& end.sessions.contains_key(c) ==> {
                let s = end.sessions[c].session;
                &&& s.in_flight == Map::<u16, OutView>::empty()
                &&& s.outgoing_qos2 == Map::<u16, OutView>::empty()
                &&& exists|j: int|
                    0 <= j < n && (#[trigger] rows[j]).client_id@ == c && !ended(rows[j], now_s)
            }
        }),
    decreases n,
{
    if n > 0 {
        lemma_restoring(b, rows, (n - 1) as nat, now_s, c);
        law_time_left_to_a_session(rows[n - 1], now_s);
        let end = b.restoring(rows, n, now_s).broker;
        if end.sessions.contains_key(c) {
            if rows[n - 1].client_id@ == c && !ended(rows[n - 1], now_s) {
                assert(rows[n - 1].client_id@ == c);
            }
        }
    }
}

/// What the row of a session asks for.
proof fn lemma_row_asks(b: BrokerView, rows: Seq<SessionRow>, n: nat, now_s: u64, i: int)
    requires
        0 <= i < n <= rows.len(),
    ensures
        ({
            let end = b.restoring(rows, n, now_s);
            let c = rows[i].client_id@;
            let rest = session_rest(rows[i], now_s);
            &&& ended(rows[i], now_s) ==> end.deleted.contains(ActionView::DeleteSession(c))
            &&& !ended(rows[i], now_s) && rows[i].connected ==> end.offline.contains(
                ActionView::MarkOffline(c),
            )
            &&& !ended(rows[i], now_s) && (forall|j: int|
                i < j < n ==> (#[trigger] rows[j]).client_id@ != c) ==> {
                &&& end.broker.sessions.contains_key(c)
                &&& rest is Seconds ==> end.timers.contains(
                    ActionView::ArmExpiry(
                        c,
                        end.broker.sessions[c].connection,
                        rest->Seconds_0,
                    ),
                )
            }
        }),
    decreases n,
{
    law_time_left_to_a_session(rows[n - 1], now_s);
    let last = rows[n - 1];
    let before = b.restoring(rows, (n - 1) as nat, now_s);
    let end = b.restoring(rows, n, now_s);
    let c = rows[i].client_id@;
    let rest = session_rest(rows[i], now_s);
    let number = before.broker.next_ticket;
    if i == n - 1 {
        lemma_pushed(
            before.deleted,
            ActionView::DeleteSession(c),
            ActionView::DeleteSession(c),
        );
        lemma_pushed(before.offline, ActionView::MarkOffline(c), ActionView::MarkOffline(c));
        if rest is Seconds {
            let timer = ActionView::ArmExpiry(c, number, rest->Seconds_0);
            lemma_pushed(before.timers, timer, timer);
        }
    } else {
        lemma_row_asks(b, rows, (n - 1) as nat, now_s, i);
        law_time_left_to_a_session(rows[i], now_s);
        if ended(rows[i], now_s) {
            lemma_pushed(
                before.deleted,
                ActionView::DeleteSession(last.client_id@),
                ActionView::DeleteSession(c),
            );
        } else {
            if rows[i].connected {
                lemma_pushed(
                    before.offline,
                    ActionView::MarkOffline(last.client_id@),
                    ActionView::MarkOffline(c),
                );
            }
            if forall|j: int| i < j < n ==> (#[trigger] rows[j]).client_id@ != c {
                assert(last.client_id@ != c);
                assert(end.broker.sessions.contains_key(c));
                assert(end.broker.sessions[c] == before.broker.sessions[c]);
                if rest is Seconds {
                    let timer = ActionView::ArmExpiry(
                        c,
                        before.broker.sessions[c].connection,
                        rest->Seconds_0,
                    );
                    match session_rest(last, now_s) {
                        SessionRest::Seconds(s) => {
                            lemma_pushed(
                                before.timers,
                                ActionView::ArmExpiry(last.client_id@, number, s),
                                timer,
                            );
                        },
                        _ => {},
                    }
                }
            }
        }
    }
}

/// A client none of whose stored sessions has time left has no session after a restart, and each
/// of them is deleted from the store.
pub proof fn law_ended_session_does_not_come_back(
    b: BrokerView,
    stored: StoredState,
    now_ms: u64,
    c: Seq<char>,
)
    requires
        !b.sessions.contains_key(c),
        forall|j: int|
            0 <= j < stored.sessions@.len() && (#[trigger] stored.sessions@[j]).client_id@ == c
                ==> ended(stored.sessions@[j], now_ms / 1000),
    ensures
        !b.restored(stored, now_ms).0.sessions.contains_key(c),
        forall|j: int|
            0 <= j < stored.sessions@.len() && (#[trigger] stored.sessions@[j]).client_id@ == c
                ==> b.restored(stored, now_ms).1.contains(ActionView::DeleteSession(c)),
{
    let rows = stored.sessions@;
    let now_s = now_ms / 1000;
    lemma_restoring(b, rows, rows.len(), now_s, c);
    lemma_parts(b, stored, now_ms);
    let first = with_sessions(b, stored, now_ms);
    let end = b.restored(stored, now_ms).0;
    assert(first.sessions.dom() == end.sessions.dom());
    assert(!first.sessions.dom().contains(c));
    assert forall|j: int|
        0 <= j < rows.len() && (#[trigger] rows[j]).client_id@ == c implies b.restored(
        stored,
        now_ms,
    ).1.contains(ActionView::DeleteSession(c)) by {
        lemma_row_asks(b, rows, rows.len(), now_s, j);
        lemma_asked(b, stored, now_ms, ActionView::DeleteSession(c));
    }
}

/// A session that comes back is marked as not connected in the store where it was connected, and
/// unless it never ends a timer ends the connection that it got when its time is up: after its
/// whole time where the client was connected, and else after what is left of it since the client
/// was last active.
pub proof fn law_session_that_comes_back_is_timed(
    b: BrokerView,
    stored: StoredState,
    now_ms: u64,
    i: int,
)
    requires
        0 <= i < stored.sessions@.len(),
        !ended(stored.sessions@[i], now_ms / 1000),
        forall|j: int|
            i < j < stored.sessions@.len() ==> (#[trigger] stored.sessions@[j]).client_id@
                != stored.sessions@[i].client_id@,
    ensures
        ({
            let row = stored.sessions@[i];
            let c = row.client_id@;
            let (end, actions) = b.restored(stored, now_ms);
            &&& end.sessions.contains_key(c)
            &&& row.connected ==> actions.contains(ActionView::MarkOffline(c))
            &&& row.session_expiry != 0xFFFF_FFFF && (row.connected || now_ms / 1000
                < row.last_activity) ==> actions.contains(
                ActionView::ArmExpiry(c, end.sessions[c].connection, row.session_expiry as u64),
            )
            &&& row.session_expiry != 0xFFFF_FFFF && !row.connected && now_ms / 1000
                >= row.last_activity ==> actions.contains(
                ActionView::ArmExpiry(
                    c,
                    end.sessions[c].connection,
                    (row.last_activity + row.session_expiry - now_ms / 1000) as u64,
                ),
            )
        }),
{
    let rows = stored.sessions@;
    let now_s = now_ms / 1000;
    let row = rows[i];
    let c = row.client_id@;
    lemma_row_asks(b, rows, rows.len(), now_s, i);
    law_time_left_to_a_session(row, now_s);
    lemma_parts(b, stored, now_ms);
    let first = with_sessions(b, stored, now_ms);
    let end = b.restored(stored, now_ms).0;
    assert(first.sessions.dom().contains(c));
    assert(end.sessions.dom().contains(c));
    assert(end.sessions[c].connection == first.sessions[c].connection);
    if row.connected {
        lemma_asked(b, stored, now_ms, ActionView::MarkOffline(c));
    }
    if row.session_expiry != 0xFFFF_FFFF {
        lemma_asked(
            b,
            stored,
            now_ms,
            ActionView::ArmExpiry(
                c,
                first.sessions[c].connection,
                session_rest(row, now_s)->Seconds_0,
            ),
        );
    }
}

/// Whether none of the QoS 1 messages for a client is past its time and was never sent.
pub open spec fn none_past1(s: SessionView, now_ms: u64) -> bool {
    forall|id: u16| #[trigger]
        s.in_flight.contains_key(id) ==> !past(s.in_flight[id].message.properties, now_ms)
            || s.in_flight[id].started
}

/// Whether none of the QoS 2 messages for a client is past its time and was never sent.
pub open spec fn none_past2(s: SessionView, now_ms: u64) -> bool {
    forall|id: u16| #[trigger]
        s.outgoing_qos2.contains_key(id) ==> !past(s.outgoing_qos2[id].message.properties, now_ms)
            || s.outgoing_qos2[id].started || s.outgoing_qos2[id].completing
}

/// No QoS 1 message of a row that is past its time and was never sent is queued.
proof fn lemma_requeueing1(
    b: BrokerView,
    rows: Seq<InFlightRow>,
    n: nat,
    now_ms: u64,
    c: Seq<char>,
)
    requires
        b.sessions.contains_key(c),
        none_past1(b.sessions[c].session, now_ms),
    ensures
        b.requeueing1(rows, n, now_ms).0.sessions.contains_key(c),
        none_past1(b.requeueing1(rows, n, now_ms).0.sessions[c].session, now_ms),
    decreases n,
{
    if n > 0 {
        lemma_requeueing1(b, rows, (n - 1) as nat, now_ms, c);
        let before = b.requeueing1(rows, (n - 1) as nat, now_ms).0;
        let end = b.requeueing1(rows, n, now_ms).0;
        let was = before.sessions[c].session;
        let s = end.sessions[c].session;
        assert forall|id: u16| #[trigger] s.in_flight.contains_key(id) implies !past(
            s.in_flight[id].message.properties,
            now_ms,
        ) || s.in_flight[id].started by {
            if rows[n - 1].client_id@ != c || rows[n - 1].packet_id != id {
                assert(was.in_flight.contains_key(id));
            }
        }
    }
}

/// No QoS 2 message of a row that is past its time and was never sent is queued.
proof fn lemma_requeueing2(
    b: BrokerView,
    rows: Seq<OutgoingRow>,
    n: nat,
    now_ms: u64,
    c: Seq<char>,
)
    requires
        b.sessions.contains_key(c),
        none_past2(b.sessions[c].session, now_ms),
    ensures
        b.requeueing2(rows, n, now_ms).0.sessions.contains_key(c),
        none_past2(b.requeueing2(rows, n, now_ms).0.sessions[c].session, now_ms),
    decreases n,
{
    if n > 0 {
        lemma_requeueing2(b, rows, (n - 1) as nat, now_ms, c);
        let before = b.requeueing2(rows, (n - 1) as nat, now_ms).0;
        let end = b.requeueing2(rows, n, now_ms).0;
        let was = before.sessions[c].session;
        let s = end.sessions[c].session;
        assert forall|id: u16| #[trigger] s.outgoing_qos2.contains_key(id) implies !past(
            s.outgoing_qos2[id].message.properties,
            now_ms,
        ) || s.outgoing_qos2[id].started || s.outgoing_qos2[id].completing by {
            if rows[n - 1].client_id@ != c || rows[n - 1].packet_id != id {
                assert(was.outgoing_qos2.contains_key(id));
            }
        }
    }
}

/// A message that is past its time and was never sent does not come back to the session of its
/// client.
pub proof fn law_expired_messages_do_not_come_back(
    b: BrokerView,
    stored: StoredState,
    now_ms: u64,
    c: Seq<char>,
)
    requires
        !b.sessions.contains_key(c),
        b.restored(stored, now_ms).0.sessions.contains_key(c),
    ensures
        none_past1(b.restored(stored, now_ms).0.sessions[c].session, now_ms),
        none_past2(b.restored(stored, now_ms).0.sessions[c].session, now_ms),
{
    let first = with_sessions(b, stored, now_ms);
    let second = first.resubscribing(stored.subscriptions@, stored.subscriptions@.len());
    let third = second.requeueing1(stored.in_flight@, stored.in_flight@.len(), now_ms).0;
    let fourth = third.reretaining(stored.retained@, stored.retained@.len(), now_ms).0;
    let fifth = fourth.reowning(stored.incoming@, stored.incoming@.len());
    let end = b.restored(stored, now_ms).0;
    lemma_parts(b, stored, now_ms);
    assert(end.sessions.dom().contains(c));
    assert(first.sessions.dom().contains(c));
    lemma_restoring(b, stored.sessions@, stored.sessions@.len(), now_ms / 1000, c);
    lemma_resubscribing_frame(first, stored.subscriptions@, stored.subscriptions@.len());
    assert(second.sessions.dom().contains(c));
    lemma_requeueing1(second, stored.in_flight@, stored.in_flight@.len(), now_ms, c);
    lemma_requeueing1_frame(second, stored.in_flight@, stored.in_flight@.len(), now_ms);
    lemma_reretaining_frame(third, stored.retained@, stored.retained@.len(), now_ms);
    lemma_reowning_frame(fourth, stored.incoming@, stored.incoming@.len());
    assert(fifth.sessions.dom().contains(c));
    assert(fifth.sessions[c].session.outgoing_qos2 == first.sessions[c].session.outgoing_qos2);
    lemma_requeueing2(fifth, stored.outgoing@, stored.outgoing@.len(), now_ms, c);
}

/// A QoS 1 message of a row that is past its time and was never sent is deleted.
proof fn lemma_deleted1(b: BrokerView, rows: Seq<InFlightRow>, n: nat, now_ms: u64, i: int)
    requires
        0 <= i < n <= rows.len(),
        b.sessions.contains_key(rows[i].client_id@),
        past(rows[i].properties@, now_ms),
        !rows[i].delivery_started,
    ensures
        b.requeueing1(rows, n, now_ms).1.contains(
            ActionView::Session(
                rows[i].client_id@,
                b.sessions[rows[i].client_id@].connection,
                EffectView::DeleteInFlight(rows[i].packet_id),
            ),
        ),
    decreases n,
{
    let c = rows[i].client_id@;
    let (before, asked) = b.requeueing1(rows, (n - 1) as nat, now_ms);
    let more = before.requeue1(rows[n - 1], now_ms).1;
    let y = ActionView::Session(
        c,
        b.sessions[c].connection,
        EffectView::DeleteInFlight(rows[i].packet_id),
    );
    if i == n - 1 {
        lemma_requeueing1_frame(b, rows, (n - 1) as nat, now_ms);
        assert(b.sessions.dom().contains(c));
        assert(before.sessions.dom().contains(c));
        assert(more[0] == y);
        assert(more.contains(y));
    } else {
        lemma_deleted1(b, rows, (n - 1) as nat, now_ms, i);
    }
    lemma_together(asked, more, y);
}

/// A QoS 2 message of a row that is past its time and was never sent is deleted.
proof fn lemma_deleted2(b: BrokerView, rows: Seq<OutgoingRow>, n: nat, now_ms: u64, i: int)
    requires
        0 <= i < n <= rows.len(),
        b.sessions.contains_key(rows[i].client_id@),
        past(rows[i].message@.message.properties, now_ms),
        !rows[i].message@.started,
        !rows[i].message@.completing,
    ensures
        b.requeueing2(rows, n, now_ms).1.contains(
            ActionView::Session(
                rows[i].client_id@,
                b.sessions[rows[i].client_id@].connection,
                EffectView::DeleteOutgoing(rows[i].packet_id),
            ),
        ),
    decreases n,
{
    let c = rows[i].client_id@;
    let (before, asked) = b.requeueing2(rows, (n - 1) as nat, now_ms);
    let more = before.requeue2(rows[n - 1], now_ms).1;
    let y = ActionView::Session(
        c,
        b.sessions[c].connection,
        EffectView::DeleteOutgoing(rows[i].packet_id),
    );
    if i == n - 1 {
        lemma_requeueing2_frame(b, rows, (n - 1) as nat, now_ms);
        assert(b.sessions.dom().contains(c));
        assert(before.sessions.dom().contains(c));
        assert(more[0] == y);
        assert(more.contains(y));
    } else {
        lemma_deleted2(b, rows, (n - 1) as nat, now_ms, i);
    }
    lemma_together(asked, more, y);
}

/// A stored message that is past its time and was never sent is deleted from the store, where the
/// session of its client comes back.
pub proof fn law_expired_messages_are_deleted(b: BrokerView, stored: StoredState, now_ms: u64)
    ensures
        ({
            let (end, actions) = b.restored(stored, now_ms);
            &&& forall|i: int|
                0 <= i < stored.in_flight@.len() && end.sessions.contains_key(
                    (#[trigger] stored.in_flight@[i]).client_id@,
                ) && past(stored.in_flight@[i].properties@, now_ms)
                    && !stored.in_flight@[i].delivery_started ==> actions.contains(
                    ActionView::Session(
                        stored.in_flight@[i].client_id@,
                        end.sessions[stored.in_flight@[i].client_id@].connection,
                        EffectView::DeleteInFlight(stored.in_flight@[i].packet_id),
                    ),
                )
            &&& forall|i: int|
                0 <= i < stored.outgoing@.len() && end.sessions.contains_key(
                    (#[trigger] stored.outgoing@[i]).client_id@,
                ) && past(stored.outgoing@[i].message@.message.properties, now_ms)
                    && !stored.outgoing@[i].message@.started
                    && !stored.outgoing@[i].message@.completing ==> actions.contains(
                    ActionView::Session(
                        stored.outgoing@[i].client_id@,
                        end.sessions[stored.outgoing@[i].client_id@].connection,
                        EffectView::DeleteOutgoing(stored.outgoing@[i].packet_id),
                    ),
                )
        }),
{
    let first = with_sessions(b, stored, now_ms);
    let second = first.resubscribing(stored.subscriptions@, stored.subscriptions@.len());
    let third = second.requeueing1(stored.in_flight@, stored.in_flight@.len(), now_ms).0;
    let fourth = third.reretaining(stored.retained@, stored.retained@.len(), now_ms).0;
    let fifth = fourth.reowning(stored.incoming@, stored.incoming@.len());
    let (end, actions) = b.restored(stored, now_ms);
    lemma_parts(b, stored, now_ms);
    assert forall|i: int|
        0 <= i < stored.in_flight@.len() && end.sessions.contains_key(
            (#[trigger] stored.in_flight@[i]).client_id@,
        ) && past(stored.in_flight@[i].properties@, now_ms)
            && !stored.in_flight@[i].delivery_started implies actions.contains(
        ActionView::Session(
            stored.in_flight@[i].client_id@,
            end.sessions[stored.in_flight@[i].client_id@].connection,
            EffectView::DeleteInFlight(stored.in_flight@[i].packet_id),
        ),
    ) by {
        let c = stored.in_flight@[i].client_id@;
        assert(end.sessions.dom().contains(c));
        assert(first.sessions.dom().contains(c));
        assert(second.sessions.dom().contains(c));
        assert(first.sessions.contains_key(c));
        lemma_deleted1(second, stored.in_flight@, stored.in_flight@.len(), now_ms, i);
        lemma_asked(
            b,
            stored,
            now_ms,
            ActionView::Session(
                c,
                second.sessions[c].connection,
                EffectView::DeleteInFlight(stored.in_flight@[i].packet_id),
            ),
        );
    }
    assert forall|i: int|
        0 <= i < stored.outgoing@.len() && end.sessions.contains_key(
            (#[trigger] stored.outgoing@[i]).client_id@,
        ) && past(stored.outgoing@[i].message@.message.properties, now_ms)
            && !stored.outgoing@[i].message@.started
            && !stored.outgoing@[i].message@.completing implies actions.contains(
        ActionView::Session(
            stored.outgoing@[i].client_id@,
            end.sessions[stored.outgoing@[i].client_id@].connection,
            EffectView::DeleteOutgoing(stored.outgoing@[i].packet_id),
        ),
    ) by {
        let c = stored.outgoing@[i].client_id@;
        assert(end.sessions.dom().contains(c));
        assert(first.sessions.dom().contains(c));
        assert(fifth.sessions.dom().contains(c));
        assert(first.sessions.contains_key(c));
        lemma_deleted2(fifth, stored.outgoing@, stored.outgoing@.len(), now_ms, i);
        lemma_asked(
            b,
            stored,
            now_ms,
            ActionView::Session(
                c,
                fifth.sessions[c].connection,
                EffectView::DeleteOutgoing(stored.outgoing@[i].packet_id),
            ),
        );
    }
}

/// What is left when the messages of a topic are taken away was there before.
proof fn lemma_left(retained: Seq<RetainedView>, t: Seq<char>, r: RetainedView)
    requires
        model::without_topic(retained, t).contains(r),
    ensures
        retained.contains(r),
    decreases retained.len(),
{
    if retained.len() > 0 {
        let front = model::without_topic(retained.drop_last(), t);
        let rest = model::without_topic(retained, t);
        let i = choose|i: int| 0 <= i < rest.len() && rest[i] == r;
        if i < front.len() {
            assert(front[i] == r);
            assert(front.contains(r));
            lemma_left(retained.drop_last(), t, r);
            let k = choose|k: int|
                0 <= k < retained.drop_last().len() && retained.drop_last()[k] == r;
            assert(retained[k] == r);
        } else {
            assert(retained[retained.len() - 1] == r);
        }
    }
}

/// What restoring retained messages keeps and what it asks for.
proof fn lemma_reretaining(
    b: BrokerView,
    rows: Seq<RetainedMessage>,
    n: nat,
    now_ms: u64,
    r: RetainedView,
    i: int,
)
    requires
        n <= rows.len(),
    ensures
        b.reretaining(rows, n, now_ms).0.retained.contains(r) ==> b.retained.contains(r) || !past(
            r.properties,
            now_ms,
        ),
        0 <= i < n && past(rows[i]@.properties, now_ms) ==> b.reretaining(
            rows,
            n,
            now_ms,
        ).1.contains(ActionView::DeleteRetained(rows[i]@.topic)),
    decreases n,
{
    if n > 0 {
        lemma_reretaining(b, rows, (n - 1) as nat, now_ms, r, i);
        let (before, asked) = b.reretaining(rows, (n - 1) as nat, now_ms);
        let (end, all) = b.reretaining(rows, n, now_ms);
        let last = rows[n - 1]@;
        if end.retained.contains(r) && !past(last.properties, now_ms) {
            let rest = model::without_topic(before.retained, last.topic);
            let k = choose|k: int| 0 <= k < end.retained.len() && end.retained[k] == r;
            if k < rest.len() {
                assert(rest[k] == r);
                lemma_left(before.retained, last.topic, r);
            }
        }
        if 0 <= i < n && past(rows[i]@.properties, now_ms) {
            let y = ActionView::DeleteRetained(rows[i]@.topic);
            if past(last.properties, now_ms) {
                lemma_pushed(asked, ActionView::DeleteRetained(last.topic), y);
            }
        }
    }
}

/// A retained message that is past its time does not come back, and is deleted from the store.
pub proof fn law_expired_retained_message_does_not_come_back(
    b: BrokerView,
    stored: StoredState,
    now_ms: u64,
)
    ensures
        ({
            let (end, actions) = b.restored(stored, now_ms);
            &&& forall|r: RetainedView| #[trigger]
                end.retained.contains(r) ==> b.retained.contains(r) || !past(r.properties, now_ms)
            &&& forall|i: int|
                0 <= i < stored.retained@.len() && past(
                    (#[trigger] stored.retained@[i])@.properties,
                    now_ms,
                ) ==> actions.contains(ActionView::DeleteRetained(stored.retained@[i]@.topic))
        }),
{
    let first = with_sessions(b, stored, now_ms);
    let second = first.resubscribing(stored.subscriptions@, stored.subscriptions@.len());
    let third = second.requeueing1(stored.in_flight@, stored.in_flight@.len(), now_ms).0;
    let rows = stored.retained@;
    let (end, actions) = b.restored(stored, now_ms);
    lemma_parts(b, stored, now_ms);
    lemma_restoring_frame(b, stored.sessions@, stored.sessions@.len(), now_ms / 1000);
    lemma_resubscribing_frame(first, stored.subscriptions@, stored.subscriptions@.len());
    lemma_requeueing1_frame(second, stored.in_flight@, stored.in_flight@.len(), now_ms);
    assert(third.retained == b.retained);
    assert forall|r: RetainedView| #[trigger] end.retained.contains(r) implies b.retained.contains(
        r,
    ) || !past(r.properties, now_ms) by {
        lemma_reretaining(third, rows, rows.len(), now_ms, r, 0);
    }
    assert forall|i: int|
        0 <= i < rows.len() && past((#[trigger] rows[i])@.properties, now_ms) implies actions.contains(
        ActionView::DeleteRetained(rows[i]@.topic),
    ) by {
        lemma_reretaining(third, rows, rows.len(), now_ms, rows[i]@, i);
        lemma_asked(b, stored, now_ms, ActionView::DeleteRetained(rows[i]@.topic));
    }
}

/// How many milliseconds a stored Will waits: until it is due, or, where its connection was not
/// lost before the server stopped, for its delay, but not longer than the session lasts.
pub open spec fn waits_for(row: WillRow, now_ms: u64, wait: u64) -> bool {
    match row.due_at_ms {
        Some(due) => wait == if due > now_ms {
            due - now_ms
        } else {
            0
        },
        None => {
            let delay = row.message@.delay_interval;
            let most = row.session_expiry;
            let held = if delay <= most {
                delay
            } else {
                most
            };
            wait == if now_ms + held * 1000 <= 0xFFFF_FFFF_FFFF_FFFF {
                held * 1000
            } else {
                0xFFFF_FFFF_FFFF_FFFF - now_ms
            }
        },
    }
}

/// What the row of a Will asks for.
proof fn lemma_will_asks(
    b: BrokerView,
    rows: Seq<WillRow>,
    n: nat,
    now_ms: u64,
    i: int,
    wait: u64,
)
    requires
        0 <= i < n <= rows.len(),
        waits_for(rows[i], now_ms, wait),
        forall|j: int| i < j < n ==> (#[trigger] rows[j]).client_id@ != rows[i].client_id@,
    ensures
        ({
            let (end, actions) = b.rewilling(rows, n, now_ms);
            let c = rows[i].client_id@;
            &&& end.wills.contains_key(c)
            &&& actions.contains(ActionView::ArmWill(c, end.wills[c].ticket, wait))
            &&& rows[i].due_at_ms is None ==> actions.contains(
                ActionView::SaveWill(
                    c,
                    string_opt(rows[i].username),
                    rows[i].message@,
                    rows[i].session_expiry,
                    Some((now_ms + wait) as u64),
                ),
            )
        }),
    decreases n,
{
    let c = rows[i].client_id@;
    let (before, asked) = b.rewilling(rows, (n - 1) as nat, now_ms);
    let (next, more) = before.rewill(rows[n - 1], now_ms);
    let save = ActionView::SaveWill(
        c,
        string_opt(rows[i].username),
        rows[i].message@,
        rows[i].session_expiry,
        Some((now_ms + wait) as u64),
    );
    if i == n - 1 {
        let arm = ActionView::ArmWill(c, before.next_ticket, wait);
        assert(more.last() == arm);
        assert(more.contains(arm));
        lemma_together(asked, more, arm);
        if rows[i].due_at_ms is None {
            assert(more[0] == save);
            assert(more.contains(save));
            lemma_together(asked, more, save);
        }
    } else {
        lemma_will_asks(b, rows, (n - 1) as nat, now_ms, i, wait);
        assert(rows[n - 1].client_id@ != c);
        lemma_together(asked, more, ActionView::ArmWill(c, before.wills[c].ticket, wait));
        if rows[i].due_at_ms is None {
            lemma_together(asked, more, save);
        }
    }
}

/// A Will that waits again is timed: for what is left until it was due, or, where its connection
/// was not lost before the server stopped, for its delay but not longer than the session lasts; in
/// that case when it is due is stored.
pub proof fn law_stored_will_is_timed(
    b: BrokerView,
    stored: StoredState,
    now_ms: u64,
    i: int,
    wait: u64,
)
    requires
        0 <= i < stored.wills@.len(),
        waits_for(stored.wills@[i], now_ms, wait),
        forall|j: int|
            i < j < stored.wills@.len() ==> (#[trigger] stored.wills@[j]).client_id@
                != stored.wills@[i].client_id@,
    ensures
        ({
            let row = stored.wills@[i];
            let c = row.client_id@;
            let (end, actions) = b.restored(stored, now_ms);
            &&& end.wills.contains_key(c)
            &&& actions.contains(ActionView::ArmWill(c, end.wills[c].ticket, wait))
            &&& row.due_at_ms is None ==> actions.contains(
                ActionView::SaveWill(
                    c,
                    string_opt(row.username),
                    row.message@,
                    row.session_expiry,
                    Some((now_ms + wait) as u64),
                ),
            )
        }),
{
    let first = with_sessions(b, stored, now_ms);
    let second = first.resubscribing(stored.subscriptions@, stored.subscriptions@.len());
    let third = second.requeueing1(stored.in_flight@, stored.in_flight@.len(), now_ms).0;
    let fourth = third.reretaining(stored.retained@, stored.retained@.len(), now_ms).0;
    let fifth = fourth.reowning(stored.incoming@, stored.incoming@.len());
    let sixth = fifth.requeueing2(stored.outgoing@, stored.outgoing@.len(), now_ms).0;
    let row = stored.wills@[i];
    let c = row.client_id@;
    lemma_parts(b, stored, now_ms);
    lemma_will_asks(sixth, stored.wills@, stored.wills@.len(), now_ms, i, wait);
    let end = b.restored(stored, now_ms).0;
    lemma_asked(b, stored, now_ms, ActionView::ArmWill(c, end.wills[c].ticket, wait));
    if row.due_at_ms is None {
        lemma_asked(
            b,
            stored,
            now_ms,
            ActionView::SaveWill(
                c,
                string_opt(row.username),
                row.message@,
                row.session_expiry,
                Some((now_ms + wait) as u64),
            ),
        );
    }
}

} // verus!
