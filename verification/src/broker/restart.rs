//! What survives a restart of the server.

use vstd::prelude::*;
use vstd::utf8;
use crate::broker::model;
use crate::broker::model::{BrokerView, EntryView};
use crate::broker::restore::{
    session_rest, InFlightRow, IncomingRow, OutgoingRow, SessionRow, StoredState, SubscriptionRow,
    WillRow,
};
use crate::broker::state::RetainedMessage;
use crate::message::string_opt;
use crate::router::table;
use crate::router::table::{InfoView, Route};
use crate::router::topic_router::route_for;
use crate::session::model::{MessageView, OutView, SessionView};

verus! {

/// Whether an entry is another one with nothing changed but what a client has subscribed to and
/// what is on its way.
pub open spec fn same_client(a: EntryView, z: EntryView) -> bool {
    z == (EntryView {
        session: SessionView {
            subscriptions: z.session.subscriptions,
            in_flight: z.session.in_flight,
            outgoing_qos2: z.session.outgoing_qos2,
            incoming_qos2: z.session.incoming_qos2,
            next_order: z.session.next_order,
            ..a.session
        },
        ..a
    })
}

/// Whether the clients of a broker are those of another, with nothing changed but what they have
/// subscribed to and what is on its way.
pub open spec fn same_clients(a: BrokerView, z: BrokerView) -> bool {
    &&& a.sessions.dom() == z.sessions.dom()
    &&& forall|c: Seq<char>| #[trigger]
        a.sessions.contains_key(c) ==> same_client(a.sessions[c], z.sessions[c])
}

/// What restoring sessions leaves as it is.
pub(crate) proof fn lemma_restoring_frame(b: BrokerView, rows: Seq<SessionRow>, n: nat, now_s: u64)
    ensures
        ({
            let end = b.restoring(rows, n, now_s).broker;
            end == (BrokerView { sessions: end.sessions, next_ticket: end.next_ticket, ..b })
        }),
    decreases n,
{
    if n > 0 {
        lemma_restoring_frame(b, rows, (n - 1) as nat, now_s);
    }
}

/// What restoring subscriptions leaves as it is.
pub(crate) proof fn lemma_resubscribing_frame(b: BrokerView, rows: Seq<SubscriptionRow>, n: nat)
    ensures
        ({
            let end = b.resubscribing(rows, n);
            &&& end == (BrokerView { sessions: end.sessions, routes: end.routes, ..b })
            &&& same_clients(b, end)
            &&& forall|c: Seq<char>| #[trigger]
                end.sessions.contains_key(c) ==> ({
                    let was = b.sessions[c].session;
                    end.sessions[c].session == (SessionView {
                        subscriptions: end.sessions[c].session.subscriptions,
                        ..was
                    })
                })
        }),
    decreases n,
{
    if n > 0 {
        lemma_resubscribing_frame(b, rows, (n - 1) as nat);
        let mid = b.resubscribing(rows, (n - 1) as nat);
        let end = b.resubscribing(rows, n);
        assert(end.sessions.dom() =~= mid.sessions.dom());
    }
}

/// What restoring QoS 1 messages leaves as it is.
pub(crate) proof fn lemma_requeueing1_frame(b: BrokerView, rows: Seq<InFlightRow>, n: nat, now_ms: u64)
    ensures
        ({
            let end = b.requeueing1(rows, n, now_ms).0;
            &&& end == (BrokerView { sessions: end.sessions, ..b })
            &&& same_clients(b, end)
            &&& forall|c: Seq<char>| #[trigger]
                end.sessions.contains_key(c) ==> ({
                    let was = b.sessions[c].session;
                    end.sessions[c].session == (SessionView {
                        in_flight: end.sessions[c].session.in_flight,
                        next_order: end.sessions[c].session.next_order,
                        ..was
                    })
                })
        }),
    decreases n,
{
    if n > 0 {
        lemma_requeueing1_frame(b, rows, (n - 1) as nat, now_ms);
        let mid = b.requeueing1(rows, (n - 1) as nat, now_ms).0;
        let end = b.requeueing1(rows, n, now_ms).0;
        assert(end.sessions.dom() =~= mid.sessions.dom());
    }
}

/// What restoring retained messages leaves as it is.
pub(crate) proof fn lemma_reretaining_frame(b: BrokerView, rows: Seq<RetainedMessage>, n: nat, now_ms: u64)
    ensures
        ({
            let end = b.reretaining(rows, n, now_ms).0;
            end == (BrokerView { retained: end.retained, ..b })
        }),
    decreases n,
{
    if n > 0 {
        lemma_reretaining_frame(b, rows, (n - 1) as nat, now_ms);
    }
}

/// What restoring QoS 2 messages of clients leaves as it is.
pub(crate) proof fn lemma_reowning_frame(b: BrokerView, rows: Seq<IncomingRow>, n: nat)
    ensures
        ({
            let end = b.reowning(rows, n);
            &&& end == (BrokerView { sessions: end.sessions, ..b })
            &&& same_clients(b, end)
            &&& forall|c: Seq<char>| #[trigger]
                end.sessions.contains_key(c) ==> ({
                    let was = b.sessions[c].session;
                    end.sessions[c].session == (SessionView {
                        incoming_qos2: end.sessions[c].session.incoming_qos2,
                        ..was
                    })
                })
        }),
    decreases n,
{
    if n > 0 {
        lemma_reowning_frame(b, rows, (n - 1) as nat);
        let mid = b.reowning(rows, (n - 1) as nat);
        let end = b.reowning(rows, n);
        assert(end.sessions.dom() =~= mid.sessions.dom());
    }
}

/// What restoring QoS 2 messages for clients leaves as it is.
pub(crate) proof fn lemma_requeueing2_frame(b: BrokerView, rows: Seq<OutgoingRow>, n: nat, now_ms: u64)
    ensures
        ({
            let end = b.requeueing2(rows, n, now_ms).0;
            &&& end == (BrokerView { sessions: end.sessions, ..b })
            &&& same_clients(b, end)
            &&& forall|c: Seq<char>| #[trigger]
                end.sessions.contains_key(c) ==> ({
                    let was = b.sessions[c].session;
                    end.sessions[c].session == (SessionView {
                        outgoing_qos2: end.sessions[c].session.outgoing_qos2,
                        next_order: end.sessions[c].session.next_order,
                        ..was
                    })
                })
        }),
    decreases n,
{
    if n > 0 {
        lemma_requeueing2_frame(b, rows, (n - 1) as nat, now_ms);
        let mid = b.requeueing2(rows, (n - 1) as nat, now_ms).0;
        let end = b.requeueing2(rows, n, now_ms).0;
        assert(end.sessions.dom() =~= mid.sessions.dom());
    }
}

/// What restoring Wills leaves as it is.
proof fn lemma_rewilling_frame(b: BrokerView, rows: Seq<WillRow>, n: nat, now_ms: u64)
    ensures
        ({
            let end = b.rewilling(rows, n, now_ms).0;
            end == (BrokerView { wills: end.wills, next_ticket: end.next_ticket, ..b })
        }),
    decreases n,
{
    if n > 0 {
        lemma_rewilling_frame(b, rows, (n - 1) as nat, now_ms);
    }
}

/// The broker once the sessions are restored.
pub open spec fn with_sessions(b: BrokerView, stored: StoredState, now_ms: u64) -> BrokerView {
    b.restoring(stored.sessions@, stored.sessions@.len(), now_ms / 1000).broker
}

/// What of the whole comes from which part.
pub(crate) proof fn lemma_parts(b: BrokerView, stored: StoredState, now_ms: u64)
    ensures
        ({
            let first = with_sessions(b, stored, now_ms);
            let second = first.resubscribing(stored.subscriptions@, stored.subscriptions@.len());
            let third = second.requeueing1(stored.in_flight@, stored.in_flight@.len(), now_ms).0;
            let fourth = third.reretaining(stored.retained@, stored.retained@.len(), now_ms).0;
            let fifth = fourth.reowning(stored.incoming@, stored.incoming@.len());
            let sixth = fifth.requeueing2(stored.outgoing@, stored.outgoing@.len(), now_ms).0;
            let end = b.restored(stored, now_ms).0;
            &&& same_clients(first, end)
            &&& same_clients(first, second)
            &&& same_clients(first, fourth)
            &&& same_clients(first, fifth)
            &&& end.routes == second.routes
            &&& end.retained == fourth.retained
            &&& end.wills == sixth.rewilling(stored.wills@, stored.wills@.len(), now_ms).0.wills
            &&& forall|c: Seq<char>| #[trigger]
                first.sessions.contains_key(c) ==> {
                    &&& end.sessions[c].session.subscriptions
                        == second.sessions[c].session.subscriptions
                    &&& end.sessions[c].session.in_flight == third.sessions[c].session.in_flight
                    &&& end.sessions[c].session.incoming_qos2
                        == fifth.sessions[c].session.incoming_qos2
                    &&& end.sessions[c].session.outgoing_qos2
                        == sixth.sessions[c].session.outgoing_qos2
                }
        }),
{
    let first = with_sessions(b, stored, now_ms);
    let second = first.resubscribing(stored.subscriptions@, stored.subscriptions@.len());
    let third = second.requeueing1(stored.in_flight@, stored.in_flight@.len(), now_ms).0;
    let fourth = third.reretaining(stored.retained@, stored.retained@.len(), now_ms).0;
    let fifth = fourth.reowning(stored.incoming@, stored.incoming@.len());
    let sixth = fifth.requeueing2(stored.outgoing@, stored.outgoing@.len(), now_ms).0;
    lemma_resubscribing_frame(first, stored.subscriptions@, stored.subscriptions@.len());
    lemma_requeueing1_frame(second, stored.in_flight@, stored.in_flight@.len(), now_ms);
    lemma_reretaining_frame(third, stored.retained@, stored.retained@.len(), now_ms);
    lemma_reowning_frame(fourth, stored.incoming@, stored.incoming@.len());
    lemma_requeueing2_frame(fifth, stored.outgoing@, stored.outgoing@.len(), now_ms);
    lemma_rewilling_frame(sixth, stored.wills@, stored.wills@.len(), now_ms);
    assert forall|c: Seq<char>| #[trigger] first.sessions.contains_key(c) implies {
        &&& second.sessions.contains_key(c)
        &&& third.sessions.contains_key(c)
        &&& fourth.sessions.contains_key(c)
        &&& fifth.sessions.contains_key(c)
        &&& sixth.sessions.contains_key(c)
        &&& same_client(first.sessions[c], second.sessions[c])
        &&& same_client(first.sessions[c], third.sessions[c])
        &&& same_client(first.sessions[c], fifth.sessions[c])
        &&& same_client(first.sessions[c], sixth.sessions[c])
    } by {
        assert(second.sessions.dom().contains(c));
        assert(third.sessions.dom().contains(c));
        assert(fifth.sessions.dom().contains(c));
        assert(sixth.sessions.dom().contains(c));
    }
}

/// The session of a row stays, where no later row is of the same client.
proof fn lemma_session_stays(b: BrokerView, rows: Seq<SessionRow>, n: nat, now_s: u64, i: int)
    requires
        0 <= i < n <= rows.len(),
        !(session_rest(rows[i], now_s) is Over),
        forall|j: int| i < j < n ==> (#[trigger] rows[j]).client_id@ != rows[i].client_id@,
    ensures
        ({
            let end = b.restoring(rows, n, now_s).broker;
            let c = rows[i].client_id@;
            &&& end.sessions.contains_key(c)
            &&& end.sessions[c].session == b.restored_session(rows[i])
        }),
    decreases n,
{
    lemma_restoring_frame(b, rows, (n - 1) as nat, now_s);
    if i < n - 1 {
        lemma_session_stays(b, rows, (n - 1) as nat, now_s, i);
    }
}

/// A stored session whose time is not over comes back, for the same user and with the same expiry,
/// and not connected.
pub proof fn law_stored_session_comes_back(b: BrokerView, stored: StoredState, now_ms: u64, i: int)
    requires
        0 <= i < stored.sessions@.len(),
        !(session_rest(stored.sessions@[i], now_ms / 1000) is Over),
        forall|j: int|
            i < j < stored.sessions@.len() ==> (#[trigger] stored.sessions@[j]).client_id@
                != stored.sessions@[i].client_id@,
    ensures
        ({
            let row = stored.sessions@[i];
            let end = b.restored(stored, now_ms).0;
            let c = row.client_id@;
            &&& end.sessions.contains_key(c)
            &&& end.sessions[c].session.username == string_opt(row.username)
            &&& end.sessions[c].session.expiry == row.session_expiry
            &&& !end.sessions[c].session.connected
        }),
{
    lemma_session_stays(b, stored.sessions@, stored.sessions@.len(), now_ms / 1000, i);
    lemma_parts(b, stored, now_ms);
    let c = stored.sessions@[i].client_id@;
    assert(with_sessions(b, stored, now_ms).sessions.contains_key(c));
    assert(b.restored(stored, now_ms).0.sessions.dom().contains(c));
}

/// The route that a stored subscription makes.
pub open spec fn stored_route(row: SubscriptionRow) -> Route {
    route_for(
        utf8::encode_utf8(row.topic_filter@),
        InfoView {
            client: row.client_id@,
            qos: row.qos,
            subscription_identifier: row.subscription_identifier,
            no_local: row.options & 0x04 != 0,
            retain_as_published: row.options & 0x08 != 0,
        },
    )
}

/// Whether two routes are of the same client under the same key.
pub open spec fn same_place(a: Route, z: Route) -> bool {
    a.group == z.group && a.path == z.path && a.info.client == z.info.client
}

/// A route under another key, or of another client, stays when others are taken away.
proof fn lemma_route_stays(routes: Seq<Route>, gone: Route, r: Route)
    requires
        routes.contains(r),
        !same_place(gone, r),
    ensures
        table::without(routes, gone.group, gone.path, gone.info.client).contains(r),
    decreases routes.len(),
{
    let rest = table::without(routes, gone.group, gone.path, gone.info.client);
    let front = routes.drop_last();
    let fewer = table::without(front, gone.group, gone.path, gone.info.client);
    let k = choose|k: int| 0 <= k < routes.len() && routes[k] == r;
    if k < front.len() {
        assert(front[k] == r);
        lemma_route_stays(front, gone, r);
        let m = choose|m: int| 0 <= m < fewer.len() && fewer[m] == r;
        assert(rest[m] == r);
    } else {
        assert(rest[fewer.len() as int] == r);
    }
}

/// The subscription of a row stays, where no later row takes its place.
proof fn lemma_subscription_stays(b: BrokerView, rows: Seq<SubscriptionRow>, n: nat, i: int)
    requires
        0 <= i < n <= rows.len(),
        forall|j: int|
            i < j < n ==> !same_place(stored_route(#[trigger] rows[j]), stored_route(rows[i])),
    ensures
        b.resubscribing(rows, n).routes.contains(stored_route(rows[i])),
        b.sessions.contains_key(rows[i].client_id@) ==> b.resubscribing(
            rows,
            n,
        ).sessions[rows[i].client_id@].session.subscriptions.contains(rows[i].topic_filter@),
    decreases n,
{
    let mid = b.resubscribing(rows, (n - 1) as nat);
    let end = b.resubscribing(rows, n);
    let route = stored_route(rows[i]);
    let last = stored_route(rows[n - 1]);
    lemma_resubscribing_frame(b, rows, (n - 1) as nat);
    assert(b.sessions.contains_key(rows[i].client_id@) ==> mid.sessions.dom().contains(
        rows[i].client_id@,
    ));
    assert(end.routes == table::subscribed(mid.routes, last));
    let kept = table::without(mid.routes, last.group, last.path, last.info.client);
    if i < n - 1 {
        lemma_subscription_stays(b, rows, (n - 1) as nat, i);
        lemma_route_stays(mid.routes, last, route);
        let k = choose|k: int| 0 <= k < kept.len() && kept[k] == route;
        assert(end.routes[k] == route);
    } else {
        assert(end.routes[kept.len() as int] == route);
    }
}

/// A stored subscription comes back, with its options, unless a later row takes its place.
pub proof fn law_stored_subscription_comes_back(
    b: BrokerView,
    stored: StoredState,
    now_ms: u64,
    i: int,
)
    requires
        0 <= i < stored.subscriptions@.len(),
        forall|j: int|
            i < j < stored.subscriptions@.len() ==> !same_place(
                stored_route(#[trigger] stored.subscriptions@[j]),
                stored_route(stored.subscriptions@[i]),
            ),
    ensures
        ({
            let row = stored.subscriptions@[i];
            let end = b.restored(stored, now_ms).0;
            &&& end.routes.contains(stored_route(row))
            &&& with_sessions(b, stored, now_ms).sessions.contains_key(row.client_id@)
                ==> end.sessions[row.client_id@].session.subscriptions.contains(row.topic_filter@)
        }),
{
    lemma_parts(b, stored, now_ms);
    lemma_subscription_stays(
        with_sessions(b, stored, now_ms),
        stored.subscriptions@,
        stored.subscriptions@.len(),
        i,
    );
}

/// A stored QoS 1 message.
pub open spec fn stored_out(row: InFlightRow) -> OutView {
    OutView {
        message: MessageView {
            topic: row.topic@,
            payload: row.payload@,
            retain: row.retain,
            subscription_identifier: row.subscription_identifier,
            properties: row.properties@,
        },
        qos: row.qos,
        order: row.enqueue_order,
        started: row.delivery_started,
        completing: false,
    }
}

/// The QoS 1 message of a row stays, where no later row takes its place.
proof fn lemma_qos1_stays(b: BrokerView, rows: Seq<InFlightRow>, n: nat, now_ms: u64, i: int)
    requires
        0 <= i < n <= rows.len(),
        b.sessions.contains_key(rows[i].client_id@),
        !(rows[i].properties@.expired(now_ms) && !rows[i].delivery_started),
        forall|j: int|
            i < j < n ==> (#[trigger] rows[j]).client_id@ != rows[i].client_id@
                || rows[j].packet_id != rows[i].packet_id,
    ensures
        ({
            let s = b.requeueing1(rows, n, now_ms).0.sessions[rows[i].client_id@].session;
            &&& s.in_flight.contains_key(rows[i].packet_id)
            &&& s.in_flight[rows[i].packet_id] == stored_out(rows[i])
        }),
    decreases n,
{
    lemma_requeueing1_frame(b, rows, (n - 1) as nat, now_ms);
    let mid = b.requeueing1(rows, (n - 1) as nat, now_ms).0;
    assert(mid.sessions.dom().contains(rows[i].client_id@));
    if i < n - 1 {
        lemma_qos1_stays(b, rows, (n - 1) as nat, now_ms, i);
    }
}

/// A QoS 1 message that was on its way to a client comes back as it was, with its properties,
/// where the client's session does, and unless it expired before it was ever sent.
pub proof fn law_stored_qos1_message_comes_back(
    b: BrokerView,
    stored: StoredState,
    now_ms: u64,
    i: int,
)
    requires
        0 <= i < stored.in_flight@.len(),
        with_sessions(b, stored, now_ms).sessions.contains_key(stored.in_flight@[i].client_id@),
        !(stored.in_flight@[i].properties@.expired(now_ms)
            && !stored.in_flight@[i].delivery_started),
        forall|j: int|
            i < j < stored.in_flight@.len() ==> (#[trigger] stored.in_flight@[j]).client_id@
                != stored.in_flight@[i].client_id@ || stored.in_flight@[j].packet_id
                != stored.in_flight@[i].packet_id,
    ensures
        ({
            let row = stored.in_flight@[i];
            let s = b.restored(stored, now_ms).0.sessions[row.client_id@].session;
            &&& s.in_flight.contains_key(row.packet_id)
            &&& s.in_flight[row.packet_id] == stored_out(row)
        }),
{
    lemma_parts(b, stored, now_ms);
    let first = with_sessions(b, stored, now_ms);
    let second = first.resubscribing(stored.subscriptions@, stored.subscriptions@.len());
    assert(second.sessions.dom().contains(stored.in_flight@[i].client_id@));
    lemma_qos1_stays(second, stored.in_flight@, stored.in_flight@.len(), now_ms, i);
}

/// The QoS 2 message for a client of a row stays, where no later row takes its place.
proof fn lemma_qos2_stays(b: BrokerView, rows: Seq<OutgoingRow>, n: nat, now_ms: u64, i: int)
    requires
        0 <= i < n <= rows.len(),
        b.sessions.contains_key(rows[i].client_id@),
        rows[i].message@.message.properties.expired(now_ms) ==> rows[i].message@.started
            || rows[i].message@.completing,
        forall|j: int|
            i < j < n ==> (#[trigger] rows[j]).client_id@ != rows[i].client_id@
                || rows[j].packet_id != rows[i].packet_id,
    ensures
        ({
            let s = b.requeueing2(rows, n, now_ms).0.sessions[rows[i].client_id@].session;
            &&& s.outgoing_qos2.contains_key(rows[i].packet_id)
            &&& s.outgoing_qos2[rows[i].packet_id] == rows[i].message@
        }),
    decreases n,
{
    lemma_requeueing2_frame(b, rows, (n - 1) as nat, now_ms);
    let mid = b.requeueing2(rows, (n - 1) as nat, now_ms).0;
    assert(mid.sessions.dom().contains(rows[i].client_id@));
    if i < n - 1 {
        lemma_qos2_stays(b, rows, (n - 1) as nat, now_ms, i);
    }
}

/// A QoS 2 message that was on its way to a client comes back as it was, at the same point of its
/// exchange, where the client's session does, and unless it expired before it was ever sent.
pub proof fn law_stored_qos2_message_comes_back(
    b: BrokerView,
    stored: StoredState,
    now_ms: u64,
    i: int,
)
    requires
        0 <= i < stored.outgoing@.len(),
        with_sessions(b, stored, now_ms).sessions.contains_key(stored.outgoing@[i].client_id@),
        stored.outgoing@[i].message@.message.properties.expired(now_ms)
            ==> stored.outgoing@[i].message@.started || stored.outgoing@[i].message@.completing,
        forall|j: int|
            i < j < stored.outgoing@.len() ==> (#[trigger] stored.outgoing@[j]).client_id@
                != stored.outgoing@[i].client_id@ || stored.outgoing@[j].packet_id
                != stored.outgoing@[i].packet_id,
    ensures
        ({
            let row = stored.outgoing@[i];
            let s = b.restored(stored, now_ms).0.sessions[row.client_id@].session;
            &&& s.outgoing_qos2.contains_key(row.packet_id)
            &&& s.outgoing_qos2[row.packet_id] == row.message@
        }),
{
    lemma_parts(b, stored, now_ms);
    let first = with_sessions(b, stored, now_ms);
    let second = first.resubscribing(stored.subscriptions@, stored.subscriptions@.len());
    let third = second.requeueing1(stored.in_flight@, stored.in_flight@.len(), now_ms).0;
    let fourth = third.reretaining(stored.retained@, stored.retained@.len(), now_ms).0;
    let fifth = fourth.reowning(stored.incoming@, stored.incoming@.len());
    assert(fifth.sessions.dom().contains(stored.outgoing@[i].client_id@));
    lemma_qos2_stays(fifth, stored.outgoing@, stored.outgoing@.len(), now_ms, i);
}

/// The QoS 2 message of a client of a row stays, where no later row takes its place.
proof fn lemma_incoming_stays(b: BrokerView, rows: Seq<IncomingRow>, n: nat, i: int)
    requires
        0 <= i < n <= rows.len(),
        b.sessions.contains_key(rows[i].client_id@),
        forall|j: int|
            i < j < n ==> (#[trigger] rows[j]).client_id@ != rows[i].client_id@
                || rows[j].packet_id != rows[i].packet_id,
    ensures
        ({
            let s = b.reowning(rows, n).sessions[rows[i].client_id@].session;
            &&& s.incoming_qos2.contains_key(rows[i].packet_id)
            &&& s.incoming_qos2[rows[i].packet_id] == rows[i].message@
        }),
    decreases n,
{
    lemma_reowning_frame(b, rows, (n - 1) as nat);
    let mid = b.reowning(rows, (n - 1) as nat);
    assert(mid.sessions.dom().contains(rows[i].client_id@));
    if i < n - 1 {
        lemma_incoming_stays(b, rows, (n - 1) as nat, i);
    }
}

/// A QoS 2 message of a client that waits for its release comes back, where the client's session
/// does: it is still known, and enters the broker once.
pub proof fn law_stored_incoming_message_comes_back(
    b: BrokerView,
    stored: StoredState,
    now_ms: u64,
    i: int,
)
    requires
        0 <= i < stored.incoming@.len(),
        with_sessions(b, stored, now_ms).sessions.contains_key(stored.incoming@[i].client_id@),
        forall|j: int|
            i < j < stored.incoming@.len() ==> (#[trigger] stored.incoming@[j]).client_id@
                != stored.incoming@[i].client_id@ || stored.incoming@[j].packet_id
                != stored.incoming@[i].packet_id,
    ensures
        ({
            let row = stored.incoming@[i];
            let s = b.restored(stored, now_ms).0.sessions[row.client_id@].session;
            &&& s.incoming_qos2.contains_key(row.packet_id)
            &&& s.incoming_qos2[row.packet_id] == row.message@
        }),
{
    lemma_parts(b, stored, now_ms);
    let first = with_sessions(b, stored, now_ms);
    let second = first.resubscribing(stored.subscriptions@, stored.subscriptions@.len());
    let third = second.requeueing1(stored.in_flight@, stored.in_flight@.len(), now_ms).0;
    let fourth = third.reretaining(stored.retained@, stored.retained@.len(), now_ms).0;
    assert(fourth.sessions.dom().contains(stored.incoming@[i].client_id@));
    lemma_incoming_stays(fourth, stored.incoming@, stored.incoming@.len(), i);
}

/// The retained message of a row stays, where no later row is of the same topic.
proof fn lemma_retained_stays(
    b: BrokerView,
    rows: Seq<RetainedMessage>,
    n: nat,
    now_ms: u64,
    i: int,
)
    requires
        0 <= i < n <= rows.len(),
        !rows[i]@.properties.expired(now_ms),
        forall|j: int| i < j < n ==> (#[trigger] rows[j])@.topic != rows[i]@.topic,
    ensures
        b.reretaining(rows, n, now_ms).0.retained.contains(rows[i]@),
    decreases n,
{
    let mid = b.reretaining(rows, (n - 1) as nat, now_ms).0;
    let end = b.reretaining(rows, n, now_ms).0;
    let last = rows[n - 1]@;
    let rest = model::without_topic(mid.retained, last.topic);
    if i < n - 1 {
        lemma_retained_stays(b, rows, (n - 1) as nat, now_ms, i);
        if !last.properties.expired(now_ms) {
            crate::broker::laws::lemma_without_topic(mid.retained, last.topic);
            assert(rest.contains(rows[i]@));
            let k = choose|k: int| 0 <= k < rest.len() && rest[k] == rows[i]@;
            assert(end.retained[k] == rows[i]@);
        }
    } else {
        assert(end.retained[rest.len() as int] == last);
    }
}

/// A retained message comes back, with its properties, unless it has expired.
pub proof fn law_stored_retained_message_comes_back(
    b: BrokerView,
    stored: StoredState,
    now_ms: u64,
    i: int,
)
    requires
        0 <= i < stored.retained@.len(),
        !stored.retained@[i]@.properties.expired(now_ms),
        forall|j: int|
            i < j < stored.retained@.len() ==> (#[trigger] stored.retained@[j])@.topic
                != stored.retained@[i]@.topic,
    ensures
        b.restored(stored, now_ms).0.retained.contains(stored.retained@[i]@),
{
    lemma_parts(b, stored, now_ms);
    let first = with_sessions(b, stored, now_ms);
    let second = first.resubscribing(stored.subscriptions@, stored.subscriptions@.len());
    let third = second.requeueing1(stored.in_flight@, stored.in_flight@.len(), now_ms).0;
    lemma_retained_stays(third, stored.retained@, stored.retained@.len(), now_ms, i);
}

/// The Will of a row stays, where no later row is of the same client.
proof fn lemma_will_stays(b: BrokerView, rows: Seq<WillRow>, n: nat, now_ms: u64, i: int)
    requires
        0 <= i < n <= rows.len(),
        forall|j: int| i < j < n ==> (#[trigger] rows[j]).client_id@ != rows[i].client_id@,
    ensures
        ({
            let wills = b.rewilling(rows, n, now_ms).0.wills;
            let c = rows[i].client_id@;
            &&& wills.contains_key(c)
            &&& wills[c].message == rows[i].message@
            &&& wills[c].username == string_opt(rows[i].username)
        }),
    decreases n,
{
    if i < n - 1 {
        lemma_will_stays(b, rows, (n - 1) as nat, now_ms, i);
    }
}

/// A Will that was stored waits again, for the same user.
pub proof fn law_stored_will_comes_back(b: BrokerView, stored: StoredState, now_ms: u64, i: int)
    requires
        0 <= i < stored.wills@.len(),
        forall|j: int|
            i < j < stored.wills@.len() ==> (#[trigger] stored.wills@[j]).client_id@
                != stored.wills@[i].client_id@,
    ensures
        ({
            let row = stored.wills@[i];
            let wills = b.restored(stored, now_ms).0.wills;
            &&& wills.contains_key(row.client_id@)
            &&& wills[row.client_id@].message == row.message@
            &&& wills[row.client_id@].username == string_opt(row.username)
        }),
{
    lemma_parts(b, stored, now_ms);
    let first = with_sessions(b, stored, now_ms);
    let second = first.resubscribing(stored.subscriptions@, stored.subscriptions@.len());
    let third = second.requeueing1(stored.in_flight@, stored.in_flight@.len(), now_ms).0;
    let fourth = third.reretaining(stored.retained@, stored.retained@.len(), now_ms).0;
    let fifth = fourth.reowning(stored.incoming@, stored.incoming@.len());
    let sixth = fifth.requeueing2(stored.outgoing@, stored.outgoing@.len(), now_ms).0;
    lemma_will_stays(sixth, stored.wills@, stored.wills@.len(), now_ms, i);
}

} // verus!
