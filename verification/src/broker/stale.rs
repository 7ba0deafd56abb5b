//! What is forgotten on the way, and what is said at the end.

use vstd::prelude::*;
use vstd::utf8;
use crate::broker::kept;
use crate::broker::lapsed::{lemma_pushed, lemma_together};
use crate::broker::model;
use crate::broker::model::{ActionView, BrokerView, EntryView, RetainedView, Tallies};
use crate::session::model::{EffectView, SessionView};
use crate::session::outbound::past;
use crate::topic;

verus! {

/// Whether a retained message is one that a filter asks for, and is past its time.
pub open spec fn stale(r: RetainedView, filter: Seq<char>, now_ms: u64) -> bool {
    topic::levels_match(
        topic::levels(utf8::encode_utf8(r.topic)),
        topic::levels(topic::plain_filter(utf8::encode_utf8(filter))),
    ) && past(r.properties, now_ms)
}

/// What is left of retained messages without the stale ones, and what is deleted.
proof fn lemma_not_stale(retained: Seq<RetainedView>, filter: Seq<char>, now_ms: u64, r: RetainedView)
    ensures
        model::not_stale(retained, filter, now_ms).contains(r) <==> retained.contains(r) && !stale(
            r,
            filter,
            now_ms,
        ),
        retained.contains(r) && stale(r, filter, now_ms) ==> model::stale_deleted(
            retained,
            filter,
            now_ms,
        ).contains(ActionView::DeleteRetained(r.topic)),
    decreases retained.len(),
{
    let list = model::not_stale(retained, filter, now_ms);
    if retained.len() > 0 {
        let front = retained.drop_last();
        let fewer = model::not_stale(front, filter, now_ms);
        let last = retained.last();
        lemma_not_stale(front, filter, now_ms, r);
        assert(front.push(last) =~= retained);
        if front.contains(r) || last == r {
            lemma_pushed(front, last, r);
        }
        if retained.contains(r) {
            let k = choose|k: int| 0 <= k < retained.len() && retained[k] == r;
            if k < front.len() {
                assert(front[k] == r);
            }
        }
        if !stale(last, filter, now_ms) {
            assert(list == fewer.push(last));
            if fewer.contains(r) || last == r {
                lemma_pushed(fewer, last, r);
            }
            if list.contains(r) {
                let k = choose|k: int| 0 <= k < list.len() && list[k] == r;
                if k < fewer.len() {
                    assert(fewer[k] == r);
                }
            }
        } else if retained.contains(r) && stale(r, filter, now_ms) {
            lemma_pushed(
                model::stale_deleted(front, filter, now_ms),
                ActionView::DeleteRetained(last.topic),
                ActionView::DeleteRetained(r.topic),
            );
        }
    }
}

/// Replaying retained messages leaves them as they are.
proof fn lemma_replay_keeps_retained(
    b: BrokerView,
    c: Seq<char>,
    list: Seq<RetainedView>,
    n: nat,
    granted: u8,
    subscription_identifier: Option<u32>,
    now_ms: u64,
)
    ensures
        b.replay_to(c, list, n, granted, subscription_identifier, now_ms).0.retained == b.retained,
    decreases n,
{
    if n > 0 {
        lemma_replay_keeps_retained(
            b,
            c,
            list,
            (n - 1) as nat,
            granted,
            subscription_identifier,
            now_ms,
        );
    }
}

/// When a client has subscribed, the retained messages that its filter asks for and that are past
/// their time are forgotten and deleted from the store; all others stay.
pub proof fn law_stale_retained_messages_are_forgotten(
    b: BrokerView,
    c: Seq<char>,
    filter: Seq<char>,
    granted: u8,
    subscription_identifier: Option<u32>,
    now_ms: u64,
    r: RetainedView,
)
    ensures
        ({
            let (end, actions) = b.replay(c, filter, granted, subscription_identifier, now_ms);
            &&& end.retained.contains(r) <==> b.retained.contains(r) && !stale(r, filter, now_ms)
            &&& b.retained.contains(r) && stale(r, filter, now_ms) ==> actions.contains(
                ActionView::DeleteRetained(r.topic),
            )
        }),
{
    let list = model::live(b.retained, filter, now_ms);
    let cleaned = BrokerView { retained: model::not_stale(b.retained, filter, now_ms), ..b };
    lemma_not_stale(b.retained, filter, now_ms, r);
    lemma_replay_keeps_retained(
        cleaned,
        c,
        list,
        list.len(),
        granted,
        subscription_identifier,
        now_ms,
    );
    if b.retained.contains(r) && stale(r, filter, now_ms) {
        lemma_together(
            model::stale_deleted(b.retained, filter, now_ms),
            cleaned.replay_to(
                c,
                list,
                list.len(),
                granted,
                subscription_identifier,
                now_ms,
            ).1,
            ActionView::DeleteRetained(r.topic),
        );
    }
}

/// When the server goes down each client is sent the two bytes 0xE0 0x00, on its connection.
pub proof fn law_farewell_bytes(b: BrokerView, clients: Seq<Seq<char>>)
    ensures
        b.farewell(clients).len() == clients.len(),
        forall|i: int|
            0 <= i < clients.len() ==> #[trigger] b.farewell(clients)[i] == ActionView::Session(
                clients[i],
                b.sessions[clients[i]].connection,
                EffectView::Send(seq![0xE0u8, 0x00]),
            ),
{
    kept::law_disconnect_bytes(0);
}

/// Writing an answer that ends an exchange frees its place for the current connection of the
/// client, and nothing else changes; for another connection nothing changes at all.
pub proof fn law_written_answer_frees_its_place(
    b: BrokerView,
    c: Seq<char>,
    connection: u64,
    id: u16,
)
    ensures
        b.sessions.contains_key(c) && b.sessions[c].connection == connection ==> ({
            let end = b.written(c, connection, id);
            let s = b.sessions[c].session;
            &&& end.sessions.dom() == b.sessions.dom()
            &&& end.sessions[c] == (EntryView {
                session: SessionView { inbound_pending: s.inbound_pending.remove(id), ..s },
                ..b.sessions[c]
            })
            &&& forall|d: Seq<char>|
                d != c && #[trigger] b.sessions.contains_key(d) ==> end.sessions[d]
                    == b.sessions[d]
            &&& end == (BrokerView { sessions: end.sessions, ..b })
        }),
        !(b.sessions.contains_key(c) && b.sessions[c].connection == connection) ==> b.written(
            c,
            connection,
            id,
        ) == b,
{
    assert(b.written(c, connection, id).sessions.dom() =~= b.sessions.dom());
}

/// A wait that took too long counts for the current connection of a client until it is to be
/// disconnected, which it then is, and for any other connection while it is one that was taken over
/// and is not closed yet, which it then no longer counts as.
pub proof fn law_late_wait(b: BrokerView, c: Seq<char>, connection: u64)
    ensures
        b.sessions.contains_key(c) && b.sessions[c].connection == connection ==> {
            &&& b.late_wait_counts(c, connection)
                <==> !b.sessions[c].session.disconnect_requested
            &&& b.late_wait_counted(c, connection).sessions[c].session.disconnect_requested
            &&& b.late_wait_counted(c, connection).displaced == b.displaced
        },
        !(b.sessions.contains_key(c) && b.sessions[c].connection == connection) ==> {
            &&& b.late_wait_counts(c, connection) <==> b.displaced.contains(connection)
            &&& b.late_wait_counted(c, connection).displaced == b.displaced.remove(connection)
            &&& b.late_wait_counted(c, connection).sessions == b.sessions
        },
{
}

/// A subscription counts as one more, and one that a client over its quota asks for as one more
/// rejection; each time the other number stays, and so do all others.
pub proof fn law_subscriptions_are_counted(
    b: BrokerView,
    c: Seq<char>,
    filter: Seq<char>,
    qos: u8,
    subscription_identifier: Option<u32>,
    options: u8,
)
    requires
        b.sessions.contains_key(c),
    ensures
        ({
            let end = b.subscribe(c, filter, qos, subscription_identifier, options).0.tallies;
            let filters = b.sessions[c].session.subscriptions;
            let refused = !filters.contains(filter) && filters.len()
                >= b.limits.max_subscriptions_per_client;
            &&& refused ==> end == (Tallies {
                subscription_quota_rejections:
                    b.tallies.subscription_quota_rejections.wrapping_add(1),
                ..b.tallies
            })
            &&& !refused ==> end == (Tallies {
                subscriptions: b.tallies.subscriptions.wrapping_add(1),
                ..b.tallies
            })
        }),
{
}

/// A message that a client publishes counts as one more of its session, and the messages of a
/// session that is forgotten stay counted.
pub proof fn law_messages_stay_counted(b: BrokerView, c: Seq<char>)
    requires
        b.sessions.contains_key(c),
    ensures
        ({
            let s = b.sessions[c].session;
            &&& s.published_one() == (SessionView {
                published: s.published.wrapping_add(1),
                ..s
            })
            &&& b.discard(c).0.tallies == (Tallies {
                messages_published_retired: b.tallies.messages_published_retired.wrapping_add(
                    s.published,
                ),
                ..b.tallies
            })
            &&& s.expiry == 0 ==> b.disconnected(c).0.tallies == b.discard(c).0.tallies
            &&& s.expiry > 0 ==> b.disconnected(c).0.tallies == b.tallies
        }),
{
}

} // verus!
