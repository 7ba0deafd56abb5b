//! Restoring what was stored before the server last stopped.

use vstd::prelude::*;
use vstd::utf8;
use crate::broker::model;
use crate::broker::model::{ActionView, BrokerView, EntryView, PendingView};
use crate::broker::packets;
use crate::broker::publish::lemma_entry_inserted;
use crate::broker::state;
use crate::broker::state::{
    append_actions, BrokerAction, BrokerState, PendingWill, Registered, RetainedMessage,
    WillMessage,
};
use crate::broker::wills::{due_after, lemma_pending_changed, nothing, will_delay};
use crate::config;
use crate::message::{clone_text, string_opt, ApplicationProperties};
use crate::router::table;
use crate::router::table::InfoView;
use crate::router::topic_router::route_for;
use crate::session::client::{
    ClientSession, IncomingQos2Message, OutgoingQos2Message, OutgoingQos2Phase, SessionEffect,
};
use crate::session::inbound;
use crate::session::model::{EffectView, MessageView, OutView, SessionView};

verus! {

/// A stored session.
pub struct SessionRow {
    /// The client identifier.
    pub client_id: String,
    /// The user's name.
    pub username: Option<String>,
    /// Whether an earlier session was discarded.
    pub clean_start: bool,
    /// How long the session outlives its connection, in seconds.
    pub session_expiry: u32,
    /// When the client was last active, in seconds since the Unix epoch.
    pub last_activity: u64,
    /// Whether the client was connected when the server stopped.
    pub connected: bool,
}

/// A stored subscription.
pub struct SubscriptionRow {
    /// The client identifier.
    pub client_id: String,
    /// The topic filter.
    pub topic_filter: String,
    /// The quality of service.
    pub qos: u8,
    /// The subscription identifier.
    pub subscription_identifier: Option<u32>,
    /// The subscription options.
    pub options: u8,
}

/// A stored QoS 1 message.
pub struct InFlightRow {
    /// The client identifier.
    pub client_id: String,
    /// The packet identifier.
    pub packet_id: u16,
    /// The topic.
    pub topic: String,
    /// The payload.
    pub payload: Vec<u8>,
    /// The quality of service.
    pub qos: u8,
    /// The retain flag.
    pub retain: bool,
    /// The identifier of the subscription that matched.
    pub subscription_identifier: Option<u32>,
    /// The properties.
    pub properties: ApplicationProperties,
    /// Its place in the order of queueing.
    pub enqueue_order: u64,
    /// Whether it has been sent.
    pub delivery_started: bool,
}

/// A stored QoS 2 message of a client.
pub struct IncomingRow {
    /// The client identifier.
    pub client_id: String,
    /// The packet identifier.
    pub packet_id: u16,
    /// The message.
    pub message: IncomingQos2Message,
}

/// A stored QoS 2 message for a client.
pub struct OutgoingRow {
    /// The client identifier.
    pub client_id: String,
    /// The packet identifier.
    pub packet_id: u16,
    /// The message.
    pub message: OutgoingQos2Message,
}

/// A stored Will.
pub struct WillRow {
    /// The client identifier.
    pub client_id: String,
    /// The user's name.
    pub username: Option<String>,
    /// The Will.
    pub message: WillMessage,
    /// How long the session outlives its connection, in seconds.
    pub session_expiry: u32,
    /// When it is due, where its connection was lost before the server stopped.
    pub due_at_ms: Option<u64>,
}

/// Everything that was stored.
pub struct StoredState {
    /// The sessions.
    pub sessions: Vec<SessionRow>,
    /// The subscriptions.
    pub subscriptions: Vec<SubscriptionRow>,
    /// The QoS 1 messages.
    pub in_flight: Vec<InFlightRow>,
    /// The retained messages.
    pub retained: Vec<RetainedMessage>,
    /// The QoS 2 messages of clients.
    pub incoming: Vec<IncomingRow>,
    /// The QoS 2 messages for clients.
    pub outgoing: Vec<OutgoingRow>,
    /// The Wills.
    pub wills: Vec<WillRow>,
}

/// What is left of a stored session.
pub enum SessionRest {
    /// It is over.
    Over,
    /// It does not end by itself.
    Endless,
    /// It ends after so many seconds.
    Seconds(u64),
}

/// What is left of a stored session: where the client was connected, its time starts to count
/// only now.
pub open spec fn session_rest(row: SessionRow, now_s: u64) -> SessionRest {
    let elapsed: int = if now_s >= row.last_activity {
        now_s - row.last_activity
    } else {
        0
    };
    if row.session_expiry == 0 {
        SessionRest::Over
    } else if row.session_expiry == u32::MAX {
        SessionRest::Endless
    } else if row.connected {
        SessionRest::Seconds(row.session_expiry as u64)
    } else if elapsed >= row.session_expiry {
        SessionRest::Over
    } else {
        SessionRest::Seconds((row.session_expiry - elapsed) as u64)
    }
}

/// How far stored sessions are restored.
#[verifier::ext_equal]
pub struct RestoringView {
    /// The broker.
    pub broker: BrokerView,
    /// The clients that were connected and are not any more.
    pub offline: Seq<ActionView>,
    /// The sessions that are over.
    pub deleted: Seq<ActionView>,
    /// The timers of the sessions.
    pub timers: Seq<ActionView>,
}

impl BrokerView {
    /// A stored session as it comes back: not connected, without the limits of a connection.
    pub open spec fn restored_session(self, row: SessionRow) -> SessionView {
        let name = inbound::or_empty(string_opt(row.username));
        SessionView {
            client: row.client_id@,
            username: string_opt(row.username),
            clean_start: row.clean_start,
            allow_all_read: config::authorized_for_all(self.auth, name, "read"@),
            allow_all_write: config::authorized_for_all(self.auth, name, "write"@),
            keep_alive: 0,
            receive_maximum: u16::MAX,
            maximum_packet_size: 268_435_455,
            topic_alias_maximum: 0,
            expiry: row.session_expiry,
            connected: false,
            aliases: Map::empty(),
            subscriptions: Set::empty(),
            published: 0,
            next_packet_id: 1,
            next_order: 1,
            in_flight: Map::empty(),
            outgoing_qos2: Map::empty(),
            incoming_qos2: Map::empty(),
            inbound_pending: Set::empty(),
            outbound_active: Set::empty(),
            disconnect_requested: false,
        }
    }

    /// The first `n` of stored sessions come back, but for those that are over.
    pub open spec fn restoring(self, rows: Seq<SessionRow>, n: nat, now_s: u64) -> RestoringView
        decreases n,
    {
        if n == 0 {
            RestoringView {
                broker: self,
                offline: Seq::empty(),
                deleted: Seq::empty(),
                timers: Seq::empty(),
            }
        } else {
            let so_far = self.restoring(rows, (n - 1) as nat, now_s);
            let row = rows[n - 1];
            let c = row.client_id@;
            let rest = session_rest(row, now_s);
            if rest is Over {
                RestoringView {
                    deleted: so_far.deleted.push(ActionView::DeleteSession(c)),
                    ..so_far
                }
            } else {
                let number = so_far.broker.next_ticket;
                RestoringView {
                    broker: BrokerView {
                        sessions: so_far.broker.sessions.insert(
                            c,
                            EntryView {
                                session: so_far.broker.restored_session(row),
                                connection: number,
                                will: None,
                            },
                        ),
                        next_ticket: number.wrapping_add(1),
                        ..so_far.broker
                    },
                    offline: if row.connected {
                        so_far.offline.push(ActionView::MarkOffline(c))
                    } else {
                        so_far.offline
                    },
                    timers: match rest {
                        SessionRest::Seconds(s) => so_far.timers.push(
                            ActionView::ArmExpiry(c, number, s),
                        ),
                        _ => so_far.timers,
                    },
                    ..so_far
                }
            }
        }
    }

    /// A stored subscription comes back.
    pub open spec fn resubscribe(self, row: SubscriptionRow) -> BrokerView {
        let c = row.client_id@;
        let filter = row.topic_filter@;
        let noted = if self.sessions.contains_key(c) {
            let s = self.sessions[c].session;
            self.with_session(c, SessionView { subscriptions: s.subscriptions.insert(filter), ..s })
        } else {
            self
        };
        BrokerView {
            routes: table::subscribed(
                self.routes,
                route_for(
                    utf8::encode_utf8(filter),
                    InfoView {
                        client: c,
                        qos: row.qos,
                        subscription_identifier: row.subscription_identifier,
                        no_local: row.options & 0x04 != 0,
                        retain_as_published: row.options & 0x08 != 0,
                    },
                ),
            ),
            ..noted
        }
    }

    /// The first `n` of stored subscriptions come back.
    pub open spec fn resubscribing(self, rows: Seq<SubscriptionRow>, n: nat) -> BrokerView
        decreases n,
    {
        if n == 0 {
            self
        } else {
            self.resubscribing(rows, (n - 1) as nat).resubscribe(rows[n - 1])
        }
    }

    /// A stored QoS 1 message comes back, unless it expired before it was ever sent.
    pub open spec fn requeue1(self, row: InFlightRow, now_ms: u64) -> (BrokerView, Seq<ActionView>) {
        let c = row.client_id@;
        if !self.sessions.contains_key(c) {
            (self, Seq::empty())
        } else if row.properties@.expired(now_ms) && !row.delivery_started {
            (
                self,
                packets::tagged_one(
                    c,
                    self.sessions[c].connection,
                    EffectView::DeleteInFlight(row.packet_id),
                ),
            )
        } else {
            let s = self.sessions[c].session;
            let out = OutView {
                message: MessageView {
                    topic: row.topic@,
                    payload: row.payload@,
                    retain: row.retain,
                    subscription_identifier: row.subscription_identifier,
                    properties: row.properties@,
                },
                qos: row.qos,
                order: row.enqueue_order,
                started: row.delivery_started,
                completing: false,
            };
            (
                self.with_session(
                    c,
                    SessionView {
                        in_flight: s.in_flight.insert(row.packet_id, out),
                        next_order: later(s.next_order, row.enqueue_order),
                        ..s
                    },
                ),
                Seq::empty(),
            )
        }
    }

    /// The first `n` of stored QoS 1 messages come back.
    pub open spec fn requeueing1(self, rows: Seq<InFlightRow>, n: nat, now_ms: u64) -> (
        BrokerView,
        Seq<ActionView>,
    )
        decreases n,
    {
        if n == 0 {
            (self, Seq::empty())
        } else {
            let (broker, actions) = self.requeueing1(rows, (n - 1) as nat, now_ms);
            let (next, more) = broker.requeue1(rows[n - 1], now_ms);
            (next, actions + more)
        }
    }

    /// The first `n` of stored retained messages come back, but for those that have expired.
    pub open spec fn reretaining(self, rows: Seq<RetainedMessage>, n: nat, now_ms: u64) -> (
        BrokerView,
        Seq<ActionView>,
    )
        decreases n,
    {
        if n == 0 {
            (self, Seq::empty())
        } else {
            let (broker, actions) = self.reretaining(rows, (n - 1) as nat, now_ms);
            let row = rows[n - 1]@;
            if row.properties.expired(now_ms) {
                (broker, actions.push(ActionView::DeleteRetained(row.topic)))
            } else {
                (
                    BrokerView {
                        retained: model::without_topic(broker.retained, row.topic).push(row),
                        ..broker
                    },
                    actions,
                )
            }
        }
    }

    /// The first `n` of stored QoS 2 messages of clients come back.
    pub open spec fn reowning(self, rows: Seq<IncomingRow>, n: nat) -> BrokerView
        decreases n,
    {
        if n == 0 {
            self
        } else {
            let broker = self.reowning(rows, (n - 1) as nat);
            let row = rows[n - 1];
            let c = row.client_id@;
            if broker.sessions.contains_key(c) {
                let s = broker.sessions[c].session;
                broker.with_session(
                    c,
                    SessionView {
                        incoming_qos2: s.incoming_qos2.insert(row.packet_id, row.message@),
                        ..s
                    },
                )
            } else {
                broker
            }
        }
    }

    /// A stored QoS 2 message for a client comes back, unless it expired before it was ever
    /// sent.
    pub open spec fn requeue2(self, row: OutgoingRow, now_ms: u64) -> (BrokerView, Seq<ActionView>) {
        let c = row.client_id@;
        let out = row.message@;
        if !self.sessions.contains_key(c) {
            (self, Seq::empty())
        } else if out.message.properties.expired(now_ms) && !out.started && !out.completing {
            (
                self,
                packets::tagged_one(
                    c,
                    self.sessions[c].connection,
                    EffectView::DeleteOutgoing(row.packet_id),
                ),
            )
        } else {
            let s = self.sessions[c].session;
            (
                self.with_session(
                    c,
                    SessionView {
                        outgoing_qos2: s.outgoing_qos2.insert(row.packet_id, out),
                        next_order: later(s.next_order, out.order),
                        ..s
                    },
                ),
                Seq::empty(),
            )
        }
    }

    /// The first `n` of stored QoS 2 messages for clients come back.
    pub open spec fn requeueing2(self, rows: Seq<OutgoingRow>, n: nat, now_ms: u64) -> (
        BrokerView,
        Seq<ActionView>,
    )
        decreases n,
    {
        if n == 0 {
            (self, Seq::empty())
        } else {
            let (broker, actions) = self.requeueing2(rows, (n - 1) as nat, now_ms);
            let (next, more) = broker.requeue2(rows[n - 1], now_ms);
            (next, actions + more)
        }
    }

    /// A stored Will waits again: for what is left of its delay, or for all of it where its
    /// connection was not lost before the server stopped.
    pub open spec fn rewill(self, row: WillRow, now_ms: u64) -> (BrokerView, Seq<ActionView>) {
        let c = row.client_id@;
        let w = row.message@;
        let due = match row.due_at_ms {
            Some(due) => due,
            None => due_after(now_ms, will_delay(w.delay_interval, row.session_expiry)),
        };
        let number = self.next_ticket;
        (
            BrokerView {
                wills: self.wills.insert(
                    c,
                    PendingView {
                        message: w,
                        username: string_opt(row.username),
                        ticket: number,
                    },
                ),
                next_ticket: number.wrapping_add(1),
                ..self
            },
            (if row.due_at_ms is None {
                seq![
                    ActionView::SaveWill(
                        c,
                        string_opt(row.username),
                        w,
                        row.session_expiry,
                        Some(due),
                    ),
                ]
            } else {
                Seq::empty()
            }).push(
                ActionView::ArmWill(
                    c,
                    number,
                    if due >= now_ms {
                        (due - now_ms) as u64
                    } else {
                        0
                    },
                ),
            ),
        )
    }

    /// The first `n` of stored Wills wait again.
    pub open spec fn rewilling(self, rows: Seq<WillRow>, n: nat, now_ms: u64) -> (
        BrokerView,
        Seq<ActionView>,
    )
        decreases n,
    {
        if n == 0 {
            (self, Seq::empty())
        } else {
            let (broker, actions) = self.rewilling(rows, (n - 1) as nat, now_ms);
            let (next, more) = broker.rewill(rows[n - 1], now_ms);
            (next, actions + more)
        }
    }

    /// Everything that was stored comes back: the sessions first, and their timers last.
    pub open spec fn restored(self, stored: StoredState, now_ms: u64) -> (
        BrokerView,
        Seq<ActionView>,
    ) {
        let first = self.restoring(stored.sessions@, stored.sessions@.len(), now_ms / 1000);
        let second = first.broker.resubscribing(
            stored.subscriptions@,
            stored.subscriptions@.len(),
        );
        let (third, a3) = second.requeueing1(stored.in_flight@, stored.in_flight@.len(), now_ms);
        let (fourth, a4) = third.reretaining(stored.retained@, stored.retained@.len(), now_ms);
        let fifth = fourth.reowning(stored.incoming@, stored.incoming@.len());
        let (sixth, a6) = fifth.requeueing2(stored.outgoing@, stored.outgoing@.len(), now_ms);
        let (last, a7) = sixth.rewilling(stored.wills@, stored.wills@.len(), now_ms);
        (last, first.offline + first.deleted + a3 + a4 + a6 + a7 + first.timers)
    }
}

/// A place after the given one.
pub open spec fn later(next: u64, order: u64) -> u64 {
    if order.saturating_add(1) > next {
        order.saturating_add(1)
    } else {
        next
    }
}

/// What is left of a stored session.
fn rest_of(row: &SessionRow, now_s: u64) -> (r: SessionRest)
    ensures
        r == session_rest(*row, now_s),
{
    if row.session_expiry == 0 {
        return SessionRest::Over;
    }
    if row.session_expiry == u32::MAX {
        return SessionRest::Endless;
    }
    if row.connected {
        return SessionRest::Seconds(row.session_expiry as u64);
    }
    let elapsed: u64 = now_s.saturating_sub(row.last_activity);
    if elapsed >= row.session_expiry as u64 {
        SessionRest::Over
    } else {
        SessionRest::Seconds(row.session_expiry as u64 - elapsed)
    }
}

/// Adds an action to a list.
fn add_action(list: &mut Vec<BrokerAction>, action: BrokerAction)
    ensures
        state::actions_view(final(list)@) == state::actions_view(old(list)@).push(action@),
{
    let ghost view = action@;
    list.push(action);
    assert(state::actions_view(list@) =~= state::actions_view(old(list)@).push(view));
}

/// What comes of restoring sessions.
pub struct RestoredSessions {
    /// The clients that were connected and are not any more.
    pub offline: Vec<BrokerAction>,
    /// The sessions that are over.
    pub deleted: Vec<BrokerAction>,
    /// The timers of the sessions.
    pub timers: Vec<BrokerAction>,
}

impl BrokerState {
    /// Restores sessions, but for those that are over.
    pub fn restore_sessions(&mut self, rows: Vec<SessionRow>, now_s: u64) -> (r: RestoredSessions)
        requires
            old(self).wf(),
        ensures
            final(self).wf(),
            old(self)@.restoring(rows@, rows@.len(), now_s) == (RestoringView {
                broker: final(self)@,
                offline: state::actions_view(r.offline@),
                deleted: state::actions_view(r.deleted@),
                timers: state::actions_view(r.timers@),
            }),
    {
        let ghost start = self@;
        let ghost all = rows@;
        let mut offline = nothing();
        let mut deleted = nothing();
        let mut timers = nothing();
        for row in it: rows
            invariant
                it.seq() == all,
                self.wf(),
                start.restoring(all, it.index() as nat, now_s) == (RestoringView {
                    broker: self@,
                    offline: state::actions_view(offline@),
                    deleted: state::actions_view(deleted@),
                    timers: state::actions_view(timers@),
                }),
        {
            let ghost n = it.index();
            assert(row == all[n]);
            let ghost next = start.restoring(all, (n + 1) as nat, now_s);
            let rest = rest_of(&row, now_s);
            match rest {
                SessionRest::Over => {
                    add_action(&mut deleted, BrokerAction::DeleteSession(row.client_id));
                },
                SessionRest::Endless => {
                    if row.connected {
                        add_action(&mut offline, BrokerAction::MarkOffline(row.client_id.clone()));
                    }
                    let _ = self.restore_session(row);
                },
                SessionRest::Seconds(seconds) => {
                    if row.connected {
                        add_action(&mut offline, BrokerAction::MarkOffline(row.client_id.clone()));
                    }
                    let client_id = row.client_id.clone();
                    let number: u64 = self.restore_session(row);
                    add_action(&mut timers, BrokerAction::ArmExpiry(client_id, number, seconds));
                },
            }
        }
        RestoredSessions { offline, deleted, timers }
    }

    /// Restores one session, and gives it a number.
    fn restore_session(&mut self, row: SessionRow) -> (number: u64)
        requires
            old(self).wf(),
        ensures
            final(self).wf(),
            number == old(self)@.next_ticket,
            final(self)@ == (BrokerView {
                sessions: old(self)@.sessions.insert(
                    row.client_id@,
                    (EntryView {
                        session: old(self)@.restored_session(row),
                        connection: number,
                        will: None,
                    }),
                ),
                next_ticket: number.wrapping_add(1),
                ..old(self)@
            }),
    {
        let ghost was = self.sessions@;
        let number: u64 = self.next_ticket;
        let name = match &row.username {
            Some(name) => name.as_str(),
            None => "",
        };
        proof {
            reveal_strlit("");
            assert(""@ =~= Seq::<char>::empty());
        }
        let allow_read = self.auth.authorizes_all(name, "read");
        let allow_write = self.auth.authorizes_all(name, "write");
        let client_id = row.client_id.clone();
        let mut session = ClientSession::new(
            row.client_id,
            row.username,
            row.clean_start,
            allow_read,
            allow_write,
            0,
            u16::MAX,
            268_435_455,
            row.session_expiry,
        );
        session.connected = false;
        let entry = Registered { session, connection: number, will: None };
        proof {
            lemma_entry_inserted(was, client_id@, entry);
        }
        self.sessions.insert(client_id, entry);
        self.next_ticket = number.wrapping_add(1);
        number
    }

    /// Restores subscriptions.
    pub fn restore_subscriptions(&mut self, rows: &Vec<SubscriptionRow>)
        requires
            old(self).wf(),
            old(self)@.routes.len() + rows@.len() <= usize::MAX,
        ensures
            final(self).wf(),
            final(self)@ == old(self)@.resubscribing(rows@, rows@.len()),
    {
        let ghost start = self@;
        let mut i: usize = 0;
        while i < rows.len()
            invariant
                i <= rows@.len(),
                self.wf(),
                start.routes.len() + rows@.len() <= usize::MAX,
                self@.routes.len() <= start.routes.len() + i,
                self@ == start.resubscribing(rows@, i as nat),
            decreases rows@.len() - i,
        {
            let row = &rows[i];
            let ghost before = self@;
            let ghost was = self.sessions@;
            match self.sessions.remove(row.client_id.as_str()) {
                Some(entry) => {
                    let mut entry = entry;
                    entry.session.add_subscription(row.topic_filter.as_str());
                    proof {
                        lemma_entry_inserted(was, row.client_id@, entry);
                    }
                    self.sessions.insert(row.client_id.clone(), entry);
                },
                None => {
                    assert(self.sessions@ =~= was);
                },
            }
            self.router.subscribe_with_options(
                row.client_id.as_str(),
                row.topic_filter.as_str(),
                row.qos,
                row.subscription_identifier,
                row.options & 0x04 != 0,
                row.options & 0x08 != 0,
            );
            proof {
                let f = utf8::encode_utf8(row.topic_filter@);
                crate::broker::process::lemma_without_len(
                    before.routes,
                    crate::topic::share_group(f),
                    table::path_of(f),
                    row.client_id@,
                );
            }
            i = i + 1;
        }
    }

    /// Restores QoS 1 messages, but for those that expired before they were ever sent.
    pub fn restore_in_flight(&mut self, rows: Vec<InFlightRow>, now_ms: u64) -> (actions: Vec<
        BrokerAction,
    >)
        requires
            old(self).wf(),
        ensures
            final(self).wf(),
            (final(self)@, state::actions_view(actions@)) == old(self)@.requeueing1(
                rows@,
                rows@.len(),
                now_ms,
            ),
    {
        let ghost start = self@;
        let ghost all = rows@;
        let mut actions = nothing();
        for row in it: rows
            invariant
                it.seq() == all,
                self.wf(),
                (self@, state::actions_view(actions@)) == start.requeueing1(
                    all,
                    it.index() as nat,
                    now_ms,
                ),
        {
            let ghost n = it.index();
            assert(row == all[n]);
            let ghost next = start.requeueing1(all, (n + 1) as nat, now_ms);
            let ghost was = self.sessions@;
            let ghost before = self@;
            let ghost so_far = state::actions_view(actions@);
            match self.sessions.remove(row.client_id.as_str()) {
                Some(entry) => {
                    let mut entry = entry;
                    if row.properties.is_expired_at(now_ms) && !row.delivery_started {
                        add_action(
                            &mut actions,
                            BrokerAction::Session(
                                row.client_id.clone(),
                                entry.connection,
                                SessionEffect::DeleteInFlight(row.packet_id),
                            ),
                        );
                        proof {
                            lemma_entry_inserted(was, row.client_id@, entry);
                            assert(before.sessions.insert(row.client_id@, entry@)
                                =~= before.sessions);
                            assert(state::actions_view(actions@) =~= so_far + before.requeue1(
                                row,
                                now_ms,
                            ).1);
                        }
                    } else {
                        entry.session.add_in_flight(
                            row.packet_id,
                            row.topic.as_str(),
                            row.payload.as_slice(),
                            row.qos,
                            row.retain,
                            row.subscription_identifier,
                            row.properties,
                            row.enqueue_order,
                            row.delivery_started,
                        );
                        entry.session.observe_outbound_order(row.enqueue_order);
                        proof {
                            lemma_entry_inserted(was, row.client_id@, entry);
                            assert(so_far + Seq::<ActionView>::empty() =~= so_far);
                        }
                    }
                    self.sessions.insert(row.client_id, entry);
                },
                None => {
                    assert(self.sessions@ =~= was);
                    assert(so_far + Seq::<ActionView>::empty() =~= so_far);
                },
            }
        }
        actions
    }

    /// Restores retained messages, but for those that have expired.
    pub fn restore_retained(&mut self, rows: Vec<RetainedMessage>, now_ms: u64) -> (actions: Vec<
        BrokerAction,
    >)
        requires
            old(self).wf(),
        ensures
            final(self).wf(),
            (final(self)@, state::actions_view(actions@)) == old(self)@.reretaining(
                rows@,
                rows@.len(),
                now_ms,
            ),
    {
        let ghost start = self@;
        let ghost all = rows@;
        let mut actions = nothing();
        for row in it: rows
            invariant
                it.seq() == all,
                self.wf(),
                (self@, state::actions_view(actions@)) == start.reretaining(
                    all,
                    it.index() as nat,
                    now_ms,
                ),
        {
            let ghost n = it.index();
            assert(row == all[n]);
            let ghost next = start.reretaining(all, (n + 1) as nat, now_ms);
            if row.properties.is_expired_at(now_ms) {
                add_action(&mut actions, BrokerAction::DeleteRetained(row.topic));
            } else {
                self.forget_topic(row.topic.as_str());
                let ghost rest = self.retained@;
                let ghost view = row@;
                self.retained.push(row);
                assert(state::retained_view(self.retained@) =~= state::retained_view(rest).push(
                    view,
                ));
            }
        }
        actions
    }

    /// Restores QoS 2 messages of clients.
    pub fn restore_incoming(&mut self, rows: Vec<IncomingRow>)
        requires
            old(self).wf(),
        ensures
            final(self).wf(),
            final(self)@ == old(self)@.reowning(rows@, rows@.len()),
    {
        let ghost start = self@;
        let ghost all = rows@;
        for row in it: rows
            invariant
                it.seq() == all,
                self.wf(),
                self@ == start.reowning(all, it.index() as nat),
        {
            let ghost n = it.index();
            assert(row == all[n]);
            let ghost next = start.reowning(all, (n + 1) as nat);
            let ghost was = self.sessions@;
            match self.sessions.remove(row.client_id.as_str()) {
                Some(entry) => {
                    let mut entry = entry;
                    let ghost s = entry.session@;
                    let ghost view = row.message@;
                    entry.session.incoming_qos2.insert(row.packet_id, row.message);
                    proof {
                        assert(entry.session@.incoming_qos2 =~= s.incoming_qos2.insert(
                            row.packet_id,
                            view,
                        ));
                        lemma_entry_inserted(was, row.client_id@, entry);
                    }
                    self.sessions.insert(row.client_id, entry);
                },
                None => {
                    assert(self.sessions@ =~= was);
                },
            }
        }
    }

    /// Restores QoS 2 messages for clients, but for those that expired before they were ever
    /// sent.
    pub fn restore_outgoing(&mut self, rows: Vec<OutgoingRow>, now_ms: u64) -> (actions: Vec<
        BrokerAction,
    >)
        requires
            old(self).wf(),
        ensures
            final(self).wf(),
            (final(self)@, state::actions_view(actions@)) == old(self)@.requeueing2(
                rows@,
                rows@.len(),
                now_ms,
            ),
    {
        let ghost start = self@;
        let ghost all = rows@;
        let mut actions = nothing();
        for row in it: rows
            invariant
                it.seq() == all,
                self.wf(),
                (self@, state::actions_view(actions@)) == start.requeueing2(
                    all,
                    it.index() as nat,
                    now_ms,
                ),
        {
            let ghost n = it.index();
            assert(row == all[n]);
            let ghost next = start.requeueing2(all, (n + 1) as nat, now_ms);
            let ghost was = self.sessions@;
            let ghost before = self@;
            let ghost so_far = state::actions_view(actions@);
            match self.sessions.remove(row.client_id.as_str()) {
                Some(entry) => {
                    let mut entry = entry;
                    if row.message.properties.is_expired_at(now_ms)
                        && !row.message.delivery_started && row.message.phase
                        == OutgoingQos2Phase::AwaitPubRec {
                        add_action(
                            &mut actions,
                            BrokerAction::Session(
                                row.client_id.clone(),
                                entry.connection,
                                SessionEffect::DeleteOutgoing(row.packet_id),
                            ),
                        );
                        proof {
                            lemma_entry_inserted(was, row.client_id@, entry);
                            assert(before.sessions.insert(row.client_id@, entry@)
                                =~= before.sessions);
                            assert(state::actions_view(actions@) =~= so_far + before.requeue2(
                                row,
                                now_ms,
                            ).1);
                        }
                    } else {
                        let order: u64 = row.message.enqueue_order;
                        let ghost s = entry.session@;
                        let ghost view = row.message@;
                        entry.session.outgoing_qos2.insert(row.packet_id, row.message);
                        assert(entry.session@.outgoing_qos2 =~= s.outgoing_qos2.insert(
                            row.packet_id,
                            view,
                        ));
                        entry.session.observe_outbound_order(order);
                        proof {
                            lemma_entry_inserted(was, row.client_id@, entry);
                            assert(so_far + Seq::<ActionView>::empty() =~= so_far);
                        }
                    }
                    self.sessions.insert(row.client_id, entry);
                },
                None => {
                    assert(self.sessions@ =~= was);
                    assert(so_far + Seq::<ActionView>::empty() =~= so_far);
                },
            }
        }
        actions
    }

    /// Lets stored Wills wait again.
    pub fn restore_wills(&mut self, rows: Vec<WillRow>, now_ms: u64) -> (actions: Vec<BrokerAction>)
        requires
            old(self).wf(),
        ensures
            final(self).wf(),
            (final(self)@, state::actions_view(actions@)) == old(self)@.rewilling(
                rows@,
                rows@.len(),
                now_ms,
            ),
    {
        let ghost start = self@;
        let ghost all = rows@;
        let mut actions = nothing();
        for row in it: rows
            invariant
                it.seq() == all,
                self.wf(),
                (self@, state::actions_view(actions@)) == start.rewilling(
                    all,
                    it.index() as nat,
                    now_ms,
                ),
        {
            let ghost n = it.index();
            assert(row == all[n]);
            let ghost next = start.rewilling(all, (n + 1) as nat, now_ms);
            let ghost before = self@;
            let ghost so_far = state::actions_view(actions@);
            let delay: u32 = BrokerState::effective_will_delay(&row.message, row.session_expiry);
            let due: u64 = match row.due_at_ms {
                Some(due) => due,
                None => now_ms.saturating_add(delay as u64 * 1000),
            };
            if row.due_at_ms.is_none() {
                add_action(
                    &mut actions,
                    BrokerAction::SaveWill(
                        row.client_id.clone(),
                        clone_text(&row.username),
                        row.message.clone(),
                        row.session_expiry,
                        Some(due),
                    ),
                );
            }
            let ticket: u64 = self.next_ticket;
            add_action(
                &mut actions,
                BrokerAction::ArmWill(row.client_id.clone(), ticket, due.saturating_sub(now_ms)),
            );
            assert(state::actions_view(actions@) =~= so_far + before.rewill(row, now_ms).1);
            let pending = PendingWill { message: row.message, username: row.username, ticket };
            proof {
                lemma_pending_changed(self.pending_wills@, row.client_id@, pending);
            }
            self.pending_wills.insert(row.client_id, pending);
            self.next_ticket = ticket.wrapping_add(1);
        }
        actions
    }

    /// Restores everything that was stored: the sessions first, and their timers last.
    pub fn restore_sessions_from_db(&mut self, stored: StoredState, now_ms: u64) -> (actions: Vec<
        BrokerAction,
    >)
        requires
            old(self).wf(),
            old(self)@.routes.len() + stored.subscriptions@.len() <= usize::MAX,
        ensures
            final(self).wf(),
            (final(self)@, state::actions_view(actions@)) == old(self)@.restored(stored, now_ms),
    {
        let ghost start = self@;
        let ghost whole = stored;
        let sessions = self.restore_sessions(stored.sessions, now_ms / 1000);
        proof {
            lemma_restoring_routes(start, whole.sessions@, whole.sessions@.len(), now_ms / 1000);
        }
        let mut actions = sessions.offline;
        append_actions(&mut actions, sessions.deleted);
        self.restore_subscriptions(&stored.subscriptions);
        let more = self.restore_in_flight(stored.in_flight, now_ms);
        append_actions(&mut actions, more);
        let more = self.restore_retained(stored.retained, now_ms);
        append_actions(&mut actions, more);
        self.restore_incoming(stored.incoming);
        let more = self.restore_outgoing(stored.outgoing, now_ms);
        append_actions(&mut actions, more);
        let more = self.restore_wills(stored.wills, now_ms);
        append_actions(&mut actions, more);
        append_actions(&mut actions, sessions.timers);
        actions
    }
}

/// Restoring sessions adds no route.
proof fn lemma_restoring_routes(b: BrokerView, rows: Seq<SessionRow>, n: nat, now_s: u64)
    ensures
        b.restoring(rows, n, now_s).broker.routes == b.routes,
    decreases n,
{
    if n > 0 {
        lemma_restoring_routes(b, rows, (n - 1) as nat, now_s);
    }
}

} // verus!
