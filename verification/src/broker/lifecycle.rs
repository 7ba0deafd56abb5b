//! Sessions come and go.

use vstd::prelude::*;
use crate::broker::model;
use crate::broker::model::{
    after, ActionView, BrokerView, EntryView, Step, Tallies, WillMessageView,
};
use crate::broker::packets;
use crate::broker::publish::lemma_entry_inserted;
use crate::broker::state;
use crate::broker::state::{append_actions, BrokerAction, BrokerState, Registered, WillMessage};
use crate::broker::wills::{just, nothing};
use crate::codec::packet::Disconnect;
use crate::message::{clone_text, string_opt};
use crate::registry;
use crate::router::table;
use crate::session::client::{ClientSession, SessionEffect};
use crate::session::inbound;
use crate::session::inbound::{encode_disconnect, PacketFault};
use crate::session::model::{EffectView, SessionView};

verus! {

impl BrokerView {
    /// The broker after messages of a session that is gone are counted.
    pub open spec fn retire(self, s: SessionView) -> BrokerView {
        BrokerView {
            tallies: Tallies {
                messages_published_retired: self.tallies.messages_published_retired.wrapping_add(
                    s.published,
                ),
                ..self.tallies
            },
            ..self
        }
    }

    /// A session becomes that of its client, with the Will of its connection.
    pub open spec fn register(self, s: SessionView, will: Option<WillMessageView>) -> Step {
        let retired = if self.sessions.contains_key(s.client) {
            self.retire(self.sessions[s.client].session)
        } else {
            self
        };
        (
            BrokerView {
                sessions: self.sessions.insert(
                    s.client,
                    EntryView { session: s, connection: self.next_ticket, will },
                ),
                next_ticket: self.next_ticket.wrapping_add(1),
                ..retired
            },
            if s.expiry > 0 {
                seq![ActionView::SaveSession(s.client, s.username, s.clean_start, s.expiry)]
            } else {
                Seq::empty()
            },
        )
    }

    /// A session and all that belongs to it is forgotten.
    pub open spec fn discard(self, c: Seq<char>) -> Step {
        let retired = if self.sessions.contains_key(c) {
            self.retire(self.sessions[c].session)
        } else {
            self
        };
        (
            BrokerView {
                sessions: self.sessions.remove(c),
                routes: table::without_client(self.routes, c),
                wills: self.wills.remove(c),
                ..retired
            },
            seq![ActionView::DeleteSession(c)],
        )
    }

    /// Whether a connection is the current one of its client.
    pub open spec fn is_current(self, c: Seq<char>, connection: u64) -> bool {
        self.sessions.contains_key(c) && self.sessions[c].connection == connection
    }

    /// The current connection of a client has ended: a session without expiry is gone, any other
    /// is kept.
    pub open spec fn disconnected(self, c: Seq<char>) -> Step {
        let entry = self.sessions[c];
        let s = entry.session;
        if s.expiry == 0 {
            (
                BrokerView {
                    sessions: self.sessions.remove(c),
                    routes: table::without_client(self.routes, c),
                    ..self.retire(s)
                },
                seq![ActionView::DeleteSession(c)],
            )
        } else {
            (
                BrokerView {
                    sessions: self.sessions.insert(
                        c,
                        EntryView {
                            session: SessionView { connected: false, ..s },
                            will: None,
                            ..entry
                        },
                    ),
                    ..self
                },
                seq![ActionView::MarkOffline(c)],
            )
        }
    }

    /// What becomes of the Will of a connection that has ended: it waits for its delay, unless
    /// the client took leave with the reason code 0.
    pub open spec fn after_loss(
        self,
        c: Seq<char>,
        s: SessionView,
        will: Option<WillMessageView>,
        reason: Option<u8>,
        now_ms: u64,
    ) -> Step {
        match will {
            Some(w) => if reason == Some(0u8) {
                self.clear_will(c)
            } else {
                self.delay_will(c, s.username, w, s.expiry, now_ms)
            },
            None => if reason == Some(0u8) {
                self.clear_will(c)
            } else {
                (self, Seq::empty())
            },
        }
    }

    /// A connection has ended. One that is not the current one of its client changes nothing.
    pub open spec fn connection_ended(
        self,
        c: Seq<char>,
        connection: u64,
        reason: Option<u8>,
        now_ms: u64,
    ) -> Step {
        if !self.is_current(c, connection) {
            (self, Seq::empty())
        } else {
            let entry = self.sessions[c];
            let (gone, first) = self.disconnected(c);
            let (broker, second) = gone.after_loss(c, entry.session, entry.will, reason, now_ms);
            (broker, first + second + expiry_timer(c, connection, entry.session.expiry))
        }
    }

    /// The time of a session is over: it ends with its Will, unless the client is back.
    pub open spec fn session_expired(
        self,
        c: Seq<char>,
        connection: u64,
        now_ms: u64,
        groups: Seq<Seq<u8>>,
    ) -> Step {
        if self.is_current(c, connection) && !self.sessions[c].session.connected {
            let (broker, actions) = self.publish_pending(c, now_ms, groups);
            after(actions, broker.discard(c))
        } else {
            (self, Seq::empty())
        }
    }

    /// A client takes leave, and may say for how long its session is to be kept.
    pub open spec fn on_disconnect(self, c: Seq<char>, expiry: Option<u32>) -> packets::PacketStep {
        let s = self.sessions[c].session;
        match expiry {
            None => (self, Seq::empty(), None),
            Some(e) => if s.expiry == 0 && e > 0 {
                self.refuse(c, 0x82, PacketFault::RaisedExpiry)
            } else {
                (
                    self.with_session(c, SessionView { expiry: e, ..s }),
                    if e > 0 {
                        seq![ActionView::SaveSession(c, s.username, s.clean_start, e)]
                    } else {
                        Seq::empty()
                    },
                    None,
                )
            },
        }
    }

    /// A packet was written that frees a place of the server's Receive Maximum.
    pub open spec fn written(self, c: Seq<char>, connection: u64, id: u16) -> BrokerView {
        if self.is_current(c, connection) {
            let s = self.sessions[c].session;
            self.with_session(
                c,
                SessionView { inbound_pending: s.inbound_pending.remove(id), ..s },
            )
        } else {
            self
        }
    }

    /// All clients are told that the server goes down.
    pub open spec fn farewell(self, clients: Seq<Seq<char>>) -> Seq<ActionView> {
        Seq::new(
            clients.len(),
            |i: int|
                ActionView::Session(
                    clients[i],
                    self.sessions[clients[i]].connection,
                    EffectView::Send(inbound::disconnect_packet(0).bytes()),
                ),
        )
    }
}

/// The timer that ends a session: none where it ended with its connection, or never ends.
pub open spec fn expiry_timer(c: Seq<char>, connection: u64, expiry: u32) -> Seq<ActionView> {
    if expiry == 0 || expiry == u32::MAX {
        Seq::empty()
    } else {
        seq![ActionView::ArmExpiry(c, connection, expiry as u64)]
    }
}

impl BrokerState {
    /// Takes over into a session what another keeps beyond its connection.
    pub fn inherit_persistent_state(target: &mut ClientSession, source: &ClientSession)
        requires
            old(target).wf(),
            source.wf(),
        ensures
            final(target).wf(),
            final(target)@ == (SessionView {
                subscriptions: source@.subscriptions,
                in_flight: source@.in_flight,
                incoming_qos2: source@.incoming_qos2,
                outgoing_qos2: source@.outgoing_qos2,
                inbound_pending: old(target)@.inbound_pending.union(source@.incoming_qos2.dom()),
                ..old(target)@
            }),
    {
        target.inherit(source);
    }

    /// Makes a session that of its client, with the Will of its connection; the connection gets
    /// the next number.
    pub fn register_session(&mut self, session: ClientSession, will: Option<WillMessage>) -> (r: (
        u64,
        Vec<BrokerAction>,
    ))
        requires
            old(self).wf(),
            session.wf(),
        ensures
            final(self).wf(),
            r.0 == old(self)@.next_ticket,
            (final(self)@, state::actions_view(r.1@)) == old(self)@.register(
                session@,
                state::will_opt(will),
            ),
    {
        let ghost start = self@;
        let ghost was = self.sessions@;
        let ghost s = session@;
        let connection: u64 = self.next_ticket;
        let client_id = session.client_id.clone();
        let actions = if session.session_expiry_interval > 0 {
            just(
                BrokerAction::SaveSession(
                    session.client_id.clone(),
                    clone_text(&session.username),
                    session.clean_start,
                    session.session_expiry_interval,
                ),
            )
        } else {
            nothing()
        };
        if let Some(entry) = self.sessions.get(client_id.as_str()) {
            self.tallies.messages_published_retired =
            self.tallies.messages_published_retired.wrapping_add(entry.session.published_messages);
        }
        let entry = Registered { session, connection, will };
        proof {
            lemma_entry_inserted(was, client_id@, entry);
        }
        self.sessions.insert(client_id, entry);
        self.next_ticket = self.next_ticket.wrapping_add(1);
        (connection, actions)
    }

    /// Forgets a session and all that belongs to it.
    pub fn discard_session_state(&mut self, client_id: &str) -> (actions: Vec<BrokerAction>)
        requires
            old(self).wf(),
        ensures
            final(self).wf(),
            (final(self)@, state::actions_view(actions@)) == old(self)@.discard(client_id@),
    {
        let ghost was = self.sessions@;
        let ghost waiting = self.pending_wills@;
        if let Some(entry) = self.sessions.remove(client_id) {
            proof {
                lemma_entry_inserted(was, client_id@, entry);
            }
            self.tallies.messages_published_retired =
            self.tallies.messages_published_retired.wrapping_add(entry.session.published_messages);
        }
        assert(state::entries_view(self.sessions@) =~= state::entries_view(was).remove(client_id@));
        let _ = self.router.remove_client(client_id);
        let _ = self.pending_wills.remove(client_id);
        assert(state::pending_view(self.pending_wills@) =~= state::pending_view(waiting).remove(
            client_id@,
        ));
        just(BrokerAction::DeleteSession(client_id.to_owned()))
    }

    /// Marks a connection as ended, where it is the current one of its client: a session without
    /// expiry is gone, any other is kept. Hands the session's user, expiry and Will out.
    pub fn disconnect_session_if_current(&mut self, client_id: &str, connection: u64) -> (r: (
        Option<(Option<String>, u32, Option<WillMessage>)>,
        Vec<BrokerAction>,
    ))
        requires
            old(self).wf(),
        ensures
            final(self).wf(),
            r.0 is Some == old(self)@.is_current(client_id@, connection),
            match r.0 {
                Some((username, expiry, will)) => {
                    let entry = old(self)@.sessions[client_id@];
                    &&& (final(self)@, state::actions_view(r.1@)) == old(self)@.disconnected(
                        client_id@,
                    )
                    &&& string_opt(username) == entry.session.username
                    &&& expiry == entry.session.expiry
                    &&& state::will_opt(will) == entry.will
                },
                None => final(self)@ == old(self)@ && state::actions_view(r.1@) == Seq::<
                    ActionView,
                >::empty(),
            },
    {
        let ghost start = self@;
        let ghost was = self.sessions@;
        match self.connection_of(client_id) {
            Some(n) => {
                if n != connection {
                    return (None, nothing());
                }
            },
            None => {
                return (None, nothing());
            },
        }
        match self.sessions.remove(client_id) {
            Some(entry) => {
                let mut entry = entry;
                let mut will: Option<WillMessage> = None;
                std::mem::swap(&mut will, &mut entry.will);
                let username = clone_text(&entry.session.username);
                let expiry: u32 = entry.session.session_expiry_interval;
                if expiry == 0 {
                    proof {
                        lemma_entry_inserted(was, client_id@, entry);
                    }
                    self.tallies.messages_published_retired =
                    self.tallies.messages_published_retired.wrapping_add(
                        entry.session.published_messages,
                    );
                    let _ = self.router.remove_client(client_id);
                    let actions = just(BrokerAction::DeleteSession(client_id.to_owned()));
                    (Some((username, expiry, will)), actions)
                } else {
                    entry.session.connected = false;
                    proof {
                        lemma_entry_inserted(was, client_id@, entry);
                        assert(entry@ =~= (EntryView {
                            session: SessionView {
                                connected: false,
                                ..start.sessions[client_id@].session
                            },
                            will: None,
                            ..start.sessions[client_id@]
                        }));
                    }
                    self.sessions.insert(client_id.to_owned(), entry);
                    let actions = just(BrokerAction::MarkOffline(client_id.to_owned()));
                    (Some((username, expiry, will)), actions)
                }
            },
            None => (None, nothing()),
        }
    }

    /// The timer that ends a session, where it is to end.
    pub fn schedule_session_expiry(client_id: &str, connection: u64, expiry: u32) -> (actions: Vec<
        BrokerAction,
    >)
        ensures
            state::actions_view(actions@) == expiry_timer(client_id@, connection, expiry),
    {
        if expiry == 0 || expiry == u32::MAX {
            nothing()
        } else {
            just(BrokerAction::ArmExpiry(client_id.to_owned(), connection, expiry as u64))
        }
    }

    /// A connection has ended, with the reason code of the client's DISCONNECT where there was
    /// one.
    pub fn connection_ended(
        &mut self,
        client_id: &str,
        connection: u64,
        disconnect_reason: Option<u8>,
        now_ms: u64,
    ) -> (actions: Vec<BrokerAction>)
        requires
            old(self).wf(),
        ensures
            final(self).wf(),
            (final(self)@, state::actions_view(actions@)) == old(self)@.connection_ended(
                client_id@,
                connection,
                disconnect_reason,
                now_ms,
            ),
    {
        let ghost start = self@;
        let (current, first) = self.disconnect_session_if_current(client_id, connection);
        let (username, expiry, will) = match current {
            Some(parts) => parts,
            None => {
                return first;
            },
        };
        let mut actions = first;
        let polite = match disconnect_reason {
            Some(reason) => reason == 0,
            None => false,
        };
        let second = match will {
            Some(message) => if polite {
                self.clear_persisted_will(client_id)
            } else {
                self.schedule_will(client_id, &username, message, expiry, now_ms)
            },
            None => if polite {
                self.clear_persisted_will(client_id)
            } else {
                nothing()
            },
        };
        append_actions(&mut actions, second);
        let timer = BrokerState::schedule_session_expiry(client_id, connection, expiry);
        append_actions(&mut actions, timer);
        actions
    }

    /// The time of a session is over: it ends with its Will, unless the client is back.
    pub fn session_expired(&mut self, client_id: &str, connection: u64, now_ms: u64) -> (actions: Vec<
        BrokerAction,
    >)
        requires
            old(self).wf(),
        ensures
            final(self).wf(),
            exists|groups: Seq<Seq<u8>>| #[trigger]
                old(self)@.serves_pending(client_id@, groups) && (
                    final(self)@,
                    state::actions_view(actions@),
                ) == old(self)@.session_expired(client_id@, connection, now_ms, groups),
    {
        let ghost start = self@;
        let over = match self.sessions.get(client_id) {
            Some(entry) => entry.connection == connection && !entry.session.connected,
            None => false,
        };
        if !over {
            proof {
                let t = start.wills[client_id@].message.topic;
                crate::broker::publish::lemma_groups_exist(start.routes, t);
                let groups = choose|groups: Seq<Seq<u8>>| #[trigger]
                    model::reached_groups(start.routes, t, groups);
                assert(start.serves_pending(client_id@, groups));
            }
            return nothing();
        }
        let (_, published) = self.publish_pending_will_now(client_id, now_ms);
        let mut actions = published;
        let more = self.discard_session_state(client_id);
        append_actions(&mut actions, more);
        actions
    }

    /// A client takes leave, and may say for how long its session is to be kept.
    pub fn process_disconnect(&mut self, client_id: &str, packet: &Disconnect<'_>) -> (r: (
        Vec<BrokerAction>,
        Option<PacketFault>,
    ))
        requires
            old(self).wf(),
            old(self)@.sessions.contains_key(client_id@),
        ensures
            final(self).wf(),
            (final(self)@, state::actions_view(r.0@), r.1) == old(self)@.on_disconnect(
                client_id@,
                packet.properties.session_expiry_interval,
            ),
    {
        let ghost start = self@;
        let ghost was = self.sessions@;
        let expiry: u32 = match packet.properties.session_expiry_interval {
            Some(expiry) => expiry,
            None => {
                return (nothing(), None);
            },
        };
        match self.sessions.remove(client_id) {
            Some(entry) => {
                let mut entry = entry;
                if entry.session.session_expiry_interval == 0 && expiry > 0 {
                    let actions = just(
                        BrokerAction::Session(
                            client_id.to_owned(),
                            entry.connection,
                            SessionEffect::Send(encode_disconnect(0x82)),
                        ),
                    );
                    proof {
                        lemma_entry_inserted(was, client_id@, entry);
                        assert(start.sessions.insert(client_id@, entry@) =~= start.sessions);
                    }
                    self.sessions.insert(client_id.to_owned(), entry);
                    return (actions, Some(PacketFault::RaisedExpiry));
                }
                entry.session.set_session_expiry(expiry);
                let actions = if expiry > 0 {
                    just(
                        BrokerAction::SaveSession(
                            client_id.to_owned(),
                            clone_text(&entry.session.username),
                            entry.session.clean_start,
                            expiry,
                        ),
                    )
                } else {
                    nothing()
                };
                proof {
                    lemma_entry_inserted(was, client_id@, entry);
                }
                self.sessions.insert(client_id.to_owned(), entry);
                (actions, None)
            },
            None => (nothing(), None),
        }
    }

    /// A packet was written on a connection that frees a place of the server's Receive Maximum.
    pub fn release_inbound(&mut self, client_id: &str, connection: u64, packet_id: u16)
        requires
            old(self).wf(),
        ensures
            final(self).wf(),
            final(self)@ == old(self)@.written(client_id@, connection, packet_id),
    {
        let ghost was = self.sessions@;
        match self.connection_of(client_id) {
            Some(n) => {
                if n != connection {
                    return;
                }
            },
            None => {
                return;
            },
        }
        if let Some(entry) = self.sessions.remove(client_id) {
            let mut entry = entry;
            entry.session.release_inbound_receive(packet_id);
            proof {
                lemma_entry_inserted(was, client_id@, entry);
            }
            self.sessions.insert(client_id.to_owned(), entry);
        }
    }

    /// Tells all clients, in any order, that the server goes down.
    pub fn graceful_shutdown(&self) -> (actions: Vec<BrokerAction>)
        ensures
            exists|clients: Seq<Seq<char>>| #[trigger]
                clients.no_duplicates() && clients.to_set() == self@.sessions.dom()
                    && state::actions_view(actions@) == self@.farewell(clients),
    {
        let names = self.sessions.keys();
        let ghost clients = registry::names_view(names@);
        assert(self@.sessions.dom() =~= self.sessions@.dom());
        let mut actions: Vec<BrokerAction> = Vec::new();
        let mut i: usize = 0;
        while i < names.len()
            invariant
                i <= names@.len(),
                clients == registry::names_view(names@),
                clients.to_set() == self.sessions@.dom(),
                actions@.len() == i,
                forall|k: int|
                    0 <= k < i ==> (#[trigger] actions@[k])@ == self@.farewell(clients)[k],
            decreases names@.len() - i,
        {
            let name = names[i].as_str();
            assert(clients[i as int] == name@);
            assert(clients.to_set().contains(clients[i as int]));
            let connection: u64 = match self.connection_of(name) {
                Some(n) => n,
                None => 0,
            };
            actions.push(
                BrokerAction::Session(
                    name.to_owned(),
                    connection,
                    SessionEffect::Send(encode_disconnect(0)),
                ),
            );
            i = i + 1;
        }
        assert(state::actions_view(actions@) =~= self@.farewell(clients));
        actions
    }
}

/// A connection that was taken over cannot end the session of the one that took over.
pub proof fn law_old_connection_cannot_end_new_session(
    b: BrokerView,
    c: Seq<char>,
    s: SessionView,
    will: Option<WillMessageView>,
    old_connection: u64,
    reason: Option<u8>,
    now_ms: u64,
)
    requires
        s.client == c,
        b.is_current(c, old_connection),
        old_connection != b.next_ticket,
    ensures
        ({
            let taken_over = b.register(s, will).0;
            taken_over.connection_ended(c, old_connection, reason, now_ms) == (
                taken_over,
                Seq::<ActionView>::empty(),
            )
        }),
{
}

/// A client that takes leave with the reason code 0 leaves no Will behind.
pub proof fn law_polite_leave_cancels_the_will(
    b: BrokerView,
    c: Seq<char>,
    connection: u64,
    now_ms: u64,
)
    requires
        b.is_current(c, connection),
    ensures
        !b.connection_ended(c, connection, Some(0), now_ms).0.wills.contains_key(c),
{
}

/// A session that is discarded leaves no route, no Will and no entry behind.
pub proof fn law_discarded_session_leaves_nothing(b: BrokerView, c: Seq<char>)
    ensures
        ({
            let after = b.discard(c).0;
            &&& !after.sessions.contains_key(c)
            &&& !after.wills.contains_key(c)
            &&& forall|i: int|
                0 <= i < after.routes.len() ==> (#[trigger] after.routes[i]).info.client != c
        }),
{
    lemma_without_client_routes(b.routes, c);
}

/// Leaving the routes of a client out leaves none of them.
proof fn lemma_without_client_routes(routes: Seq<table::Route>, c: Seq<char>)
    ensures
        forall|i: int|
            0 <= i < table::without_client(routes, c).len() ==> (
            #[trigger] table::without_client(routes, c)[i]).info.client != c,
    decreases routes.len(),
{
    if routes.len() > 0 {
        lemma_without_client_routes(routes.drop_last(), c);
    }
}

} // verus!
