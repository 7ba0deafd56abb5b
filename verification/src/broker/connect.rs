//! Accepting a client: its identifier, its session, and whoever held the session before.

use vstd::prelude::*;
use crate::broker::handshake;
use crate::broker::handshake::{
    connack_accepting, connack_properties, connack_refusing, encode_acceptance, encode_refusal,
    ConnectRequest, RequestView,
};
use crate::broker::model;
use crate::broker::model::{
    after, ActionView, BrokerView, EntryView, Step, Tallies, WillMessageView,
};
use crate::broker::packets;
use crate::broker::publish::lemma_entry_inserted;
use crate::broker::state;
use crate::broker::state::{append_actions, tag_effects, BrokerAction, BrokerState, WillMessage};
use crate::broker::wills::{just, nothing};
use crate::config;
use crate::message::{clone_text, string_opt};
use crate::session::client;
use crate::session::client::{ClientSession, SessionEffect};
use crate::session::delivery;
use crate::session::inbound;
use crate::session::inbound::{encode_disconnect, is_blank};
use crate::session::model::{EffectView, SessionView};
use crate::text;
use crate::text::{ascii_string, push_hex, str_eq};

verus! {

/// The client identifier with a number that is assigned at a time: `pip-`, the time in
/// milliseconds, `-` and the number, both in hexadecimal digits.
pub open spec fn candidate(now_ms: u64, n: u64) -> Seq<char> {
    text::ascii_text(
        seq![112u8, 105, 112, 45] + text::hex(now_ms as nat) + seq![45u8] + text::hex(n as nat),
    )
}

/// In which order things that come in any order are done when a client is accepted.
#[verifier::ext_equal]
pub struct ConnectOrder {
    /// The groups that the Will of the earlier session reaches.
    pub pending: Seq<Seq<u8>>,
    /// The groups that the Will of the connection that is taken over reaches.
    pub replaced: Seq<Seq<u8>>,
    /// The packet identifiers of QoS 2 exchanges of which only the end is missing.
    pub completing: Seq<u16>,
}

/// What becomes of a CONNECT.
#[verifier::ext_equal]
pub enum ConnectView {
    /// The connection is refused with this packet.
    Refused(Seq<u8>),
    /// The client's limit is too small for any answer.
    TooSmall,
    /// The client is connected: its identifier, the number of the connection, whether an earlier
    /// session goes on, and what is to be done.
    Accepted(Seq<char>, u64, bool, Seq<ActionView>),
}

impl BrokerView {
    /// Whether a client identifier is in use.
    pub open spec fn id_in_use(self, c: Seq<char>) -> bool {
        self.sessions.contains_key(c) || self.wills.contains_key(c)
    }

    /// The first number from `n` on whose identifier is free, where `tries` are looked at.
    pub open spec fn free_number(self, now_ms: u64, n: u64, tries: nat) -> u64
        decreases tries,
    {
        if tries == 0 || !self.id_in_use(candidate(now_ms, n)) {
            n
        } else {
            self.free_number(now_ms, n.wrapping_add(1), (tries - 1) as nat)
        }
    }

    /// The client identifier that is assigned next, and the broker after that.
    pub open spec fn assign(self, now_ms: u64) -> (BrokerView, Seq<char>) {
        let n = self.free_number(now_ms, self.next_client, u64::MAX as nat);
        (BrokerView { next_client: n.wrapping_add(1), ..self }, candidate(now_ms, n))
    }

    /// The client identifier of a request, assigned where it is empty.
    pub open spec fn identify(self, r: RequestView, now_ms: u64) -> (BrokerView, Seq<char>) {
        if r.client_id.len() == 0 {
            self.assign(now_ms)
        } else {
            (self, r.client_id)
        }
    }

    /// Whether a client identifier belongs to somebody else.
    pub open spec fn belongs_to_other(self, c: Seq<char>, username: Option<Seq<char>>) -> bool {
        (self.sessions.contains_key(c) && self.sessions[c].session.username != username) || (
        self.wills.contains_key(c) && self.wills[c].username != username)
    }

    /// Whether the earlier session of a client goes on.
    pub open spec fn goes_on(self, c: Seq<char>, clean_start: bool) -> bool {
        !clean_start && self.sessions.contains_key(c) && self.sessions[c].session.expiry > 0
    }

    /// The full answer to a CONNECT.
    pub open spec fn full_answer(self, present: bool, assigned: Option<Seq<char>>) -> Seq<u8> {
        connack_accepting(
            present,
            connack_properties(
                Some(self.limits.receive_maximum),
                Some(self.limits.maximum_packet_size),
                assigned,
                Some(self.topic_alias_maximum),
            ),
        ).bytes()
    }

    /// The answer to a CONNECT and the topic aliases that the client may use: without the
    /// properties that can be left out where the client's limit asks for that. Nothing where
    /// that is still too large.
    pub open spec fn answer(self, present: bool, assigned: Option<Seq<char>>, maximum: u32) -> Option<
        (Seq<u8>, u16),
    > {
        let full = self.full_answer(present, assigned);
        let minimal = connack_accepting(
            present,
            connack_properties(None, None, assigned, None),
        ).bytes();
        if full.len() <= maximum {
            Some((full, self.topic_alias_maximum))
        } else if minimal.len() <= maximum {
            Some((minimal, 0u16))
        } else {
            None
        }
    }

    /// The session of a new connection, before it takes anything over.
    pub open spec fn fresh_session(self, c: Seq<char>, r: RequestView, aliases: u16) -> SessionView {
        let name = inbound::or_empty(r.username);
        SessionView {
            client: c,
            username: r.username,
            clean_start: r.clean_start,
            allow_all_read: config::authorized_for_all(self.auth, name, "read"@),
            allow_all_write: config::authorized_for_all(self.auth, name, "write"@),
            keep_alive: r.keep_alive,
            receive_maximum: r.receive_maximum,
            maximum_packet_size: r.maximum_packet_size,
            topic_alias_maximum: aliases,
            expiry: r.expiry,
            connected: true,
            aliases: Map::empty(),
            subscriptions: Set::empty(),
            published: 0,
            next_packet_id: 1,
            next_order: 1,
            in_flight: Map::empty(),
            outgoing_qos2: Map::empty(),
            incoming_qos2: Map::empty(),
            inbound_pending: Set::empty(),
            outbound_active: Set::empty(),
            disconnect_requested: false,
        }
    }

    /// The session of a new connection.
    pub open spec fn new_session(self, c: Seq<char>, r: RequestView, aliases: u16) -> SessionView {
        let fresh = self.fresh_session(c, r, aliases);
        if self.goes_on(c, r.clean_start) {
            let old_session = self.sessions[c].session;
            SessionView {
                subscriptions: old_session.subscriptions,
                in_flight: old_session.in_flight,
                incoming_qos2: old_session.incoming_qos2,
                outgoing_qos2: old_session.outgoing_qos2,
                inbound_pending: fresh.inbound_pending.union(old_session.incoming_qos2.dom()),
                ..fresh
            }
        } else {
            fresh
        }
    }

    /// A connection is taken over: that is counted, and the connection is remembered, unless it
    /// was to be closed already.
    pub open spec fn displacing(self, entry: EntryView) -> BrokerView {
        BrokerView {
            tallies: Tallies {
                session_takeovers: self.tallies.session_takeovers.wrapping_add(1),
                ..self.tallies
            },
            displaced: if entry.session.disconnect_requested {
                self.displaced
            } else {
                self.displaced.insert(entry.connection)
            },
            ..self
        }
    }

    /// Another connection takes the session of this one over: the client is told, and its Will
    /// is published unless the new connection goes on with the session before its delay is over.
    pub open spec fn take_over(
        self,
        c: Seq<char>,
        entry: EntryView,
        clean_start: bool,
        now_ms: u64,
        groups: Seq<Seq<u8>>,
    ) -> Step {
        let counted = self.displacing(entry);
        let told = packets::tagged_one(
            c,
            entry.connection,
            EffectView::Send(inbound::disconnect_packet(0x8E).bytes()),
        );
        let (broker, actions) = match entry.will {
            Some(w) => if publishes_on_takeover(w, clean_start, entry.session.expiry) {
                counted.publish_will_of(c, w, now_ms, groups)
            } else {
                counted.clear_will(c)
            },
            None => counted.clear_will(c),
        };
        (broker, told + actions + seq![ActionView::Close(c, entry.connection)])
    }

    /// The earlier session of a client ends, or goes on: what becomes of it and its Will before
    /// the new one is there.
    pub open spec fn make_room(
        self,
        c: Seq<char>,
        clean_start: bool,
        now_ms: u64,
        groups: Seq<Seq<u8>>,
    ) -> Step {
        if clean_start {
            let (broker, actions) = self.publish_pending(c, now_ms, groups);
            if self.sessions.contains_key(c) {
                after(actions, broker.discard(c))
            } else {
                (broker, actions)
            }
        } else {
            self.cancel_pending(c)
        }
    }

    /// A client is installed under an identifier: its session and its Will take the place of the
    /// earlier ones.
    pub open spec fn install(
        self,
        c: Seq<char>,
        r: RequestView,
        aliases: u16,
        now_ms: u64,
        order: ConnectOrder,
    ) -> Step {
        let (roomy, first) = self.make_room(c, r.clean_start, now_ms, order.pending);
        let (registered, second) = roomy.register(self.new_session(c, r, aliases), r.will);
        let (alone, third) = if self.taken_over(c) {
            registered.take_over(c, self.sessions[c], r.clean_start, now_ms, order.replaced)
        } else {
            (registered, Seq::empty())
        };
        let (willed, fourth) = match r.will {
            Some(w) => (
                alone,
                seq![ActionView::SaveWill(c, r.username, w, r.expiry, None)],
            ),
            None => alone.clear_will(c),
        };
        (willed, first + second + third + fourth)
    }

    /// Whether a client is connected already.
    pub open spec fn taken_over(self, c: Seq<char>) -> bool {
        self.sessions.contains_key(c) && self.sessions[c].session.connected
    }

    /// A client is accepted under an identifier: it is installed and gets its answer, and an
    /// earlier session goes on.
    pub open spec fn accept(
        self,
        c: Seq<char>,
        r: RequestView,
        answer: Seq<u8>,
        aliases: u16,
        now_ms: u64,
        order: ConnectOrder,
    ) -> Step {
        let (installed, actions) = self.install(c, r, aliases, now_ms, order);
        let front = actions + packets::tagged_one(
            c,
            self.new_connection(c, r, now_ms, order),
            EffectView::Send(answer),
        );
        if self.goes_on(c, r.clean_start) {
            let (last, more) = installed.sessions[c].session.window_reset().drained(now_ms);
            after(
                front,
                installed.session_step(c, (last, delivery::pubrels(order.completing) + more)),
            )
        } else {
            (installed, front)
        }
    }

    /// The number that the connection of a client gets.
    pub open spec fn new_connection(
        self,
        c: Seq<char>,
        r: RequestView,
        now_ms: u64,
        order: ConnectOrder,
    ) -> u64 {
        self.make_room(c, r.clean_start, now_ms, order.pending).0.next_ticket
    }

    /// What becomes of a CONNECT: the broker after it, and the outcome.
    pub open spec fn connect(
        self,
        r: RequestView,
        authenticated: bool,
        now_ms: u64,
        order: ConnectOrder,
    ) -> (BrokerView, ConnectView) {
        if !authenticated {
            (self, ConnectView::Refused(connack_refusing(0x86).bytes()))
        } else {
            let (broker, c) = self.identify(r, now_ms);
            let assigned = if r.client_id.len() == 0 {
                Some(c)
            } else {
                None
            };
            let present = broker.goes_on(c, r.clean_start);
            if broker.belongs_to_other(c, r.username) {
                (broker, ConnectView::Refused(connack_refusing(0x87).bytes()))
            } else {
                match broker.answer(present, assigned, r.maximum_packet_size) {
                    None => (broker, ConnectView::TooSmall),
                    Some((answer, aliases)) => {
                        let (end, actions) = broker.accept(c, r, answer, aliases, now_ms, order);
                        let connection = broker.new_connection(c, r, now_ms, order);
                        (end, ConnectView::Accepted(c, connection, present, actions))
                    },
                }
            }
        }
    }

    /// Whether an order fits the state in which a client is accepted.
    pub open spec fn order_fits(
        self,
        c: Seq<char>,
        r: RequestView,
        aliases: u16,
        now_ms: u64,
        order: ConnectOrder,
    ) -> bool {
        &&& r.clean_start ==> self.serves_pending(c, order.pending)
        &&& self.taken_over(c) && self.sessions[c].will is Some && publishes_on_takeover(
            self.sessions[c].will->0,
            r.clean_start,
            self.sessions[c].session.expiry,
        ) ==> model::reached_groups(
            self.make_room(c, r.clean_start, now_ms, order.pending).0.routes,
            self.sessions[c].will->0.topic,
            order.replaced,
        )
        &&& self.goes_on(c, r.clean_start) ==> ({
            let s = self.install(c, r, aliases, now_ms, order).0.sessions[c].session;
            order.completing.no_duplicates() && order.completing.to_set() == s.completing()
        })
    }

    /// Whether an order fits a CONNECT.
    pub open spec fn connect_order_fits(
        self,
        r: RequestView,
        now_ms: u64,
        order: ConnectOrder,
    ) -> bool {
        let (broker, c) = self.identify(r, now_ms);
        let assigned = if r.client_id.len() == 0 {
            Some(c)
        } else {
            None
        };
        match broker.answer(broker.goes_on(c, r.clean_start), assigned, r.maximum_packet_size) {
            Some((_, aliases)) => broker.order_fits(c, r, aliases, now_ms, order),
            None => true,
        }
    }
}

/// Whether a Will is published when its connection is taken over.
pub open spec fn publishes_on_takeover(
    w: WillMessageView,
    clean_start: bool,
    session_expiry: u32,
) -> bool {
    clean_start || w.delay_interval == 0 || session_expiry == 0
}

/// What becomes of a CONNECT.
pub enum ConnectOutcome {
    /// The connection is refused with this packet.
    Refused(Vec<u8>),
    /// The client's limit is too small for any answer: the connection is closed.
    TooSmall,
    /// The client is connected.
    Accepted(AcceptedClient),
}

/// A client that is connected.
pub struct AcceptedClient {
    /// The client identifier.
    pub client_id: String,
    /// The number of the connection.
    pub connection: u64,
    /// Whether an earlier session goes on.
    pub session_present: bool,
    /// What is to be done.
    pub actions: Vec<BrokerAction>,
}

impl View for ConnectOutcome {
    type V = ConnectView;

    open spec fn view(&self) -> ConnectView {
        match *self {
            ConnectOutcome::Refused(bytes) => ConnectView::Refused(bytes@),
            ConnectOutcome::TooSmall => ConnectView::TooSmall,
            ConnectOutcome::Accepted(a) => ConnectView::Accepted(
                a.client_id@,
                a.connection,
                a.session_present,
                state::actions_view(a.actions@),
            ),
        }
    }
}

/// The client identifier with a number that is assigned at a time.
fn make_candidate(now_ms: u64, n: u64) -> (r: String)
    ensures
        r@ == candidate(now_ms, n),
{
    let mut codes: Vec<u8> = vec![112u8, 105, 112, 45];
    push_hex(now_ms, &mut codes);
    let ghost front = codes@;
    codes.push(45);
    assert(text::all_ascii(codes@)) by {
        assert forall|i: int| 0 <= i < codes@.len() implies #[trigger] codes@[i] < 128 by {
            if i < front.len() {
                assert(codes@[i] == front[i]);
            }
        }
    }
    push_hex(n, &mut codes);
    assert(codes@ =~= seq![112u8, 105, 112, 45] + text::hex(now_ms as nat) + seq![45u8]
        + text::hex(n as nat));
    ascii_string(&codes)
}

/// Whether two names that may be absent are the same.
fn same_name(a: &Option<String>, b: &Option<String>) -> (r: bool)
    ensures
        r == (string_opt(*a) == string_opt(*b)),
{
    match (a, b) {
        (Some(x), Some(y)) => str_eq(x.as_str(), y.as_str()),
        (None, None) => true,
        _ => false,
    }
}

impl BrokerState {
    /// Assigns a client identifier that is not in use.
    pub fn allocate_client_id(&mut self, now_ms: u64) -> (id: String)
        requires
            old(self).wf(),
        ensures
            final(self).wf(),
            (final(self)@, id@) == old(self)@.assign(now_ms),
    {
        let ghost start = self@;
        let ghost want = start.free_number(now_ms, start.next_client, u64::MAX as nat);
        let mut n: u64 = self.next_client;
        let mut tries: u64 = u64::MAX;
        let mut id = make_candidate(now_ms, n);
        while tries > 0 && (self.sessions.contains_key(id.as_str())
            || self.pending_wills.contains_key(id.as_str()))
            invariant
                self.wf(),
                self@ == start,
                id@ == candidate(now_ms, n),
                start.free_number(now_ms, n, tries as nat) == want,
            decreases tries,
        {
            n = n.wrapping_add(1);
            tries = tries - 1;
            id = make_candidate(now_ms, n);
        }
        self.next_client = n.wrapping_add(1);
        id
    }

    /// Whether a client identifier belongs to somebody else.
    fn belongs_to_other(&self, client_id: &str, username: &Option<String>) -> (r: bool)
        ensures
            r == self@.belongs_to_other(client_id@, string_opt(*username)),
    {
        let other_session = match self.sessions.get(client_id) {
            Some(entry) => !same_name(&entry.session.username, username),
            None => false,
        };
        let other_will = match self.pending_wills.get(client_id) {
            Some(pending) => !same_name(&pending.username, username),
            None => false,
        };
        other_session || other_will
    }

    /// The answer to a CONNECT and the topic aliases that the client may use.
    fn negotiate(&self, present: bool, assigned: Option<&str>, maximum: u32) -> (r: Option<
        (Vec<u8>, u16),
    >)
        ensures
            match r {
                Some((answer, aliases)) => self@.answer(
                    present,
                    crate::codec::packet::text_opt(assigned),
                    maximum,
                ) == Some((answer@, aliases)),
                None => self@.answer(
                    present,
                    crate::codec::packet::text_opt(assigned),
                    maximum,
                ) is None,
            },
    {
        let full = encode_acceptance(
            present,
            Some(self.limits.receive_maximum),
            Some(self.limits.maximum_packet_size),
            assigned,
            Some(self.topic_alias_maximum),
        );
        if full.len() as u64 <= maximum as u64 {
            return Some((full, self.topic_alias_maximum));
        }
        let minimal = encode_acceptance(present, None, None, assigned, None);
        if minimal.len() as u64 <= maximum as u64 {
            return Some((minimal, 0));
        }
        None
    }

    /// The session of a new connection.
    fn make_session(&self, client_id: &str, request: &ConnectRequest, aliases: u16) -> (s:
        ClientSession)
        requires
            self.wf(),
        ensures
            s.wf(),
            s@ == self@.new_session(client_id@, request@, aliases),
    {
        let name = match &request.username {
            Some(name) => name.as_str(),
            None => "",
        };
        proof {
            reveal_strlit("");
            assert(""@ =~= Seq::<char>::empty());
        }
        let mut s = ClientSession::new(
            client_id.to_owned(),
            clone_text(&request.username),
            request.clean_start,
            self.auth.authorizes_all(name, "read"),
            self.auth.authorizes_all(name, "write"),
            request.keep_alive,
            request.receive_maximum,
            request.maximum_packet_size,
            request.session_expiry_interval,
        );
        s.set_topic_alias_maximum(aliases);
        if !request.clean_start {
            if let Some(entry) = self.sessions.get(client_id) {
                if entry.session.session_expiry_interval > 0 {
                    s.inherit(&entry.session);
                }
            }
        }
        s
    }

    /// The earlier session of a client ends, or goes on.
    fn make_room(&mut self, client_id: &str, clean_start: bool, now_ms: u64) -> (actions: Vec<
        BrokerAction,
    >)
        requires
            old(self).wf(),
        ensures
            final(self).wf(),
            exists|groups: Seq<Seq<u8>>| #[trigger]
                old(self)@.serves_pending(client_id@, groups) && (
                    final(self)@,
                    state::actions_view(actions@),
                ) == old(self)@.make_room(client_id@, clean_start, now_ms, groups),
    {
        let ghost start = self@;
        if clean_start {
            let existing = self.sessions.contains_key(client_id);
            let (_, published) = self.publish_pending_will_now(client_id, now_ms);
            let mut actions = published;
            if existing {
                let more = self.discard_session_state(client_id);
                append_actions(&mut actions, more);
            }
            actions
        } else {
            proof {
                let t = start.wills[client_id@].message.topic;
                crate::broker::publish::lemma_groups_exist(start.routes, t);
                let groups = choose|groups: Seq<Seq<u8>>| #[trigger]
                    model::reached_groups(start.routes, t, groups);
                assert(start.serves_pending(client_id@, groups));
            }
            let (_, actions) = self.cancel_pending_will(client_id);
            actions
        }
    }

    /// Another connection takes the session of this one over.
    fn take_over(
        &mut self,
        client_id: &str,
        connection: u64,
        will: Option<WillMessage>,
        session_expiry: u32,
        closing: bool,
        clean_start: bool,
        now_ms: u64,
        Ghost(entry): Ghost<EntryView>,
    ) -> (actions: Vec<BrokerAction>)
        requires
            old(self).wf(),
            entry.connection == connection,
            entry.will == state::will_opt(will),
            entry.session.expiry == session_expiry,
            entry.session.disconnect_requested == closing,
        ensures
            final(self).wf(),
            exists|groups: Seq<Seq<u8>>| #[trigger]
                takeover_groups(old(self)@, entry, clean_start, groups) && (
                    final(self)@,
                    state::actions_view(actions@),
                ) == old(self)@.take_over(client_id@, entry, clean_start, now_ms, groups),
    {
        let ghost start = self@;
        let ghost c = client_id@;
        self.tallies.session_takeovers = self.tallies.session_takeovers.wrapping_add(1);
        if !closing {
            let ghost before = self.displaced@;
            self.displaced.push(connection);
            proof {
                before.lemma_push_to_set_commute(connection);
            }
        }
        let ghost counted = self@;
        assert(counted == start.displacing(entry));
        let mut actions = just(
            BrokerAction::Session(
                client_id.to_owned(),
                connection,
                SessionEffect::Send(encode_disconnect(0x8E)),
            ),
        );
        let ghost mut groups: Seq<Seq<u8>> = Seq::empty();
        let more = match will {
            Some(message) => {
                let ghost w = message@;
                if clean_start || message.delay_interval == 0 || session_expiry == 0 {
                    let published = self.publish_will_for_client(client_id, message, now_ms);
                    proof {
                        groups = choose|g: Seq<Seq<u8>>| #[trigger]
                            model::reached_groups(counted.routes, w.topic, g) && (
                                self@,
                                state::actions_view(published@),
                            ) == counted.publish_will_of(c, w, now_ms, g);
                    }
                    published
                } else {
                    self.clear_persisted_will(client_id)
                }
            },
            None => self.clear_persisted_will(client_id),
        };
        append_actions(&mut actions, more);
        let closing = just(BrokerAction::Close(client_id.to_owned(), connection));
        append_actions(&mut actions, closing);
        proof {
            assert(takeover_groups(start, entry, clean_start, groups));
            assert((self@, state::actions_view(actions@)) == start.take_over(
                c,
                entry,
                clean_start,
                now_ms,
                groups,
            ));
        }
        actions
    }
}

impl BrokerState {
    /// Installs a client under an identifier: its session and its Will take the place of the
    /// earlier ones. Gives the number of the connection.
    fn install(&mut self, client_id: &str, request: &ConnectRequest, aliases: u16, now_ms: u64) -> (r:
        (u64, Vec<BrokerAction>))
        requires
            old(self).wf(),
        ensures
            final(self).wf(),
            final(self)@.sessions.contains_key(client_id@),
            exists|order: ConnectOrder| #[trigger]
                installs(old(self)@, client_id@, request@, now_ms, order) && (
                    final(self)@,
                    state::actions_view(r.1@),
                ) == old(self)@.install(client_id@, request@, aliases, now_ms, order) && r.0
                    == old(self)@.new_connection(client_id@, request@, now_ms, order),
    {
        let ghost start = self@;
        let ghost c = client_id@;
        let session = self.make_session(client_id, request, aliases);
        let mut earlier: Option<(u64, Option<WillMessage>, u32, bool)> = None;
        if let Some(entry) = self.sessions.get(client_id) {
            if entry.session.connected {
                earlier = Some(
                    (
                        entry.connection,
                        clone_will(&entry.will),
                        entry.session.session_expiry_interval,
                        entry.session.disconnect_requested,
                    ),
                );
            }
        }
        let mut actions = self.make_room(client_id, request.clean_start, now_ms);
        let ghost first = state::actions_view(actions@);
        let ghost roomy = self@;
        let ghost pending = choose|groups: Seq<Seq<u8>>| #[trigger]
            start.serves_pending(c, groups) && (roomy, first) == start.make_room(
                c,
                request.clean_start,
                now_ms,
                groups,
            );
        let (connection, second) = self.register_session(session, clone_will(&request.will));
        append_actions(&mut actions, second);
        let ghost registered = self@;
        let ghost before_third = state::actions_view(actions@);
        let ghost mut replaced: Seq<Seq<u8>> = Seq::empty();
        let third = match earlier {
            Some((old_connection, will, expiry, closing)) => {
                let taken = self.take_over(
                    client_id,
                    old_connection,
                    will,
                    expiry,
                    closing,
                    request.clean_start,
                    now_ms,
                    Ghost(start.sessions[c]),
                );
                proof {
                    replaced = choose|groups: Seq<Seq<u8>>| #[trigger]
                        takeover_groups(
                            registered,
                            start.sessions[c],
                            request.clean_start,
                            groups,
                        ) && (self@, state::actions_view(taken@)) == registered.take_over(
                            c,
                            start.sessions[c],
                            request.clean_start,
                            now_ms,
                            groups,
                        );
                }
                taken
            },
            None => nothing(),
        };
        append_actions(&mut actions, third);
        proof {
            if start.taken_over(c) {
                lemma_take_over_keeps(
                    registered,
                    c,
                    start.sessions[c],
                    request.clean_start,
                    now_ms,
                    replaced,
                );
            }
        }
        let fourth = match &request.will {
            Some(message) => BrokerState::persist_connection_will(
                client_id,
                &request.username,
                message,
                request.session_expiry_interval,
            ),
            None => self.clear_persisted_will(client_id),
        };
        append_actions(&mut actions, fourth);
        proof {
            let order = ConnectOrder { pending, replaced, completing: Seq::empty() };
            assert(installs(start, c, request@, now_ms, order));
            assert((self@, state::actions_view(actions@)) == start.install(
                c,
                request@,
                aliases,
                now_ms,
                order,
            ));
        }
        (connection, actions)
    }

    /// Lets the exchanges of an earlier session go on.
    fn resume(&mut self, client_id: &str, now_ms: u64) -> (actions: Vec<BrokerAction>)
        requires
            old(self).wf(),
            old(self)@.sessions.contains_key(client_id@),
        ensures
            final(self).wf(),
            exists|ids: Seq<u16>|
                {
                    let s = old(self)@.sessions[client_id@].session;
                    let (last, more) = s.window_reset().drained(now_ms);
                    &&& ids.no_duplicates()
                    &&& ids.to_set() == s.completing()
                    &&& (final(self)@, state::actions_view(actions@)) == old(self)@.session_step(
                        client_id@,
                        (last, #[trigger] delivery::pubrels(ids) + more),
                    )
                },
    {
        let ghost start = self@;
        let ghost was = self.sessions@;
        match self.sessions.remove(client_id) {
            Some(entry) => {
                let mut entry = entry;
                let connection: u64 = entry.connection;
                let effects = entry.session.resume_persistent_outgoing(now_ms);
                proof {
                    lemma_entry_inserted(was, client_id@, entry);
                }
                self.sessions.insert(client_id.to_owned(), entry);
                let actions = tag_effects(client_id, connection, effects);
                proof {
                    let s = start.sessions[client_id@].session;
                    let (last, more) = s.window_reset().drained(now_ms);
                    let ids = choose|ids: Seq<u16>|
                        {
                            &&& ids.no_duplicates()
                            &&& ids.to_set() == s.completing()
                            &&& (entry.session@, client::effects_view(effects@)) == (
                                last,
                                #[trigger] delivery::pubrels(ids) + more,
                            )
                        };
                    assert(self@ == start.with_session(client_id@, last));
                    assert((self@, state::actions_view(actions@)) == start.session_step(
                        client_id@,
                        (last, delivery::pubrels(ids) + more),
                    ));
                }
                actions
            },
            None => nothing(),
        }
    }

    /// Deals with a CONNECT of a client whose credentials have been checked.
    pub fn connect(&mut self, request: &ConnectRequest, authenticated: bool, now_ms: u64) -> (outcome:
        ConnectOutcome)
        requires
            old(self).wf(),
        ensures
            final(self).wf(),
            exists|order: ConnectOrder| #[trigger]
                old(self)@.connect_order_fits(request@, now_ms, order) && (
                    final(self)@,
                    outcome@,
                ) == old(self)@.connect(request@, authenticated, now_ms, order),
    {
        let ghost start = self@;
        let ghost r = request@;
        if !authenticated {
            proof {
                lemma_order_exists(start, r, now_ms);
            }
            return ConnectOutcome::Refused(encode_refusal(0x86));
        }
        let assign = is_blank(request.client_id.as_str());
        let client_id = if assign {
            self.allocate_client_id(now_ms)
        } else {
            request.client_id.clone()
        };
        let ghost c = client_id@;
        let ghost broker = self@;
        assert((broker, c) == start.identify(r, now_ms));
        if self.belongs_to_other(client_id.as_str(), &request.username) {
            proof {
                lemma_order_exists(start, r, now_ms);
            }
            return ConnectOutcome::Refused(encode_refusal(0x87));
        }
        let present = !request.clean_start && match self.sessions.get(client_id.as_str()) {
            Some(entry) => entry.session.session_expiry_interval > 0,
            None => false,
        };
        assert(present == broker.goes_on(c, r.clean_start));
        let assigned: Option<&str> = if assign {
            Some(client_id.as_str())
        } else {
            None
        };
        let (answer, aliases) = match self.negotiate(
            present,
            assigned,
            request.maximum_packet_size,
        ) {
            Some(parts) => parts,
            None => {
                proof {
                    lemma_order_exists(start, r, now_ms);
                }
                return ConnectOutcome::TooSmall;
            },
        };
        let ghost said = answer@;
        let (connection, installed) = self.install(client_id.as_str(), request, aliases, now_ms);
        let mut actions = installed;
        let ghost front = state::actions_view(actions@);
        let ghost middle = self@;
        let ghost part = choose|order: ConnectOrder| #[trigger]
            installs(broker, c, r, now_ms, order) && (middle, front) == broker.install(
                c,
                r,
                aliases,
                now_ms,
                order,
            ) && connection == broker.new_connection(c, r, now_ms, order);
        let said_action = just(
            BrokerAction::Session(client_id.clone(), connection, SessionEffect::Send(answer)),
        );
        append_actions(&mut actions, said_action);
        let ghost mut completing: Seq<u16> = Seq::empty();
        if present {
            let more = self.resume(client_id.as_str(), now_ms);
            proof {
                let s = middle.sessions[c].session;
                let (last, rest) = s.window_reset().drained(now_ms);
                completing = choose|ids: Seq<u16>|
                    {
                        &&& ids.no_duplicates()
                        &&& ids.to_set() == s.completing()
                        &&& (self@, state::actions_view(more@)) == middle.session_step(
                            c,
                            (last, #[trigger] delivery::pubrels(ids) + rest),
                        )
                    };
            }
            append_actions(&mut actions, more);
        }
        proof {
            let order = ConnectOrder { completing, ..part };
            assert(broker.install(c, r, aliases, now_ms, order) == broker.install(
                c,
                r,
                aliases,
                now_ms,
                part,
            ));
            assert(broker.new_connection(c, r, now_ms, order) == connection);
            assert(broker.order_fits(c, r, aliases, now_ms, order));
            assert(start.connect_order_fits(r, now_ms, order));
            assert((self@, state::actions_view(actions@)) == broker.accept(
                c,
                r,
                said,
                aliases,
                now_ms,
                order,
            ));
        }
        ConnectOutcome::Accepted(
            AcceptedClient { client_id, connection, session_present: present, actions },
        )
    }

    /// Checks the credentials of a client and deals with its CONNECT.
    pub fn authenticate_and_connect(&mut self, request: &ConnectRequest, now_ms: u64) -> (outcome:
        ConnectOutcome)
        requires
            old(self).wf(),
        ensures
            final(self).wf(),
            exists|order: ConnectOrder| #[trigger]
                old(self)@.connect_order_fits(request@, now_ms, order) && (
                    final(self)@,
                    outcome@,
                ) == old(self)@.connect(
                    request@,
                    (match handshake::credentials_of(request@) {
                        None => false,
                        Some((name, password)) => match old(self)@.auth {
                            None => true,
                            Some(users) => match config::user_named(users, name) {
                                None => false,
                                Some(user) => config::verifies(password, user.password_hash),
                            },
                        },
                    }),
                    now_ms,
                    order,
                ),
    {
        let authenticated = request.authenticate(&self.auth);
        self.connect(request, authenticated, now_ms)
    }
}

/// Copies a Will that may be absent.
fn clone_will(will: &Option<WillMessage>) -> (r: Option<WillMessage>)
    ensures
        state::will_opt(r) == state::will_opt(*will),
{
    match will {
        Some(w) => Some(w.clone()),
        None => None,
    }
}

/// Whether an order fits the first steps of accepting a client.
pub open spec fn installs(
    b: BrokerView,
    c: Seq<char>,
    r: RequestView,
    now_ms: u64,
    order: ConnectOrder,
) -> bool {
    &&& b.serves_pending(c, order.pending)
    &&& b.taken_over(c) ==> takeover_groups(
        b.make_room(c, r.clean_start, now_ms, order.pending).0,
        b.sessions[c],
        r.clean_start,
        order.replaced,
    )
}

/// Taking a connection over leaves the routes and the entry of the client as they are.
proof fn lemma_take_over_keeps(
    b: BrokerView,
    c: Seq<char>,
    entry: EntryView,
    clean_start: bool,
    now_ms: u64,
    groups: Seq<Seq<u8>>,
)
    requires
        b.sessions.contains_key(c),
    ensures
        b.take_over(c, entry, clean_start, now_ms, groups).0.sessions.contains_key(c),
{
    if entry.will is Some {
        crate::broker::publish::lemma_will_keeps_sessions(
            b.displacing(entry),
            c,
            entry.will->0,
            now_ms,
            groups,
        );
    }
}

/// There is an order that fits a CONNECT.
proof fn lemma_order_exists(b: BrokerView, r: RequestView, now_ms: u64)
    ensures
        exists|order: ConnectOrder| #[trigger] b.connect_order_fits(r, now_ms, order),
{
    let (broker, c) = b.identify(r, now_ms);
    let assigned = if r.client_id.len() == 0 {
        Some(c)
    } else {
        None
    };
    let present = broker.goes_on(c, r.clean_start);
    let pending = {
        let t = broker.wills[c].message.topic;
        crate::broker::publish::lemma_groups_exist(broker.routes, t);
        choose|groups: Seq<Seq<u8>>| #[trigger] model::reached_groups(broker.routes, t, groups)
    };
    let roomy = broker.make_room(c, r.clean_start, now_ms, pending).0;
    let replaced = {
        let t = broker.sessions[c].will->0.topic;
        crate::broker::publish::lemma_groups_exist(roomy.routes, t);
        choose|groups: Seq<Seq<u8>>| #[trigger] model::reached_groups(roomy.routes, t, groups)
    };
    let part = ConnectOrder { pending, replaced, completing: Seq::empty() };
    match broker.answer(present, assigned, r.maximum_packet_size) {
        Some((_, aliases)) => {
            let s = broker.install(c, r, aliases, now_ms, part).0.sessions[c].session;
            let all = s.completing();
            let completing = numbers_in(all, 65536);
            lemma_numbers_in(all, 65536);
            assert(completing.to_set() =~= all) by {
                assert forall|id: u16| completing.to_set().contains(id) == all.contains(id) by {
                    assert(completing.contains(id) == (all.contains(id) && id < 65536));
                }
            }
            let order = ConnectOrder { completing, ..part };
            assert(broker.install(c, r, aliases, now_ms, order) == broker.install(
                c,
                r,
                aliases,
                now_ms,
                part,
            ));
            assert(b.connect_order_fits(r, now_ms, order));
        },
        None => {
            assert(b.connect_order_fits(r, now_ms, part));
        },
    }
}

/// The numbers below `n` that are in a set, in their order.
spec fn numbers_in(s: Set<u16>, n: nat) -> Seq<u16>
    decreases n,
{
    if n == 0 {
        Seq::empty()
    } else {
        let front = numbers_in(s, (n - 1) as nat);
        if s.contains((n - 1) as u16) {
            front.push((n - 1) as u16)
        } else {
            front
        }
    }
}

/// The numbers below a bound that are in a set are each listed once.
proof fn lemma_numbers_in(s: Set<u16>, n: nat)
    requires
        n <= 65536,
    ensures
        numbers_in(s, n).no_duplicates(),
        forall|id: u16| #[trigger] numbers_in(s, n).contains(id) <==> (s.contains(id) && id < n),
    decreases n,
{
    if n > 0 {
        let front = numbers_in(s, (n - 1) as nat);
        let all = numbers_in(s, n);
        lemma_numbers_in(s, (n - 1) as nat);
        let last = (n - 1) as u16;
        assert(!front.contains(last));
        assert forall|id: u16| #[trigger] all.contains(id) <==> (s.contains(id) && id < n) by {
            if front.contains(id) {
                let k = choose|k: int| 0 <= k < front.len() && front[k] == id;
                assert(all[k] == id);
            }
            if id == last && s.contains(id) {
                assert(all[front.len() as int] == id);
            }
            if all.contains(id) && !front.contains(id) {
                let k = choose|k: int| 0 <= k < all.len() && all[k] == id;
                if k < front.len() {
                    assert(front[k] == id);
                }
            }
        }
    }
}

/// Whether the groups are those that the Will of a connection reaches that is taken over, where
/// it is published.
pub open spec fn takeover_groups(
    b: BrokerView,
    entry: EntryView,
    clean_start: bool,
    groups: Seq<Seq<u8>>,
) -> bool {
    entry.will is Some && publishes_on_takeover(
        entry.will->0,
        clean_start,
        entry.session.expiry,
    ) ==> model::reached_groups(b.routes, entry.will->0.topic, groups)
}

} // verus!
