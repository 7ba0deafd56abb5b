//! The state of the broker, and what its operations ask its surroundings to do.

use vstd::prelude::*;
use crate::broker::model;
use crate::broker::model::{
    ActionView, BrokerView, EntryView, PendingView, RetainedView, Tallies, WillMessageView,
};
use crate::broker::turns::Turns;
use crate::config::AuthConfig;
use crate::message::{clone_text, string_opt, ApplicationProperties};
use crate::policy::Limits;
use crate::registry::Registry;
use crate::router::topic_router::TopicRouter;
use crate::session::client;
use crate::session::client::{ClientSession, SessionEffect};
use crate::session::model::MessageView;
use crate::text::copy_bytes;

verus! {

/// A retained message.
#[derive(Debug)]
pub struct RetainedMessage {
    /// The topic.
    pub topic: String,
    /// The payload.
    pub payload: Vec<u8>,
    /// The quality of service.
    pub qos: u8,
    /// The properties.
    pub properties: ApplicationProperties,
}

/// A message that is published when a connection is lost.
#[derive(Debug)]
pub struct WillMessage {
    /// The topic.
    pub topic: String,
    /// The payload.
    pub payload: Vec<u8>,
    /// The quality of service.
    pub qos: u8,
    /// The retain flag.
    pub retain: bool,
    /// How long after the loss of the connection it is published, in seconds.
    pub delay_interval: u32,
    /// The properties.
    pub properties: ApplicationProperties,
}

/// A message for the bridge.
#[derive(Debug)]
pub struct BridgeMessage {
    /// The topic.
    pub topic: String,
    /// The payload.
    pub payload: Vec<u8>,
    /// The retain flag.
    pub retain: bool,
    /// The properties.
    pub properties: ApplicationProperties,
}

/// A packet on its way to a client.
#[derive(Debug)]
pub struct OutboundPacket {
    /// The packet.
    pub bytes: Vec<u8>,
    /// The packet identifier of the client whose place in the server's Receive Maximum is freed
    /// once the packet is written.
    pub release_inbound_packet_id: Option<u16>,
}

/// What became of a subscription.
#[derive(Debug, Clone, Copy, PartialEq, Eq, Structural)]
pub struct SubscribeOutcome {
    /// Whether it was accepted.
    pub accepted: bool,
    /// Whether the client did not have it before.
    pub is_new: bool,
}

impl View for RetainedMessage {
    type V = RetainedView;

    open spec fn view(&self) -> RetainedView {
        RetainedView {
            topic: self.topic@,
            payload: self.payload@,
            qos: self.qos,
            properties: self.properties@,
        }
    }
}

impl View for WillMessage {
    type V = WillMessageView;

    open spec fn view(&self) -> WillMessageView {
        WillMessageView {
            topic: self.topic@,
            payload: self.payload@,
            qos: self.qos,
            retain: self.retain,
            delay_interval: self.delay_interval,
            properties: self.properties@,
        }
    }
}

impl View for BridgeMessage {
    type V = MessageView;

    open spec fn view(&self) -> MessageView {
        MessageView {
            topic: self.topic@,
            payload: self.payload@,
            retain: self.retain,
            subscription_identifier: None,
            properties: self.properties@,
        }
    }
}

impl Clone for RetainedMessage {
    fn clone(&self) -> (r: Self)
        ensures
            r@ == self@,
    {
        RetainedMessage {
            topic: self.topic.clone(),
            payload: copy_bytes(self.payload.as_slice()),
            qos: self.qos,
            properties: self.properties.clone(),
        }
    }
}

impl Clone for WillMessage {
    fn clone(&self) -> (r: Self)
        ensures
            r@ == self@,
    {
        WillMessage {
            topic: self.topic.clone(),
            payload: copy_bytes(self.payload.as_slice()),
            qos: self.qos,
            retain: self.retain,
            delay_interval: self.delay_interval,
            properties: self.properties.clone(),
        }
    }
}

impl Clone for BridgeMessage {
    fn clone(&self) -> (r: Self)
        ensures
            r@ == self@,
    {
        BridgeMessage {
            topic: self.topic.clone(),
            payload: copy_bytes(self.payload.as_slice()),
            retain: self.retain,
            properties: self.properties.clone(),
        }
    }
}

/// A Will that waits to be published.
#[derive(Debug)]
pub struct PendingWill {
    /// The Will.
    pub message: WillMessage,
    /// Whose it is.
    pub username: Option<String>,
    /// The number of the timer that publishes it.
    pub ticket: u64,
}

impl View for PendingWill {
    type V = PendingView;

    open spec fn view(&self) -> PendingView {
        PendingView {
            message: self.message@,
            username: string_opt(self.username),
            ticket: self.ticket,
        }
    }
}

/// The content of a Will that may be absent.
pub open spec fn will_opt(will: Option<WillMessage>) -> Option<WillMessageView> {
    match will {
        Some(w) => Some(w@),
        None => None,
    }
}

/// A session and the connection that it belongs to.
#[derive(Debug)]
pub struct Registered {
    /// The session.
    pub session: ClientSession,
    /// The number of the connection.
    pub connection: u64,
    /// The Will of the connection.
    pub will: Option<WillMessage>,
}

impl View for Registered {
    type V = EntryView;

    open spec fn view(&self) -> EntryView {
        EntryView {
            session: self.session@,
            connection: self.connection,
            will: will_opt(self.will),
        }
    }
}

/// What the broker asks its surroundings to do.
#[derive(Debug)]
pub enum BrokerAction {
    /// Do this for a session, on the given connection of the client.
    Session(String, u64, SessionEffect),
    /// Forward a message over the bridge.
    Forward(BridgeMessage),
    /// Store a retained message.
    SaveRetained(RetainedMessage),
    /// Forget the retained message of a topic.
    DeleteRetained(String),
    /// Store a subscription: client, filter, quality of service, identifier and options.
    SaveSubscription(String, String, u8, Option<u32>, u8),
    /// Forget a subscription.
    DeleteSubscription(String, String),
    /// Store a session as connected: client, user, Clean Start and expiry.
    SaveSession(String, Option<String>, bool, u32),
    /// Note that a client is not connected any more.
    MarkOffline(String),
    /// Forget a session with all that belongs to it.
    DeleteSession(String),
    /// Store a Will: client, user, Will, session expiry, and when it is due.
    SaveWill(String, Option<String>, WillMessage, u32, Option<u64>),
    /// Forget the Will of a client.
    DeleteWill(String),
    /// After so many milliseconds, let the Will with this number be published.
    ArmWill(String, u64, u64),
    /// After so many seconds, let the session of this connection end.
    ArmExpiry(String, u64, u64),
    /// Close a connection of a client.
    Close(String, u64),
}

impl View for BrokerAction {
    type V = ActionView;

    open spec fn view(&self) -> ActionView {
        match *self {
            BrokerAction::Session(client, connection, effect) => ActionView::Session(
                client@,
                connection,
                effect@,
            ),
            BrokerAction::Forward(m) => ActionView::Forward(m@),
            BrokerAction::SaveRetained(m) => ActionView::SaveRetained(m@),
            BrokerAction::DeleteRetained(t) => ActionView::DeleteRetained(t@),
            BrokerAction::SaveSubscription(client, filter, qos, id, options) =>
                ActionView::SaveSubscription(client@, filter@, qos, id, options),
            BrokerAction::DeleteSubscription(client, filter) => ActionView::DeleteSubscription(
                client@,
                filter@,
            ),
            BrokerAction::SaveSession(client, username, clean, expiry) => ActionView::SaveSession(
                client@,
                string_opt(username),
                clean,
                expiry,
            ),
            BrokerAction::MarkOffline(client) => ActionView::MarkOffline(client@),
            BrokerAction::DeleteSession(client) => ActionView::DeleteSession(client@),
            BrokerAction::SaveWill(client, username, will, expiry, due) => ActionView::SaveWill(
                client@,
                string_opt(username),
                will@,
                expiry,
                due,
            ),
            BrokerAction::DeleteWill(client) => ActionView::DeleteWill(client@),
            BrokerAction::ArmWill(client, ticket, ms) => ActionView::ArmWill(client@, ticket, ms),
            BrokerAction::ArmExpiry(client, connection, seconds) => ActionView::ArmExpiry(
                client@,
                connection,
                seconds,
            ),
            BrokerAction::Close(client, connection) => ActionView::Close(client@, connection),
        }
    }
}

/// The content of a list of actions.
pub open spec fn actions_view(list: Seq<BrokerAction>) -> Seq<ActionView> {
    Seq::new(list.len(), |i: int| list[i]@)
}

/// The content of a list of retained messages.
pub open spec fn retained_view(list: Seq<RetainedMessage>) -> Seq<RetainedView> {
    Seq::new(list.len(), |i: int| list[i]@)
}

/// The content of registered sessions.
pub open spec fn entries_view(m: Map<Seq<char>, Registered>) -> Map<Seq<char>, EntryView> {
    Map::new(|c: Seq<char>| m.contains_key(c), |c: Seq<char>| m[c]@)
}

/// The content of Wills that wait.
pub open spec fn pending_view(m: Map<Seq<char>, PendingWill>) -> Map<Seq<char>, PendingView> {
    Map::new(|c: Seq<char>| m.contains_key(c), |c: Seq<char>| m[c]@)
}

/// The state of the broker.
pub struct BrokerState {
    /// The router.
    pub router: TopicRouter,
    /// The sessions, by client.
    pub sessions: Registry<Registered>,
    /// The retained messages, one for a topic.
    pub retained: Vec<RetainedMessage>,
    /// The Wills that wait, by client.
    pub pending_wills: Registry<PendingWill>,
    /// How often each group of shared subscriptions was served.
    pub turns: Turns,
    /// Authentication and access control.
    pub auth: AuthConfig,
    /// The limits.
    pub limits: Limits,
    /// The largest topic alias that clients may use.
    pub topic_alias_maximum: u16,
    /// Topics with this beginning are forwarded, where there is a bridge.
    pub bridge_prefix: Option<String>,
    /// Whether there is a bridge that messages are forwarded to.
    pub bridge_active: bool,
    /// The number of the next assigned client identifier.
    pub next_client: u64,
    /// The number of the next connection or timer.
    pub next_ticket: u64,
    /// The connections that were taken over by another of their client, are not closed yet, and
    /// of which no wait took too long.
    pub displaced: Vec<u64>,
    /// The counters.
    pub tallies: Tallies,
}

impl View for BrokerState {
    type V = BrokerView;

    open spec fn view(&self) -> BrokerView {
        BrokerView {
            routes: self.router@,
            sessions: entries_view(self.sessions@),
            retained: retained_view(self.retained@),
            wills: pending_view(self.pending_wills@),
            served: self.turns@,
            auth: self.auth@,
            limits: self.limits,
            topic_alias_maximum: self.topic_alias_maximum,
            bridge: string_opt(self.bridge_prefix),
            bridge_active: self.bridge_active,
            next_client: self.next_client,
            next_ticket: self.next_ticket,
            displaced: self.displaced@.to_set(),
            tallies: self.tallies,
        }
    }
}

/// Appends actions.
pub(crate) fn append_actions(list: &mut Vec<BrokerAction>, more: Vec<BrokerAction>)
    ensures
        actions_view(final(list)@) == actions_view(old(list)@) + actions_view(more@),
{
    let ghost added = more@;
    let mut more = more;
    list.append(&mut more);
    assert(actions_view(list@) =~= actions_view(old(list)@) + actions_view(added));
}

/// The effects of a session as actions for one of its connections.
pub(crate) fn tag_effects(
    client: &str,
    connection: u64,
    effects: Vec<SessionEffect>,
) -> (r: Vec<BrokerAction>)
    ensures
        actions_view(r@) == model::tagged(client@, connection, client::effects_view(effects@)),
{
    let ghost all = effects@;
    let mut r: Vec<BrokerAction> = Vec::new();
    for effect in it: effects
        invariant
            it.seq() == all,
            r@.len() == it.index(),
            forall|i: int|
                0 <= i < r@.len() ==> (#[trigger] r@[i])@ == ActionView::Session(
                    client@,
                    connection,
                    all[i]@,
                ),
    {
        r.push(BrokerAction::Session(client.to_owned(), connection, effect));
    }
    assert(actions_view(r@) =~= model::tagged(client@, connection, client::effects_view(all)));
    r
}

impl BrokerState {
    /// The router and every session are well-formed, and a bridge that is set up is active.
    pub open spec fn wf(&self) -> bool {
        &&& self.router.wf()
        &&& self.bridge_prefix is Some <==> self.bridge_active
        &&& forall|c: Seq<char>| #[trigger]
            self.sessions@.contains_key(c) ==> self.sessions@[c].session.wf()
    }

    /// A broker without sessions.
    pub fn new(auth: AuthConfig, limits: Limits, topic_alias_maximum: u16) -> (r: Self)
        ensures
            r.wf(),
            r@ == (BrokerView {
                routes: Seq::empty(),
                sessions: Map::empty(),
                retained: Seq::empty(),
                wills: Map::empty(),
                served: Map::empty(),
                auth: auth@,
                limits,
                topic_alias_maximum,
                bridge: None,
                bridge_active: false,
                next_client: 1,
                next_ticket: 1,
                displaced: Set::empty(),
                tallies: Tallies {
                    messages_published_retired: 0,
                    subscriptions: 0,
                    subscription_quota_rejections: 0,
                    session_takeovers: 0,
                    wills_published: 0,
                },
            }),
    {
        let r = BrokerState {
            router: TopicRouter::new(),
            sessions: Registry::new(),
            retained: Vec::new(),
            pending_wills: Registry::new(),
            turns: Turns::new(),
            auth,
            limits,
            topic_alias_maximum,
            bridge_prefix: None,
            bridge_active: false,
            next_client: 1,
            next_ticket: 1,
            displaced: Vec::new(),
            tallies: Tallies {
                messages_published_retired: 0,
                subscriptions: 0,
                subscription_quota_rejections: 0,
                session_takeovers: 0,
                wills_published: 0,
            },
        };
        proof {
            assert(r@.sessions =~= Map::empty());
            assert(r@.wills =~= Map::empty());
            assert(r@.displaced =~= Set::empty());
            assert(r@.retained =~= Seq::empty());
        }
        r
    }

    /// Whether a client has a session.
    pub fn existing_session(&self, client_id: &str) -> (r: Option<&ClientSession>)
        ensures
            match r {
                Some(s) => self@.sessions.contains_key(client_id@) && s@
                    == self@.sessions[client_id@].session,
                None => !self@.sessions.contains_key(client_id@),
            },
    {
        match self.sessions.get(client_id) {
            Some(entry) => Some(&entry.session),
            None => None,
        }
    }

    /// How many Wills wait to be published.
    pub fn pending_wills_count(&self) -> (n: usize)
        ensures
            n == self@.wills.dom().len(),
    {
        assert(self@.wills.dom() =~= self.pending_wills@.dom());
        self.pending_wills.len()
    }

    /// Whose Will waits under a client identifier, where one does.
    pub fn pending_will_principal(&self, client_id: &str) -> (r: Option<Option<String>>)
        ensures
            match r {
                Some(owner) => self@.wills.contains_key(client_id@) && string_opt(owner)
                    == self@.wills[client_id@].username,
                None => !self@.wills.contains_key(client_id@),
            },
    {
        match self.pending_wills.get(client_id) {
            Some(pending) => Some(clone_text(&pending.username)),
            None => None,
        }
    }
}

} // verus!
