//! The mathematical model of the broker.

use vstd::prelude::*;
use vstd::utf8;
use crate::config::AuthView;
use crate::message::ApplicationView;
use crate::policy::Limits;
use crate::router::table;
use crate::router::table::{InfoView, Route};
use crate::router::topic_router::route_for;
use crate::session::model::{EffectView, MessageView, SessionView};
use crate::text::begins_with;
use crate::topic;

verus! {

/// A retained message.
#[verifier::ext_equal]
pub struct RetainedView {
    /// The topic.
    pub topic: Seq<char>,
    /// The payload.
    pub payload: Seq<u8>,
    /// The quality of service.
    pub qos: u8,
    /// The properties.
    pub properties: ApplicationView,
}

/// A Will.
#[verifier::ext_equal]
pub struct WillMessageView {
    /// The topic.
    pub topic: Seq<char>,
    /// The payload.
    pub payload: Seq<u8>,
    /// The quality of service.
    pub qos: u8,
    /// The retain flag.
    pub retain: bool,
    /// How long after the loss of the connection it is published, in seconds.
    pub delay_interval: u32,
    /// The properties.
    pub properties: ApplicationView,
}

/// A Will that waits to be published.
#[verifier::ext_equal]
pub struct PendingView {
    /// The Will.
    pub message: WillMessageView,
    /// Whose it is.
    pub username: Option<Seq<char>>,
    /// The number of the timer that publishes it.
    pub ticket: u64,
}

/// A session and the connection that it belongs to.
#[verifier::ext_equal]
pub struct EntryView {
    /// The session.
    pub session: SessionView,
    /// The number of the connection.
    pub connection: u64,
    /// The Will of the connection.
    pub will: Option<WillMessageView>,
}

/// Counters for monitoring. They wrap around at 2^64.
#[derive(Debug, Clone, Copy, PartialEq, Eq, Structural)]
pub struct Tallies {
    /// Messages published by sessions that are gone, and by Wills.
    pub messages_published_retired: u64,
    /// Accepted subscriptions.
    pub subscriptions: u64,
    /// Subscriptions refused for the client's quota.
    pub subscription_quota_rejections: u64,
    /// Connections that were taken over by another of the same client.
    pub session_takeovers: u64,
    /// Published Wills.
    pub wills_published: u64,
}

/// What the broker asks its surroundings to do.
#[verifier::ext_equal]
pub enum ActionView {
    /// Do this for a session, on the given connection of the client.
    Session(Seq<char>, u64, EffectView),
    /// Forward a message over the bridge.
    Forward(MessageView),
    /// Store a retained message.
    SaveRetained(RetainedView),
    /// Forget the retained message of a topic.
    DeleteRetained(Seq<char>),
    /// Store a subscription: client, filter, quality of service, identifier and options.
    SaveSubscription(Seq<char>, Seq<char>, u8, Option<u32>, u8),
    /// Forget a subscription.
    DeleteSubscription(Seq<char>, Seq<char>),
    /// Store a session as connected: client, user, Clean Start and expiry.
    SaveSession(Seq<char>, Option<Seq<char>>, bool, u32),
    /// Note that a client is not connected any more.
    MarkOffline(Seq<char>),
    /// Forget a session with all that belongs to it.
    DeleteSession(Seq<char>),
    /// Store a Will: client, user, Will, session expiry, and when it is due.
    SaveWill(Seq<char>, Option<Seq<char>>, WillMessageView, u32, Option<u64>),
    /// Forget the Will of a client.
    DeleteWill(Seq<char>),
    /// After so many milliseconds, let the Will with this number be published.
    ArmWill(Seq<char>, u64, u64),
    /// After so many seconds, let the session of this connection end.
    ArmExpiry(Seq<char>, u64, u64),
    /// Close a connection of a client.
    Close(Seq<char>, u64),
}

/// The state of the broker.
#[verifier::ext_equal]
pub struct BrokerView {
    /// The routes.
    pub routes: Seq<Route>,
    /// The sessions, by client.
    pub sessions: Map<Seq<char>, EntryView>,
    /// The retained messages, one for a topic.
    pub retained: Seq<RetainedView>,
    /// The Wills that wait, by client.
    pub wills: Map<Seq<char>, PendingView>,
    /// How often each group of shared subscriptions was served.
    pub served: Map<Seq<u8>, u64>,
    /// Authentication and access control.
    pub auth: AuthView,
    /// The limits.
    pub limits: Limits,
    /// The largest topic alias that clients may use.
    pub topic_alias_maximum: u16,
    /// Topics with this beginning are forwarded, where there is a bridge.
    pub bridge: Option<Seq<char>>,
    /// Whether there is a bridge that messages are forwarded to.
    pub bridge_active: bool,
    /// The number of the next assigned client identifier.
    pub next_client: u64,
    /// The number of the next connection or timer.
    pub next_ticket: u64,
    /// The connections that were taken over by another of their client, are not closed yet, and
    /// of which no wait took too long.
    pub displaced: Set<u64>,
    /// The counters.
    pub tallies: Tallies,
}

/// The effects of a session, as actions for one of its connections.
pub open spec fn tagged(client: Seq<char>, connection: u64, effects: Seq<EffectView>) -> Seq<
    ActionView,
> {
    Seq::new(effects.len(), |i: int| ActionView::Session(client, connection, effects[i]))
}

/// The smaller of two levels of quality of service.
pub open spec fn least(a: u8, b: u8) -> u8 {
    if a <= b {
        a
    } else {
        b
    }
}

/// How often a group was served.
pub open spec fn times_served(served: Map<Seq<u8>, u64>, group: Seq<u8>) -> u64 {
    if served.contains_key(group) {
        served[group]
    } else {
        0
    }
}

/// The levels of a topic.
pub open spec fn topic_levels(t: Seq<char>) -> Seq<Seq<u8>> {
    topic::levels(utf8::encode_utf8(t))
}

/// Whether these are the groups that a message for a topic reaches, each once.
pub open spec fn reached_groups(routes: Seq<Route>, t: Seq<char>, groups: Seq<Seq<u8>>) -> bool {
    &&& groups.no_duplicates()
    &&& forall|g: Seq<u8>| #[trigger]
        groups.contains(g) <==> table::routed(routes, Some(g), Seq::empty(), topic_levels(t)).len()
            > 0
}

/// Whether a topic matches the filter of a subscription.
pub open spec fn matches_filter(t: Seq<char>, filter: Seq<char>) -> bool {
    topic::levels_match(
        topic_levels(t),
        topic::levels(topic::plain_filter(utf8::encode_utf8(filter))),
    )
}

/// The retained messages but that of a topic.
pub open spec fn without_topic(retained: Seq<RetainedView>, t: Seq<char>) -> Seq<RetainedView>
    decreases retained.len(),
{
    if retained.len() == 0 {
        Seq::empty()
    } else {
        let front = without_topic(retained.drop_last(), t);
        if retained.last().topic == t {
            front
        } else {
            front.push(retained.last())
        }
    }
}

/// The retained messages that match a filter and have not expired.
pub open spec fn live(retained: Seq<RetainedView>, filter: Seq<char>, now_ms: u64) -> Seq<
    RetainedView,
>
    decreases retained.len(),
{
    if retained.len() == 0 {
        Seq::empty()
    } else {
        let front = live(retained.drop_last(), filter, now_ms);
        let last = retained.last();
        if matches_filter(last.topic, filter) && !last.properties.expired(now_ms) {
            front.push(last)
        } else {
            front
        }
    }
}

/// The retained messages but those that match a filter and have expired.
pub open spec fn not_stale(retained: Seq<RetainedView>, filter: Seq<char>, now_ms: u64) -> Seq<
    RetainedView,
>
    decreases retained.len(),
{
    if retained.len() == 0 {
        Seq::empty()
    } else {
        let front = not_stale(retained.drop_last(), filter, now_ms);
        let last = retained.last();
        if matches_filter(last.topic, filter) && last.properties.expired(now_ms) {
            front
        } else {
            front.push(last)
        }
    }
}

/// Forgetting the retained messages that match a filter and have expired.
pub open spec fn stale_deleted(retained: Seq<RetainedView>, filter: Seq<char>, now_ms: u64) -> Seq<
    ActionView,
>
    decreases retained.len(),
{
    if retained.len() == 0 {
        Seq::empty()
    } else {
        let front = stale_deleted(retained.drop_last(), filter, now_ms);
        let last = retained.last();
        if matches_filter(last.topic, filter) && last.properties.expired(now_ms) {
            front.push(ActionView::DeleteRetained(last.topic))
        } else {
            front
        }
    }
}

/// A message that is published.
#[verifier::ext_equal]
pub struct PublishedView {
    /// The topic.
    pub topic: Seq<char>,
    /// The payload.
    pub payload: Seq<u8>,
    /// The quality of service.
    pub qos: u8,
    /// The retain flag.
    pub retain: bool,
    /// The properties.
    pub properties: ApplicationView,
}

impl PublishedView {
    /// The message as a subscriber gets it.
    pub open spec fn for_subscriber(self, info: InfoView) -> MessageView {
        MessageView {
            topic: self.topic,
            payload: self.payload,
            retain: self.retain && info.retain_as_published,
            subscription_identifier: info.subscription_identifier,
            properties: self.properties,
        }
    }

    /// The message as the bridge gets it.
    pub open spec fn for_bridge(self) -> MessageView {
        MessageView {
            topic: self.topic,
            payload: self.payload,
            retain: self.retain,
            subscription_identifier: None,
            properties: self.properties,
        }
    }
}

/// The name under which the bridge publishes.
pub open spec fn bridge_client() -> Seq<char> {
    "bridge_client"@
}

/// The state of the broker after something, and what is to be done.
pub type Step = (BrokerView, Seq<ActionView>);

/// One step after another: what the second adds to what is to be done.
pub open spec fn after(first: Seq<ActionView>, second: Step) -> Step {
    (second.0, first + second.1)
}

impl BrokerView {
    /// The broker with another session of a client.
    pub open spec fn with_session(self, client: Seq<char>, session: SessionView) -> BrokerView {
        BrokerView {
            sessions: self.sessions.insert(
                client,
                EntryView { session, ..self.sessions[client] },
            ),
            ..self
        }
    }

    /// Carries a change of a client's session over.
    pub open spec fn session_step(
        self,
        client: Seq<char>,
        change: (SessionView, Seq<EffectView>),
    ) -> Step {
        (
            self.with_session(client, change.0),
            tagged(client, self.sessions[client].connection, change.1),
        )
    }

    /// Queues a message for a client, where it has a session.
    pub open spec fn deliver(self, client: Seq<char>, m: MessageView, qos: u8, now_ms: u64) -> Step {
        if self.sessions.contains_key(client) {
            self.session_step(client, self.sessions[client].session.enqueue(m, qos, now_ms))
        } else {
            (self, Seq::empty())
        }
    }

    /// Queues a published message for the first `n` subscribers of a list, but for whoever
    /// published it and does not want their own messages.
    pub open spec fn deliver_to(
        self,
        list: Seq<InfoView>,
        n: nat,
        from: Seq<char>,
        p: PublishedView,
        now_ms: u64,
    ) -> Step
        decreases n,
    {
        if n == 0 {
            (self, Seq::empty())
        } else {
            let (broker, actions) = self.deliver_to(list, (n - 1) as nat, from, p, now_ms);
            let info = list[n - 1];
            if info.no_local && info.client == from {
                (broker, actions)
            } else {
                after(
                    actions,
                    broker.deliver(
                        info.client,
                        p.for_subscriber(info),
                        least(p.qos, info.qos),
                        now_ms,
                    ),
                )
            }
        }
    }

    /// Queues a published message for one member of a group: they take turns.
    pub open spec fn serve(self, group: Seq<u8>, p: PublishedView, now_ms: u64) -> Step {
        let members = table::routed(self.routes, Some(group), Seq::empty(), topic_levels(p.topic));
        let turn = times_served(self.served, group);
        let info = members[turn as int % members.len() as int];
        BrokerView { served: self.served.insert(group, turn.wrapping_add(1)), ..self }.deliver(
            info.client,
            p.for_subscriber(info),
            least(p.qos, info.qos),
            now_ms,
        )
    }

    /// Queues a published message for one member of each of the first `n` groups.
    pub open spec fn serve_groups(
        self,
        groups: Seq<Seq<u8>>,
        n: nat,
        p: PublishedView,
        now_ms: u64,
    ) -> Step
        decreases n,
    {
        if n == 0 {
            (self, Seq::empty())
        } else {
            let (broker, actions) = self.serve_groups(groups, (n - 1) as nat, p, now_ms);
            after(actions, broker.serve(groups[n - 1], p, now_ms))
        }
    }

    /// Whether a message that somebody publishes on a topic goes over the bridge.
    pub open spec fn forwards(self, from: Seq<char>, t: Seq<char>) -> bool {
        from != bridge_client() && match self.bridge {
            Some(prefix) => begins_with(t, prefix),
            None => false,
        }
    }

    /// A message is published: it goes over the bridge, to each subscriber, and to one member of
    /// each group of shared subscriptions, in the given order of groups. A message that has
    /// expired goes nowhere.
    pub open spec fn route(
        self,
        from: Seq<char>,
        p: PublishedView,
        now_ms: u64,
        groups: Seq<Seq<u8>>,
    ) -> Step {
        if p.properties.expired(now_ms) || (self.routes.len() == 0 && !self.bridge_active) {
            (self, Seq::empty())
        } else {
            let forwarded = if self.forwards(from, p.topic) {
                seq![ActionView::Forward(p.for_bridge())]
            } else {
                Seq::empty()
            };
            let list = table::routed(self.routes, None, Seq::empty(), topic_levels(p.topic));
            let (broker, actions) = self.deliver_to(list, list.len(), from, p, now_ms);
            after(forwarded + actions, broker.serve_groups(groups, groups.len(), p, now_ms))
        }
    }

    /// A message is to be retained: it replaces that of its topic. One that is empty or has
    /// expired removes it.
    pub open spec fn retain(
        self,
        t: Seq<char>,
        payload: Seq<u8>,
        qos: u8,
        properties: ApplicationView,
        now_ms: u64,
    ) -> Step {
        let rest = without_topic(self.retained, t);
        if payload.len() == 0 || properties.expired(now_ms) {
            (BrokerView { retained: rest, ..self }, seq![ActionView::DeleteRetained(t)])
        } else {
            let message = RetainedView { topic: t, payload, qos, properties };
            (
                BrokerView { retained: rest.push(message), ..self },
                seq![ActionView::SaveRetained(message)],
            )
        }
    }

    /// Queues the first `n` of a list of retained messages for a client.
    pub open spec fn replay_to(
        self,
        client: Seq<char>,
        list: Seq<RetainedView>,
        n: nat,
        granted_qos: u8,
        subscription_identifier: Option<u32>,
        now_ms: u64,
    ) -> Step
        decreases n,
    {
        if n == 0 {
            (self, Seq::empty())
        } else {
            let (broker, actions) = self.replay_to(
                client,
                list,
                (n - 1) as nat,
                granted_qos,
                subscription_identifier,
                now_ms,
            );
            let r = list[n - 1];
            after(
                actions,
                broker.deliver(
                    client,
                    MessageView {
                        topic: r.topic,
                        payload: r.payload,
                        retain: true,
                        subscription_identifier,
                        properties: r.properties,
                    },
                    least(r.qos, granted_qos),
                    now_ms,
                ),
            )
        }
    }

    /// A client has subscribed: it gets the retained messages that match the filter; those that
    /// have expired are forgotten.
    pub open spec fn replay(
        self,
        client: Seq<char>,
        filter: Seq<char>,
        granted_qos: u8,
        subscription_identifier: Option<u32>,
        now_ms: u64,
    ) -> Step {
        let list = live(self.retained, filter, now_ms);
        let cleaned = BrokerView {
            retained: not_stale(self.retained, filter, now_ms),
            ..self
        };
        after(
            stale_deleted(self.retained, filter, now_ms),
            cleaned.replay_to(
                client,
                list,
                list.len(),
                granted_qos,
                subscription_identifier,
                now_ms,
            ),
        )
    }

    /// Whether a client may not subscribe to one more filter.
    pub open spec fn over_quota(self, client: Seq<char>, filter: Seq<char>) -> bool {
        self.sessions.contains_key(client) && ({
            let filters = self.sessions[client].session.subscriptions;
            !filters.contains(filter) && filters.len() >= self.limits.max_subscriptions_per_client
        })
    }

    /// Whether a filter is new to a client.
    pub open spec fn is_new(self, client: Seq<char>, filter: Seq<char>) -> bool {
        self.sessions.contains_key(client)
            ==> !self.sessions[client].session.subscriptions.contains(filter)
    }

    /// A client subscribes to a filter, unless it is over its quota.
    pub open spec fn subscribe(
        self,
        client: Seq<char>,
        filter: Seq<char>,
        qos: u8,
        subscription_identifier: Option<u32>,
        options: u8,
    ) -> Step {
        if self.over_quota(client, filter) {
            (
                BrokerView {
                    tallies: Tallies {
                        subscription_quota_rejections:
                            self.tallies.subscription_quota_rejections.wrapping_add(1),
                        ..self.tallies
                    },
                    ..self
                },
                Seq::empty(),
            )
        } else {
            let noted = if self.sessions.contains_key(client) {
                let session = self.sessions[client].session;
                self.with_session(
                    client,
                    SessionView {
                        subscriptions: session.subscriptions.insert(filter),
                        ..session
                    },
                )
            } else {
                self
            };
            (
                BrokerView {
                    routes: table::subscribed(
                        self.routes,
                        route_for(
                            utf8::encode_utf8(filter),
                            InfoView {
                                client,
                                qos,
                                subscription_identifier,
                                no_local: options & 0x04 != 0,
                                retain_as_published: options & 0x08 != 0,
                            },
                        ),
                    ),
                    tallies: Tallies {
                        subscriptions: self.tallies.subscriptions.wrapping_add(1),
                        ..self.tallies
                    },
                    ..noted
                },
                seq![
                    ActionView::SaveSubscription(
                        client,
                        filter,
                        qos,
                        subscription_identifier,
                        options,
                    ),
                ],
            )
        }
    }

    /// Whether a client has subscribed to a filter.
    pub open spec fn subscribed_to(self, client: Seq<char>, filter: Seq<char>) -> bool {
        let f = utf8::encode_utf8(filter);
        table::of_client(
            table::select(
                self.routes,
                topic::share_group(f),
                topic::levels(topic::plain_filter(f)),
            ),
            client,
        ) > 0
    }

    /// A client ends a subscription, where it has it.
    pub open spec fn unsubscribe(self, client: Seq<char>, filter: Seq<char>) -> Step {
        let f = utf8::encode_utf8(filter);
        if self.subscribed_to(client, filter) {
            let forgotten = if self.sessions.contains_key(client) {
                let session = self.sessions[client].session;
                self.with_session(
                    client,
                    SessionView {
                        subscriptions: session.subscriptions.remove(filter),
                        ..session
                    },
                )
            } else {
                self
            };
            (
                BrokerView {
                    routes: table::without(
                        self.routes,
                        topic::share_group(f),
                        topic::levels(topic::plain_filter(f)),
                        client,
                    ),
                    ..forgotten
                },
                seq![ActionView::DeleteSubscription(client, filter)],
            )
        } else {
            (self, Seq::empty())
        }
    }

    /// A Will is published now: its expiry starts to count.
    pub open spec fn publish_will(
        self,
        message: WillMessageView,
        now_ms: u64,
        groups: Seq<Seq<u8>>,
    ) -> Step {
        let properties = crate::message::started(message.properties, now_ms);
        if properties.expired(now_ms) {
            (self, Seq::empty())
        } else {
            let counted = BrokerView {
                tallies: Tallies {
                    wills_published: self.tallies.wills_published.wrapping_add(1),
                    messages_published_retired:
                        self.tallies.messages_published_retired.wrapping_add(1),
                    ..self.tallies
                },
                ..self
            };
            let (broker, actions) = if message.retain {
                counted.retain(message.topic, message.payload, message.qos, properties, now_ms)
            } else {
                (counted, Seq::empty())
            };
            after(
                actions,
                broker.route(
                    will_client(),
                    PublishedView {
                        topic: message.topic,
                        payload: message.payload,
                        qos: message.qos,
                        retain: message.retain,
                        properties,
                    },
                    now_ms,
                    groups,
                ),
            )
        }
    }
}

/// The name under which Wills are published.
pub open spec fn will_client() -> Seq<char> {
    "__pipistrelle_will__"@
}

} // verus!
