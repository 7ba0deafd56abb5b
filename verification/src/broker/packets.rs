//! What the broker does with each packet of a client.

use vstd::prelude::*;
use vstd::utf8;
use crate::broker::model;
use crate::broker::model::{after, ActionView, BrokerView, PublishedView, Step};
use crate::codec::packet;
use crate::codec::packet::{Packet, PacketView, Publish, Subscribe, Unsubscribe};
use crate::codec::property;
use crate::config;
use crate::session::inbound;
use crate::session::inbound::{PacketFault, PublishIn};
use crate::session::model::{ack_packet, EffectView, InboundView, SessionView};
use crate::topic;

verus! {

/// The state of the broker after a packet, what is to be done, and the fault for which the
/// connection is closed.
pub type PacketStep = (BrokerView, Seq<ActionView>, Option<PacketFault>);

/// A step after which the connection goes on.
pub open spec fn goes_on(step: Step) -> PacketStep {
    (step.0, step.1, None)
}

/// A SUBACK (type 9) or UNSUBACK (11).
pub open spec fn codes_packet(packet_type: u8, packet_id: u16, codes: Seq<u8>) -> PacketView {
    PacketView::Codes {
        packet_type,
        packet_id,
        properties: property::meaning(Seq::empty()),
        reason_codes: codes,
    }
}

/// The quality of service that subscription options ask for.
pub open spec fn requested_qos(options: u8) -> u8 {
    options & 0x03
}

/// How retained messages are to be handled.
pub open spec fn retain_handling(options: u8) -> u8 {
    (options >> 4) & 0x03
}

/// The reason code and the fault for which a subscription closes the connection.
pub open spec fn subscription_fault(filter: Seq<char>, options: u8) -> Option<(u8, PacketFault)> {
    if !topic::filter_valid(utf8::encode_utf8(filter)) {
        Some((0x82u8, PacketFault::TopicFilter))
    } else if requested_qos(options) == 3 || retain_handling(options) == 3 || options & 0xC0 != 0 {
        Some((0x81u8, PacketFault::SubscriptionOptions))
    } else if options & 0x04 != 0 && topic::has_share_prefix(utf8::encode_utf8(filter)) {
        Some((0x82u8, PacketFault::SubscriptionOptions))
    } else {
        None
    }
}

/// A subscription that gets retained messages: its filter and its quality of service.
#[verifier::ext_equal]
pub struct ReplayView {
    /// The filter.
    pub filter: Seq<char>,
    /// The quality of service.
    pub qos: u8,
}

/// How far the subscriptions of a SUBSCRIBE have been made.
#[verifier::ext_equal]
pub struct SubscribingView {
    /// The broker.
    pub broker: BrokerView,
    /// What is to be done.
    pub actions: Seq<ActionView>,
    /// The reason codes so far.
    pub codes: Seq<u8>,
    /// The subscriptions that get retained messages.
    pub replays: Seq<ReplayView>,
    /// The reason code and the fault, where one of them closes the connection.
    pub fault: Option<(u8, PacketFault)>,
}

/// How far the filters of an UNSUBSCRIBE have been dealt with.
#[verifier::ext_equal]
pub struct UnsubscribingView {
    /// The broker.
    pub broker: BrokerView,
    /// What is to be done.
    pub actions: Seq<ActionView>,
    /// The reason codes so far.
    pub codes: Seq<u8>,
    /// Whether a filter is malformed.
    pub malformed: bool,
}

impl BrokerView {
    /// Sends a packet to a client.
    pub open spec fn send(self, c: Seq<char>, packet: PacketView) -> Seq<ActionView> {
        seq![ActionView::Session(c, self.sessions[c].connection, EffectView::Send(packet.bytes()))]
    }

    /// Closes the connection of a client for a fault, with a DISCONNECT.
    pub open spec fn refuse(self, c: Seq<char>, reason: u8, fault: PacketFault) -> PacketStep {
        (self, self.send(c, inbound::disconnect_packet(reason)), Some(fault))
    }

    /// Whether a client may write a topic.
    pub open spec fn may_write(self, c: Seq<char>, t: Seq<char>) -> bool {
        let s = self.sessions[c].session;
        s.allow_all_write || config::authorized(
            self.auth,
            inbound::or_empty(s.username),
            t,
            "write"@,
        )
    }

    /// Whether a client may read what a filter matches.
    pub open spec fn may_read(self, c: Seq<char>, filter: Seq<char>) -> bool {
        let s = self.sessions[c].session;
        s.allow_all_read || config::authorized(
            self.auth,
            inbound::or_empty(s.username),
            filter,
            "read"@,
        )
    }

    /// A client's message enters the broker: it is retained where it asks for that, counted and
    /// routed.
    pub open spec fn enter(
        self,
        c: Seq<char>,
        p: PublishedView,
        now_ms: u64,
        groups: Seq<Seq<u8>>,
    ) -> Step {
        let (broker, actions) = if p.retain {
            self.retain(p.topic, p.payload, p.qos, p.properties, now_ms)
        } else {
            (self, Seq::empty())
        };
        after(
            actions,
            broker.with_session(c, broker.sessions[c].session.published_one()).route(
                c,
                p,
                now_ms,
                groups,
            ),
        )
    }

    /// A client sends a PUBLISH that is acceptable and stands for the topic `t`.
    pub open spec fn on_accepted(
        self,
        c: Seq<char>,
        p: PublishIn,
        t: Seq<char>,
        now_ms: u64,
        groups: Seq<Seq<u8>>,
    ) -> Step {
        if !self.may_write(c, t) {
            (
                self,
                match p.packet_id {
                    Some(id) => if p.qos > 0 {
                        tagged_one(
                            c,
                            self.sessions[c].connection,
                            EffectView::SendAndRelease(
                                ack_packet(
                                    if p.qos == 2 {
                                        5
                                    } else {
                                        4
                                    },
                                    id,
                                    0x87,
                                ).bytes(),
                                id,
                            ),
                        )
                    } else {
                        Seq::empty()
                    },
                    None => Seq::empty(),
                },
            )
        } else if p.qos == 2 {
            self.session_step(
                c,
                self.sessions[c].session.keep_incoming(
                    p.packet_id->0,
                    InboundView {
                        topic: t,
                        payload: p.payload,
                        retain: p.retain,
                        properties: p.properties,
                    },
                ),
            )
        } else {
            let (broker, actions) = self.enter(
                c,
                PublishedView {
                    topic: t,
                    payload: p.payload,
                    qos: p.qos,
                    retain: p.retain,
                    properties: p.properties,
                },
                now_ms,
                groups,
            );
            (
                broker,
                actions + (if p.qos == 1 && p.packet_id is Some {
                    tagged_one(
                        c,
                        self.sessions[c].connection,
                        EffectView::SendAndRelease(
                            ack_packet(4, p.packet_id->0, 0).bytes(),
                            p.packet_id->0,
                        ),
                    )
                } else {
                    Seq::empty()
                }),
            )
        }
    }

    /// The topic of the message that enters the broker with a PUBLISH of a client, where one
    /// does.
    pub open spec fn published_topic(self, c: Seq<char>, p: PublishIn) -> Option<Seq<char>> {
        match self.sessions[c].session.accept_publish(p, self.limits.receive_maximum).1 {
            Ok(t) => if self.may_write(c, t) && p.qos != 2 {
                Some(t)
            } else {
                None
            },
            Err(_) => None,
        }
    }

    /// A client sends a PUBLISH.
    pub open spec fn on_publish(
        self,
        c: Seq<char>,
        p: PublishIn,
        now_ms: u64,
        groups: Seq<Seq<u8>>,
    ) -> PacketStep {
        let (s, r) = self.sessions[c].session.accept_publish(p, self.limits.receive_maximum);
        let broker = self.with_session(c, s);
        match r {
            Err((reason, fault)) => broker.refuse(c, reason, fault),
            Ok(t) => goes_on(broker.on_accepted(c, p, t, now_ms, groups)),
        }
    }

    /// The topic of the QoS 2 message that a client releases, where there is such a message.
    pub open spec fn released_topic(self, c: Seq<char>, id: u16) -> Option<Seq<char>> {
        let kept = self.sessions[c].session.incoming_qos2;
        if kept.contains_key(id) {
            Some(kept[id].topic)
        } else {
            None
        }
    }

    /// A client releases a QoS 2 message: it enters the broker, once.
    pub open spec fn on_pubrel(
        self,
        c: Seq<char>,
        id: u16,
        now_ms: u64,
        groups: Seq<Seq<u8>>,
    ) -> Step {
        let s = self.sessions[c].session;
        let connection = self.sessions[c].connection;
        if s.incoming_qos2.contains_key(id) {
            let m = s.incoming_qos2[id];
            let broker = self.with_session(
                c,
                SessionView { incoming_qos2: s.incoming_qos2.remove(id), ..s },
            );
            let (end, actions) = broker.enter(
                c,
                PublishedView {
                    topic: m.topic,
                    payload: m.payload,
                    qos: 2,
                    retain: m.retain,
                    properties: m.properties,
                },
                now_ms,
                groups,
            );
            (
                end,
                actions + tagged_one(c, connection, EffectView::DeleteIncoming(id)) + tagged_one(
                    c,
                    connection,
                    EffectView::Send(ack_packet(7, id, 0).bytes()),
                ),
            )
        } else {
            (self, tagged_one(c, connection, EffectView::Send(ack_packet(7, id, 0x92).bytes())))
        }
    }

    /// The first `n` subscriptions of a SUBSCRIBE are made, up to one that closes the
    /// connection.
    pub open spec fn subscribing(
        self,
        c: Seq<char>,
        list: Seq<(Seq<char>, u8)>,
        n: nat,
        subscription_identifier: Option<u32>,
    ) -> SubscribingView
        decreases n,
    {
        if n == 0 {
            SubscribingView {
                broker: self,
                actions: Seq::empty(),
                codes: Seq::empty(),
                replays: Seq::empty(),
                fault: None,
            }
        } else {
            let so_far = self.subscribing(c, list, (n - 1) as nat, subscription_identifier);
            if so_far.fault is Some {
                so_far
            } else {
                so_far.one_more(c, list[n - 1].0, list[n - 1].1, subscription_identifier)
            }
        }
    }

    /// The retained messages for the first `n` of some subscriptions are queued.
    pub open spec fn replay_all(
        self,
        c: Seq<char>,
        replays: Seq<ReplayView>,
        n: nat,
        subscription_identifier: Option<u32>,
        now_ms: u64,
    ) -> Step
        decreases n,
    {
        if n == 0 {
            (self, Seq::empty())
        } else {
            let (broker, actions) = self.replay_all(
                c,
                replays,
                (n - 1) as nat,
                subscription_identifier,
                now_ms,
            );
            let r = replays[n - 1];
            after(actions, broker.replay(c, r.filter, r.qos, subscription_identifier, now_ms))
        }
    }

    /// A client sends a SUBSCRIBE. The retained messages follow the SUBACK.
    pub open spec fn on_subscribe(
        self,
        c: Seq<char>,
        packet_id: u16,
        list: Seq<(Seq<char>, u8)>,
        subscription_identifier: Option<u32>,
        now_ms: u64,
    ) -> PacketStep {
        let made = self.subscribing(c, list, list.len(), subscription_identifier);
        match made.fault {
            Some((reason, fault)) => (
                made.broker,
                made.actions + self.send(c, inbound::disconnect_packet(reason)),
                Some(fault),
            ),
            None => goes_on(
                after(
                    made.actions + self.send(c, codes_packet(9, packet_id, made.codes)),
                    made.broker.replay_all(
                        c,
                        made.replays,
                        made.replays.len(),
                        subscription_identifier,
                        now_ms,
                    ),
                ),
            ),
        }
    }

    /// The first `n` filters of an UNSUBSCRIBE are dealt with, up to a malformed one.
    pub open spec fn unsubscribing(self, c: Seq<char>, filters: Seq<Seq<char>>, n: nat) -> UnsubscribingView
        decreases n,
    {
        if n == 0 {
            UnsubscribingView {
                broker: self,
                actions: Seq::empty(),
                codes: Seq::empty(),
                malformed: false,
            }
        } else {
            let so_far = self.unsubscribing(c, filters, (n - 1) as nat);
            let filter = filters[n - 1];
            if so_far.malformed {
                so_far
            } else if !topic::filter_valid(utf8::encode_utf8(filter)) {
                UnsubscribingView { malformed: true, ..so_far }
            } else {
                let (broker, more) = so_far.broker.unsubscribe(c, filter);
                UnsubscribingView {
                    broker,
                    actions: so_far.actions + more,
                    codes: so_far.codes.push(
                        if so_far.broker.subscribed_to(c, filter) {
                            0x00u8
                        } else {
                            0x11
                        },
                    ),
                    malformed: false,
                }
            }
        }
    }

    /// A client sends an UNSUBSCRIBE.
    pub open spec fn on_unsubscribe(
        self,
        c: Seq<char>,
        packet_id: u16,
        filters: Seq<Seq<char>>,
    ) -> PacketStep {
        let done = self.unsubscribing(c, filters, filters.len());
        if done.malformed {
            (
                done.broker,
                done.actions + self.send(c, inbound::disconnect_packet(0x82)),
                Some(PacketFault::UnsubscribeFilter),
            )
        } else {
            (
                done.broker,
                done.actions + self.send(c, codes_packet(11, packet_id, done.codes)),
                None,
            )
        }
    }

    /// A client sends a packet. The groups are those that a published message reaches, in the
    /// order in which they are served.
    pub open spec fn on_packet(
        self,
        c: Seq<char>,
        packet: Packet<'_>,
        now_ms: u64,
        groups: Seq<Seq<u8>>,
    ) -> PacketStep {
        let s = self.sessions[c].session;
        match packet {
            Packet::Publish(p) => self.on_publish(
                c,
                inbound::publish_in(p, now_ms),
                now_ms,
                groups,
            ),
            Packet::Subscribe(p) => self.on_subscribe(
                c,
                p.packet_id,
                packet::subscriptions_view(p.subscriptions@),
                p.properties.subscription_identifier,
                now_ms,
            ),
            Packet::Unsubscribe(p) => self.on_unsubscribe(
                c,
                p.packet_id,
                packet::texts_view(p.topic_filters@),
            ),
            Packet::PubAck(p) => goes_on(self.session_step(c, s.on_puback(p.packet_id, now_ms))),
            Packet::PubRec(p) => goes_on(
                self.session_step(c, s.on_pubrec(p.packet_id, p.reason_code, now_ms)),
            ),
            Packet::PubRel(p) => goes_on(self.on_pubrel(c, p.packet_id, now_ms, groups)),
            Packet::PubComp(p) => goes_on(self.session_step(c, s.on_pubcomp(p.packet_id, now_ms))),
            Packet::PingReq => (self, self.send(c, PacketView::Ping { packet_type: 13 }), None),
            Packet::Connect(_) => (self, Seq::empty(), Some(PacketFault::DuplicateConnect)),
            _ => (self, Seq::empty(), None),
        }
    }

    /// Whether the groups are those that the message in a packet reaches.
    pub open spec fn groups_of_packet(
        self,
        c: Seq<char>,
        packet: Packet<'_>,
        now_ms: u64,
        groups: Seq<Seq<u8>>,
    ) -> bool {
        match packet {
            Packet::Publish(p) => self.serves(
                self.published_topic(c, inbound::publish_in(p, now_ms)),
                groups,
            ),
            Packet::PubRel(p) => self.serves(self.released_topic(c, p.packet_id), groups),
            _ => true,
        }
    }

    /// Whether the groups are those that a message for a topic reaches, where there is one.
    pub open spec fn serves(self, t: Option<Seq<char>>, groups: Seq<Seq<u8>>) -> bool {
        match t {
            Some(t) => model::reached_groups(self.routes, t, groups),
            None => true,
        }
    }
}

impl SubscribingView {
    /// One more subscription.
    pub open spec fn one_more(
        self,
        c: Seq<char>,
        filter: Seq<char>,
        options: u8,
        subscription_identifier: Option<u32>,
    ) -> SubscribingView {
        let qos = requested_qos(options);
        match subscription_fault(filter, options) {
            Some(fault) => SubscribingView { fault: Some(fault), ..self },
            None => if !self.broker.may_read(c, filter) {
                SubscribingView { codes: self.codes.push(0x87), ..self }
            } else {
                let (broker, more) = self.broker.subscribe(
                    c,
                    filter,
                    qos,
                    subscription_identifier,
                    options,
                );
                if self.broker.over_quota(c, filter) {
                    SubscribingView {
                        broker,
                        actions: self.actions + more,
                        codes: self.codes.push(0x97),
                        ..self
                    }
                } else {
                    SubscribingView {
                        broker,
                        actions: self.actions + more,
                        codes: self.codes.push(qos),
                        replays: if !topic::has_share_prefix(utf8::encode_utf8(filter)) && (
                        retain_handling(options) == 0 || (retain_handling(options) == 1
                            && self.broker.is_new(c, filter))) {
                            self.replays.push(ReplayView { filter, qos })
                        } else {
                            self.replays
                        },
                        ..self
                    }
                }
            },
        }
    }
}

/// One effect of a session as an action.
pub open spec fn tagged_one(c: Seq<char>, connection: u64, effect: EffectView) -> Seq<ActionView> {
    seq![ActionView::Session(c, connection, effect)]
}

} // verus!
