//! What a client sends: whether a message is acceptable, and the QoS 2 exchange with its sender.

use vstd::prelude::*;
use vstd::utf8;
use crate::codec::encode::encode_packet;
use crate::codec::packet;
use crate::codec::packet::{Disconnect, Packet, PacketView, PubAck, Publish};
use crate::codec::properties::{DisconnectProperties, PubAckProperties};
use crate::codec::property;
use crate::message;
use crate::message::{ApplicationProperties, ApplicationView};
use crate::session::client;
use crate::session::client::{ClientSession, IncomingQos2Message, SessionEffect};
use crate::session::model;
use crate::session::model::{EffectView, InboundView, SessionView};
use crate::text::copy_bytes;
use crate::topic;
use crate::topic::{publish_topic_error_reason, topic_contains_wildcard};

verus! {

/// Why a connection is closed for what the client sent.
#[derive(Debug, Clone, Copy, PartialEq, Eq, Structural)]
pub enum PacketFault {
    /// A PUBLISH with a Subscription Identifier.
    SubscriptionIdentifier,
    /// A topic alias that is 0 or too large.
    AliasOutOfRange,
    /// A topic alias that stands for no topic.
    AliasUnmapped,
    /// A topic with characters that it must not hold.
    TopicForbidden,
    /// A PUBLISH without topic and without alias.
    EmptyTopic,
    /// A Response Topic that is empty or holds a wildcard.
    ResponseTopic,
    /// A Payload Format Indicator that is neither 0 nor 1.
    PayloadFormat,
    /// A PUBLISH of QoS 1 or 2 without packet identifier.
    MissingPacketId,
    /// More unacknowledged messages than the server accepts.
    ReceiveMaximum,
    /// A malformed topic filter in a SUBSCRIBE.
    TopicFilter,
    /// Subscription options that do not exist or do not go together.
    SubscriptionOptions,
    /// A malformed topic filter in an UNSUBSCRIBE.
    UnsubscribeFilter,
    /// A second CONNECT.
    DuplicateConnect,
    /// A DISCONNECT that gives a session without expiry one.
    RaisedExpiry,
}

impl PacketFault {
    /// The fault in words.
    pub fn message(self) -> (r: &'static str)
        ensures
            r@ == (match self {
                PacketFault::SubscriptionIdentifier =>
                    "Client PUBLISH contained Subscription Identifier"@,
                PacketFault::AliasOutOfRange =>
                    "Topic Alias outside the server-advertised range"@,
                PacketFault::AliasUnmapped =>
                    "Topic Alias used before a mapping was established"@,
                PacketFault::TopicForbidden =>
                    "PUBLISH topic contains MQTT-forbidden characters"@,
                PacketFault::EmptyTopic => "Zero-length PUBLISH topic without Topic Alias"@,
                PacketFault::ResponseTopic => "Invalid PUBLISH Response Topic"@,
                PacketFault::PayloadFormat => "Invalid Payload Format Indicator"@,
                PacketFault::MissingPacketId => "QoS PUBLISH missing packet identifier"@,
                PacketFault::ReceiveMaximum => "Receive Maximum exceeded"@,
                PacketFault::TopicFilter => "Malformed MQTT Topic Filter"@,
                PacketFault::SubscriptionOptions => "invalid MQTT v5 subscription options"@,
                PacketFault::UnsubscribeFilter => "Malformed MQTT Topic Filter in UNSUBSCRIBE"@,
                PacketFault::DuplicateConnect => "Protocol violation: duplicate CONNECT"@,
                PacketFault::RaisedExpiry =>
                    "DISCONNECT cannot raise a zero Session Expiry Interval"@,
            }),
    {
        match self {
            PacketFault::SubscriptionIdentifier =>
                "Client PUBLISH contained Subscription Identifier",
            PacketFault::AliasOutOfRange => "Topic Alias outside the server-advertised range",
            PacketFault::AliasUnmapped => "Topic Alias used before a mapping was established",
            PacketFault::TopicForbidden => "PUBLISH topic contains MQTT-forbidden characters",
            PacketFault::EmptyTopic => "Zero-length PUBLISH topic without Topic Alias",
            PacketFault::ResponseTopic => "Invalid PUBLISH Response Topic",
            PacketFault::PayloadFormat => "Invalid Payload Format Indicator",
            PacketFault::MissingPacketId => "QoS PUBLISH missing packet identifier",
            PacketFault::ReceiveMaximum => "Receive Maximum exceeded",
            PacketFault::TopicFilter => "Malformed MQTT Topic Filter",
            PacketFault::SubscriptionOptions => "invalid MQTT v5 subscription options",
            PacketFault::UnsubscribeFilter => "Malformed MQTT Topic Filter in UNSUBSCRIBE",
            PacketFault::DuplicateConnect => "Protocol violation: duplicate CONNECT",
            PacketFault::RaisedExpiry => "DISCONNECT cannot raise a zero Session Expiry Interval",
        }
    }
}

/// What the broker reads of a PUBLISH.
#[verifier::ext_equal]
pub struct PublishIn {
    /// The quality of service.
    pub qos: u8,
    /// The retain flag.
    pub retain: bool,
    /// The topic; empty where an alias stands for it.
    pub topic: Seq<char>,
    /// The packet identifier.
    pub packet_id: Option<u16>,
    /// The payload.
    pub payload: Seq<u8>,
    /// The topic alias.
    pub alias: Option<u16>,
    /// The Subscription Identifier.
    pub subscription_identifier: Option<u32>,
    /// The properties that receivers see.
    pub properties: ApplicationView,
}

/// What the broker reads of a PUBLISH that is received at a time.
pub open spec fn publish_in(p: Publish<'_>, now_ms: u64) -> PublishIn {
    PublishIn {
        qos: p.qos,
        retain: p.retain,
        topic: p.topic@,
        packet_id: p.packet_id,
        payload: p.payload@,
        alias: p.properties.topic_alias,
        subscription_identifier: p.properties.subscription_identifier,
        properties: message::received(p.properties, now_ms),
    }
}

/// A DISCONNECT of the server.
pub open spec fn disconnect_packet(reason_code: u8) -> PacketView {
    PacketView::Disconnect { reason_code, properties: property::meaning(Seq::empty()) }
}

/// A text, or the empty text where it is absent.
pub open spec fn or_empty(text: Option<Seq<char>>) -> Seq<char> {
    match text {
        Some(t) => t,
        None => Seq::empty(),
    }
}

/// Whether a text holds a wildcard.
pub open spec fn holds_wildcard(t: Seq<char>) -> bool {
    utf8::encode_utf8(t).contains(topic::PLUS) || utf8::encode_utf8(t).contains(topic::HASH)
}

impl SessionView {
    /// The topic of a PUBLISH, by its alias where it has one, and the session after it; or the
    /// reason code and the fault.
    pub open spec fn resolve(self, p: PublishIn) -> (SessionView, Result<Seq<char>, (u8, PacketFault)>) {
        match p.alias {
            Some(alias) => if alias == 0 || alias > self.topic_alias_maximum {
                (self, Err((0x94u8, PacketFault::AliasOutOfRange)))
            } else if p.topic.len() == 0 {
                if self.aliases.contains_key(alias) {
                    (self, Ok(self.aliases[alias]))
                } else {
                    (self, Err((0x82u8, PacketFault::AliasUnmapped)))
                }
            } else {
                match topic::topic_fault(p.topic) {
                    Some(reason) => (self, Err((reason, PacketFault::TopicForbidden))),
                    None => (
                        SessionView { aliases: self.aliases.insert(alias, p.topic), ..self },
                        Ok(p.topic),
                    ),
                }
            },
            None => if p.topic.len() == 0 {
                (self, Err((0x82u8, PacketFault::EmptyTopic)))
            } else {
                match topic::topic_fault(p.topic) {
                    Some(reason) => (self, Err((reason, PacketFault::TopicForbidden))),
                    None => (self, Ok(p.topic)),
                }
            },
        }
    }

    /// Whether a PUBLISH is acceptable: its topic and the session after it, or the reason code
    /// and the fault. A PUBLISH of QoS 1 or 2 counts against the server's Receive Maximum.
    pub open spec fn accept_publish(self, p: PublishIn, receive_maximum: u16) -> (
        SessionView,
        Result<Seq<char>, (u8, PacketFault)>,
    ) {
        if p.subscription_identifier is Some {
            (self, Err((0x82u8, PacketFault::SubscriptionIdentifier)))
        } else {
            let (s, resolved) = self.resolve(p);
            match resolved {
                Err(fault) => (s, Err(fault)),
                Ok(t) => if p.properties.response_topic matches Some(r) && (r.len() == 0
                    || holds_wildcard(r)) {
                    (s, Err((0x82u8, PacketFault::ResponseTopic)))
                } else if p.properties.payload_format_indicator matches Some(f) && f > 1 {
                    (s, Err((0x82u8, PacketFault::PayloadFormat)))
                } else if p.qos == 0 {
                    (s, Ok(t))
                } else {
                    match p.packet_id {
                        None => (s, Err((0x82u8, PacketFault::MissingPacketId))),
                        Some(id) => if s.inbound_pending.contains(id) {
                            (s, Ok(t))
                        } else if s.inbound_pending.len() >= receive_maximum {
                            (s, Err((0x93u8, PacketFault::ReceiveMaximum)))
                        } else {
                            (
                                SessionView {
                                    inbound_pending: s.inbound_pending.insert(id),
                                    ..s
                                },
                                Ok(t),
                            )
                        },
                    }
                },
            }
        }
    }

    /// A QoS 2 message of the client is received: it is kept until the client releases it. One
    /// with the identifier of a message that is kept is acknowledged again, and not kept.
    pub open spec fn keep_incoming(self, id: u16, m: InboundView) -> (SessionView, Seq<EffectView>) {
        let receipt = seq![EffectView::SendAndRelease(model::ack_packet(5, id, 0).bytes(), id)];
        if self.incoming_qos2.contains_key(id) {
            (self, receipt)
        } else {
            (
                SessionView { incoming_qos2: self.incoming_qos2.insert(id, m), ..self },
                (if self.expiry > 0 {
                    seq![EffectView::SaveIncoming(id, m)]
                } else {
                    Seq::empty()
                }) + receipt,
            )
        }
    }

    /// The session after the client has published one more message.
    pub open spec fn published_one(self) -> SessionView {
        SessionView { published: self.published.wrapping_add(1), ..self }
    }
}

/// A packet in bytes.
pub fn encoded(packet: &Packet<'_>) -> (bytes: Vec<u8>)
    ensures
        bytes@ == packet@.bytes(),
{
    let mut bytes: Vec<u8> = Vec::new();
    encode_packet(packet, &mut bytes);
    assert(bytes@ =~= packet@.bytes());
    bytes
}

/// A DISCONNECT of the server.
pub fn encode_disconnect(reason_code: u8) -> (bytes: Vec<u8>)
    ensures
        bytes@ == disconnect_packet(reason_code).bytes(),
{
    encoded(
        &Packet::Disconnect(
            Disconnect { reason_code, properties: DisconnectProperties::default() },
        ),
    )
}

/// A PUBACK.
pub fn encode_puback(packet_id: u16, reason_code: u8) -> (bytes: Vec<u8>)
    ensures
        bytes@ == model::ack_packet(4, packet_id, reason_code).bytes(),
{
    encoded(
        &Packet::PubAck(
            PubAck { packet_id, reason_code, properties: PubAckProperties::default() },
        ),
    )
}

/// A PUBREC.
pub fn encode_pubrec(packet_id: u16, reason_code: u8) -> (bytes: Vec<u8>)
    ensures
        bytes@ == model::ack_packet(5, packet_id, reason_code).bytes(),
{
    encoded(
        &Packet::PubRec(
            PubAck { packet_id, reason_code, properties: PubAckProperties::default() },
        ),
    )
}

/// A PUBCOMP.
pub fn encode_pubcomp(packet_id: u16, reason_code: u8) -> (bytes: Vec<u8>)
    ensures
        bytes@ == model::ack_packet(7, packet_id, reason_code).bytes(),
{
    encoded(
        &Packet::PubComp(
            PubAck { packet_id, reason_code, properties: PubAckProperties::default() },
        ),
    )
}

/// Whether text is empty.
pub(crate) fn is_blank(text: &str) -> (r: bool)
    ensures
        r == (text@.len() == 0),
{
    let r = text.as_bytes().len() == 0;
    proof {
        if text@.len() == 0 {
            assert(text@ =~= Seq::empty());
            assert(utf8::encode_utf8(Seq::empty()) =~= Seq::empty());
        } else if r {
            assert(utf8::encode_utf8(Seq::empty()) =~= Seq::empty());
            crate::text::lemma_utf8_injective(text@, Seq::empty());
            assert(utf8::encode_utf8(text@) =~= utf8::encode_utf8(Seq::empty()));
        }
    }
    r
}

impl ClientSession {
    /// The topic of a PUBLISH, by its alias where it has one; or the reason code and the fault.
    fn resolve(&mut self, p: &Publish<'_>, Ghost(view): Ghost<PublishIn>) -> (r: Result<
        String,
        (u8, PacketFault),
    >)
        requires
            old(self).wf(),
            view.topic == p.topic@,
            view.alias == p.properties.topic_alias,
        ensures
            final(self).wf(),
            (final(self)@, resolved(r)) == old(self)@.resolve(view),
    {
        match p.properties.topic_alias {
            Some(alias) => {
                if alias == 0 || alias > self.topic_alias_maximum {
                    return Err((0x94u8, PacketFault::AliasOutOfRange));
                }
                if is_blank(p.topic) {
                    return match self.topic_aliases.get(alias) {
                        Some(t) => Ok(t.clone()),
                        None => Err((0x82u8, PacketFault::AliasUnmapped)),
                    };
                }
                if let Some(reason) = publish_topic_error_reason(p.topic) {
                    return Err((reason, PacketFault::TopicForbidden));
                }
                self.set_inbound_topic_alias(alias, p.topic);
                Ok(p.topic.to_owned())
            },
            None => {
                if is_blank(p.topic) {
                    return Err((0x82u8, PacketFault::EmptyTopic));
                }
                if let Some(reason) = publish_topic_error_reason(p.topic) {
                    return Err((reason, PacketFault::TopicForbidden));
                }
                Ok(p.topic.to_owned())
            },
        }
    }

    /// Whether a PUBLISH is acceptable: its topic, or the reason code and the fault. A PUBLISH
    /// of QoS 1 or 2 counts against the server's Receive Maximum.
    pub fn accept_publish(&mut self, p: &Publish<'_>, receive_maximum: u16) -> (r: Result<
        String,
        (u8, PacketFault),
    >)
        requires
            old(self).wf(),
        ensures
            final(self).wf(),
            forall|now_ms: u64|
                (final(self)@, resolved(r)) == #[trigger] old(self)@.accept_publish(
                    publish_in(*p, now_ms),
                    receive_maximum,
                ),
    {
        let ghost view = publish_in(*p, 0);
        proof {
            assert forall|now_ms: u64| #[trigger]
                old(self)@.accept_publish(publish_in(*p, now_ms), receive_maximum) == old(
                    self,
                )@.accept_publish(view, receive_maximum) by {
                let other = publish_in(*p, now_ms);
                assert(old(self)@.resolve(other) == old(self)@.resolve(view));
            }
        }
        if p.properties.subscription_identifier.is_some() {
            return Err((0x82u8, PacketFault::SubscriptionIdentifier));
        }
        let t = match self.resolve(p, Ghost(view)) {
            Ok(t) => t,
            Err(fault) => {
                return Err(fault);
            },
        };
        if let Some(response) = p.properties.response_topic {
            if is_blank(response) || topic_contains_wildcard(response) {
                return Err((0x82u8, PacketFault::ResponseTopic));
            }
        }
        if let Some(format) = p.properties.payload_format_indicator {
            if format > 1 {
                return Err((0x82u8, PacketFault::PayloadFormat));
            }
        }
        if p.qos > 0 {
            let id: u16 = match p.packet_id {
                Some(id) => id,
                None => {
                    return Err((0x82u8, PacketFault::MissingPacketId));
                },
            };
            if self.reserve_inbound_receive(id, receive_maximum).is_err() {
                return Err((0x93u8, PacketFault::ReceiveMaximum));
            }
        }
        Ok(t)
    }

    /// Keeps a QoS 2 message of the client until the client releases it, and acknowledges it.
    pub fn keep_incoming(
        &mut self,
        packet_id: u16,
        topic: &str,
        payload: &[u8],
        retain: bool,
        properties: &ApplicationProperties,
    ) -> (effects: Vec<SessionEffect>)
        requires
            old(self).wf(),
        ensures
            final(self).wf(),
            (final(self)@, client::effects_view(effects@)) == old(self)@.keep_incoming(
                packet_id,
                (InboundView {
                    topic: topic@,
                    payload: payload@,
                    retain,
                    properties: properties@,
                }),
            ),
    {
        let ghost m = InboundView {
            topic: topic@,
            payload: payload@,
            retain,
            properties: properties@,
        };
        let mut effects: Vec<SessionEffect> = Vec::new();
        if !self.incoming_qos2.contains_key(packet_id) {
            let message = IncomingQos2Message {
                topic: topic.to_owned(),
                payload: copy_bytes(payload),
                retain,
                properties: properties.clone(),
            };
            if self.session_expiry_interval > 0 {
                effects.push(SessionEffect::SaveIncoming(packet_id, message.clone()));
            }
            self.incoming_qos2.insert(packet_id, message);
            assert(self@.incoming_qos2 =~= old(self)@.incoming_qos2.insert(packet_id, m));
        }
        effects.push(SessionEffect::SendAndRelease(encode_pubrec(packet_id, 0), packet_id));
        assert(client::effects_view(effects@) =~= old(self)@.keep_incoming(packet_id, m).1);
        effects
    }

    /// Takes a QoS 2 message of the client out that the client releases.
    pub fn release_incoming(&mut self, packet_id: u16) -> (r: Option<IncomingQos2Message>)
        requires
            old(self).wf(),
        ensures
            final(self).wf(),
            final(self)@ == (SessionView {
                incoming_qos2: old(self)@.incoming_qos2.remove(packet_id),
                ..old(self)@
            }),
            match r {
                Some(m) => old(self)@.incoming_qos2.contains_key(packet_id) && m@
                    == old(self)@.incoming_qos2[packet_id],
                None => !old(self)@.incoming_qos2.contains_key(packet_id),
            },
    {
        let r = self.incoming_qos2.remove(packet_id);
        assert(self@.incoming_qos2 =~= old(self)@.incoming_qos2.remove(packet_id));
        r
    }

    /// Counts one more published message.
    pub fn count_published(&mut self)
        requires
            old(self).wf(),
        ensures
            final(self).wf(),
            final(self)@ == old(self)@.published_one(),
    {
        self.published_messages = self.published_messages.wrapping_add(1);
    }
}

/// The content of what became of a PUBLISH.
pub open spec fn resolved(r: Result<String, (u8, PacketFault)>) -> Result<
    Seq<char>,
    (u8, PacketFault),
> {
    match r {
        Ok(t) => Ok(t@),
        Err(fault) => Err(fault),
    }
}

/// A QoS 2 message that a client sends again, before it released it, is acknowledged again and
/// changes nothing.
pub proof fn law_duplicate_qos2_is_kept_once(
    s: SessionView,
    id: u16,
    m: InboundView,
    again: InboundView,
)
    ensures
        s.keep_incoming(id, m).0.keep_incoming(id, again).0 == s.keep_incoming(id, m).0,
        s.keep_incoming(id, m).0.keep_incoming(id, again).1 == seq![
            EffectView::SendAndRelease(model::ack_packet(5, id, 0).bytes(), id),
        ],
{
}

/// An acceptable PUBLISH never lets more unacknowledged messages of the client count than the
/// server's Receive Maximum allows.
pub proof fn law_accept_respects_receive_maximum(s: SessionView, p: PublishIn, receive_maximum: u16)
    requires
        s.inbound_pending.finite(),
        s.inbound_pending.len() <= receive_maximum,
    ensures
        s.accept_publish(p, receive_maximum).0.inbound_pending.len() <= receive_maximum,
        s.accept_publish(p, receive_maximum).0.inbound_pending.finite(),
{
}

/// An alias that is established with a topic stands for it from then on.
pub proof fn law_alias_stands_for_its_topic(s: SessionView, p: PublishIn, later: PublishIn)
    requires
        p.alias is Some,
        p.topic.len() > 0,
        s.resolve(p).1 is Ok,
        later.alias == p.alias,
        later.topic.len() == 0,
    ensures
        s.resolve(p).0.resolve(later).1 == Ok::<Seq<char>, (u8, PacketFault)>(p.topic),
{
}

} // verus!
