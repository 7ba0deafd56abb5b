//! The control packets and their mathematical content.

use vstd::prelude::*;
use crate::codec::properties;
use crate::codec::properties::{
    ConnAckProperties, ConnectProperties, DisconnectProperties, PubAckProperties,
    PublishProperties, SubAckProperties, SubscribeProperties, UnsubscribeProperties,
    WillProperties,
};
use crate::codec::property;
use crate::codec::property::{PropertiesView, PropertySet};
use crate::codec::wire;
use crate::codec::wire::CodecError;

verus! {

/// A control packet. Text and bytes are borrowed from the buffer that holds the packet.
#[derive(Debug, PartialEq, Eq)]
pub enum Packet<'a> {
    /// A client asks for a connection.
    Connect(Connect<'a>),
    /// The server's answer to CONNECT.
    ConnAck(ConnAck<'a>),
    /// An application message.
    Publish(Publish<'a>),
    /// QoS 1: the message is acknowledged.
    PubAck(PubAck<'a>),
    /// QoS 2, first answer: the message is received.
    PubRec(PubAck<'a>),
    /// QoS 2, second step: the message is released.
    PubRel(PubAck<'a>),
    /// QoS 2, last step: the exchange is complete.
    PubComp(PubAck<'a>),
    /// A client asks for subscriptions.
    Subscribe(Subscribe<'a>),
    /// The server's answer to SUBSCRIBE.
    SubAck(SubAck<'a>),
    /// A client gives up subscriptions.
    Unsubscribe(Unsubscribe<'a>),
    /// The server's answer to UNSUBSCRIBE.
    UnsubAck(UnsubAck<'a>),
    /// A sign of life is asked for.
    PingReq,
    /// A sign of life.
    PingResp,
    /// The connection ends.
    Disconnect(Disconnect<'a>),
}

/// CONNECT.
#[derive(Debug, PartialEq, Eq)]
pub struct Connect<'a> {
    /// The client identifier; empty where the server is to assign one.
    pub client_id: &'a str,
    /// The longest silence of the client, in seconds.
    pub keep_alive: u16,
    /// Whether an earlier session is discarded.
    pub clean_start: bool,
    /// The message to publish when the connection is lost.
    pub will: Option<Will<'a>>,
    /// The user's name.
    pub username: Option<&'a str>,
    /// The user's password.
    pub password: Option<&'a [u8]>,
    /// The properties.
    pub properties: ConnectProperties<'a>,
}

/// The Will of a CONNECT.
#[derive(Debug, PartialEq, Eq)]
pub struct Will<'a> {
    /// The topic of the message.
    pub topic: &'a str,
    /// The payload of the message.
    pub payload: &'a [u8],
    /// The quality of service of the message.
    pub qos: u8,
    /// Whether the message is retained.
    pub retain: bool,
    /// The properties.
    pub properties: WillProperties<'a>,
}

/// CONNACK.
#[derive(Debug, PartialEq, Eq)]
pub struct ConnAck<'a> {
    /// Whether the server resumes an earlier session.
    pub session_present: bool,
    /// Success, or why the connection is refused.
    pub reason_code: u8,
    /// The properties.
    pub properties: ConnAckProperties<'a>,
}

/// PUBLISH.
#[derive(Debug, PartialEq, Eq)]
pub struct Publish<'a> {
    /// Whether the message may have been sent before.
    pub dup: bool,
    /// The quality of service.
    pub qos: u8,
    /// Whether the message is retained.
    pub retain: bool,
    /// The topic; empty where a topic alias stands for it.
    pub topic: &'a str,
    /// The packet identifier, present where the quality of service is not 0.
    pub packet_id: Option<u16>,
    /// The properties.
    pub properties: PublishProperties<'a>,
    /// The payload.
    pub payload: &'a [u8],
}

/// PUBACK, PUBREC, PUBREL and PUBCOMP.
#[derive(Debug, PartialEq, Eq)]
pub struct PubAck<'a> {
    /// The identifier of the packet that is acknowledged.
    pub packet_id: u16,
    /// Success, or what went wrong.
    pub reason_code: u8,
    /// The properties.
    pub properties: PubAckProperties<'a>,
}

/// SUBSCRIBE.
#[derive(Debug, PartialEq, Eq)]
pub struct Subscribe<'a> {
    /// The packet identifier.
    pub packet_id: u16,
    /// The properties.
    pub properties: SubscribeProperties<'a>,
    /// The subscriptions, at least one.
    pub subscriptions: Vec<Subscription<'a>>,
}

/// One subscription of a SUBSCRIBE.
#[derive(Debug, PartialEq, Eq)]
pub struct Subscription<'a> {
    /// The topic filter.
    pub topic_filter: &'a str,
    /// QoS (bits 0 and 1), No Local (bit 2), Retain As Published (bit 3), Retain Handling (bits 4
    /// and 5).
    pub options: u8,
}

/// SUBACK.
#[derive(Debug, PartialEq, Eq)]
pub struct SubAck<'a> {
    /// The identifier of the packet that is acknowledged.
    pub packet_id: u16,
    /// The properties.
    pub properties: SubAckProperties<'a>,
    /// For each subscription the granted QoS, or why it is refused.
    pub reason_codes: Vec<u8>,
}

/// UNSUBSCRIBE.
#[derive(Debug, PartialEq, Eq)]
pub struct Unsubscribe<'a> {
    /// The packet identifier.
    pub packet_id: u16,
    /// The properties.
    pub properties: UnsubscribeProperties<'a>,
    /// The topic filters, at least one.
    pub topic_filters: Vec<&'a str>,
}

/// UNSUBACK.
#[derive(Debug, PartialEq, Eq)]
pub struct UnsubAck<'a> {
    /// The identifier of the packet that is acknowledged.
    pub packet_id: u16,
    /// The properties.
    pub properties: SubAckProperties<'a>,
    /// For each topic filter what became of it.
    pub reason_codes: Vec<u8>,
}

/// DISCONNECT.
#[derive(Debug, PartialEq, Eq)]
pub struct Disconnect<'a> {
    /// Why the connection ends.
    pub reason_code: u8,
    /// The properties.
    pub properties: DisconnectProperties<'a>,
}

/// The content of a Will.
#[verifier::ext_equal]
pub struct WillView {
    /// The topic of the message.
    pub topic: Seq<char>,
    /// The payload of the message.
    pub payload: Seq<u8>,
    /// The quality of service of the message.
    pub qos: u8,
    /// Whether the message is retained.
    pub retain: bool,
    /// The properties.
    pub properties: PropertiesView,
}

/// The content of a control packet.
#[verifier::ext_equal]
#[allow(inconsistent_fields)]
pub enum PacketView {
    /// CONNECT.
    Connect {
        /// The client identifier.
        client_id: Seq<char>,
        /// The longest silence of the client.
        keep_alive: u16,
        /// Whether an earlier session is discarded.
        clean_start: bool,
        /// The Will.
        will: Option<WillView>,
        /// The user's name.
        username: Option<Seq<char>>,
        /// The user's password.
        password: Option<Seq<u8>>,
        /// The properties.
        properties: PropertiesView,
    },
    /// CONNACK.
    ConnAck {
        /// Whether an earlier session is resumed.
        session_present: bool,
        /// The reason code.
        reason_code: u8,
        /// The properties.
        properties: PropertiesView,
    },
    /// PUBLISH.
    Publish {
        /// Whether the message may have been sent before.
        dup: bool,
        /// The quality of service.
        qos: u8,
        /// Whether the message is retained.
        retain: bool,
        /// The topic.
        topic: Seq<char>,
        /// The packet identifier.
        packet_id: Option<u16>,
        /// The properties.
        properties: PropertiesView,
        /// The payload.
        payload: Seq<u8>,
    },
    /// PUBACK (type 4), PUBREC (5), PUBREL (6) or PUBCOMP (7).
    Ack {
        /// The packet type.
        packet_type: u8,
        /// The packet identifier.
        packet_id: u16,
        /// The reason code.
        reason_code: u8,
        /// The properties.
        properties: PropertiesView,
    },
    /// SUBSCRIBE.
    Subscribe {
        /// The packet identifier.
        packet_id: u16,
        /// The properties.
        properties: PropertiesView,
        /// Topic filter and options of each subscription.
        subscriptions: Seq<(Seq<char>, u8)>,
    },
    /// UNSUBSCRIBE.
    Unsubscribe {
        /// The packet identifier.
        packet_id: u16,
        /// The properties.
        properties: PropertiesView,
        /// The topic filters.
        topic_filters: Seq<Seq<char>>,
    },
    /// SUBACK (type 9) or UNSUBACK (11).
    Codes {
        /// The packet type.
        packet_type: u8,
        /// The packet identifier.
        packet_id: u16,
        /// The properties.
        properties: PropertiesView,
        /// The reason codes.
        reason_codes: Seq<u8>,
    },
    /// PINGREQ (type 12) or PINGRESP (13).
    Ping {
        /// The packet type.
        packet_type: u8,
    },
    /// DISCONNECT.
    Disconnect {
        /// The reason code.
        reason_code: u8,
        /// The properties.
        properties: PropertiesView,
    },
}

/// The content of borrowed text that may be absent.
pub open spec fn text_opt(text: Option<&str>) -> Option<Seq<char>> {
    match text {
        Some(t) => Some(t@),
        None => None,
    }
}

/// The content of borrowed bytes that may be absent.
pub open spec fn bytes_opt(data: Option<&[u8]>) -> Option<Seq<u8>> {
    match data {
        Some(d) => Some(d@),
        None => None,
    }
}

impl<'a> View for Will<'a> {
    type V = WillView;

    open spec fn view(&self) -> WillView {
        WillView {
            topic: self.topic@,
            payload: self.payload@,
            qos: self.qos,
            retain: self.retain,
            properties: self.properties@,
        }
    }
}

/// The content of a Will that may be absent.
pub open spec fn will_opt(will: Option<Will<'_>>) -> Option<WillView> {
    match will {
        Some(w) => Some(w@),
        None => None,
    }
}

/// The content of a list of subscriptions.
pub open spec fn subscriptions_view(list: Seq<Subscription<'_>>) -> Seq<(Seq<char>, u8)> {
    list.map_values(|s: Subscription<'_>| (s.topic_filter@, s.options))
}

/// The content of a list of texts.
pub open spec fn texts_view(list: Seq<&str>) -> Seq<Seq<char>> {
    list.map_values(|s: &str| s@)
}

/// The content of an acknowledgement of the given type.
pub open spec fn ack_view(packet_type: u8, ack: PubAck<'_>) -> PacketView {
    PacketView::Ack {
        packet_type,
        packet_id: ack.packet_id,
        reason_code: ack.reason_code,
        properties: ack.properties@,
    }
}

impl<'a> View for Packet<'a> {
    type V = PacketView;

    open spec fn view(&self) -> PacketView {
        match *self {
            Packet::Connect(p) => PacketView::Connect {
                client_id: p.client_id@,
                keep_alive: p.keep_alive,
                clean_start: p.clean_start,
                will: will_opt(p.will),
                username: text_opt(p.username),
                password: bytes_opt(p.password),
                properties: p.properties@,
            },
            Packet::ConnAck(p) => PacketView::ConnAck {
                session_present: p.session_present,
                reason_code: p.reason_code,
                properties: p.properties@,
            },
            Packet::Publish(p) => PacketView::Publish {
                dup: p.dup,
                qos: p.qos,
                retain: p.retain,
                topic: p.topic@,
                packet_id: p.packet_id,
                properties: p.properties@,
                payload: p.payload@,
            },
            Packet::PubAck(p) => ack_view(4, p),
            Packet::PubRec(p) => ack_view(5, p),
            Packet::PubRel(p) => ack_view(6, p),
            Packet::PubComp(p) => ack_view(7, p),
            Packet::Subscribe(p) => PacketView::Subscribe {
                packet_id: p.packet_id,
                properties: p.properties@,
                subscriptions: subscriptions_view(p.subscriptions@),
            },
            Packet::SubAck(p) => PacketView::Codes {
                packet_type: 9,
                packet_id: p.packet_id,
                properties: p.properties@,
                reason_codes: p.reason_codes@,
            },
            Packet::Unsubscribe(p) => PacketView::Unsubscribe {
                packet_id: p.packet_id,
                properties: p.properties@,
                topic_filters: texts_view(p.topic_filters@),
            },
            Packet::UnsubAck(p) => PacketView::Codes {
                packet_type: 11,
                packet_id: p.packet_id,
                properties: p.properties@,
                reason_codes: p.reason_codes@,
            },
            Packet::PingReq => PacketView::Ping { packet_type: 12 },
            Packet::PingResp => PacketView::Ping { packet_type: 13 },
            Packet::Disconnect(p) => PacketView::Disconnect {
                reason_code: p.reason_code,
                properties: p.properties@,
            },
        }
    }
}

/// Whether the bit of the given weight is set.
pub open spec fn bit(v: u8, weight: u8) -> bool {
    (v / weight) % 2 == 1
}

/// The weight where the bit is set, 0 where it is not.
pub open spec fn weight_if(set: bool, weight: u8) -> u8 {
    if set {
        weight
    } else {
        0
    }
}

/// Whether there is no property.
pub open spec fn no_properties(p: PropertiesView) -> bool {
    p == property::meaning(Seq::empty())
}

/// The flags byte of a CONNECT.
pub open spec fn connect_flags(
    clean_start: bool,
    will: Option<WillView>,
    username: bool,
    password: bool,
) -> u8 {
    (weight_if(clean_start, 2) + match will {
        Some(w) => 4 + (w.qos % 4) * 8 + weight_if(w.retain, 32),
        None => 0,
    } + weight_if(password, 64) + weight_if(username, 128)) as u8
}

/// The Will on the wire.
pub open spec fn will_bytes(will: Option<WillView>) -> Seq<u8> {
    match will {
        Some(w) => properties::properties_bytes(PropertySet::Will, w.properties) + wire::text_field(w.topic)
            + wire::binary_field(w.payload),
        None => Seq::empty(),
    }
}

/// Text on the wire, where it is present.
pub open spec fn text_opt_bytes(text: Option<Seq<char>>) -> Seq<u8> {
    match text {
        Some(t) => wire::text_field(t),
        None => Seq::empty(),
    }
}

/// A run of bytes on the wire, where it is present.
pub open spec fn binary_opt_bytes(data: Option<Seq<u8>>) -> Seq<u8> {
    match data {
        Some(d) => wire::binary_field(d),
        None => Seq::empty(),
    }
}

/// Subscriptions on the wire, one behind the other.
pub open spec fn subscriptions_bytes(list: Seq<(Seq<char>, u8)>) -> Seq<u8>
    decreases list.len(),
{
    if list.len() == 0 {
        Seq::empty()
    } else {
        wire::text_field(list[0].0) + seq![list[0].1] + subscriptions_bytes(list.drop_first())
    }
}

/// Topic filters on the wire, one behind the other.
pub open spec fn filters_bytes(list: Seq<Seq<char>>) -> Seq<u8>
    decreases list.len(),
{
    if list.len() == 0 {
        Seq::empty()
    } else {
        wire::text_field(list[0]) + filters_bytes(list.drop_first())
    }
}

/// A reason code and properties that are left out where they say nothing.
pub open spec fn reason_bytes(set: PropertySet, reason_code: u8, p: PropertiesView) -> Seq<u8> {
    if reason_code == 0 && no_properties(p) {
        Seq::empty()
    } else {
        seq![reason_code] + properties::properties_bytes(set, p)
    }
}

impl PacketView {
    /// The first byte of the packet: its type and its flags.
    pub open spec fn first_byte(self) -> u8 {
        match self {
            PacketView::Connect { .. } => 0x10,
            PacketView::ConnAck { .. } => 0x20,
            PacketView::Publish { dup, qos, retain, .. } => (0x30 + weight_if(dup, 8) + (qos % 4)
                * 2 + weight_if(retain, 1)) as u8,
            PacketView::Ack { packet_type, .. } => if packet_type == 6 {
                0x62
            } else {
                (packet_type * 16) as u8
            },
            PacketView::Subscribe { .. } => 0x82,
            PacketView::Unsubscribe { .. } => 0xA2,
            PacketView::Codes { packet_type, .. } => (packet_type * 16) as u8,
            PacketView::Ping { packet_type } => (packet_type * 16) as u8,
            PacketView::Disconnect { .. } => 0xE0,
        }
    }

    /// What follows the fixed header.
    pub open spec fn body(self) -> Seq<u8> {
        match self {
            PacketView::Connect {
                client_id,
                keep_alive,
                clean_start,
                will,
                username,
                password,
                properties,
            } => wire::text_field("MQTT"@) + seq![5u8] + seq![
                connect_flags(clean_start, will, username is Some, password is Some),
            ] + wire::be16(keep_alive) + properties::properties_bytes(PropertySet::Connect, properties)
                + wire::text_field(client_id) + will_bytes(will) + text_opt_bytes(username)
                + binary_opt_bytes(password),
            PacketView::ConnAck { session_present, reason_code, properties } => seq![
                weight_if(session_present, 1),
                reason_code,
            ] + properties::properties_bytes(PropertySet::ConnAck, properties),
            PacketView::Publish { topic, packet_id, properties, payload, .. } => wire::text_field(
                topic,
            ) + match packet_id {
                Some(id) => wire::be16(id),
                None => Seq::empty(),
            } + properties::properties_bytes(PropertySet::Publish, properties) + payload,
            PacketView::Ack { packet_id, reason_code, properties, .. } => wire::be16(packet_id)
                + reason_bytes(PropertySet::Ack, reason_code, properties),
            PacketView::Subscribe { packet_id, properties, subscriptions } => wire::be16(packet_id)
                + properties::properties_bytes(PropertySet::Subscribe, properties) + subscriptions_bytes(
                subscriptions,
            ),
            PacketView::Unsubscribe { packet_id, properties, topic_filters } => wire::be16(
                packet_id,
            ) + properties::properties_bytes(PropertySet::Unsubscribe, properties) + filters_bytes(
                topic_filters,
            ),
            PacketView::Codes { packet_id, properties, reason_codes, .. } => wire::be16(packet_id)
                + properties::properties_bytes(PropertySet::Ack, properties) + reason_codes,
            PacketView::Ping { .. } => Seq::empty(),
            PacketView::Disconnect { reason_code, properties } => reason_bytes(
                PropertySet::Disconnect,
                reason_code,
                properties,
            ),
        }
    }

    /// The packet on the wire: its first byte, the length of its body, reduced to 32 bits, and
    /// its body.
    pub open spec fn bytes(self) -> Seq<u8> {
        seq![self.first_byte()] + wire::varint((self.body().len() % 0x1_0000_0000) as nat)
            + self.body()
    }
}

/// Reads the Will of a CONNECT off the front, where the flags announce one.
pub open spec fn take_will(flags: u8, s: Seq<u8>) -> Result<(Option<WillView>, Seq<u8>), CodecError> {
    if !bit(flags, 4) {
        Ok((None, s))
    } else {
        match property::take_properties(PropertySet::Will, s) {
            Err(e) => Err(e),
            Ok((list, after_properties)) => match wire::take_text(after_properties) {
                Err(e) => Err(e),
                Ok((topic, after_topic)) => match wire::take_binary(after_topic) {
                    Err(e) => Err(e),
                    Ok((payload, rest)) => Ok(
                        (
                            Some(
                                WillView {
                                    topic,
                                    payload,
                                    qos: (flags / 8) % 4,
                                    retain: bit(flags, 32),
                                    properties: property::meaning(list),
                                },
                            ),
                            rest,
                        ),
                    ),
                },
            },
        }
    }
}

/// Reads text off the front, where it is announced.
pub open spec fn take_text_if(present: bool, s: Seq<u8>) -> Result<
    (Option<Seq<char>>, Seq<u8>),
    CodecError,
> {
    if !present {
        Ok((None, s))
    } else {
        match wire::take_text(s) {
            Err(e) => Err(e),
            Ok((text, rest)) => Ok((Some(text), rest)),
        }
    }
}

/// Reads a run of bytes off the front, where it is announced.
pub open spec fn take_binary_if(present: bool, s: Seq<u8>) -> Result<
    (Option<Seq<u8>>, Seq<u8>),
    CodecError,
> {
    if !present {
        Ok((None, s))
    } else {
        match wire::take_binary(s) {
            Err(e) => Err(e),
            Ok((data, rest)) => Ok((Some(data), rest)),
        }
    }
}

/// What follows the variable header of a CONNECT with the given flags and keep-alive.
pub open spec fn parse_connect_payload(flags: u8, keep_alive: u16, s: Seq<u8>) -> Result<
    PacketView,
    CodecError,
> {
    match property::take_properties(PropertySet::Connect, s) {
        Err(e) => Err(e),
        Ok((list, s1)) => match wire::take_text(s1) {
            Err(e) => Err(e),
            Ok((client_id, s2)) => match take_will(flags, s2) {
                Err(e) => Err(e),
                Ok((will, s3)) => match take_text_if(bit(flags, 128), s3) {
                    Err(e) => Err(e),
                    Ok((username, s4)) => match take_binary_if(bit(flags, 64), s4) {
                        Err(e) => Err(e),
                        Ok((password, _)) => Ok(
                            PacketView::Connect {
                                client_id,
                                keep_alive,
                                clean_start: bit(flags, 2),
                                will,
                                username,
                                password,
                                properties: property::meaning(list),
                            },
                        ),
                    },
                },
            },
        },
    }
}

/// The body of a CONNECT.
pub open spec fn parse_connect(s: Seq<u8>) -> Result<PacketView, CodecError> {
    match wire::take_text(s) {
        Err(e) => Err(e),
        Ok((name, s1)) => if name != "MQTT"@ {
            Err(CodecError::MalformedPacket)
        } else {
            match wire::take_u8(s1) {
                Err(e) => Err(e),
                Ok((level, s2)) => if level != 5 {
                    Err(CodecError::UnsupportedProtocolVersion(level))
                } else {
                    match wire::take_u8(s2) {
                        Err(e) => Err(e),
                        Ok((flags, s3)) => match wire::take_u16(s3) {
                            Err(e) => Err(e),
                            Ok((keep_alive, s4)) => parse_connect_payload(flags, keep_alive, s4),
                        },
                    }
                },
            }
        },
    }
}

/// The body of a CONNACK.
pub open spec fn parse_connack(s: Seq<u8>) -> Result<PacketView, CodecError> {
    match wire::take_u8(s) {
        Err(e) => Err(e),
        Ok((flags, s1)) => match wire::take_u8(s1) {
            Err(e) => Err(e),
            Ok((reason_code, s2)) => match property::take_properties(PropertySet::ConnAck, s2) {
                Err(e) => Err(e),
                Ok((list, _)) => Ok(
                    PacketView::ConnAck {
                        session_present: bit(flags, 1),
                        reason_code,
                        properties: property::meaning(list),
                    },
                ),
            },
        },
    }
}

/// Reads a packet identifier off the front, where it is announced.
pub open spec fn take_packet_id_if(present: bool, s: Seq<u8>) -> Result<
    (Option<u16>, Seq<u8>),
    CodecError,
> {
    if !present {
        Ok((None, s))
    } else {
        match wire::take_u16(s) {
            Err(e) => Err(e),
            Ok((id, rest)) => Ok((Some(id), rest)),
        }
    }
}

/// The body of a PUBLISH with the given flags.
pub open spec fn parse_publish(flags: u8, s: Seq<u8>) -> Result<PacketView, CodecError> {
    let qos = (flags / 2) % 4;
    if qos > 2 {
        Err(CodecError::MalformedPacket)
    } else {
        match wire::take_text(s) {
            Err(e) => Err(e),
            Ok((topic, s1)) => match take_packet_id_if(qos > 0, s1) {
                Err(e) => Err(e),
                Ok((packet_id, s2)) => match property::take_properties(PropertySet::Publish, s2) {
                    Err(e) => Err(e),
                    Ok((list, payload)) => Ok(
                        PacketView::Publish {
                            dup: bit(flags, 8),
                            qos,
                            retain: bit(flags, 1),
                            topic,
                            packet_id,
                            properties: property::meaning(list),
                            payload,
                        },
                    ),
                },
            },
        }
    }
}

/// A reason code and properties, either of which may be left out.
pub open spec fn parse_reason(set: PropertySet, s: Seq<u8>) -> Result<
    (u8, PropertiesView),
    CodecError,
> {
    if s.len() == 0 {
        Ok((0u8, property::meaning(Seq::empty())))
    } else {
        match property::take_properties(set, s.skip(1)) {
            Err(e) => Err(e),
            Ok((list, _)) => Ok((s[0], property::meaning(list))),
        }
    }
}

/// The body of a PUBACK, PUBREC, PUBREL or PUBCOMP.
pub open spec fn parse_ack(packet_type: u8, s: Seq<u8>) -> Result<PacketView, CodecError> {
    match wire::take_u16(s) {
        Err(e) => Err(e),
        Ok((packet_id, s1)) => match parse_reason(PropertySet::Ack, s1) {
            Err(e) => Err(e),
            Ok((reason_code, properties)) => Ok(
                PacketView::Ack { packet_type, packet_id, reason_code, properties },
            ),
        },
    }
}

/// Subscriptions, one behind the other, up to the end.
pub open spec fn parse_subscriptions(s: Seq<u8>) -> Result<Seq<(Seq<char>, u8)>, CodecError>
    decreases s.len(),
{
    if s.len() == 0 {
        Ok(Seq::empty())
    } else {
        match wire::take_text(s) {
            Err(e) => Err(e),
            Ok((filter, s1)) => match wire::take_u8(s1) {
                Err(e) => Err(e),
                Ok((options, rest)) => match parse_subscriptions(rest) {
                    Err(e) => Err(e),
                    Ok(others) => Ok(seq![(filter, options)] + others),
                },
            },
        }
    }
}

/// The body of a SUBSCRIBE.
pub open spec fn parse_subscribe(s: Seq<u8>) -> Result<PacketView, CodecError> {
    match wire::take_u16(s) {
        Err(e) => Err(e),
        Ok((packet_id, s1)) => match property::take_properties(PropertySet::Subscribe, s1) {
            Err(e) => Err(e),
            Ok((list, s2)) => match parse_subscriptions(s2) {
                Err(e) => Err(e),
                Ok(subscriptions) => if subscriptions.len() == 0 {
                    Err(CodecError::MalformedPacket)
                } else {
                    Ok(
                        PacketView::Subscribe {
                            packet_id,
                            properties: property::meaning(list),
                            subscriptions,
                        },
                    )
                },
            },
        },
    }
}

/// Topic filters, one behind the other, up to the end.
pub open spec fn parse_filters(s: Seq<u8>) -> Result<Seq<Seq<char>>, CodecError>
    decreases s.len(),
{
    if s.len() == 0 {
        Ok(Seq::empty())
    } else {
        match wire::take_text(s) {
            Err(e) => Err(e),
            Ok((filter, rest)) => match parse_filters(rest) {
                Err(e) => Err(e),
                Ok(others) => Ok(seq![filter] + others),
            },
        }
    }
}

/// The body of an UNSUBSCRIBE.
pub open spec fn parse_unsubscribe(s: Seq<u8>) -> Result<PacketView, CodecError> {
    match wire::take_u16(s) {
        Err(e) => Err(e),
        Ok((packet_id, s1)) => match property::take_properties(PropertySet::Unsubscribe, s1) {
            Err(e) => Err(e),
            Ok((list, s2)) => match parse_filters(s2) {
                Err(e) => Err(e),
                Ok(topic_filters) => if topic_filters.len() == 0 {
                    Err(CodecError::MalformedPacket)
                } else {
                    Ok(
                        PacketView::Unsubscribe {
                            packet_id,
                            properties: property::meaning(list),
                            topic_filters,
                        },
                    )
                },
            },
        },
    }
}

/// The body of a SUBACK or UNSUBACK.
pub open spec fn parse_codes(packet_type: u8, s: Seq<u8>) -> Result<PacketView, CodecError> {
    match wire::take_u16(s) {
        Err(e) => Err(e),
        Ok((packet_id, s1)) => match property::take_properties(PropertySet::Ack, s1) {
            Err(e) => Err(e),
            Ok((list, reason_codes)) => Ok(
                PacketView::Codes {
                    packet_type,
                    packet_id,
                    properties: property::meaning(list),
                    reason_codes,
                },
            ),
        },
    }
}

/// The body of a packet whose first byte is `first`.
#[verifier::opaque]
pub open spec fn parse_body(first: u8, s: Seq<u8>) -> Result<PacketView, CodecError> {
    let packet_type = first / 16;
    let flags = first % 16;
    if packet_type == 1 {
        if flags != 0 {
            Err(CodecError::MalformedPacket)
        } else {
            parse_connect(s)
        }
    } else if packet_type == 2 {
        parse_connack(s)
    } else if packet_type == 3 {
        parse_publish(flags, s)
    } else if packet_type == 4 || packet_type == 5 || packet_type == 7 {
        parse_ack(packet_type, s)
    } else if packet_type == 6 {
        if flags != 2 {
            Err(CodecError::MalformedPacket)
        } else {
            parse_ack(packet_type, s)
        }
    } else if packet_type == 8 {
        if flags != 2 {
            Err(CodecError::MalformedPacket)
        } else {
            parse_subscribe(s)
        }
    } else if packet_type == 9 || packet_type == 11 {
        parse_codes(packet_type, s)
    } else if packet_type == 10 {
        if flags != 2 {
            Err(CodecError::MalformedPacket)
        } else {
            parse_unsubscribe(s)
        }
    } else if packet_type == 12 || packet_type == 13 {
        if flags != 0 || s.len() != 0 {
            Err(CodecError::MalformedPacket)
        } else {
            Ok(PacketView::Ping { packet_type })
        }
    } else if packet_type == 14 {
        match parse_reason(PropertySet::Disconnect, s) {
            Err(e) => Err(e),
            Ok((reason_code, properties)) => Ok(PacketView::Disconnect { reason_code, properties }),
        }
    } else {
        Err(CodecError::MalformedPacket)
    }
}

/// The size of the packet at the front of `s`, fixed header included, as its fixed header
/// announces it.
pub open spec fn announced_size(s: Seq<u8>) -> Result<nat, CodecError> {
    match wire::take_u8(s) {
        Err(e) => Err(e),
        Ok((_, s1)) => match wire::varint_at(s1, 0) {
            Err(e) => Err(e),
            Ok((remaining, len)) => Ok(1 + len + remaining),
        },
    }
}

/// The packet at the front of `s`, and the number of bytes it takes.
pub open spec fn parse_packet(s: Seq<u8>) -> Result<(PacketView, nat), CodecError> {
    match wire::take_u8(s) {
        Err(e) => Err(e),
        Ok((first, s1)) => match wire::take_varint(s1) {
            Err(e) => Err(e),
            Ok((remaining, s2)) => if s2.len() < remaining {
                Err(CodecError::Incomplete)
            } else {
                match parse_body(first, s2.take(remaining as int)) {
                    Err(e) => Err(e),
                    Ok(packet) => Ok((packet, (s.len() - s2.len() + remaining) as nat)),
                }
            },
        },
    }
}

/// The packet at the front of `s` under a limit on its size: one that its fixed header announces
/// as larger is refused, whether or not it is complete.
pub open spec fn parse_packet_limited(s: Seq<u8>, maximum: nat) -> Result<
    (PacketView, nat),
    CodecError,
> {
    match announced_size(s) {
        Err(e) => Err(e),
        Ok(size) => if size > maximum {
            Err(CodecError::PacketTooLarge)
        } else {
            parse_packet(s)
        },
    }
}

} // verus!
