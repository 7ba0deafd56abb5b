//! The first packet of a connection.

use vstd::prelude::*;
use vstd::utf8;
use crate::broker::model::WillMessageView;
use crate::broker::state;
use crate::broker::state::WillMessage;
use crate::codec::decode::decode_packet_limited;
use crate::codec::packet;
use crate::codec::packet::{ConnAck, Connect, Packet, PacketView, WillView};
use crate::codec::properties::ConnAckProperties;
use crate::codec::property;
use crate::codec::property::{PropertiesView, ValueView};
use crate::codec::wire::CodecError;
use crate::config::AuthConfig;
use crate::message::{string_opt, ApplicationProperties, ApplicationView};
use crate::session::inbound::encoded;
use crate::text::copy_bytes;

verus! {

/// What a client asks for with its CONNECT.
#[derive(Debug)]
pub struct ConnectRequest {
    /// The client identifier; empty where the server is to assign one.
    pub client_id: String,
    /// The longest silence of the client, in seconds.
    pub keep_alive: u16,
    /// Whether an earlier session is discarded.
    pub clean_start: bool,
    /// How long the session outlives the connection, in seconds.
    pub session_expiry_interval: u32,
    /// How many unacknowledged messages the client accepts at a time.
    pub receive_maximum: u16,
    /// The largest packet the client accepts.
    pub maximum_packet_size: u32,
    /// The largest topic alias the client accepts.
    pub topic_alias_maximum: u16,
    /// The user's name.
    pub username: Option<String>,
    /// The user's password.
    pub password: Option<String>,
    /// The Will.
    pub will: Option<WillMessage>,
}

/// The content of what a client asks for.
#[verifier::ext_equal]
pub struct RequestView {
    /// The client identifier.
    pub client_id: Seq<char>,
    /// The longest silence of the client.
    pub keep_alive: u16,
    /// Whether an earlier session is discarded.
    pub clean_start: bool,
    /// How long the session outlives the connection.
    pub expiry: u32,
    /// How many unacknowledged messages the client accepts at a time.
    pub receive_maximum: u16,
    /// The largest packet the client accepts.
    pub maximum_packet_size: u32,
    /// The largest topic alias the client accepts.
    pub topic_alias_maximum: u16,
    /// The user's name.
    pub username: Option<Seq<char>>,
    /// The user's password.
    pub password: Option<Seq<char>>,
    /// The Will.
    pub will: Option<WillMessageView>,
}

impl View for ConnectRequest {
    type V = RequestView;

    open spec fn view(&self) -> RequestView {
        RequestView {
            client_id: self.client_id@,
            keep_alive: self.keep_alive,
            clean_start: self.clean_start,
            expiry: self.session_expiry_interval,
            receive_maximum: self.receive_maximum,
            maximum_packet_size: self.maximum_packet_size,
            topic_alias_maximum: self.topic_alias_maximum,
            username: string_opt(self.username),
            password: string_opt(self.password),
            will: state::will_opt(self.will),
        }
    }
}

/// A property of one byte.
pub open spec fn byte_property(p: PropertiesView, id: u8) -> Option<u8> {
    if p.values.contains_key(id) {
        Some(p.values[id]->Byte_0)
    } else {
        None
    }
}

/// A property of two bytes.
pub open spec fn two_property(p: PropertiesView, id: u8) -> Option<u16> {
    if p.values.contains_key(id) {
        Some(p.values[id]->Two_0)
    } else {
        None
    }
}

/// A property of four bytes.
pub open spec fn four_property(p: PropertiesView, id: u8) -> Option<u32> {
    if p.values.contains_key(id) {
        Some(p.values[id]->Four_0)
    } else {
        None
    }
}

/// A property that is text.
pub open spec fn text_property(p: PropertiesView, id: u8) -> Option<Seq<char>> {
    if p.values.contains_key(id) {
        Some(p.values[id]->Text_0)
    } else {
        None
    }
}

/// A property that is a run of bytes.
pub open spec fn binary_property(p: PropertiesView, id: u8) -> Option<Seq<u8>> {
    if p.values.contains_key(id) {
        Some(p.values[id]->Binary_0)
    } else {
        None
    }
}

/// The Will that a CONNECT announces.
pub open spec fn announced_will(w: WillView) -> WillMessageView {
    WillMessageView {
        topic: w.topic,
        payload: w.payload,
        qos: w.qos,
        retain: w.retain,
        delay_interval: match four_property(w.properties, 0x18) {
            Some(v) => v,
            None => 0,
        },
        properties: ApplicationView {
            payload_format_indicator: byte_property(w.properties, 0x01),
            message_expiry_interval: four_property(w.properties, 0x02),
            expiry_started_at_ms: None,
            content_type: text_property(w.properties, 0x03),
            response_topic: text_property(w.properties, 0x08),
            correlation_data: binary_property(w.properties, 0x09),
            user_properties: w.properties.user,
        },
    }
}

/// Text of bytes: what they encode where they are UTF-8.
pub uninterp spec fn lossy_text(data: Seq<u8>) -> Seq<char>;

/// What a CONNECT asks for: what it does not say has a default.
pub open spec fn request_of(packet: PacketView) -> RequestView
    recommends
        packet is Connect,
{
    match packet {
        PacketView::Connect {
            client_id,
            keep_alive,
            clean_start,
            will,
            username,
            password,
            properties,
        } => RequestView {
            client_id,
            keep_alive,
            clean_start,
            expiry: match four_property(properties, 0x11) {
                Some(v) => v,
                None => 0,
            },
            receive_maximum: match two_property(properties, 0x21) {
                Some(v) => v,
                None => u16::MAX,
            },
            maximum_packet_size: match four_property(properties, 0x27) {
                Some(v) => v,
                None => 268_435_455,
            },
            topic_alias_maximum: match two_property(properties, 0x22) {
                Some(v) => v,
                None => 0,
            },
            username,
            password: match password {
                Some(p) => Some(lossy_text(p)),
                None => None,
            },
            will: match will {
                Some(w) => Some(announced_will(w)),
                None => None,
            },
        },
        _ => arbitrary(),
    }
}

/// Calls `String::from_utf8_lossy`, which gives the text that the bytes encode where they are
/// UTF-8, and otherwise puts a replacement character in place of each part that is not. What it
/// gives depends on the bytes alone; of bytes that are not UTF-8 nothing more is claimed.
#[verifier::external_body]
pub(crate) fn lossy(data: &[u8]) -> (r: String)
    ensures
        r@ == lossy_text(data@),
        utf8::valid_utf8(data@) ==> r@ == utf8::decode_utf8(data@),
{
    String::from_utf8_lossy(data).into_owned()
}

impl ConnectRequest {
    /// What a CONNECT asks for.
    pub fn from_packet(packet: &Connect<'_>) -> (r: Self)
        ensures
            r@ == request_of(Packet::Connect(*packet)@),
    {
        proof {
            let p = packet.properties;
            assert(p@.values.contains_key(0x11) == (p.value(0x11) is Some));
            assert(p@.values.contains_key(0x21) == (p.value(0x21) is Some));
            assert(p@.values.contains_key(0x27) == (p.value(0x27) is Some));
            assert(p@.values.contains_key(0x22) == (p.value(0x22) is Some));
        }
        let will = match &packet.will {
            Some(w) => {
                proof {
                    let p = w.properties;
                    assert(p@.values.contains_key(0x18) == (p.value(0x18) is Some));
                    assert(p@.values.contains_key(0x01) == (p.value(0x01) is Some));
                    assert(p@.values.contains_key(0x02) == (p.value(0x02) is Some));
                    assert(p@.values.contains_key(0x03) == (p.value(0x03) is Some));
                    assert(p@.values.contains_key(0x08) == (p.value(0x08) is Some));
                    assert(p@.values.contains_key(0x09) == (p.value(0x09) is Some));
                }
                let message = WillMessage {
                    topic: w.topic.to_owned(),
                    payload: copy_bytes(w.payload),
                    qos: w.qos,
                    retain: w.retain,
                    delay_interval: match w.properties.will_delay_interval {
                        Some(v) => v,
                        None => 0,
                    },
                    properties: ApplicationProperties::from_will(&w.properties),
                };
                assert(message@ =~= announced_will(w@));
                Some(message)
            },
            None => None,
        };
        let r = ConnectRequest {
            client_id: packet.client_id.to_owned(),
            keep_alive: packet.keep_alive,
            clean_start: packet.clean_start,
            session_expiry_interval: match packet.properties.session_expiry_interval {
                Some(v) => v,
                None => 0,
            },
            receive_maximum: match packet.properties.receive_maximum {
                Some(v) => v,
                None => u16::MAX,
            },
            maximum_packet_size: match packet.properties.max_packet_size {
                Some(v) => v,
                None => 268_435_455,
            },
            topic_alias_maximum: match packet.properties.topic_alias_maximum {
                Some(v) => v,
                None => 0,
            },
            username: match packet.username {
                Some(t) => Some(t.to_owned()),
                None => None,
            },
            password: match packet.password {
                Some(data) => Some(lossy(data)),
                None => None,
            },
            will,
        };
        r
    }

    /// The name and the password by which the client is authenticated: both or none; nothing
    /// where one of them is missing.
    pub fn credentials(&self) -> (r: Option<(&str, &str)>)
        ensures
            match r {
                Some((name, password)) => credentials_of(self@) == Some((name@, password@)),
                None => credentials_of(self@) is None,
            },
    {
        proof {
            reveal_strlit("");
            assert(""@ =~= Seq::<char>::empty());
        }
        match (&self.username, &self.password) {
            (Some(name), Some(password)) => Some((name.as_str(), password.as_str())),
            (None, None) => Some(("", "")),
            _ => None,
        }
    }

    /// Whether the client is who they say.
    pub fn authenticate(&self, auth: &AuthConfig) -> (r: bool)
        ensures
            r == (match credentials_of(self@) {
                None => false,
                Some((name, password)) => match auth@ {
                    None => true,
                    Some(users) => match crate::config::user_named(users, name) {
                        None => false,
                        Some(user) => crate::config::verifies(password, user.password_hash),
                    },
                },
            }),
    {
        match self.credentials() {
            Some((name, password)) => auth.authenticate(name, password),
            None => false,
        }
    }
}

/// The name and the password by which a client is authenticated.
pub open spec fn credentials_of(r: RequestView) -> Option<(Seq<char>, Seq<char>)> {
    match (r.username, r.password) {
        (Some(name), Some(password)) => Some((name, password)),
        (None, None) => Some((Seq::empty(), Seq::empty())),
        _ => None,
    }
}

/// Property `id` of a CONNACK.
pub open spec fn connack_value(
    receive_maximum: Option<u16>,
    maximum_packet_size: Option<u32>,
    assigned: Option<Seq<char>>,
    topic_alias_maximum: Option<u16>,
    id: u8,
) -> Option<ValueView> {
    if id == 0x21 {
        match receive_maximum {
            Some(v) => Some(ValueView::Two(v)),
            None => None,
        }
    } else if id == 0x27 {
        match maximum_packet_size {
            Some(v) => Some(ValueView::Four(v)),
            None => None,
        }
    } else if id == 0x12 {
        match assigned {
            Some(v) => Some(ValueView::Text(v)),
            None => None,
        }
    } else if id == 0x22 {
        match topic_alias_maximum {
            Some(v) => Some(ValueView::Two(v)),
            None => None,
        }
    } else {
        None
    }
}

/// The properties of a CONNACK.
pub open spec fn connack_properties(
    receive_maximum: Option<u16>,
    maximum_packet_size: Option<u32>,
    assigned: Option<Seq<char>>,
    topic_alias_maximum: Option<u16>,
) -> PropertiesView {
    PropertiesView {
        values: Map::new(
            |id: u8|
                connack_value(
                    receive_maximum,
                    maximum_packet_size,
                    assigned,
                    topic_alias_maximum,
                    id,
                ) is Some,
            |id: u8|
                connack_value(
                    receive_maximum,
                    maximum_packet_size,
                    assigned,
                    topic_alias_maximum,
                    id,
                )->0,
        ),
        user: Seq::empty(),
    }
}

/// A CONNACK that accepts the connection.
pub open spec fn connack_accepting(session_present: bool, properties: PropertiesView) -> PacketView {
    PacketView::ConnAck { session_present, reason_code: 0, properties }
}

/// A CONNACK that refuses the connection.
pub open spec fn connack_refusing(reason_code: u8) -> PacketView {
    PacketView::ConnAck {
        session_present: false,
        reason_code,
        properties: property::meaning(Seq::empty()),
    }
}

/// A CONNACK that refuses the connection.
pub fn encode_refusal(reason_code: u8) -> (bytes: Vec<u8>)
    ensures
        bytes@ == connack_refusing(reason_code).bytes(),
{
    encoded(
        &Packet::ConnAck(
            ConnAck {
                session_present: false,
                reason_code,
                properties: ConnAckProperties::default(),
            },
        ),
    )
}

/// A CONNACK that accepts the connection.
pub fn encode_acceptance(
    session_present: bool,
    receive_maximum: Option<u16>,
    maximum_packet_size: Option<u32>,
    assigned: Option<&str>,
    topic_alias_maximum: Option<u16>,
) -> (bytes: Vec<u8>)
    ensures
        bytes@ == connack_accepting(
            session_present,
            connack_properties(
                receive_maximum,
                maximum_packet_size,
                packet::text_opt(assigned),
                topic_alias_maximum,
            ),
        ).bytes(),
{
    let properties = ConnAckProperties {
        session_expiry_interval: None,
        receive_maximum,
        max_qos: None,
        retain_available: None,
        maximum_packet_size,
        assigned_client_identifier: assigned,
        topic_alias_maximum,
        reason_string: None,
        user_properties: Vec::new(),
        wildcard_subscription_available: None,
        subscription_identifiers_available: None,
        shared_subscription_available: None,
        server_keep_alive: None,
        response_information: None,
        server_reference: None,
        authentication_method: None,
        authentication_data: None,
    };
    proof {
        let want = connack_properties(
            receive_maximum,
            maximum_packet_size,
            packet::text_opt(assigned),
            topic_alias_maximum,
        );
        assert(properties@.user =~= want.user);
        assert forall|id: u8| #[trigger] properties.value(id) == connack_value(
            receive_maximum,
            maximum_packet_size,
            packet::text_opt(assigned),
            topic_alias_maximum,
            id,
        ) by {}
        assert(properties@.values =~= want.values);
    }
    encoded(&Packet::ConnAck(ConnAck { session_present, reason_code: 0, properties }))
}

/// What is to be done with the bytes that a connection begins with.
pub enum Handshake {
    /// More bytes are needed.
    NeedMore,
    /// The client asks for a connection; its CONNECT has so many bytes.
    Request(ConnectRequest, usize),
    /// The connection is refused with this CONNACK.
    Refuse(Vec<u8>),
    /// The connection is closed without an answer.
    Close,
}

/// What is to be done with the bytes that a connection begins with, as the codec reads them.
pub open spec fn handshake_fits(
    parsed: Result<(PacketView, nat), CodecError>,
    h: Handshake,
) -> bool {
    match parsed {
        Ok((packet, read)) => if packet is Connect {
            h matches Handshake::Request(request, n) && request@ == request_of(packet) && n == read
        } else {
            h is Close
        },
        Err(CodecError::Incomplete) => h is NeedMore,
        Err(CodecError::UnsupportedProtocolVersion(_)) => h matches Handshake::Refuse(bytes)
            && bytes@ == connack_refusing(0x84).bytes(),
        Err(CodecError::PacketTooLarge) => h matches Handshake::Refuse(bytes) && bytes@
            == connack_refusing(0x95).bytes(),
        Err(CodecError::ProtocolError) => h matches Handshake::Refuse(bytes) && bytes@
            == connack_refusing(0x82).bytes(),
        Err(_) => h is Close,
    }
}

/// Reads the CONNECT at the front of what a connection has sent so far.
pub fn handshake(buf: &[u8], maximum_packet_size: u32) -> (h: Handshake)
    ensures
        handshake_fits(packet::parse_packet_limited(buf@, maximum_packet_size as nat), h),
{
    match decode_packet_limited(buf, maximum_packet_size) {
        Ok((packet, read)) => match &packet {
            Packet::Connect(connect) => Handshake::Request(
                ConnectRequest::from_packet(connect),
                read,
            ),
            _ => Handshake::Close,
        },
        Err(CodecError::Incomplete) => Handshake::NeedMore,
        Err(CodecError::UnsupportedProtocolVersion(_)) => Handshake::Refuse(encode_refusal(0x84)),
        Err(CodecError::PacketTooLarge) => Handshake::Refuse(encode_refusal(0x95)),
        Err(CodecError::ProtocolError) => Handshake::Refuse(encode_refusal(0x82)),
        Err(_) => Handshake::Close,
    }
}

/// The reason code of the DISCONNECT that answers bytes which are no packet.
pub open spec fn codec_reason(e: CodecError) -> u8 {
    match e {
        CodecError::ProtocolError => 0x82,
        CodecError::PacketTooLarge => 0x95,
        _ => 0x81,
    }
}

/// The reason code of the DISCONNECT that answers bytes which are no packet.
pub fn codec_error_reason(e: &CodecError) -> (r: u8)
    ensures
        r == codec_reason(*e),
{
    match e {
        CodecError::ProtocolError => 0x82,
        CodecError::PacketTooLarge => 0x95,
        _ => 0x81,
    }
}

/// How long a connection may be silent, in milliseconds: half as long again as the client
/// promised, and a day where it promised nothing.
pub fn keep_alive_ms(keep_alive: u16) -> (r: u64)
    ensures
        r == (if keep_alive > 0 {
            keep_alive as int * 1500
        } else {
            86_400_000
        }),
{
    if keep_alive > 0 {
        keep_alive as u64 * 1500
    } else {
        86_400_000
    }
}

} // verus!
