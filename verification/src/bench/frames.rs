//! The packets of the benchmark client, and those of the broker as it reads them.

use vstd::prelude::*;
use vstd::slice::slice_subrange;
use crate::codec::packet::PacketView;
use crate::codec::property;
use crate::codec::wire;
use crate::codec::wire::{
    append, be16, binary_field, text_field, varint, varint_at, write_bytes, write_str, write_u16,
    CodecError,
};
use crate::ingest::forward::lemma_empty_block;

verus! {

/// Why the bytes of the broker make no sense.
#[derive(Debug, PartialEq, Eq, Clone, Copy, Structural)]
pub enum FrameFault {
    /// A PUBLISH packet ends inside the length of its topic.
    ShortPublish,
    /// A PUBLISH packet has no room for topic and properties.
    ShortPublishBody,
    /// A PUBLISH packet ends inside its topic.
    ShortPublishTopic,
    /// A PUBLISH packet ends inside its properties.
    ShortPublishProperties,
    /// A PUBLISH packet ends before its packet identifier.
    MissingPacketId,
    /// A topic alias is 0 or larger than was agreed.
    InvalidServerAlias,
    /// A topic alias is used that stands for nothing.
    UnmappedServerAlias,
    /// A property length is no variable byte integer.
    MalformedVarint,
    /// A packet length is no variable byte integer.
    MalformedLength,
    /// A packet ends inside a variable byte integer.
    TruncatedVarint,
    /// A variable byte integer is too long.
    InvalidVarint,
    /// A CONNACK packet has no room for properties.
    ShortConnack,
    /// A CONNACK packet ends inside its properties.
    ShortConnackProperties,
    /// A CONNACK packet ends inside the Topic Alias Maximum.
    ShortTopicAliasMaximum,
    /// A CONNACK packet ends before a text.
    ShortConnackText,
    /// A CONNACK packet ends before binary data.
    ShortConnackBinary,
    /// A CONNACK packet ends before a text of a user property.
    ShortConnackUserProperty,
    /// A CONNACK packet has a property of an unknown kind.
    UnknownConnackProperty(u8),
    /// A CONNACK packet ends inside a property.
    TruncatedConnackProperty,
    /// A SUBACK packet has no room for properties.
    ShortSuback,
    /// A SUBACK packet has no reason code.
    SubackMissingReason,
}

impl FrameFault {
    /// The fault in words; an unknown property is told by its number besides.
    pub fn message(self) -> (r: &'static str)
        ensures
            r@ == self.text(),
    {
        match self {
            FrameFault::ShortPublish => "short PUBLISH",
            FrameFault::ShortPublishBody => "short PUBLISH body",
            FrameFault::ShortPublishTopic => "short PUBLISH topic",
            FrameFault::ShortPublishProperties => "short PUBLISH properties",
            FrameFault::MissingPacketId => "PUBLISH missing packet id",
            FrameFault::InvalidServerAlias => "invalid server Topic Alias",
            FrameFault::UnmappedServerAlias => "server used Topic Alias before mapping",
            FrameFault::MalformedVarint => "malformed varint",
            FrameFault::MalformedLength => "malformed MQTT remaining length",
            FrameFault::TruncatedVarint => "truncated MQTT varint",
            FrameFault::InvalidVarint => "invalid MQTT varint",
            FrameFault::ShortConnack => "short CONNACK",
            FrameFault::ShortConnackProperties => "short CONNACK properties",
            FrameFault::ShortTopicAliasMaximum => "short Topic Alias Maximum",
            FrameFault::ShortConnackText => "short CONNACK UTF-8 property",
            FrameFault::ShortConnackBinary => "short CONNACK binary property",
            FrameFault::ShortConnackUserProperty => "short CONNACK user property",
            FrameFault::UnknownConnackProperty(_) => "unknown CONNACK property",
            FrameFault::TruncatedConnackProperty => "truncated CONNACK property",
            FrameFault::ShortSuback => "short SUBACK",
            FrameFault::SubackMissingReason => "SUBACK missing reason",
        }
    }

    /// The fault in words.
    pub open spec fn text(self) -> Seq<char> {
        match self {
            FrameFault::ShortPublish => "short PUBLISH"@,
            FrameFault::ShortPublishBody => "short PUBLISH body"@,
            FrameFault::ShortPublishTopic => "short PUBLISH topic"@,
            FrameFault::ShortPublishProperties => "short PUBLISH properties"@,
            FrameFault::MissingPacketId => "PUBLISH missing packet id"@,
            FrameFault::InvalidServerAlias => "invalid server Topic Alias"@,
            FrameFault::UnmappedServerAlias => "server used Topic Alias before mapping"@,
            FrameFault::MalformedVarint => "malformed varint"@,
            FrameFault::MalformedLength => "malformed MQTT remaining length"@,
            FrameFault::TruncatedVarint => "truncated MQTT varint"@,
            FrameFault::InvalidVarint => "invalid MQTT varint"@,
            FrameFault::ShortConnack => "short CONNACK"@,
            FrameFault::ShortConnackProperties => "short CONNACK properties"@,
            FrameFault::ShortTopicAliasMaximum => "short Topic Alias Maximum"@,
            FrameFault::ShortConnackText => "short CONNACK UTF-8 property"@,
            FrameFault::ShortConnackBinary => "short CONNACK binary property"@,
            FrameFault::ShortConnackUserProperty => "short CONNACK user property"@,
            FrameFault::UnknownConnackProperty(_) => "unknown CONNACK property"@,
            FrameFault::TruncatedConnackProperty => "truncated CONNACK property"@,
            FrameFault::ShortSuback => "short SUBACK"@,
            FrameFault::SubackMissingReason => "SUBACK missing reason"@,
        }
    }
}

/// A packet: its first byte, the length of what follows, and what follows.
pub open spec fn frame(header: u8, body: Seq<u8>) -> Seq<u8> {
    seq![header] + varint(body.len()) + body
}

/// Appends the variable byte integer of a number.
pub fn encode_varint(value: usize, output: &mut Vec<u8>)
    ensures
        final(output)@ == old(output)@ + varint(value as nat),
{
    let mut value: usize = value;
    let ghost whole = value as nat;
    while value >= 128
        invariant
            output@ + varint(value as nat) == old(output)@ + varint(whole),
        decreases value,
    {
        let ghost before = output@;
        let ghost v = value as nat;
        output.push((value % 128 + 128) as u8);
        value = value / 128;
        assert(output@ + varint(value as nat) == before + varint(v));
    }
    output.push(value as u8);
}

/// A packet of this first byte and body.
pub fn make_packet(header: u8, body: Vec<u8>) -> (packet: Vec<u8>)
    ensures
        packet@ == frame(header, body@),
{
    let mut packet: Vec<u8> = Vec::new();
    packet.push(header);
    encode_varint(body.len(), &mut packet);
    append(body.as_slice(), &mut packet);
    assert(packet@ =~= frame(header, body@));
    packet
}

/// Appends text behind its length, which is reduced to 16 bits.
pub fn put_utf8(output: &mut Vec<u8>, value: &str)
    ensures
        final(output)@ == old(output)@ + text_field(value@),
{
    write_str(value, output);
}

/// Appends bytes behind their length, which is reduced to 16 bits.
pub fn put_binary(output: &mut Vec<u8>, value: &[u8])
    ensures
        final(output)@ == old(output)@ + binary_field(value@),
{
    write_bytes(value, output);
}

/// The properties of the client's CONNECT packet.
pub open spec fn connect_properties(accept_topic_alias: u16) -> Seq<u8> {
    if accept_topic_alias == 0 {
        Seq::empty()
    } else {
        seq![0x22u8] + be16(accept_topic_alias)
    }
}

/// The CONNECT packet of a client: Clean Start, with user name and password, a Keep Alive of a
/// minute, and the largest topic alias that the server may use where there is one.
pub fn encode_connect(client_id: &str, username: &str, password: &str, accept_topic_alias: u16) -> (r:
    Vec<u8>)
    ensures
        r@ == frame(
            0x10,
            text_field("MQTT"@) + seq![5u8, 0xC2u8] + be16(60) + varint(
                connect_properties(accept_topic_alias).len(),
            ) + connect_properties(accept_topic_alias) + text_field(client_id@) + text_field(
                username@,
            ) + text_field(password@),
        ),
{
    let mut body: Vec<u8> = Vec::new();
    put_utf8(&mut body, "MQTT");
    body.push(5);
    body.push(0xC2);
    write_u16(60, &mut body);
    let mut properties: Vec<u8> = Vec::new();
    if accept_topic_alias != 0 {
        properties.push(0x22);
        write_u16(accept_topic_alias, &mut properties);
    }
    assert(properties@ =~= connect_properties(accept_topic_alias));
    encode_varint(properties.len(), &mut body);
    append(properties.as_slice(), &mut body);
    put_utf8(&mut body, client_id);
    put_utf8(&mut body, username);
    put_binary(&mut body, password.as_bytes());
    assert(body@ =~= text_field("MQTT"@) + seq![5u8, 0xC2u8] + be16(60) + varint(
        connect_properties(accept_topic_alias).len(),
    ) + connect_properties(accept_topic_alias) + text_field(client_id@) + text_field(username@)
        + text_field(password@));
    make_packet(0x10, body)
}

/// The SUBSCRIBE packet for one topic filter.
pub fn encode_subscribe(packet_id: u16, topic: &str, qos: u8) -> (r: Vec<u8>)
    ensures
        r@ == frame(0x82, be16(packet_id) + seq![0u8] + text_field(topic@) + seq![(qos % 4) as u8]),
{
    let mut body: Vec<u8> = Vec::new();
    write_u16(packet_id, &mut body);
    body.push(0);
    put_utf8(&mut body, topic);
    body.push(qos % 4);
    assert(body@ =~= be16(packet_id) + seq![0u8] + text_field(topic@) + seq![(qos % 4) as u8]);
    make_packet(0x82, body)
}

/// The body of a PUBLISH packet without properties.
pub open spec fn publish_body(
    topic: Seq<char>,
    payload: Seq<u8>,
    qos: u8,
    packet_id: Option<u16>,
) -> Seq<u8> {
    text_field(topic) + (if qos > 0 {
        be16(
            match packet_id {
                Some(id) => id,
                None => 1,
            },
        )
    } else {
        Seq::empty()
    }) + seq![0u8] + payload
}

/// The PUBLISH packet of a message without properties; its identifier is 1 where none is given
/// and one is needed.
pub fn encode_publish(topic: &str, payload: &[u8], qos: u8, packet_id: Option<u16>) -> (r: Vec<u8>)
    ensures
        r@ == frame(
            (0x30 + 2 * (qos % 4)) as u8,
            publish_body(topic@, payload@, qos, packet_id),
        ),
{
    let mut body: Vec<u8> = Vec::new();
    put_utf8(&mut body, topic);
    if qos > 0 {
        let id: u16 = match packet_id {
            Some(id) => id,
            None => 1,
        };
        write_u16(id, &mut body);
    }
    body.push(0);
    append(payload, &mut body);
    assert(body@ =~= publish_body(topic@, payload@, qos, packet_id));
    make_packet(0x30 + 2 * (qos % 4), body)
}

/// The body of a PUBLISH packet of QoS 0 with a topic alias.
pub open spec fn aliased_body(topic: Seq<char>, payload: Seq<u8>, alias: u16) -> Seq<u8> {
    text_field(topic) + seq![3u8, 0x23u8] + be16(alias) + payload
}

/// The PUBLISH packet of a message of QoS 0 with a topic alias.
pub fn encode_publish_topic_alias(topic: &str, payload: &[u8], alias: u16) -> (r: Vec<u8>)
    ensures
        r@ == frame(0x30, aliased_body(topic@, payload@, alias)),
{
    let mut body: Vec<u8> = Vec::new();
    put_utf8(&mut body, topic);
    body.push(3);
    body.push(0x23);
    write_u16(alias, &mut body);
    append(payload, &mut body);
    assert(body@ =~= aliased_body(topic@, payload@, alias));
    make_packet(0x30, body)
}

/// The PUBACK packet of a message that was taken.
pub fn encode_puback(packet_id: u16) -> (r: Vec<u8>)
    ensures
        r@ == seq![0x40u8, 2u8] + be16(packet_id),
{
    let mut r: Vec<u8> = Vec::new();
    r.push(0x40);
    r.push(2);
    write_u16(packet_id, &mut r);
    assert(r@ =~= seq![0x40u8, 2u8] + be16(packet_id));
    r
}

/// The first packet of some bytes: its first byte, where its body begins, and its length.
pub open spec fn packet_bounds(s: Seq<u8>) -> Result<Option<(u8, nat, nat)>, FrameFault> {
    match varint_at(s.skip(1), 0) {
        Err(CodecError::Incomplete) => Ok(None),
        Err(_) => Err(FrameFault::MalformedLength),
        Ok((length, end)) => if s.len() < 1 + end + length {
            Ok(None)
        } else {
            Ok(Some((s[0], 1 + end, 1 + end + length)))
        },
    }
}

/// A place in a packet list, as the contracts see it.
pub open spec fn bounds_view(r: Result<Option<(u8, usize, usize)>, FrameFault>) -> Result<
    Option<(u8, nat, nat)>,
    FrameFault,
> {
    match r {
        Ok(None) => Ok(None),
        Ok(Some((header, start, end))) => Ok(Some((header, start as nat, end as nat))),
        Err(e) => Err(e),
    }
}

/// Finds the first packet of some bytes: its first byte, where its body begins, and its length.
/// Nothing is returned while the packet is not complete.
pub fn try_packet_bounds(buf: &[u8]) -> (r: Result<Option<(u8, usize, usize)>, FrameFault>)
    ensures
        buf@.len() < 2 ==> r == Ok::<Option<(u8, usize, usize)>, FrameFault>(None),
        buf@.len() >= 1 ==> bounds_view(r) == packet_bounds(buf@),
        r matches Ok(Some((_, start, end))) ==> 2 <= start <= end <= buf@.len(),
{
    if buf.len() < 2 {
        assert(buf@.len() >= 1 ==> buf@.skip(1).len() == 0);
        return Ok(None);
    }
    let rest = slice_subrange(buf, 1, buf.len());
    assert(rest@ =~= buf@.skip(1));
    match wire::decode_varint(rest) {
        Err(CodecError::Incomplete) => Ok(None),
        Err(_) => Err(FrameFault::MalformedLength),
        Ok((length, end)) => {
            if ((length as usize) > buf.len() - 1 - end) {
                Ok(None)
            } else {
                Ok(Some((buf[0], 1 + end, 1 + end + length as usize)))
            }
        },
    }
}

/// Reads a variable byte integer at the front: its value, and how many bytes it takes.
pub fn decode_bench_varint(input: &[u8]) -> (r: Result<(usize, usize), FrameFault>)
    ensures
        match varint_at(input@, 0) {
            Ok((value, end)) => r == Ok::<(usize, usize), FrameFault>((value as usize, end as usize))
                && value <= wire::VARINT_MAX && 0 < end <= 4 && end <= input@.len(),
            Err(_) => r == Err::<(usize, usize), FrameFault>(FrameFault::MalformedVarint),
        },
{
    match wire::decode_varint(input) {
        Ok((value, end)) => Ok((value as usize, end)),
        Err(_) => Err(FrameFault::MalformedVarint),
    }
}

/// The variable byte integer at a place of some bytes: its value, and the place behind it.
pub open spec fn number_at(s: Seq<u8>, pos: nat) -> Result<(nat, nat), FrameFault> {
    if pos > s.len() {
        Err(FrameFault::TruncatedVarint)
    } else {
        match varint_at(s.skip(pos as int), 0) {
            Ok((value, end)) => Ok((value, pos + end)),
            Err(CodecError::Incomplete) => Err(FrameFault::TruncatedVarint),
            Err(_) => Err(FrameFault::InvalidVarint),
        }
    }
}

/// Reads the variable byte integer at a place, and moves the place behind it.
pub fn decode_varint(bytes: &[u8], pos: &mut usize) -> (r: Result<usize, FrameFault>)
    ensures
        match number_at(bytes@, *old(pos) as nat) {
            Ok((value, end)) => r == Ok::<usize, FrameFault>(value as usize) && *final(pos) == end
                && value <= wire::VARINT_MAX && end <= bytes@.len(),
            Err(e) => r == Err::<usize, FrameFault>(e) && *final(pos) == *old(pos),
        },
{
    if *pos > bytes.len() {
        return Err(FrameFault::TruncatedVarint);
    }
    let rest = slice_subrange(bytes, *pos, bytes.len());
    assert(rest@ =~= bytes@.skip(*pos as int));
    match wire::decode_varint(rest) {
        Ok((value, end)) => {
            *pos = *pos + end;
            Ok(value as usize)
        },
        Err(CodecError::Incomplete) => Err(FrameFault::TruncatedVarint),
        Err(_) => Err(FrameFault::InvalidVarint),
    }
}

/// The 16-bit number at the front.
pub open spec fn front_u16(s: Seq<u8>) -> nat {
    (s[0] * 256 + s[1]) as nat
}

/// How many bytes a property of this kind has behind its kind, where that is fixed.
pub open spec fn fixed_size(kind: u8) -> Option<nat> {
    if kind == 0x21 || kind == 0x13 {
        Some(2)
    } else if kind == 0x27 {
        Some(4)
    } else if kind == 0x24 || kind == 0x25 || kind == 0x28 || kind == 0x29 || kind == 0x2A {
        Some(1)
    } else {
        None
    }
}

/// How far a field with a length reaches, from a place that may be behind the end of the bytes;
/// nothing where there is no room for the length.
pub open spec fn field_end(s: Seq<u8>, pos: nat) -> Option<nat> {
    if pos + 2 > s.len() {
        None
    } else {
        Some(pos + 2 + front_u16(s.skip(pos as int)))
    }
}

/// Where the first property of some bytes ends, which may be behind their end.
pub open spec fn property_end(s: Seq<u8>) -> Result<nat, FrameFault> {
    let kind = s[0];
    match fixed_size(kind) {
        Some(n) => Ok(1 + n),
        None => if kind == 0x22 {
            if s.len() < 3 {
                Err(FrameFault::ShortTopicAliasMaximum)
            } else {
                Ok(3)
            }
        } else if kind == 0x12 || kind == 0x1A || kind == 0x1C || kind == 0x15 {
            match field_end(s, 1) {
                Some(end) => Ok(end),
                None => Err(FrameFault::ShortConnackText),
            }
        } else if kind == 0x16 {
            match field_end(s, 1) {
                Some(end) => Ok(end),
                None => Err(FrameFault::ShortConnackBinary),
            }
        } else if kind == 0x26 {
            match field_end(s, 1) {
                Some(end) => match field_end(s, end) {
                    Some(end) => Ok(end),
                    None => Err(FrameFault::ShortConnackUserProperty),
                },
                None => Err(FrameFault::ShortConnackUserProperty),
            }
        } else {
            Err(FrameFault::UnknownConnackProperty(kind))
        },
    }
}

/// The Topic Alias Maximum among the properties of a CONNACK packet: the last that is given, or
/// what is known so far.
pub open spec fn alias_maximum_in(s: Seq<u8>, known: u16) -> Result<u16, FrameFault>
    decreases s.len(),
{
    if s.len() == 0 {
        Ok(known)
    } else {
        match property_end(s) {
            Err(e) => Err(e),
            Ok(end) => if end > s.len() {
                Err(FrameFault::TruncatedConnackProperty)
            } else {
                alias_maximum_in(
                    s.skip(end as int),
                    if s[0] == 0x22 {
                        front_u16(s.skip(1)) as u16
                    } else {
                        known
                    },
                )
            },
        }
    }
}

/// The end of a field with a length at a place of a slice.
fn field_end_at(s: &[u8], pos: usize) -> (r: Option<usize>)
    requires
        pos <= s@.len() + 0x2_0000,
        s@.len() <= 0x1000_0010,
    ensures
        match r {
            Some(end) => field_end(s@, pos as nat) == Some(end as nat) && pos + 2 <= end <= pos + 2
                + 65535 && pos + 2 <= s@.len(),
            None => field_end(s@, pos as nat) is None,
        },
{
    if pos + 2 > s.len() {
        return None;
    }
    let len: usize = (s[pos] as usize) * 256 + s[pos + 1] as usize;
    assert(front_u16(s@.skip(pos as int)) == len);
    Some(pos + 2 + len)
}

/// The end of the first property of a slice.
fn property_end_of(s: &[u8]) -> (r: Result<usize, FrameFault>)
    requires
        0 < s@.len() <= 0x1000_0010,
    ensures
        match r {
            Ok(end) => property_end(s@) == Ok::<nat, FrameFault>(end as nat) && 1 < end,
            Err(e) => property_end(s@) == Err::<nat, FrameFault>(e),
        },
{
    let kind: u8 = s[0];
    if kind == 0x21 || kind == 0x13 {
        Ok(3)
    } else if kind == 0x27 {
        Ok(5)
    } else if kind == 0x24 || kind == 0x25 || kind == 0x28 || kind == 0x29 || kind == 0x2A {
        Ok(2)
    } else if kind == 0x22 {
        if s.len() < 3 {
            Err(FrameFault::ShortTopicAliasMaximum)
        } else {
            Ok(3)
        }
    } else if kind == 0x12 || kind == 0x1A || kind == 0x1C || kind == 0x15 {
        match field_end_at(s, 1) {
            Some(end) => Ok(end),
            None => Err(FrameFault::ShortConnackText),
        }
    } else if kind == 0x16 {
        match field_end_at(s, 1) {
            Some(end) => Ok(end),
            None => Err(FrameFault::ShortConnackBinary),
        }
    } else if kind == 0x26 {
        match field_end_at(s, 1) {
            Some(first) => match field_end_at(s, first) {
                Some(end) => Ok(end),
                None => Err(FrameFault::ShortConnackUserProperty),
            },
            None => Err(FrameFault::ShortConnackUserProperty),
        }
    } else {
        Err(FrameFault::UnknownConnackProperty(kind))
    }
}

/// The Topic Alias Maximum of the body of a CONNACK packet.
pub open spec fn connack_alias_maximum(body: Seq<u8>) -> Result<u16, FrameFault> {
    if body.len() < 3 {
        Err(FrameFault::ShortConnack)
    } else {
        match number_at(body, 2) {
            Err(e) => Err(e),
            Ok((length, pos)) => if pos + length > body.len() {
                Err(FrameFault::ShortConnackProperties)
            } else {
                alias_maximum_in(body.subrange(pos as int, (pos + length) as int), 0)
            },
        }
    }
}

/// Reads the Topic Alias Maximum of the body of a CONNACK packet; it is 0 where none is given.
pub fn parse_connack_topic_alias_maximum(body: &[u8]) -> (r: Result<u16, FrameFault>)
    ensures
        r == connack_alias_maximum(body@),
{
    if body.len() < 3 {
        return Err(FrameFault::ShortConnack);
    }
    let mut pos: usize = 2;
    let length: usize = match decode_varint(body, &mut pos) {
        Ok(length) => length,
        Err(e) => {
            return Err(e);
        },
    };
    if length > body.len() - pos {
        return Err(FrameFault::ShortConnackProperties);
    }
    let mut rest = slice_subrange(body, pos, pos + length);
    let mut maximum: u16 = 0;
    while rest.len() > 0
        invariant
            rest@.len() <= wire::VARINT_MAX,
            connack_alias_maximum(body@) == alias_maximum_in(rest@, maximum),
        decreases rest@.len(),
    {
        let end: usize = match property_end_of(rest) {
            Ok(end) => end,
            Err(e) => {
                return Err(e);
            },
        };
        if end > rest.len() {
            return Err(FrameFault::TruncatedConnackProperty);
        }
        if rest[0] == 0x22 {
            maximum = (rest[1] as u16) * 256 + rest[2] as u16;
            assert(front_u16(rest@.skip(1)) == maximum);
        }
        let next = slice_subrange(rest, end, rest.len());
        assert(next@ =~= rest@.skip(end as int));
        rest = next;
    }
    Ok(maximum)
}

/// Reads the first reason code of the body of a SUBACK packet.
pub fn parse_suback_reason(body: &[u8]) -> (r: Result<u8, FrameFault>)
    ensures
        r == if body@.len() < 3 {
            Err::<u8, FrameFault>(FrameFault::ShortSuback)
        } else {
            match number_at(body@, 2) {
                Err(e) => Err::<u8, FrameFault>(e),
                Ok((length, pos)) => if pos + length < body@.len() {
                    Ok::<u8, FrameFault>(body@[(pos + length) as int])
                } else {
                    Err::<u8, FrameFault>(FrameFault::SubackMissingReason)
                },
            }
        },
{
    if body.len() < 3 {
        return Err(FrameFault::ShortSuback);
    }
    let mut pos: usize = 2;
    let length: usize = match decode_varint(body, &mut pos) {
        Ok(length) => length,
        Err(e) => {
            return Err(e);
        },
    };
    if length < body.len() - pos {
        Ok(body[pos + length])
    } else {
        Err(FrameFault::SubackMissingReason)
    }
}

/// The packet identifier of the body of a PUBLISH packet.
pub open spec fn publish_packet_id(body: Seq<u8>, qos: u8) -> Result<Option<u16>, FrameFault> {
    if body.len() < 2 {
        Err(FrameFault::ShortPublish)
    } else {
        let pos = 2 + front_u16(body);
        if pos > body.len() {
            Err(FrameFault::ShortPublishTopic)
        } else if qos == 0 {
            Ok(None)
        } else if pos + 2 > body.len() {
            Err(FrameFault::MissingPacketId)
        } else {
            match number_at(body, pos + 2) {
                Err(e) => Err(e),
                Ok(_) => Ok(Some(front_u16(body.skip(pos as int)) as u16)),
            }
        }
    }
}

/// Reads the packet identifier of the body of a PUBLISH packet; there is none at QoS 0.
pub fn parse_publish_packet_id(body: &[u8], qos: u8) -> (r: Result<Option<u16>, FrameFault>)
    ensures
        r == publish_packet_id(body@, qos),
{
    if body.len() < 2 {
        return Err(FrameFault::ShortPublish);
    }
    let topic_len: usize = (body[0] as usize) * 256 + body[1] as usize;
    let pos: usize = 2 + topic_len;
    if pos > body.len() {
        return Err(FrameFault::ShortPublishTopic);
    }
    if qos == 0 {
        return Ok(None);
    }
    if body.len() - pos < 2 {
        return Err(FrameFault::MissingPacketId);
    }
    let packet_id: u16 = (body[pos] as u16) * 256 + body[pos + 1] as u16;
    assert(front_u16(body@.skip(pos as int)) == packet_id);
    let mut behind: usize = pos + 2;
    match decode_varint(body, &mut behind) {
        Ok(_) => Ok(Some(packet_id)),
        Err(e) => Err(e),
    }
}

/// The broker reads what the client writes: the first packet of a packet and more bytes is that
/// packet, with its body, where its length fits in the format.
pub proof fn law_packet_bounds_of_a_frame(header: u8, body: Seq<u8>, more: Seq<u8>)
    requires
        body.len() <= wire::VARINT_MAX,
    ensures
        ({
            let s = frame(header, body) + more;
            let start = 1 + varint(body.len()).len();
            packet_bounds(s) == Ok::<Option<(u8, nat, nat)>, FrameFault>(
                Some((header, start, frame(header, body).len())),
            ) && s.subrange(start as int, frame(header, body).len() as int) == body
        }),
{
    let s = frame(header, body) + more;
    crate::codec::roundtrip::lemma_varint_read_back(body.len(), body + more);
    assert(s.skip(1) =~= varint(body.len()) + (body + more));
    let start = 1 + varint(body.len()).len();
    assert(s.subrange(start as int, frame(header, body).len() as int) =~= body);
}

/// As long as a packet is not complete, nothing is taken for a packet: of a front of a packet
/// nothing is found.
pub proof fn law_front_of_a_frame_is_no_packet(header: u8, body: Seq<u8>, n: nat)
    requires
        body.len() <= wire::VARINT_MAX,
        1 <= n < frame(header, body).len(),
    ensures
        packet_bounds(frame(header, body).take(n as int)) == Ok::<
            Option<(u8, nat, nat)>,
            FrameFault,
        >(None),
{
    let whole = frame(header, body);
    let s = whole.take(n as int);
    let digits = varint(body.len());
    if n > digits.len() {
        let behind = body.take(n - 1 - digits.len());
        crate::codec::roundtrip::lemma_varint_read_back(body.len(), behind);
        assert(s.skip(1) =~= digits + behind);
    } else {
        assert(s.skip(1) =~= digits.take(n - 1));
        lemma_front_of_varint(body.len(), (n - 1) as nat, 0);
    }
}

/// A front of a variable byte integer is not complete.
proof fn lemma_front_of_varint(v: nat, n: nat, i: nat)
    requires
        v <= wire::VARINT_MAX,
        i <= n < varint(v).len(),
    ensures
        varint_at(varint(v).take(n as int), i) == Err::<(nat, nat), CodecError>(
            CodecError::Incomplete,
        ),
    decreases n - i,
{
    reveal_with_fuel(varint, 5);
    reveal_with_fuel(varint_at, 5);
    wire::lemma_varint_len(v);
}

/// What the benchmark client publishes is a PUBLISH as the codec writes it: with its QoS, its topic,
/// its payload and no property, and of QoS 1 and 2 with its packet identifier, 1 where none is given.
/// That holds of packets whose length a packet can tell.
pub proof fn law_published_packets_are_packets(
    topic: Seq<char>,
    payload: Seq<u8>,
    qos: u8,
    packet_id: Option<u16>,
)
    requires
        qos <= 2,
        publish_body(topic, payload, qos, packet_id).len() <= 268_435_455,
    ensures
        frame((0x30 + 2 * (qos % 4)) as u8, publish_body(topic, payload, qos, packet_id)) == (
        PacketView::Publish {
            dup: false,
            qos,
            retain: false,
            topic,
            packet_id: if qos == 0 {
                None
            } else if packet_id is Some {
                packet_id
            } else {
                Some(1u16)
            },
            properties: property::meaning(Seq::empty()),
            payload,
        }).bytes(),
{
    lemma_empty_block();
    let id = if qos == 0 {
        None
    } else if packet_id is Some {
        packet_id
    } else {
        Some(1u16)
    };
    let p = PacketView::Publish {
        dup: false,
        qos,
        retain: false,
        topic,
        packet_id: id,
        properties: property::meaning(Seq::empty()),
        payload,
    };
    assert(p.body() =~= publish_body(topic, payload, qos, packet_id));
    assert(p.bytes() =~= frame(
        (0x30 + 2 * (qos % 4)) as u8,
        publish_body(topic, payload, qos, packet_id),
    ));
}

} // verus!
