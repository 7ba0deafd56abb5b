//! From bytes to packets.

use vstd::prelude::*;
use vstd::slice::slice_subrange;
use crate::codec::packet;
use crate::codec::packet::{
    ConnAck, Connect, Disconnect, Packet, PacketView, PubAck, Publish, SubAck, Subscribe,
    Subscription, UnsubAck, Unsubscribe, Will,
};
use crate::codec::properties::{
    ConnAckProperties, ConnectProperties, DisconnectProperties, PubAckProperties,
    PublishProperties, SubAckProperties, SubscribeProperties, UnsubscribeProperties,
    WillProperties,
};
use crate::codec::wire;
use crate::codec::wire::{
    decode_varint, read_bytes, read_str, read_u16, read_u8, CodecError,
};
use crate::text::str_eq;

verus! {

/// What a decoder of a packet's body owes.
spec fn decodes(parsed: Result<PacketView, CodecError>, r: Result<Packet<'_>, CodecError>) -> bool {
    match parsed {
        Ok(view) => r is Ok && r->Ok_0@ == view,
        Err(e) => r == Err::<Packet<'_>, CodecError>(e),
    }
}

/// Reads the Will of a CONNECT, where the flags announce one.
fn read_will<'a>(flags: u8, buf: &mut &'a [u8]) -> (r: Result<Option<Will<'a>>, CodecError>)
    ensures
        match packet::take_will(flags, old(buf)@) {
            Ok((will, rest)) => r is Ok && packet::will_opt(r->Ok_0) == will && final(buf)@
                == rest,
            Err(e) => r == Err::<Option<Will<'a>>, CodecError>(e),
        },
{
    if (flags / 4) % 2 != 1 {
        return Ok(None);
    }
    let properties = WillProperties::decode(buf)?;
    let topic = read_str(buf)?;
    let payload = read_bytes(buf)?;
    Ok(
        Some(
            Will {
                topic,
                payload,
                qos: (flags / 8) % 4,
                retain: (flags / 32) % 2 == 1,
                properties,
            },
        ),
    )
}

/// Decodes the body of a CONNECT.
fn decode_connect<'a>(body: &'a [u8]) -> (r: Result<Packet<'a>, CodecError>)
    ensures
        decodes(packet::parse_connect(body@), r),
{
    let mut payload = body;
    let protocol_name = read_str(&mut payload)?;
    if !str_eq(protocol_name, "MQTT") {
        return Err(CodecError::MalformedPacket);
    }
    let protocol_level: u8 = read_u8(&mut payload)?;
    if protocol_level != 5 {
        return Err(CodecError::UnsupportedProtocolVersion(protocol_level));
    }
    let flags: u8 = read_u8(&mut payload)?;
    let keep_alive: u16 = read_u16(&mut payload)?;
    let properties = ConnectProperties::decode(&mut payload)?;
    let client_id = read_str(&mut payload)?;
    let will = read_will(flags, &mut payload)?;
    let mut username = None;
    if (flags / 128) % 2 == 1 {
        username = Some(read_str(&mut payload)?);
    }
    let mut password = None;
    if (flags / 64) % 2 == 1 {
        password = Some(read_bytes(&mut payload)?);
    }
    Ok(
        Packet::Connect(
            Connect {
                client_id,
                keep_alive,
                clean_start: (flags / 2) % 2 == 1,
                will,
                username,
                password,
                properties,
            },
        ),
    )
}

/// Decodes the body of a CONNACK.
fn decode_connack<'a>(body: &'a [u8]) -> (r: Result<Packet<'a>, CodecError>)
    ensures
        decodes(packet::parse_connack(body@), r),
{
    let mut payload = body;
    let flags: u8 = read_u8(&mut payload)?;
    let reason_code: u8 = read_u8(&mut payload)?;
    let properties = ConnAckProperties::decode(&mut payload)?;
    Ok(Packet::ConnAck(ConnAck { session_present: flags % 2 == 1, reason_code, properties }))
}

/// Decodes the body of a PUBLISH with the given flags.
fn decode_publish<'a>(flags: u8, body: &'a [u8]) -> (r: Result<Packet<'a>, CodecError>)
    ensures
        decodes(packet::parse_publish(flags, body@), r),
{
    let mut payload = body;
    let qos: u8 = (flags / 2) % 4;
    if qos > 2 {
        return Err(CodecError::MalformedPacket);
    }
    let topic = read_str(&mut payload)?;
    let mut packet_id = None;
    if qos > 0 {
        packet_id = Some(read_u16(&mut payload)?);
    }
    let properties = PublishProperties::decode(&mut payload)?;
    Ok(
        Packet::Publish(
            Publish {
                dup: (flags / 8) % 2 == 1,
                qos,
                retain: flags % 2 == 1,
                topic,
                packet_id,
                properties,
                payload,
            },
        ),
    )
}

/// Decodes the body of an acknowledgement: packet identifier, reason code and properties, of
/// which only the first is always there.
fn decode_ack<'a>(body: &'a [u8]) -> (r: Result<PubAck<'a>, CodecError>)
    ensures
        forall|packet_type: u8|
            match #[trigger] packet::parse_ack(packet_type, body@) {
                Ok(view) => r is Ok && packet::ack_view(packet_type, r->Ok_0) == view,
                Err(e) => r == Err::<PubAck<'_>, CodecError>(e),
            },
{
    let mut payload = body;
    let packet_id: u16 = read_u16(&mut payload)?;
    let mut reason_code: u8 = 0;
    let mut properties = PubAckProperties::default();
    if payload.len() > 0 {
        reason_code = read_u8(&mut payload)?;
        properties = PubAckProperties::decode(&mut payload)?;
    }
    Ok(PubAck { packet_id, reason_code, properties })
}

/// Decodes the body of a SUBSCRIBE.
fn decode_subscribe<'a>(body: &'a [u8]) -> (r: Result<Packet<'a>, CodecError>)
    ensures
        decodes(packet::parse_subscribe(body@), r),
{
    let mut payload = body;
    let packet_id: u16 = read_u16(&mut payload)?;
    let properties = SubscribeProperties::decode(&mut payload)?;
    let ghost all = payload@;
    let mut subscriptions: Vec<Subscription<'a>> = Vec::new();
    assert(packet::subscriptions_view(subscriptions@) =~= Seq::empty());
    while payload.len() > 0
        invariant
            packet::parse_subscriptions(all) == match packet::parse_subscriptions(payload@) {
                Err(e) => Err::<Seq<(Seq<char>, u8)>, CodecError>(e),
                Ok(others) => Ok(packet::subscriptions_view(subscriptions@) + others),
            },
            match packet::parse_subscriptions(all) {
                Err(e) => packet::parse_subscribe(body@) == Err::<PacketView, CodecError>(e),
                Ok(_) => true,
            },
        decreases payload@.len(),
    {
        let ghost known = packet::subscriptions_view(subscriptions@);
        let topic_filter = read_str(&mut payload)?;
        let options: u8 = read_u8(&mut payload)?;
        subscriptions.push(Subscription { topic_filter, options });
        proof {
            let now = packet::subscriptions_view(subscriptions@);
            assert(now =~= known.push((topic_filter@, options)));
            match packet::parse_subscriptions(payload@) {
                Ok(others) => {
                    assert(known + (seq![(topic_filter@, options)] + others) =~= now + others);
                },
                Err(_) => {},
            }
        }
    }
    proof {
        let now = packet::subscriptions_view(subscriptions@);
        assert(now + Seq::<(Seq<char>, u8)>::empty() =~= now);
    }
    if subscriptions.len() == 0 {
        return Err(CodecError::MalformedPacket);
    }
    Ok(Packet::Subscribe(Subscribe { packet_id, properties, subscriptions }))
}

/// Decodes the body of an UNSUBSCRIBE.
fn decode_unsubscribe<'a>(body: &'a [u8]) -> (r: Result<Packet<'a>, CodecError>)
    ensures
        decodes(packet::parse_unsubscribe(body@), r),
{
    let mut payload = body;
    let packet_id: u16 = read_u16(&mut payload)?;
    let properties = UnsubscribeProperties::decode(&mut payload)?;
    let ghost all = payload@;
    let mut topic_filters: Vec<&'a str> = Vec::new();
    assert(packet::texts_view(topic_filters@) =~= Seq::empty());
    while payload.len() > 0
        invariant
            packet::parse_filters(all) == match packet::parse_filters(payload@) {
                Err(e) => Err::<Seq<Seq<char>>, CodecError>(e),
                Ok(others) => Ok(packet::texts_view(topic_filters@) + others),
            },
            match packet::parse_filters(all) {
                Err(e) => packet::parse_unsubscribe(body@) == Err::<PacketView, CodecError>(e),
                Ok(_) => true,
            },
        decreases payload@.len(),
    {
        let ghost known = packet::texts_view(topic_filters@);
        let topic_filter = read_str(&mut payload)?;
        topic_filters.push(topic_filter);
        proof {
            let now = packet::texts_view(topic_filters@);
            assert(now =~= known.push(topic_filter@));
            match packet::parse_filters(payload@) {
                Ok(others) => {
                    assert(known + (seq![topic_filter@] + others) =~= now + others);
                },
                Err(_) => {},
            }
        }
    }
    proof {
        let now = packet::texts_view(topic_filters@);
        assert(now + Seq::<Seq<char>>::empty() =~= now);
    }
    if topic_filters.len() == 0 {
        return Err(CodecError::MalformedPacket);
    }
    Ok(Packet::Unsubscribe(Unsubscribe { packet_id, properties, topic_filters }))
}

/// Decodes the body of a SUBACK or UNSUBACK: packet identifier, properties and reason codes.
fn decode_codes<'a>(body: &'a [u8]) -> (r: Result<(u16, SubAckProperties<'a>, Vec<u8>), CodecError>)
    ensures
        forall|packet_type: u8|
            match #[trigger] packet::parse_codes(packet_type, body@) {
                Ok(view) => r is Ok && view == (PacketView::Codes {
                    packet_type,
                    packet_id: r->Ok_0.0,
                    properties: r->Ok_0.1@,
                    reason_codes: r->Ok_0.2@,
                }),
                Err(e) => r == Err::<(u16, SubAckProperties<'a>, Vec<u8>), CodecError>(e),
            },
{
    let mut payload = body;
    let packet_id: u16 = read_u16(&mut payload)?;
    let properties = SubAckProperties::decode(&mut payload)?;
    let mut reason_codes: Vec<u8> = Vec::new();
    wire::append(payload, &mut reason_codes);
    assert(reason_codes@ =~= payload@);
    Ok((packet_id, properties, reason_codes))
}

/// Decodes the body of a DISCONNECT.
fn decode_disconnect<'a>(body: &'a [u8]) -> (r: Result<Packet<'a>, CodecError>)
    ensures
        decodes(packet::parse_body(0xE0, body@), r),
{
    reveal(packet::parse_body);
    let mut payload = body;
    let mut reason_code: u8 = 0;
    let mut properties = DisconnectProperties::default();
    if payload.len() > 0 {
        reason_code = read_u8(&mut payload)?;
        properties = DisconnectProperties::decode(&mut payload)?;
    }
    Ok(Packet::Disconnect(Disconnect { reason_code, properties }))
}

/// Decodes the body of a packet whose first byte is `first`.
fn decode_body<'a>(first: u8, body: &'a [u8]) -> (r: Result<Packet<'a>, CodecError>)
    ensures
        decodes(packet::parse_body(first, body@), r),
{
    reveal(packet::parse_body);
    let flags: u8 = first % 16;
    match first / 16 {
        1 => {
            if flags != 0 {
                return Err(CodecError::MalformedPacket);
            }
            decode_connect(body)
        },
        2 => decode_connack(body),
        3 => decode_publish(flags, body),
        4 => {
            assert(packet::parse_ack(4, body@) == packet::parse_body(first, body@));
            Ok(Packet::PubAck(decode_ack(body)?))
        },
        5 => {
            assert(packet::parse_ack(5, body@) == packet::parse_body(first, body@));
            Ok(Packet::PubRec(decode_ack(body)?))
        },
        6 => {
            if flags != 0x02 {
                return Err(CodecError::MalformedPacket);
            }
            assert(packet::parse_ack(6, body@) == packet::parse_body(first, body@));
            Ok(Packet::PubRel(decode_ack(body)?))
        },
        7 => {
            assert(packet::parse_ack(7, body@) == packet::parse_body(first, body@));
            Ok(Packet::PubComp(decode_ack(body)?))
        },
        8 => {
            if flags != 0x02 {
                return Err(CodecError::MalformedPacket);
            }
            decode_subscribe(body)
        },
        9 => {
            assert(packet::parse_codes(9, body@) == packet::parse_body(first, body@));
            let (packet_id, properties, reason_codes) = decode_codes(body)?;
            Ok(Packet::SubAck(SubAck { packet_id, properties, reason_codes }))
        },
        10 => {
            if flags != 0x02 {
                return Err(CodecError::MalformedPacket);
            }
            decode_unsubscribe(body)
        },
        11 => {
            assert(packet::parse_codes(11, body@) == packet::parse_body(first, body@));
            let (packet_id, properties, reason_codes) = decode_codes(body)?;
            Ok(Packet::UnsubAck(UnsubAck { packet_id, properties, reason_codes }))
        },
        12 => {
            if flags != 0 || body.len() != 0 {
                return Err(CodecError::MalformedPacket);
            }
            Ok(Packet::PingReq)
        },
        13 => {
            if flags != 0 || body.len() != 0 {
                return Err(CodecError::MalformedPacket);
            }
            Ok(Packet::PingResp)
        },
        14 => decode_disconnect(body),
        _ => Err(CodecError::MalformedPacket),
    }
}

/// Decodes the packet at the front of `raw_buf`: the packet, and the number of bytes it takes.
pub fn decode_packet<'a>(raw_buf: &'a [u8]) -> (r: Result<(Packet<'a>, usize), CodecError>)
    ensures
        match packet::parse_packet(raw_buf@) {
            Ok((view, read)) => r is Ok && r->Ok_0.0@ == view && r->Ok_0.1 == read && read
                <= raw_buf@.len(),
            Err(e) => r == Err::<(Packet<'a>, usize), CodecError>(e),
        },
{
    let mut rest = raw_buf;
    let first: u8 = read_u8(&mut rest)?;
    let (remaining, read) = decode_varint(rest)?;
    rest = slice_subrange(rest, read, rest.len());
    let remaining: usize = remaining as usize;
    if rest.len() < remaining {
        return Err(CodecError::Incomplete);
    }
    let total: usize = raw_buf.len() - rest.len() + remaining;
    let body = slice_subrange(rest, 0, remaining);
    let packet = decode_body(first, body)?;
    Ok((packet, total))
}

/// Decodes the packet at the front of `raw_buf`, and refuses one that its fixed header announces
/// as larger than `maximum` bytes.
pub fn decode_packet_limited<'a>(raw_buf: &'a [u8], maximum: u32) -> (r: Result<
    (Packet<'a>, usize),
    CodecError,
>)
    ensures
        match packet::parse_packet_limited(raw_buf@, maximum as nat) {
            Ok((view, read)) => r is Ok && r->Ok_0.0@ == view && r->Ok_0.1 == read && read
                <= raw_buf@.len(),
            Err(e) => r == Err::<(Packet<'a>, usize), CodecError>(e),
        },
{
    let mut rest = raw_buf;
    let _first: u8 = read_u8(&mut rest)?;
    let (remaining, read) = decode_varint(rest)?;
    let size: u64 = 1 + read as u64 + remaining as u64;
    if size > maximum as u64 {
        return Err(CodecError::PacketTooLarge);
    }
    decode_packet(raw_buf)
}

} // verus!
