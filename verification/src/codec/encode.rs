//! From packets to bytes.

use vstd::prelude::*;
use crate::codec::packet;
use crate::codec::packet::{Connect, Packet, PacketView, PubAck, Publish, Subscription, Will};
use crate::codec::properties;
use crate::codec::property;
use crate::codec::properties::PublishProperties;
use crate::codec::property::{PropertySet, ValueView};
use crate::codec::wire;
use crate::codec::wire::{append, encode_varint, write_bytes, write_str, write_u16};

verus! {

/// The flags byte of a CONNECT.
fn connect_flags(pkt: &Connect<'_>) -> (flags: u8)
    ensures
        Packet::Connect(*pkt)@ matches PacketView::Connect {
            clean_start,
            will,
            username,
            password,
            ..
        } && flags == packet::connect_flags(clean_start, will, username is Some, password is Some),
{
    let mut flags: u8 = 0;
    if pkt.clean_start {
        flags = flags + 2;
    }
    if let Some(will) = &pkt.will {
        flags = flags + 4 + (will.qos % 4) * 8;
        if will.retain {
            flags = flags + 32;
        }
    }
    if pkt.password.is_some() {
        flags = flags + 64;
    }
    if pkt.username.is_some() {
        flags = flags + 128;
    }
    flags
}

/// Appends the Will of a CONNECT, where there is one.
fn encode_will(will: &Option<Will<'_>>, body: &mut Vec<u8>)
    ensures
        final(body)@ == old(body)@ + packet::will_bytes(packet::will_opt(*will)),
{
    match will {
        Some(will) => {
            will.properties.encode(body);
            write_str(will.topic, body);
            write_bytes(will.payload, body);
            assert(body@ =~= old(body)@ + packet::will_bytes(Some(will@)));
        },
        None => {
            assert(body@ =~= old(body)@ + packet::will_bytes(None));
        },
    }
}

/// Appends the user's name and password, each where it is present.
fn encode_credentials(username: Option<&str>, password: Option<&[u8]>, body: &mut Vec<u8>)
    ensures
        final(body)@ == old(body)@ + packet::text_opt_bytes(packet::text_opt(username))
            + packet::binary_opt_bytes(packet::bytes_opt(password)),
{
    if let Some(user) = username {
        write_str(user, body);
    }
    if let Some(pass) = password {
        write_bytes(pass, body);
    }
    assert(body@ =~= old(body)@ + packet::text_opt_bytes(packet::text_opt(username))
        + packet::binary_opt_bytes(packet::bytes_opt(password)));
}

/// Appends the body of a CONNECT.
fn encode_connect(pkt: &Connect<'_>, body: &mut Vec<u8>)
    ensures
        final(body)@ == old(body)@ + Packet::Connect(*pkt)@.body(),
{
    let flags: u8 = connect_flags(pkt);
    write_str("MQTT", body);
    body.push(5);
    body.push(flags);
    write_u16(pkt.keep_alive, body);
    let ghost head = wire::text_field("MQTT"@) + seq![5u8] + seq![flags] + wire::be16(pkt.keep_alive);
    assert(body@ =~= old(body)@ + head);
    pkt.properties.encode(body);
    write_str(pkt.client_id, body);
    encode_will(&pkt.will, body);
    encode_credentials(pkt.username, pkt.password, body);
    proof {
        let props = properties::properties_bytes(PropertySet::Connect, pkt.properties@);
        let id = wire::text_field(pkt.client_id@);
        let will = packet::will_bytes(packet::will_opt(pkt.will));
        let user = packet::text_opt_bytes(packet::text_opt(pkt.username));
        let pass = packet::binary_opt_bytes(packet::bytes_opt(pkt.password));
        assert(body@ == old(body)@ + head + props + id + will + user + pass);
        assert(Packet::Connect(*pkt)@.body() == head + props + id + will + user + pass);
        assert(old(body)@ + head + props + id + will + user + pass =~= old(body)@ + (head + props
            + id + will + user + pass));
    }
}

/// Appends the body of a PUBLISH.
fn encode_publish(pkt: &Publish<'_>, body: &mut Vec<u8>)
    ensures
        final(body)@ == old(body)@ + Packet::Publish(*pkt)@.body(),
{
    write_str(pkt.topic, body);
    if let Some(packet_id) = pkt.packet_id {
        write_u16(packet_id, body);
    }
    pkt.properties.encode(body);
    append(pkt.payload, body);
    assert(body@ =~= old(body)@ + Packet::Publish(*pkt)@.body());
}

/// Appends the body of a PUBACK, PUBREC, PUBREL or PUBCOMP: the reason code and the properties
/// only where they say something.
fn encode_ack(pkt: &PubAck<'_>, body: &mut Vec<u8>)
    ensures
        forall|packet_type: u8|
            final(body)@ == old(body)@ + (#[trigger] packet::ack_view(packet_type, *pkt)).body(),
{
    write_u16(pkt.packet_id, body);
    let has_properties = pkt.properties.reason_string.is_some()
        || pkt.properties.user_properties.len() > 0;
    proof {
        let p = pkt.properties@;
        let none = property::meaning(Seq::empty());
        if !has_properties {
            assert(p =~= none);
        } else if p == none {
            assert(none.values.contains_key(0x1F) == (pkt.properties.value(0x1F) is Some));
            assert(none.user.len() == pkt.properties.user_properties@.len());
        }
    }
    if has_properties || pkt.reason_code != 0 {
        body.push(pkt.reason_code);
        pkt.properties.encode(body);
    }
    assert forall|packet_type: u8|
        body@ == old(body)@ + (#[trigger] packet::ack_view(packet_type, *pkt)).body() by {
        assert(body@ =~= old(body)@ + packet::ack_view(packet_type, *pkt).body());
    }
}

/// Appends subscriptions, one behind the other.
fn encode_subscriptions(list: &Vec<Subscription<'_>>, body: &mut Vec<u8>)
    ensures
        final(body)@ == old(body)@ + packet::subscriptions_bytes(
            packet::subscriptions_view(list@),
        ),
{
    let ghost all = packet::subscriptions_view(list@);
    let mut i: usize = 0;
    assert(all.skip(0) =~= all);
    while i < list.len()
        invariant
            i <= list@.len(),
            all == packet::subscriptions_view(list@),
            body@ + packet::subscriptions_bytes(all.skip(i as int)) == old(body)@
                + packet::subscriptions_bytes(all),
        decreases list@.len() - i,
    {
        let ghost before = body@;
        write_str(list[i].topic_filter, body);
        body.push(list[i].options);
        proof {
            let rest = all.skip(i as int);
            assert(rest.drop_first() =~= all.skip(i + 1));
            assert(body@ + packet::subscriptions_bytes(all.skip(i + 1)) =~= before
                + packet::subscriptions_bytes(rest));
        }
        i = i + 1;
    }
    assert(body@ + packet::subscriptions_bytes(all.skip(i as int)) =~= body@);
}

/// Appends topic filters, one behind the other.
fn encode_filters(list: &Vec<&str>, body: &mut Vec<u8>)
    ensures
        final(body)@ == old(body)@ + packet::filters_bytes(packet::texts_view(list@)),
{
    let ghost all = packet::texts_view(list@);
    let mut i: usize = 0;
    assert(all.skip(0) =~= all);
    while i < list.len()
        invariant
            i <= list@.len(),
            all == packet::texts_view(list@),
            body@ + packet::filters_bytes(all.skip(i as int)) == old(body)@
                + packet::filters_bytes(all),
        decreases list@.len() - i,
    {
        let ghost before = body@;
        write_str(list[i], body);
        proof {
            let rest = all.skip(i as int);
            assert(rest.drop_first() =~= all.skip(i + 1));
            assert(body@ + packet::filters_bytes(all.skip(i + 1)) =~= before
                + packet::filters_bytes(rest));
        }
        i = i + 1;
    }
    assert(body@ + packet::filters_bytes(all.skip(i as int)) =~= body@);
}

/// Appends what follows the fixed header of a packet, and gives its first byte.
fn encode_body(packet: &Packet<'_>, body: &mut Vec<u8>) -> (first: u8)
    ensures
        final(body)@ == old(body)@ + packet@.body(),
        first == packet@.first_byte(),
{
    match packet {
        Packet::Connect(pkt) => {
            encode_connect(pkt, body);
            0x10
        },
        Packet::ConnAck(pkt) => {
            if pkt.session_present {
                body.push(1);
            } else {
                body.push(0);
            }
            body.push(pkt.reason_code);
            pkt.properties.encode(body);
            assert(body@ =~= old(body)@ + packet@.body());
            0x20
        },
        Packet::Publish(pkt) => {
            encode_publish(pkt, body);
            let mut first: u8 = 0x30 + (pkt.qos % 4) * 2;
            if pkt.dup {
                first = first + 8;
            }
            if pkt.retain {
                first = first + 1;
            }
            first
        },
        Packet::PubAck(pkt) => {
            encode_ack(pkt, body);
            assert(packet@ == packet::ack_view(4, *pkt));
            0x40
        },
        Packet::PubRec(pkt) => {
            encode_ack(pkt, body);
            assert(packet@ == packet::ack_view(5, *pkt));
            0x50
        },
        Packet::PubRel(pkt) => {
            encode_ack(pkt, body);
            assert(packet@ == packet::ack_view(6, *pkt));
            0x62
        },
        Packet::PubComp(pkt) => {
            encode_ack(pkt, body);
            assert(packet@ == packet::ack_view(7, *pkt));
            0x70
        },
        Packet::Subscribe(pkt) => {
            write_u16(pkt.packet_id, body);
            pkt.properties.encode(body);
            encode_subscriptions(&pkt.subscriptions, body);
            assert(body@ =~= old(body)@ + packet@.body());
            0x82
        },
        Packet::SubAck(pkt) => {
            write_u16(pkt.packet_id, body);
            pkt.properties.encode(body);
            append(pkt.reason_codes.as_slice(), body);
            assert(body@ =~= old(body)@ + packet@.body());
            0x90
        },
        Packet::Unsubscribe(pkt) => {
            write_u16(pkt.packet_id, body);
            pkt.properties.encode(body);
            encode_filters(&pkt.topic_filters, body);
            assert(body@ =~= old(body)@ + packet@.body());
            0xA2
        },
        Packet::UnsubAck(pkt) => {
            write_u16(pkt.packet_id, body);
            pkt.properties.encode(body);
            append(pkt.reason_codes.as_slice(), body);
            assert(body@ =~= old(body)@ + packet@.body());
            0xB0
        },
        Packet::PingReq => {
            assert(body@ =~= old(body)@ + packet@.body());
            0xC0
        },
        Packet::PingResp => {
            assert(body@ =~= old(body)@ + packet@.body());
            0xD0
        },
        Packet::Disconnect(pkt) => {
            let has_properties = pkt.properties.session_expiry_interval.is_some()
                || pkt.properties.reason_string.is_some()
                || pkt.properties.server_reference.is_some()
                || pkt.properties.user_properties.len() > 0;
            proof {
                let p = pkt.properties@;
                let none = property::meaning(Seq::empty());
                if !has_properties {
                    assert(p =~= none);
                } else if p == none {
                    assert(none.values.contains_key(0x11) == (pkt.properties.value(0x11) is Some));
                    assert(none.values.contains_key(0x1F) == (pkt.properties.value(0x1F) is Some));
                    assert(none.values.contains_key(0x1C) == (pkt.properties.value(0x1C) is Some));
                    assert(none.user.len() == pkt.properties.user_properties@.len());
                }
            }
            if has_properties || pkt.reason_code != 0 {
                body.push(pkt.reason_code);
                pkt.properties.encode(body);
            }
            assert(body@ =~= old(body)@ + packet@.body());
            0xE0
        },
    }
}

/// Appends a packet.
pub fn encode_packet(packet: &Packet<'_>, buf: &mut Vec<u8>)
    ensures
        final(buf)@ == old(buf)@ + packet@.bytes(),
{
    let mut body: Vec<u8> = Vec::new();
    let first: u8 = encode_body(packet, &mut body);
    assert(body@ =~= packet@.body());
    buf.push(first);
    let len: u32 = (body.len() as u64 % 0x1_0000_0000) as u32;
    encode_varint(len, buf);
    append(body.as_slice(), buf);
    assert(buf@ =~= old(buf)@ + packet@.bytes());
}

/// The content of a QoS 0 PUBLISH with at most one property.
pub open spec fn simple_publish(
    retain: bool,
    topic: Seq<char>,
    property: Option<(u8, ValueView)>,
    payload: Seq<u8>,
) -> PacketView {
    PacketView::Publish {
        dup: false,
        qos: 0,
        retain,
        topic,
        packet_id: None,
        properties: property::meaning(
            match property {
                Some(p) => seq![p],
                None => Seq::empty(),
            },
        ),
        payload,
    }
}

/// What a single property means.
proof fn lemma_single_property(p: (u8, ValueView))
    requires
        !(p.1 is Pair),
    ensures
        forall|id: u8| #[trigger]
            property::last_value(seq![p], id) == (if id == p.0 {
                Some(p.1)
            } else {
                None
            }),
        property::user_pairs(seq![p]) == Seq::<(Seq<char>, Seq<char>)>::empty(),
{
    assert(seq![p].drop_last() =~= Seq::empty());
    assert forall|id: u8| #[trigger]
        property::last_value(seq![p], id) == (if id == p.0 {
            Some(p.1)
        } else {
            None
        }) by {
        assert(property::last_value(seq![p].drop_last(), id) is None);
    }
    assert(property::user_pairs(seq![p].drop_last()) =~= Seq::empty());
}

/// A QoS 0 PUBLISH, with the identifier of the subscription that matched where there is one.
pub fn encode_publish_qos0(
    topic: &str,
    payload: &[u8],
    retain: bool,
    subscription_identifier: Option<u32>,
) -> (bytes: Vec<u8>)
    ensures
        bytes@ == simple_publish(
            retain,
            topic@,
            match subscription_identifier {
                Some(v) => Some((0x0Bu8, ValueView::Varint(v))),
                None => None,
            },
            payload@,
        ).bytes(),
{
    let mut properties = PublishProperties::default();
    let ghost none = properties;
    properties.subscription_identifier = subscription_identifier;
    proof {
        match subscription_identifier {
            Some(v) => {
                let p = (0x0Bu8, ValueView::Varint(v));
                lemma_single_property(p);
                assert forall|id: u8|
                    properties@.values.contains_key(id) == property::meaning(
                        seq![p],
                    ).values.contains_key(id) by {
                    assert(none.value(id) is None);
                    assert(property::last_value(seq![p], id) == properties.value(id));
                }
                assert(properties@ =~= property::meaning(seq![p]));
            },
            None => {
                assert(properties@ =~= property::meaning(Seq::empty()));
            },
        }
    }
    let packet = Packet::Publish(
        Publish { dup: false, qos: 0, retain, topic, packet_id: None, properties, payload },
    );
    let mut bytes: Vec<u8> = Vec::new();
    encode_packet(&packet, &mut bytes);
    assert(bytes@ =~= packet@.bytes());
    bytes
}

/// A QoS 0 PUBLISH that carries a topic alias.
pub fn encode_publish_qos0_with_topic_alias(topic: &str, payload: &[u8], alias: u16) -> (bytes: Vec<
    u8,
>)
    ensures
        bytes@ == simple_publish(
            false,
            topic@,
            Some((0x23u8, ValueView::Two(alias))),
            payload@,
        ).bytes(),
{
    let mut properties = PublishProperties::default();
    let ghost none = properties;
    properties.topic_alias = Some(alias);
    proof {
        let p = (0x23u8, ValueView::Two(alias));
        lemma_single_property(p);
        assert forall|id: u8|
            properties@.values.contains_key(id) == property::meaning(seq![p]).values.contains_key(
                id,
            ) by {
            assert(none.value(id) is None);
            assert(property::last_value(seq![p], id) == properties.value(id));
        }
        assert(properties@ =~= property::meaning(seq![p]));
    }
    let packet = Packet::Publish(
        Publish { dup: false, qos: 0, retain: false, topic, packet_id: None, properties, payload },
    );
    let mut bytes: Vec<u8> = Vec::new();
    encode_packet(&packet, &mut bytes);
    assert(bytes@ =~= packet@.bytes());
    bytes
}

} // verus!
