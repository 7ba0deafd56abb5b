//! What stands where on the wire: the packets of MQTT 5 byte for byte.

use vstd::prelude::*;
use vstd::utf8;
use crate::codec::packet;
use crate::codec::packet::{Packet, PacketView, WillView};
use crate::codec::properties;
use crate::codec::properties::{
    ConnAckProperties, ConnectProperties, DisconnectProperties, PubAckProperties,
    PublishProperties, SubAckProperties, SubscribeProperties, UnsubscribeProperties,
    WillProperties,
};
use crate::codec::property;
use crate::codec::property::{PropertiesView, PropertyKind, PropertySet, ValueView};
use crate::codec::wire;
use crate::codec::wire::{is_varint, CodecError};
use crate::text;

verus! {

/// Whether two bytes are a number, the most significant first.
pub open spec fn is_two(s: Seq<u8>, v: int) -> bool {
    s.len() == 2 && v == s[0] * 0x100 + s[1]
}

/// Whether four bytes are a number, the most significant first.
pub open spec fn is_four(s: Seq<u8>, v: int) -> bool {
    s.len() == 4 && v == s[0] * 0x100_0000 + s[1] * 0x1_0000 + s[2] * 0x100 + s[3]
}

/// Whether bytes are a field: its length in two bytes, and as many bytes.
pub open spec fn is_field(s: Seq<u8>, data: Seq<u8>) -> bool {
    s.len() == 2 + data.len() && is_two(s.take(2), data.len() as int) && s.skip(2) == data
}

/// Whether bytes are a packet with this first byte and this body: between them stands the length
/// of the body.
pub open spec fn is_frame(s: Seq<u8>, first: u8, body: Seq<u8>) -> bool {
    exists|length: Seq<u8>| #[trigger]
        is_varint(length, body.len()) && s == seq![first] + length + body
}

/// The integers of the wire have their most significant byte first, text and runs of bytes stand
/// behind their length, and a variable byte integer has its least significant seven bits first.
pub proof fn law_primitive_fields(
    two: u16,
    four: u32,
    number: nat,
    data: Seq<u8>,
    text: Seq<char>,
)
    ensures
        is_two(wire::be16(two), two as int),
        is_four(wire::be32(four), four as int),
        number <= 268_435_455 ==> is_varint(wire::varint(number), number),
        data.len() <= 0xffff ==> is_field(wire::binary_field(data), data),
        utf8::encode_utf8(text).len() <= 0xffff ==> is_field(
            wire::text_field(text),
            utf8::encode_utf8(text),
        ),
{
    if number <= 268_435_455 {
        wire::lemma_varint_is_varint(number);
    }
    let encoded = utf8::encode_utf8(text);
    assert(wire::binary_field(data).skip(2) =~= data);
    assert(wire::binary_field(encoded).skip(2) =~= encoded);
}

/// What is read off the front of bytes is what stands there, and the rest is left: integers with
/// their most significant byte first, and a run of bytes as long as the two bytes before it say.
/// Nothing is read where bytes are missing.
pub proof fn law_fields_are_read_as_they_stand(s: Seq<u8>)
    ensures
        match wire::take_u8(s) {
            Ok((v, rest)) => s == seq![v] + rest,
            Err(e) => e == CodecError::Incomplete && s.len() == 0,
        },
        match wire::take_u16(s) {
            Ok((v, rest)) => s.len() >= 2 && is_two(s.take(2), v as int) && rest == s.skip(2),
            Err(e) => e == CodecError::Incomplete && s.len() < 2,
        },
        match wire::take_u32(s) {
            Ok((v, rest)) => s.len() >= 4 && is_four(s.take(4), v as int) && rest == s.skip(4),
            Err(e) => e == CodecError::Incomplete && s.len() < 4,
        },
        match wire::take_binary(s) {
            Ok((data, rest)) => s.len() >= 2 + data.len() && is_field(
                s.take(2 + data.len() as int),
                data,
            ) && rest == s.skip(2 + data.len() as int),
            Err(e) => e == CodecError::Incomplete && (s.len() < 2 || s.len() < 2 + s[0] * 256
                + s[1]),
        },
        match wire::take_text(s) {
            Ok((text, rest)) => ({
                let data = utf8::encode_utf8(text);
                s.len() >= 2 + data.len() && is_field(s.take(2 + data.len() as int), data) && rest
                    == s.skip(2 + data.len() as int)
            }),
            Err(_) => s.len() < 2 || s.len() < 2 + s[0] * 256 + s[1] || !utf8::valid_utf8(
                s.subrange(2, 2 + s[0] * 256 + s[1]),
            ),
        },
        match wire::take_varint(s) {
            Ok((v, rest)) => rest.len() < s.len() && is_varint(
                s.take(s.len() - rest.len()),
                v as nat,
            ) && rest == s.skip(s.len() - rest.len()),
            Err(CodecError::InvalidVarint) => s.len() >= 4 && s[0] >= 128 && s[1] >= 128 && s[2]
                >= 128 && s[3] >= 128,
            Err(e) => e == CodecError::Incomplete && s.len() < 4 && forall|i: int|
                0 <= i < s.len() ==> #[trigger] s[i] >= 128,
        },
{
    reveal_with_fuel(wire::varint_at, 5);
    wire::lemma_varint_at_is_varint(s);
    wire::lemma_varint_at_bounds(s, 0);
    if s.len() >= 1 {
        assert(s =~= seq![s[0]] + s.skip(1));
    }
    if s.len() >= 2 {
        let len = s[0] * 256 + s[1];
        if s.len() >= 2 + len {
            let data = s.skip(2).take(len);
            assert(data =~= s.subrange(2, 2 + len));
            assert(s.take(2 + len).skip(2) =~= data);
            assert(s.take(2 + len).take(2) =~= s.take(2));
            assert(s.skip(2).skip(len) =~= s.skip(2 + len));
            if utf8::valid_utf8(data) {
                utf8::decode_utf8_encode_utf8(data);
            }
        }
    }
}

/// A value stands on the wire in its form: a byte, two or four bytes with the most significant
/// first, a variable byte integer, a field, or a field for the name and one for the value.
pub proof fn law_values_on_the_wire(v: ValueView)
    ensures
        match v {
            ValueView::Byte(b) => v.bytes() == seq![b],
            ValueView::Two(n) => is_two(v.bytes(), n as int),
            ValueView::Four(n) => is_four(v.bytes(), n as int),
            ValueView::Varint(n) => n <= 268_435_455 ==> is_varint(v.bytes(), n as nat),
            ValueView::Text(t) => utf8::encode_utf8(t).len() <= 0xffff ==> is_field(
                v.bytes(),
                utf8::encode_utf8(t),
            ),
            ValueView::Binary(d) => d.len() <= 0xffff ==> is_field(v.bytes(), d),
            ValueView::Pair(k, t) => utf8::encode_utf8(k).len() <= 0xffff && utf8::encode_utf8(
                t,
            ).len() <= 0xffff ==> ({
                let n = 2 + utf8::encode_utf8(k).len();
                v.bytes().len() >= n && is_field(
                    v.bytes().take(n as int),
                    utf8::encode_utf8(k),
                ) && is_field(v.bytes().skip(n as int), utf8::encode_utf8(t))
            }),
        },
{
    match v {
        ValueView::Varint(n) => law_primitive_fields(0, 0, n as nat, Seq::empty(), Seq::empty()),
        ValueView::Text(t) => law_primitive_fields(0, 0, 0, Seq::empty(), t),
        ValueView::Binary(d) => law_primitive_fields(0, 0, 0, d, Seq::empty()),
        ValueView::Pair(k, t) => {
            law_primitive_fields(0, 0, 0, Seq::empty(), k);
            law_primitive_fields(0, 0, 0, Seq::empty(), t);
            let n = wire::text_field(k).len() as int;
            assert(v.bytes().take(n) =~= wire::text_field(k));
            assert(v.bytes().skip(n) =~= wire::text_field(t));
        },
        _ => {},
    }
}

/// Which properties a packet can have, and in which form each of them stands there.
pub proof fn law_forms_of_properties(set: PropertySet, id: u8)
    ensures
        property::kind_of(set, id) matches Some(kind) ==> {
            &&& kind == PropertyKind::Byte <==> id == 0x01 || id == 0x17 || id == 0x19 || id == 0x24
                || id == 0x25 || id == 0x28 || id == 0x29 || id == 0x2A
            &&& kind == PropertyKind::Two <==> id == 0x13 || id == 0x21 || id == 0x22 || id == 0x23
            &&& kind == PropertyKind::Four <==> id == 0x02 || id == 0x11 || id == 0x18 || id == 0x27
            &&& kind == PropertyKind::Varint <==> id == 0x0B
            &&& kind == PropertyKind::Binary <==> id == 0x09 || id == 0x16
            &&& kind == PropertyKind::Pair <==> id == 0x26
        },
        property::kind_of(set, id) is Some <==> properties::order(set).contains(id),
        property::kind_of(set, 0x26) is Some,
        property::kind_of(PropertySet::Publish, id) is Some <==> id == 0x01 || id == 0x02 || id
            == 0x03 || id == 0x08 || id == 0x09 || id == 0x0B || id == 0x23 || id == 0x26,
{
    let order = properties::order(set);
    let i: int = match set {
        PropertySet::Connect => if id == 0x11 { 0 } else if id == 0x21 { 1 } else if id == 0x27 {
            2
        } else if id == 0x22 { 3 } else if id == 0x19 { 4 } else if id == 0x17 { 5 } else if id
            == 0x26 { 6 } else if id == 0x15 { 7 } else { 8 },
        PropertySet::Will => if id == 0x18 { 0 } else if id == 0x01 { 1 } else if id == 0x02 {
            2
        } else if id == 0x03 { 3 } else if id == 0x08 { 4 } else if id == 0x09 { 5 } else { 6 },
        PropertySet::ConnAck => if id == 0x11 { 0 } else if id == 0x21 { 1 } else if id == 0x24 {
            2
        } else if id == 0x25 { 3 } else if id == 0x27 { 4 } else if id == 0x12 { 5 } else if id
            == 0x22 { 6 } else if id == 0x1F { 7 } else if id == 0x26 { 8 } else if id == 0x28 {
            9
        } else if id == 0x29 { 10 } else if id == 0x2A { 11 } else if id == 0x13 { 12 } else if id
            == 0x1A { 13 } else if id == 0x1C { 14 } else if id == 0x15 { 15 } else { 16 },
        PropertySet::Publish => if id == 0x01 { 0 } else if id == 0x02 { 1 } else if id == 0x03 {
            2
        } else if id == 0x08 { 3 } else if id == 0x09 { 4 } else if id == 0x0B { 5 } else if id
            == 0x23 { 6 } else { 7 },
        PropertySet::Ack => if id == 0x1F { 0 } else { 1 },
        PropertySet::Subscribe => if id == 0x0B { 0 } else { 1 },
        PropertySet::Unsubscribe => 0,
        PropertySet::Disconnect => if id == 0x11 { 0 } else if id == 0x1F { 1 } else if id == 0x26 {
            2
        } else { 3 },
    };
    if property::kind_of(set, id) is Some {
        assert(order[i] == id);
    }
    if order.contains(id) {
        let k = choose|k: int| 0 <= k < order.len() && order[k] == id;
    }
}

/// The properties with a single one of them.
pub open spec fn only(id: u8, v: ValueView) -> PropertiesView {
    PropertiesView { values: map![id => v], user: Seq::empty() }
}

/// The list that says a single property.
proof fn lemma_listed_only(id: u8, v: ValueView, order: Seq<u8>)
    requires
        id != 0x26,
        order.no_duplicates(),
    ensures
        properties::listed(only(id, v), order) == (if order.contains(id) {
            seq![(id, v)]
        } else {
            Seq::empty()
        }),
    decreases order.len(),
{
    if order.len() > 0 {
        let front = order.drop_last();
        lemma_listed_only(id, v, front);
        assert(properties::user_items(only(id, v).user) =~= Seq::empty());
        if front.contains(id) {
            let k = choose|k: int| 0 <= k < front.len() && front[k] == id;
            assert(order[k] == id);
            assert(order.last() != id);
        }
        if order.contains(id) && order.last() != id {
            let k = choose|k: int| 0 <= k < order.len() && order[k] == id;
            assert(front[k] == id);
        }
        if order.last() == id {
            assert(order[order.len() - 1] == id);
        }
        assert(properties::listed(only(id, v), order) =~= (if order.contains(id) {
            seq![(id, v)]
        } else {
            Seq::empty()
        }));
    }
}

/// A single property stands as the length of its identifier and its value, the identifier, and
/// the value; no property at all is the length 0.
pub proof fn law_property_block(set: PropertySet, id: u8, v: ValueView)
    requires
        id != 0x26,
        property::kind_of(set, id) == Some(v.kind()),
        v.bytes().len() < 127,
    ensures
        properties::properties_bytes(set, only(id, v)) == seq![(1 + v.bytes().len()) as u8, id]
            + v.bytes(),
        properties::properties_bytes(
            set,
            PropertiesView { values: Map::empty(), user: Seq::empty() },
        ) == seq![0u8],
{
    reveal(properties::properties_bytes);
    law_forms_of_properties(set, id);
    let order = properties::order(set);
    lemma_listed_only(id, v, order);
    let list = seq![(id, v)];
    reveal_with_fuel(property::list_bytes, 2);
    assert(list.drop_last() =~= Seq::empty());
    assert(property::list_bytes(list) =~= seq![id] + v.bytes());
    assert(properties::properties_bytes(set, only(id, v)) =~= seq![
        (1 + v.bytes().len()) as u8,
        id,
    ] + v.bytes());
    let none = PropertiesView { values: Map::empty(), user: Seq::empty() };
    lemma_listed_none(none, order);
    assert(properties::properties_bytes(set, none) =~= seq![0u8]);
}

/// The list that says nothing.
proof fn lemma_listed_none(p: PropertiesView, order: Seq<u8>)
    requires
        p.values == Map::<u8, ValueView>::empty(),
        p.user.len() == 0,
    ensures
        properties::listed(p, order) == Seq::<(u8, ValueView)>::empty(),
    decreases order.len(),
{
    if order.len() > 0 {
        lemma_listed_none(p, order.drop_last());
        assert(properties::user_items(p.user) =~= Seq::empty());
        assert(properties::listed(p, order) =~= Seq::empty());
    }
}

/// The identifiers of the properties of a CONNECT.
pub proof fn law_connect_property_identifiers(p: ConnectProperties<'_>)
    ensures
        match p.session_expiry_interval {
            Some(v) => p@.values.contains_key(0x11) && p@.values[0x11] == ValueView::Four(v),
            None => !p@.values.contains_key(0x11),
        },
        match p.receive_maximum {
            Some(v) => p@.values.contains_key(0x21) && p@.values[0x21] == ValueView::Two(v),
            None => !p@.values.contains_key(0x21),
        },
        match p.max_packet_size {
            Some(v) => p@.values.contains_key(0x27) && p@.values[0x27] == ValueView::Four(v),
            None => !p@.values.contains_key(0x27),
        },
        match p.topic_alias_maximum {
            Some(v) => p@.values.contains_key(0x22) && p@.values[0x22] == ValueView::Two(v),
            None => !p@.values.contains_key(0x22),
        },
        match p.request_response_info {
            Some(v) => p@.values.contains_key(0x19) && p@.values[0x19] == ValueView::Byte(v),
            None => !p@.values.contains_key(0x19),
        },
        match p.request_problem_info {
            Some(v) => p@.values.contains_key(0x17) && p@.values[0x17] == ValueView::Byte(v),
            None => !p@.values.contains_key(0x17),
        },
        match p.auth_method {
            Some(v) => p@.values.contains_key(0x15) && p@.values[0x15] == ValueView::Text(v@),
            None => !p@.values.contains_key(0x15),
        },
        match p.auth_data {
            Some(v) => p@.values.contains_key(0x16) && p@.values[0x16] == ValueView::Binary(v@),
            None => !p@.values.contains_key(0x16),
        },
        forall|id: u8| #[trigger]
            p@.values.contains_key(id) ==> id == 0x11 || id == 0x21 || id == 0x27 || id == 0x22 || id == 0x19 || id == 0x17 || id == 0x15 || id == 0x16,
        p@.user.len() == p.user_properties@.len(),
        forall|i: int|
            0 <= i < p.user_properties@.len() ==> (#[trigger] p@.user[i]) == (
                p.user_properties@[i].0@,
                p.user_properties@[i].1@,
            ),
{
}

/// The identifiers of the properties of a Will.
pub proof fn law_will_property_identifiers(p: WillProperties<'_>)
    ensures
        match p.will_delay_interval {
            Some(v) => p@.values.contains_key(0x18) && p@.values[0x18] == ValueView::Four(v),
            None => !p@.values.contains_key(0x18),
        },
        match p.payload_format_indicator {
            Some(v) => p@.values.contains_key(0x01) && p@.values[0x01] == ValueView::Byte(v),
            None => !p@.values.contains_key(0x01),
        },
        match p.message_expiry_interval {
            Some(v) => p@.values.contains_key(0x02) && p@.values[0x02] == ValueView::Four(v),
            None => !p@.values.contains_key(0x02),
        },
        match p.content_type {
            Some(v) => p@.values.contains_key(0x03) && p@.values[0x03] == ValueView::Text(v@),
            None => !p@.values.contains_key(0x03),
        },
        match p.response_topic {
            Some(v) => p@.values.contains_key(0x08) && p@.values[0x08] == ValueView::Text(v@),
            None => !p@.values.contains_key(0x08),
        },
        match p.correlation_data {
            Some(v) => p@.values.contains_key(0x09) && p@.values[0x09] == ValueView::Binary(v@),
            None => !p@.values.contains_key(0x09),
        },
        forall|id: u8| #[trigger]
            p@.values.contains_key(id) ==> id == 0x18 || id == 0x01 || id == 0x02 || id == 0x03 || id == 0x08 || id == 0x09,
        p@.user.len() == p.user_properties@.len(),
        forall|i: int|
            0 <= i < p.user_properties@.len() ==> (#[trigger] p@.user[i]) == (
                p.user_properties@[i].0@,
                p.user_properties@[i].1@,
            ),
{
}

/// The identifiers of the properties of a CONNACK.
pub proof fn law_connack_property_identifiers(p: ConnAckProperties<'_>)
    ensures
        match p.session_expiry_interval {
            Some(v) => p@.values.contains_key(0x11) && p@.values[0x11] == ValueView::Four(v),
            None => !p@.values.contains_key(0x11),
        },
        match p.receive_maximum {
            Some(v) => p@.values.contains_key(0x21) && p@.values[0x21] == ValueView::Two(v),
            None => !p@.values.contains_key(0x21),
        },
        match p.max_qos {
            Some(v) => p@.values.contains_key(0x24) && p@.values[0x24] == ValueView::Byte(v),
            None => !p@.values.contains_key(0x24),
        },
        match p.retain_available {
            Some(v) => p@.values.contains_key(0x25) && p@.values[0x25] == ValueView::Byte(v),
            None => !p@.values.contains_key(0x25),
        },
        match p.maximum_packet_size {
            Some(v) => p@.values.contains_key(0x27) && p@.values[0x27] == ValueView::Four(v),
            None => !p@.values.contains_key(0x27),
        },
        match p.assigned_client_identifier {
            Some(v) => p@.values.contains_key(0x12) && p@.values[0x12] == ValueView::Text(v@),
            None => !p@.values.contains_key(0x12),
        },
        match p.topic_alias_maximum {
            Some(v) => p@.values.contains_key(0x22) && p@.values[0x22] == ValueView::Two(v),
            None => !p@.values.contains_key(0x22),
        },
        match p.reason_string {
            Some(v) => p@.values.contains_key(0x1F) && p@.values[0x1F] == ValueView::Text(v@),
            None => !p@.values.contains_key(0x1F),
        },
        match p.wildcard_subscription_available {
            Some(v) => p@.values.contains_key(0x28) && p@.values[0x28] == ValueView::Byte(v),
            None => !p@.values.contains_key(0x28),
        },
        match p.subscription_identifiers_available {
            Some(v) => p@.values.contains_key(0x29) && p@.values[0x29] == ValueView::Byte(v),
            None => !p@.values.contains_key(0x29),
        },
        match p.shared_subscription_available {
            Some(v) => p@.values.contains_key(0x2A) && p@.values[0x2A] == ValueView::Byte(v),
            None => !p@.values.contains_key(0x2A),
        },
        match p.server_keep_alive {
            Some(v) => p@.values.contains_key(0x13) && p@.values[0x13] == ValueView::Two(v),
            None => !p@.values.contains_key(0x13),
        },
        match p.response_information {
            Some(v) => p@.values.contains_key(0x1A) && p@.values[0x1A] == ValueView::Text(v@),
            None => !p@.values.contains_key(0x1A),
        },
        match p.server_reference {
            Some(v) => p@.values.contains_key(0x1C) && p@.values[0x1C] == ValueView::Text(v@),
            None => !p@.values.contains_key(0x1C),
        },
        match p.authentication_method {
            Some(v) => p@.values.contains_key(0x15) && p@.values[0x15] == ValueView::Text(v@),
            None => !p@.values.contains_key(0x15),
        },
        match p.authentication_data {
            Some(v) => p@.values.contains_key(0x16) && p@.values[0x16] == ValueView::Binary(v@),
            None => !p@.values.contains_key(0x16),
        },
        forall|id: u8| #[trigger]
            p@.values.contains_key(id) ==> id == 0x11 || id == 0x21 || id == 0x24 || id == 0x25 || id == 0x27 || id == 0x12 || id == 0x22 || id == 0x1F || id == 0x28 || id == 0x29 || id == 0x2A || id == 0x13 || id == 0x1A || id == 0x1C || id == 0x15 || id == 0x16,
        p@.user.len() == p.user_properties@.len(),
        forall|i: int|
            0 <= i < p.user_properties@.len() ==> (#[trigger] p@.user[i]) == (
                p.user_properties@[i].0@,
                p.user_properties@[i].1@,
            ),
{
}

/// The identifiers of the properties of a PUBLISH.
pub proof fn law_publish_property_identifiers(p: PublishProperties<'_>)
    ensures
        match p.payload_format_indicator {
            Some(v) => p@.values.contains_key(0x01) && p@.values[0x01] == ValueView::Byte(v),
            None => !p@.values.contains_key(0x01),
        },
        match p.message_expiry_interval {
            Some(v) => p@.values.contains_key(0x02) && p@.values[0x02] == ValueView::Four(v),
            None => !p@.values.contains_key(0x02),
        },
        match p.content_type {
            Some(v) => p@.values.contains_key(0x03) && p@.values[0x03] == ValueView::Text(v@),
            None => !p@.values.contains_key(0x03),
        },
        match p.response_topic {
            Some(v) => p@.values.contains_key(0x08) && p@.values[0x08] == ValueView::Text(v@),
            None => !p@.values.contains_key(0x08),
        },
        match p.correlation_data {
            Some(v) => p@.values.contains_key(0x09) && p@.values[0x09] == ValueView::Binary(v@),
            None => !p@.values.contains_key(0x09),
        },
        match p.subscription_identifier {
            Some(v) => p@.values.contains_key(0x0B) && p@.values[0x0B] == ValueView::Varint(v),
            None => !p@.values.contains_key(0x0B),
        },
        match p.topic_alias {
            Some(v) => p@.values.contains_key(0x23) && p@.values[0x23] == ValueView::Two(v),
            None => !p@.values.contains_key(0x23),
        },
        forall|id: u8| #[trigger]
            p@.values.contains_key(id) ==> id == 0x01 || id == 0x02 || id == 0x03 || id == 0x08 || id == 0x09 || id == 0x0B || id == 0x23,
        p@.user.len() == p.user_properties@.len(),
        forall|i: int|
            0 <= i < p.user_properties@.len() ==> (#[trigger] p@.user[i]) == (
                p.user_properties@[i].0@,
                p.user_properties@[i].1@,
            ),
{
}

/// The identifiers of the properties of an acknowledgement.
pub proof fn law_acknowledgement_property_identifiers(p: PubAckProperties<'_>)
    ensures
        match p.reason_string {
            Some(v) => p@.values.contains_key(0x1F) && p@.values[0x1F] == ValueView::Text(v@),
            None => !p@.values.contains_key(0x1F),
        },
        forall|id: u8| #[trigger]
            p@.values.contains_key(id) ==> id == 0x1F,
        p@.user.len() == p.user_properties@.len(),
        forall|i: int|
            0 <= i < p.user_properties@.len() ==> (#[trigger] p@.user[i]) == (
                p.user_properties@[i].0@,
                p.user_properties@[i].1@,
            ),
{
}

/// The identifiers of the properties of a SUBSCRIBE.
pub proof fn law_subscribe_property_identifiers(p: SubscribeProperties<'_>)
    ensures
        match p.subscription_identifier {
            Some(v) => p@.values.contains_key(0x0B) && p@.values[0x0B] == ValueView::Varint(v),
            None => !p@.values.contains_key(0x0B),
        },
        forall|id: u8| #[trigger]
            p@.values.contains_key(id) ==> id == 0x0B,
        p@.user.len() == p.user_properties@.len(),
        forall|i: int|
            0 <= i < p.user_properties@.len() ==> (#[trigger] p@.user[i]) == (
                p.user_properties@[i].0@,
                p.user_properties@[i].1@,
            ),
{
}

/// The identifiers of the properties of a SUBACK or UNSUBACK.
pub proof fn law_suback_property_identifiers(p: SubAckProperties<'_>)
    ensures
        match p.reason_string {
            Some(v) => p@.values.contains_key(0x1F) && p@.values[0x1F] == ValueView::Text(v@),
            None => !p@.values.contains_key(0x1F),
        },
        forall|id: u8| #[trigger]
            p@.values.contains_key(id) ==> id == 0x1F,
        p@.user.len() == p.user_properties@.len(),
        forall|i: int|
            0 <= i < p.user_properties@.len() ==> (#[trigger] p@.user[i]) == (
                p.user_properties@[i].0@,
                p.user_properties@[i].1@,
            ),
{
}

/// The identifiers of the properties of an UNSUBSCRIBE.
pub proof fn law_unsubscribe_property_identifiers(p: UnsubscribeProperties<'_>)
    ensures
        forall|id: u8| #[trigger]
            p@.values.contains_key(id) ==> false,
        p@.user.len() == p.user_properties@.len(),
        forall|i: int|
            0 <= i < p.user_properties@.len() ==> (#[trigger] p@.user[i]) == (
                p.user_properties@[i].0@,
                p.user_properties@[i].1@,
            ),
{
}

/// The identifiers of the properties of a DISCONNECT.
pub proof fn law_disconnect_property_identifiers(p: DisconnectProperties<'_>)
    ensures
        match p.session_expiry_interval {
            Some(v) => p@.values.contains_key(0x11) && p@.values[0x11] == ValueView::Four(v),
            None => !p@.values.contains_key(0x11),
        },
        match p.reason_string {
            Some(v) => p@.values.contains_key(0x1F) && p@.values[0x1F] == ValueView::Text(v@),
            None => !p@.values.contains_key(0x1F),
        },
        match p.server_reference {
            Some(v) => p@.values.contains_key(0x1C) && p@.values[0x1C] == ValueView::Text(v@),
            None => !p@.values.contains_key(0x1C),
        },
        forall|id: u8| #[trigger]
            p@.values.contains_key(id) ==> id == 0x11 || id == 0x1F || id == 0x1C,
        p@.user.len() == p.user_properties@.len(),
        forall|i: int|
            0 <= i < p.user_properties@.len() ==> (#[trigger] p@.user[i]) == (
                p.user_properties@[i].0@,
                p.user_properties@[i].1@,
            ),
{
}

/// A packet is its first byte, the length of its body, and its body.
proof fn lemma_frame(p: PacketView)
    requires
        p.body().len() <= 268_435_455,
    ensures
        is_frame(p.bytes(), p.first_byte(), p.body()),
{
    wire::lemma_varint_is_varint(p.body().len());
    assert(is_varint(wire::varint(p.body().len()), p.body().len()));
}

/// A CONNECT: the first byte is 0x10; then come the name `MQTT` and the level 5, the flags, the
/// keep alive, the properties, the client identifier, the Will with its properties, topic and
/// payload, the user's name, and the password.
pub proof fn law_connect_on_the_wire(
    client_id: Seq<char>,
    keep_alive: u16,
    clean_start: bool,
    will: Option<WillView>,
    username: Option<Seq<char>>,
    password: Option<Seq<u8>>,
    properties: PropertiesView,
)
    requires
        will matches Some(w) ==> w.qos <= 2,
        (PacketView::Connect {
            client_id,
            keep_alive,
            clean_start,
            will,
            username,
            password,
            properties,
        }).body().len() <= 268_435_455,
    ensures
        ({
            let p = PacketView::Connect {
                client_id,
                keep_alive,
                clean_start,
                will,
                username,
                password,
                properties,
            };
            let flags = (if clean_start {
                0x02int
            } else {
                0
            }) + (match will {
                Some(w) => 0x04 + 0x08 * w.qos + (if w.retain {
                    0x20int
                } else {
                    0
                }),
                None => 0,
            }) + (if password is Some {
                0x40int
            } else {
                0
            }) + (if username is Some {
                0x80int
            } else {
                0
            });
            &&& is_frame(p.bytes(), 0x10, p.body())
            &&& p.body() == seq![0u8, 4, 0x4D, 0x51, 0x54, 0x54, 5, flags as u8] + wire::be16(
                keep_alive,
            ) + properties::properties_bytes(PropertySet::Connect, properties) + wire::text_field(
                client_id,
            ) + (match will {
                Some(w) => properties::properties_bytes(PropertySet::Will, w.properties)
                    + wire::text_field(w.topic) + wire::binary_field(w.payload),
                None => Seq::empty(),
            }) + (match username {
                Some(name) => wire::text_field(name),
                None => Seq::empty(),
            }) + (match password {
                Some(data) => wire::binary_field(data),
                None => Seq::empty(),
            })
        }),
{
    let p = PacketView::Connect {
        client_id,
        keep_alive,
        clean_start,
        will,
        username,
        password,
        properties,
    };
    lemma_frame(p);
    reveal_strlit("MQTT");
    let name = "MQTT"@;
    assert(name =~= seq!['M', 'Q', 'T', 'T']);
    lemma_ascii_name(name);
    let front = wire::text_field(name) + seq![5u8] + seq![
        packet::connect_flags(clean_start, will, username is Some, password is Some),
    ];
    assert(front =~= seq![
        0u8,
        4,
        0x4D,
        0x51,
        0x54,
        0x54,
        5,
        packet::connect_flags(clean_start, will, username is Some, password is Some),
    ]);
}

/// The bytes of the protocol's name.
proof fn lemma_ascii_name(name: Seq<char>)
    requires
        name == seq!['M', 'Q', 'T', 'T'],
    ensures
        utf8::encode_utf8(name) == seq![0x4Du8, 0x51, 0x54, 0x54],
{
    let codes = seq![0x4Du8, 0x51, 0x54, 0x54];
    text::lemma_ascii_decodes(codes);
    assert(text::ascii_text(codes) =~= name);
}

/// A CONNACK: the first byte is 0x20; then come a byte that is 1 exactly where a session is
/// present, the reason code, and the properties.
pub proof fn law_connack_on_the_wire(
    session_present: bool,
    reason_code: u8,
    properties: PropertiesView,
)
    requires
        (PacketView::ConnAck { session_present, reason_code, properties }).body().len()
            <= 268_435_455,
    ensures
        ({
            let p = PacketView::ConnAck { session_present, reason_code, properties };
            &&& is_frame(p.bytes(), 0x20, p.body())
            &&& p.body() == seq![
                if session_present {
                    1u8
                } else {
                    0
                },
                reason_code,
            ] + properties::properties_bytes(PropertySet::ConnAck, properties)
        }),
{
    lemma_frame(PacketView::ConnAck { session_present, reason_code, properties });
}

/// A PUBLISH: the first byte is 0x30, and 8 more for a duplicate, 2 or 4 more for QoS 1 or 2, and
/// 1 more for a message that is retained; then come the topic, the packet identifier where there
/// is one, the properties, and the payload up to the end.
pub proof fn law_publish_on_the_wire(
    dup: bool,
    qos: u8,
    retain: bool,
    topic: Seq<char>,
    packet_id: Option<u16>,
    properties: PropertiesView,
    payload: Seq<u8>,
)
    requires
        qos <= 2,
        (PacketView::Publish { dup, qos, retain, topic, packet_id, properties, payload }).body()
            .len() <= 268_435_455,
    ensures
        ({
            let p = PacketView::Publish {
                dup,
                qos,
                retain,
                topic,
                packet_id,
                properties,
                payload,
            };
            let first = 0x30 + 2 * qos + (if dup {
                8int
            } else {
                0
            }) + (if retain {
                1int
            } else {
                0
            });
            &&& is_frame(p.bytes(), first as u8, p.body())
            &&& p.body() == wire::text_field(topic) + (match packet_id {
                Some(id) => wire::be16(id),
                None => Seq::empty(),
            }) + properties::properties_bytes(PropertySet::Publish, properties) + payload
        }),
{
    lemma_frame(
        PacketView::Publish { dup, qos, retain, topic, packet_id, properties, payload },
    );
}

/// The acknowledgements: a PUBACK begins with 0x40, a PUBREC with 0x50, a PUBREL with 0x62 and a
/// PUBCOMP with 0x70; then come the packet identifier, and the reason code and the properties
/// unless the code is 0 and there is no property.
pub proof fn law_acknowledgement_on_the_wire(
    packet_type: u8,
    packet_id: u16,
    reason_code: u8,
    properties: PropertiesView,
)
    requires
        4 <= packet_type <= 7,
        (PacketView::Ack { packet_type, packet_id, reason_code, properties }).body().len()
            <= 268_435_455,
    ensures
        ({
            let p = PacketView::Ack { packet_type, packet_id, reason_code, properties };
            let first: u8 = if packet_type == 4 {
                0x40
            } else if packet_type == 5 {
                0x50
            } else if packet_type == 6 {
                0x62
            } else {
                0x70
            };
            let none = properties.values =~= Map::<u8, ValueView>::empty()
                && properties.user.len() == 0;
            &&& is_frame(p.bytes(), first, p.body())
            &&& p.body() == wire::be16(packet_id) + (if reason_code == 0 && none {
                Seq::empty()
            } else {
                seq![reason_code] + properties::properties_bytes(PropertySet::Ack, properties)
            })
        }),
{
    lemma_frame(PacketView::Ack { packet_type, packet_id, reason_code, properties });
    lemma_no_properties(properties);
}

/// There is no property exactly where no value and no pair is there.
proof fn lemma_no_properties(p: PropertiesView)
    ensures
        packet::no_properties(p) <==> p.values =~= Map::<u8, ValueView>::empty() && p.user.len()
            == 0,
{
    let none = property::meaning(Seq::empty());
    assert(none.values =~= Map::<u8, ValueView>::empty());
    assert(none.user =~= Seq::empty());
    if p.values =~= Map::<u8, ValueView>::empty() && p.user.len() == 0 {
        assert(p =~= none);
    }
}

/// A SUBSCRIBE begins with 0x82 and an UNSUBSCRIBE with 0xA2; then come the packet identifier, the
/// properties, and the topic filters, each followed by its options in a SUBSCRIBE.
pub proof fn law_subscriptions_on_the_wire(
    packet_id: u16,
    properties: PropertiesView,
    subscriptions: Seq<(Seq<char>, u8)>,
    topic_filters: Seq<Seq<char>>,
    i: int,
)
    requires
        (PacketView::Subscribe { packet_id, properties, subscriptions }).body().len()
            <= 268_435_455,
        (PacketView::Unsubscribe { packet_id, properties, topic_filters }).body().len()
            <= 268_435_455,
    ensures
        ({
            let p = PacketView::Subscribe { packet_id, properties, subscriptions };
            let list = packet::subscriptions_bytes(subscriptions);
            &&& is_frame(p.bytes(), 0x82, p.body())
            &&& p.body() == wire::be16(packet_id) + properties::properties_bytes(
                PropertySet::Subscribe,
                properties,
            ) + list
            &&& 0 <= i < subscriptions.len() ==> list == packet::subscriptions_bytes(
                subscriptions.take(i),
            ) + wire::text_field(subscriptions[i].0) + seq![subscriptions[i].1]
                + packet::subscriptions_bytes(subscriptions.skip(i + 1))
        }),
        ({
            let p = PacketView::Unsubscribe { packet_id, properties, topic_filters };
            let list = packet::filters_bytes(topic_filters);
            &&& is_frame(p.bytes(), 0xA2, p.body())
            &&& p.body() == wire::be16(packet_id) + properties::properties_bytes(
                PropertySet::Unsubscribe,
                properties,
            ) + list
            &&& 0 <= i < topic_filters.len() ==> list == packet::filters_bytes(
                topic_filters.take(i),
            ) + wire::text_field(topic_filters[i]) + packet::filters_bytes(
                topic_filters.skip(i + 1),
            )
        }),
        packet::subscriptions_bytes(Seq::empty()) == Seq::<u8>::empty(),
        packet::filters_bytes(Seq::empty()) == Seq::<u8>::empty(),
{
    lemma_frame(PacketView::Subscribe { packet_id, properties, subscriptions });
    lemma_frame(PacketView::Unsubscribe { packet_id, properties, topic_filters });
    if 0 <= i < subscriptions.len() {
        lemma_subscription_at(subscriptions, i);
    }
    if 0 <= i < topic_filters.len() {
        lemma_filter_at(topic_filters, i);
    }
}

/// Where a subscription stands.
proof fn lemma_subscription_at(list: Seq<(Seq<char>, u8)>, i: int)
    requires
        0 <= i < list.len(),
    ensures
        packet::subscriptions_bytes(list) == packet::subscriptions_bytes(list.take(i))
            + wire::text_field(list[i].0) + seq![list[i].1] + packet::subscriptions_bytes(
            list.skip(i + 1),
        ),
    decreases list.len(),
{
    if i == 0 {
        assert(list.take(0) =~= Seq::empty());
        assert(list.skip(1) =~= list.drop_first());
        assert(packet::subscriptions_bytes(list) =~= packet::subscriptions_bytes(list.take(i))
            + wire::text_field(list[i].0) + seq![list[i].1] + packet::subscriptions_bytes(
            list.skip(i + 1),
        ));
    } else {
        let rest = list.drop_first();
        lemma_subscription_at(rest, i - 1);
        assert(list.take(i).drop_first() =~= rest.take(i - 1));
        assert(list.skip(i + 1) =~= rest.skip(i));
        assert(packet::subscriptions_bytes(list) =~= packet::subscriptions_bytes(list.take(i))
            + wire::text_field(list[i].0) + seq![list[i].1] + packet::subscriptions_bytes(
            list.skip(i + 1),
        ));
    }
}

/// Where a topic filter stands.
proof fn lemma_filter_at(list: Seq<Seq<char>>, i: int)
    requires
        0 <= i < list.len(),
    ensures
        packet::filters_bytes(list) == packet::filters_bytes(list.take(i)) + wire::text_field(
            list[i],
        ) + packet::filters_bytes(list.skip(i + 1)),
    decreases list.len(),
{
    if i == 0 {
        assert(list.take(0) =~= Seq::empty());
        assert(list.skip(1) =~= list.drop_first());
        assert(packet::filters_bytes(list) =~= packet::filters_bytes(list.take(i))
            + wire::text_field(list[i]) + packet::filters_bytes(list.skip(i + 1)));
    } else {
        let rest = list.drop_first();
        lemma_filter_at(rest, i - 1);
        assert(list.take(i).drop_first() =~= rest.take(i - 1));
        assert(list.skip(i + 1) =~= rest.skip(i));
        assert(packet::filters_bytes(list) =~= packet::filters_bytes(list.take(i))
            + wire::text_field(list[i]) + packet::filters_bytes(list.skip(i + 1)));
    }
}

/// A SUBACK begins with 0x90 and an UNSUBACK with 0xB0; then come the packet identifier, the
/// properties, and the reason codes. A PINGREQ is 0xC0 0x00, a PINGRESP 0xD0 0x00. A DISCONNECT
/// begins with 0xE0; then come the reason code and the properties unless the code is 0 and there
/// is no property.
pub proof fn law_other_packets_on_the_wire(
    packet_id: u16,
    properties: PropertiesView,
    reason_codes: Seq<u8>,
    reason_code: u8,
)
    requires
        (PacketView::Codes { packet_type: 9, packet_id, properties, reason_codes }).body().len()
            <= 268_435_455,
        (PacketView::Disconnect { reason_code, properties }).body().len() <= 268_435_455,
    ensures
        ({
            let suback = PacketView::Codes { packet_type: 9, packet_id, properties, reason_codes };
            let unsuback = PacketView::Codes {
                packet_type: 11,
                packet_id,
                properties,
                reason_codes,
            };
            let body = wire::be16(packet_id) + properties::properties_bytes(
                PropertySet::Ack,
                properties,
            ) + reason_codes;
            is_frame(suback.bytes(), 0x90, body) && is_frame(unsuback.bytes(), 0xB0, body)
        }),
        (PacketView::Ping { packet_type: 12 }).bytes() == seq![0xC0u8, 0],
        (PacketView::Ping { packet_type: 13 }).bytes() == seq![0xD0u8, 0],
        ({
            let none = properties.values =~= Map::<u8, ValueView>::empty()
                && properties.user.len() == 0;
            is_frame(
                (PacketView::Disconnect { reason_code, properties }).bytes(),
                0xE0,
                if reason_code == 0 && none {
                    Seq::empty()
                } else {
                    seq![reason_code] + properties::properties_bytes(
                        PropertySet::Disconnect,
                        properties,
                    )
                },
            )
        }),
{
    lemma_frame(PacketView::Codes { packet_type: 9, packet_id, properties, reason_codes });
    lemma_frame(PacketView::Codes { packet_type: 11, packet_id, properties, reason_codes });
    lemma_frame(PacketView::Disconnect { reason_code, properties });
    lemma_no_properties(properties);
    assert((PacketView::Ping { packet_type: 12 }).bytes() =~= seq![0xC0u8, 0]);
    assert((PacketView::Ping { packet_type: 13 }).bytes() =~= seq![0xD0u8, 0]);
}

/// A CONNECT whose only property is a session expiry, byte for byte.
#[verifier::spinoff_prover]
pub proof fn law_connect_with_a_session_expiry(
    client_id: Seq<char>,
    keep_alive: u16,
    v: u32,
    b: Seq<u8>,
    k: Seq<u8>,
)
    requires
        utf8::encode_utf8(client_id).len() < 100,
        is_four(b, v as int),
        is_two(k, keep_alive as int),
    ensures
        (PacketView::Connect {
            client_id,
            keep_alive,
            clean_start: true,
            will: None,
            username: None,
            password: None,
            properties: only(0x11, ValueView::Four(v)),
        }).bytes() == seq![0x10u8, (18 + utf8::encode_utf8(client_id).len()) as u8] + seq![
            0u8,
            4,
            0x4D,
            0x51,
            0x54,
            0x54,
            5,
            2,
        ] + k + seq![5u8, 0x11] + b + seq![0u8, utf8::encode_utf8(client_id).len() as u8]
            + utf8::encode_utf8(client_id),
{
    let four = ValueView::Four(v);
    let p = PacketView::Connect {
        client_id,
        keep_alive,
        clean_start: true,
        will: None,
        username: None,
        password: None,
        properties: only(0x11, four),
    };
    lemma_four_is_unique(wire::be32(v), b, v as int);
    lemma_two_is_unique(wire::be16(keep_alive), k, keep_alive as int);
    law_property_block(PropertySet::Connect, 0x11, four);
    let id = utf8::encode_utf8(client_id);
    let block = properties::properties_bytes(PropertySet::Connect, only(0x11, four));
    assert(block =~= seq![5u8, 0x11] + b);
    let field = wire::text_field(client_id);
    assert(field =~= seq![0u8, id.len() as u8] + id);
    let front = seq![0u8, 4, 0x4D, 0x51, 0x54, 0x54, 5, 2];
    reveal_strlit("MQTT");
    assert("MQTT"@ =~= seq!['M', 'Q', 'T', 'T']);
    lemma_ascii_name("MQTT"@);
    let name = wire::text_field("MQTT"@);
    assert(name =~= seq![0u8, 4, 0x4D, 0x51, 0x54, 0x54]);
    assert(name + seq![5u8] + seq![2u8] =~= front);
    assert(packet::connect_flags(true, None, false, false) == 2);
    assert(p.body() =~= front + k + block + field);
    assert(p.body().len() == 18 + id.len());
    assert(wire::varint(p.body().len()) =~= seq![(18 + id.len()) as u8]);
    let head = seq![0x10u8, (18 + id.len()) as u8];
    assert(p.bytes() =~= head + (front + k + block + field));
    lemma_joined(head, front, k, block, field);
    lemma_joined_pairs(head + front + k, seq![5u8, 0x11], b, seq![0u8, id.len() as u8], id);
}

/// Joining is associative.
proof fn lemma_joined(a: Seq<u8>, b: Seq<u8>, c: Seq<u8>, d: Seq<u8>, e: Seq<u8>)
    ensures
        a + (b + c + d + e) == a + b + c + d + e,
{
    assert(a + (b + c + d + e) =~= a + b + c + d + e);
}

/// Joining is associative.
proof fn lemma_joined_pairs(a: Seq<u8>, b: Seq<u8>, c: Seq<u8>, d: Seq<u8>, e: Seq<u8>)
    ensures
        a + (b + c) + (d + e) == a + b + c + d + e,
{
    assert(a + (b + c) + (d + e) =~= a + b + c + d + e);
}

/// A PUBLISH of QoS 0 whose only property is a message expiry, byte for byte.
#[verifier::spinoff_prover]
pub proof fn law_publish_with_a_message_expiry(
    topic: Seq<char>,
    payload: Seq<u8>,
    v: u32,
    b: Seq<u8>,
)
    requires
        utf8::encode_utf8(topic).len() < 50,
        payload.len() < 50,
        is_four(b, v as int),
    ensures
        (PacketView::Publish {
            dup: false,
            qos: 0,
            retain: false,
            topic,
            packet_id: None,
            properties: only(0x02, ValueView::Four(v)),
            payload,
        }).bytes() == seq![
            0x30u8,
            (8 + utf8::encode_utf8(topic).len() + payload.len()) as u8,
            0,
            utf8::encode_utf8(topic).len() as u8,
        ] + utf8::encode_utf8(topic) + seq![5u8, 0x02] + b + payload,
{
    let four = ValueView::Four(v);
    lemma_four_is_unique(wire::be32(v), b, v as int);
    law_property_block(PropertySet::Publish, 0x02, four);
    let p = PacketView::Publish {
        dup: false,
        qos: 0,
        retain: false,
        topic,
        packet_id: None,
        properties: only(0x02, four),
        payload,
    };
    let t = utf8::encode_utf8(topic);
    let block = properties::properties_bytes(PropertySet::Publish, only(0x02, four));
    assert(block =~= seq![5u8, 0x02] + b);
    let field = wire::text_field(topic);
    assert(field =~= seq![0u8, t.len() as u8] + t);
    assert(p.body() =~= field + block + payload);
    assert(wire::varint(p.body().len()) =~= seq![(8 + t.len() + payload.len()) as u8]);
    assert(p.bytes() =~= seq![0x30u8, (8 + t.len() + payload.len()) as u8, 0, t.len() as u8] + t
        + seq![5u8, 0x02] + b + payload);
}

/// A CONNACK whose only property is a maximum packet size, byte for byte.
#[verifier::spinoff_prover]
pub proof fn law_connack_with_a_maximum_packet_size(
    session_present: bool,
    reason_code: u8,
    v: u32,
    b: Seq<u8>,
)
    requires
        is_four(b, v as int),
    ensures
        (PacketView::ConnAck {
            session_present,
            reason_code,
            properties: only(0x27, ValueView::Four(v)),
        }).bytes() == seq![
            0x20u8,
            8,
            if session_present {
                1
            } else {
                0
            },
            reason_code,
            5,
            0x27,
        ] + b,
{
    let four = ValueView::Four(v);
    lemma_four_is_unique(wire::be32(v), b, v as int);
    law_property_block(PropertySet::ConnAck, 0x27, four);
    let p = PacketView::ConnAck {
        session_present,
        reason_code,
        properties: only(0x27, four),
    };
    let present: u8 = if session_present {
        1
    } else {
        0
    };
    let block = properties::properties_bytes(PropertySet::ConnAck, only(0x27, four));
    assert(block =~= seq![5u8, 0x27] + b);
    assert(p.body() =~= seq![present, reason_code] + block);
    assert(wire::varint(p.body().len()) =~= seq![8u8]);
    assert(p.bytes() =~= seq![0x20u8, 8, present, reason_code, 5, 0x27] + b);
}

/// A number has only one form in four bytes.
proof fn lemma_four_is_unique(a: Seq<u8>, b: Seq<u8>, v: int)
    requires
        is_four(a, v),
        is_four(b, v),
    ensures
        a == b,
{
    lemma_same_digits(
        a[0] as int,
        a[1] as int,
        a[2] as int,
        a[3] as int,
        b[0] as int,
        b[1] as int,
        b[2] as int,
        b[3] as int,
    );
    assert(a =~= b);
}

/// Four digits to the base 256 are told from their number.
proof fn lemma_same_digits(a: int, b: int, c: int, d: int, w: int, x: int, y: int, z: int)
    requires
        0 <= a < 256,
        0 <= b < 256,
        0 <= c < 256,
        0 <= d < 256,
        0 <= w < 256,
        0 <= x < 256,
        0 <= y < 256,
        0 <= z < 256,
        a * 0x100_0000 + b * 0x1_0000 + c * 0x100 + d == w * 0x100_0000 + x * 0x1_0000 + y * 0x100
            + z,
    ensures
        a == w && b == x && c == y && d == z,
{
    assert(a == w);
    assert(b == x);
    assert(c == y);
}

/// A number has only one form in two bytes.
proof fn lemma_two_is_unique(a: Seq<u8>, b: Seq<u8>, v: int)
    requires
        is_two(a, v),
        is_two(b, v),
    ensures
        a == b,
{
    assert(a =~= b);
}

/// A packet that is read says what the bytes say: of a PUBLISH the flags of the first byte, the
/// topic, the packet identifier where the QoS is not 0, and the payload behind the properties.
/// QoS 3 is refused.
pub proof fn law_publish_is_read_as_it_stands(first: u8, s: Seq<u8>)
    requires
        0x30 <= first < 0x40,
    ensures
        match packet::parse_body(first, s) {
            Ok(PacketView::Publish { dup, qos, retain, topic, packet_id, properties, payload }) => {
                &&& qos <= 2
                &&& first == 0x30 + (if dup {
                    8int
                } else {
                    0
                }) + 2 * qos + (if retain {
                    1int
                } else {
                    0
                })
                &&& packet_id is Some <==> qos > 0
                &&& ({
                    let t = utf8::encode_utf8(topic);
                    let n = 2 + t.len() as int;
                    &&& s.len() >= n && is_field(s.take(n), t)
                    &&& packet_id matches Some(id) ==> s.len() >= n + 2 && is_two(
                        s.subrange(n, n + 2),
                        id as int,
                    )
                    &&& payload.len() <= s.len() && payload == s.skip(s.len() - payload.len())
                })
            },
            Ok(_) => false,
            Err(_) => true,
        },
        (first / 2) % 4 == 3 ==> packet::parse_body(first, s) is Err,
{
    let flags = first % 16;
    assert(packet::parse_body(first, s) == packet::parse_publish(flags, s)) by {
        reveal(packet::parse_body);
    }
    assert(first / 16 == 3);
    let qos = (flags / 2) % 4;
    if qos <= 2 {
        if let Ok((topic, s1)) = wire::take_text(s) {
            lemma_text_read(s);
            if let Ok((packet_id, s2)) = packet::take_packet_id_if(qos > 0, s1) {
                let n = 2 + utf8::encode_utf8(topic).len() as int;
                lemma_id_read(s, n, s1, qos > 0);
                lemma_block_read(PropertySet::Publish, s2);
                if let Ok((_, payload)) = property::take_properties(PropertySet::Publish, s2) {
                    assert(payload =~= s.skip(s.len() - payload.len()));
                }
            }
        }
    }
    lemma_flags(flags);
}

/// The flags of a PUBLISH.
proof fn lemma_flags(flags: u8)
    requires
        flags < 16,
    ensures
        flags == (if packet::bit(flags, 8) {
            8int
        } else {
            0
        }) + 2 * ((flags / 2) % 4) + (if packet::bit(flags, 1) {
            1int
        } else {
            0
        }),
{
}

/// Text at the front.
proof fn lemma_text_read(s: Seq<u8>)
    ensures
        wire::take_text(s) matches Ok((text, rest)) ==> ({
            let t = utf8::encode_utf8(text);
            let n = 2 + t.len() as int;
            s.len() >= n && is_field(s.take(n), t) && rest == s.skip(n)
        }),
{
    law_fields_are_read_as_they_stand(s);
}

/// A packet identifier behind `n` bytes.
proof fn lemma_id_read(s: Seq<u8>, n: int, s1: Seq<u8>, present: bool)
    requires
        0 <= n <= s.len(),
        s1 == s.skip(n),
    ensures
        packet::take_packet_id_if(present, s1) matches Ok((packet_id, s2)) ==> {
            &&& packet_id is Some <==> present
            &&& packet_id matches Some(id) ==> s.len() >= n + 2 && is_two(
                s.subrange(n, n + 2),
                id as int,
            )
            &&& s2.len() <= s.len() && s2 == s.skip(s.len() - s2.len())
        },
{
    if present && s1.len() >= 2 {
        assert(s1.skip(2) =~= s.skip(n + 2));
    }
}

/// What a property block leaves is the end of the bytes.
proof fn lemma_block_read(set: PropertySet, s: Seq<u8>)
    ensures
        property::take_properties(set, s) matches Ok((_, rest)) ==> rest.len() <= s.len() && rest
            == s.skip(s.len() - rest.len()),
{
    reveal(property::take_properties);
    wire::lemma_varint_at_bounds(s, 0);
    if let Ok((_, rest)) = property::take_properties(set, s) {
        assert(rest =~= s.skip(s.len() - rest.len()));
    }
}

/// What a packet carries, by its kind.
pub proof fn law_content_of_packets(p: Packet<'_>)
    ensures
        match p {
            Packet::PubAck(a) => p@ == (PacketView::Ack {
                packet_type: 4,
                packet_id: a.packet_id,
                reason_code: a.reason_code,
                properties: a.properties@,
            }),
            Packet::PubRec(a) => p@ == (PacketView::Ack {
                packet_type: 5,
                packet_id: a.packet_id,
                reason_code: a.reason_code,
                properties: a.properties@,
            }),
            Packet::PubRel(a) => p@ == (PacketView::Ack {
                packet_type: 6,
                packet_id: a.packet_id,
                reason_code: a.reason_code,
                properties: a.properties@,
            }),
            Packet::PubComp(a) => p@ == (PacketView::Ack {
                packet_type: 7,
                packet_id: a.packet_id,
                reason_code: a.reason_code,
                properties: a.properties@,
            }),
            Packet::Publish(m) => p@ == (PacketView::Publish {
                dup: m.dup,
                qos: m.qos,
                retain: m.retain,
                topic: m.topic@,
                packet_id: m.packet_id,
                properties: m.properties@,
                payload: m.payload@,
            }),
            Packet::ConnAck(a) => p@ == (PacketView::ConnAck {
                session_present: a.session_present,
                reason_code: a.reason_code,
                properties: a.properties@,
            }),
            Packet::Disconnect(d) => p@ == (PacketView::Disconnect {
                reason_code: d.reason_code,
                properties: d.properties@,
            }),
            Packet::PingReq => p@ == (PacketView::Ping { packet_type: 12 }),
            Packet::PingResp => p@ == (PacketView::Ping { packet_type: 13 }),
            Packet::SubAck(a) => p@ == (PacketView::Codes {
                packet_type: 9,
                packet_id: a.packet_id,
                properties: a.properties@,
                reason_codes: a.reason_codes@,
            }),
            Packet::UnsubAck(a) => p@ == (PacketView::Codes {
                packet_type: 11,
                packet_id: a.packet_id,
                properties: a.properties@,
                reason_codes: a.reason_codes@,
            }),
            Packet::Connect(c) => {
                &&& p@ matches PacketView::Connect {
                    client_id,
                    keep_alive,
                    clean_start,
                    will,
                    username,
                    password,
                    properties,
                }
                &&& client_id == c.client_id@ && keep_alive == c.keep_alive && clean_start
                    == c.clean_start && properties == c.properties@
                &&& match (c.username, username) {
                    (Some(a), Some(b)) => a@ == b,
                    (None, None) => true,
                    _ => false,
                }
                &&& match (c.password, password) {
                    (Some(a), Some(b)) => a@ == b,
                    (None, None) => true,
                    _ => false,
                }
                &&& match (c.will, will) {
                    (Some(a), Some(b)) => b == (WillView {
                        topic: a.topic@,
                        payload: a.payload@,
                        qos: a.qos,
                        retain: a.retain,
                        properties: a.properties@,
                    }),
                    (None, None) => true,
                    _ => false,
                }
            },
            Packet::Subscribe(m) => {
                &&& p@ matches PacketView::Subscribe { packet_id, properties, subscriptions }
                &&& packet_id == m.packet_id && properties == m.properties@ && subscriptions.len()
                    == m.subscriptions@.len()
                &&& forall|i: int|
                    0 <= i < subscriptions.len() ==> #[trigger] subscriptions[i] == (
                        m.subscriptions@[i].topic_filter@,
                        m.subscriptions@[i].options,
                    )
            },
            Packet::Unsubscribe(m) => {
                &&& p@ matches PacketView::Unsubscribe { packet_id, properties, topic_filters }
                &&& packet_id == m.packet_id && properties == m.properties@ && topic_filters.len()
                    == m.topic_filters@.len()
                &&& forall|i: int|
                    0 <= i < topic_filters.len() ==> #[trigger] topic_filters[i]
                        == m.topic_filters@[i]@
            },
        },
{
}

} // verus!
