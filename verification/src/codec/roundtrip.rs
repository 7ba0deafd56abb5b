//! What the reader makes of what the writer wrote.

use vstd::prelude::*;
use vstd::utf8;
use crate::codec::packet;
use crate::codec::packet::{Packet, PacketView, WillView};
use crate::codec::properties;
use crate::codec::property;
use crate::codec::property::{PropertiesView, PropertyKind, PropertySet, ValueView};
use crate::codec::wire;

verus! {

/// Reading gives back the 16-bit integer that was written, and stops behind it.
pub proof fn lemma_u16_roundtrip(v: u16, rest: Seq<u8>)
    ensures
        wire::take_u16(wire::be16(v) + rest) == Ok::<(u16, Seq<u8>), wire::CodecError>((v, rest)),
{
    assert((wire::be16(v) + rest).skip(2) =~= rest);
}

/// Reading gives back the 32-bit integer that was written, and stops behind it.
pub proof fn lemma_u32_roundtrip(v: u32, rest: Seq<u8>)
    ensures
        wire::take_u32(wire::be32(v) + rest) == Ok::<(u32, Seq<u8>), wire::CodecError>((v, rest)),
{
    assert((wire::be32(v) + rest).skip(4) =~= rest);
}

/// Reading gives back the bytes that were written, where their length fits in 16 bits.
pub proof fn lemma_binary_roundtrip(data: Seq<u8>, rest: Seq<u8>)
    requires
        data.len() <= 0xffff,
    ensures
        wire::take_binary(wire::binary_field(data) + rest) == Ok::<
            (Seq<u8>, Seq<u8>),
            wire::CodecError,
        >((data, rest)),
{
    let len = data.len() as u16;
    assert(wire::binary_field(data) + rest =~= wire::be16(len) + (data + rest));
    lemma_u16_roundtrip(len, data + rest);
    assert((data + rest).take(len as int) =~= data);
    assert((data + rest).skip(len as int) =~= rest);
}

/// Reading gives back the text that was written, where its UTF-8 form is at most 65535 bytes
/// long.
pub proof fn lemma_text_roundtrip(text: Seq<char>, rest: Seq<u8>)
    requires
        utf8::encode_utf8(text).len() <= 0xffff,
    ensures
        wire::take_text(wire::text_field(text) + rest) == Ok::<
            (Seq<char>, Seq<u8>),
            wire::CodecError,
        >((text, rest)),
{
    lemma_binary_roundtrip(utf8::encode_utf8(text), rest);
    utf8::encode_utf8_valid_utf8(text);
    utf8::encode_utf8_decode_utf8(text);
}

/// Byte number `pre.len()` and those after it give back the variable byte integer written there.
proof fn lemma_varint_at_roundtrip(pre: Seq<u8>, v: nat, rest: Seq<u8>)
    requires
        pre.len() <= 3,
        pre.len() == 0 ==> v < 268_435_456,
        pre.len() == 1 ==> v < 2_097_152,
        pre.len() == 2 ==> v < 16_384,
        pre.len() == 3 ==> v < 128,
    ensures
        wire::varint_at(pre + wire::varint(v) + rest, pre.len()) == Ok::<
            (nat, nat),
            wire::CodecError,
        >((v, pre.len() + wire::varint(v).len())),
    decreases v,
{
    let s = pre + wire::varint(v) + rest;
    if v >= 128 {
        let head = seq![(v % 128 + 128) as u8];
        assert(s =~= (pre + head) + wire::varint(v / 128) + rest);
        lemma_varint_at_roundtrip(pre + head, v / 128, rest);
        assert(s[pre.len() as int] == head[0]);
    } else {
        assert(s[pre.len() as int] == v);
    }
}

/// A variable byte integer is read back, whatever follows it.
pub proof fn lemma_varint_read_back(v: nat, rest: Seq<u8>)
    requires
        v <= wire::VARINT_MAX,
    ensures
        wire::varint_at(wire::varint(v) + rest, 0) == Ok::<(nat, nat), wire::CodecError>(
            (v, wire::varint(v).len()),
        ),
{
    assert(Seq::<u8>::empty() + wire::varint(v) + rest =~= wire::varint(v) + rest);
    lemma_varint_at_roundtrip(Seq::empty(), v, rest);
}

/// Reading gives back the variable byte integer that was written, where it fits in four bytes.
pub proof fn lemma_varint_roundtrip(v: nat, rest: Seq<u8>)
    requires
        v <= wire::VARINT_MAX,
    ensures
        wire::take_varint(wire::varint(v) + rest) == Ok::<(u32, Seq<u8>), wire::CodecError>(
            (v as u32, rest),
        ),
        1 <= wire::varint(v).len() <= 4,
{
    let s = wire::varint(v) + rest;
    assert(Seq::<u8>::empty() + wire::varint(v) + rest =~= s);
    lemma_varint_at_roundtrip(Seq::empty(), v, rest);
    wire::lemma_varint_at_bounds(s, 0);
    assert(s.skip(wire::varint(v).len() as int) =~= rest);
}

/// Reading gives back the value of a property that was written, where it fits.
proof fn lemma_value_roundtrip(v: ValueView, rest: Seq<u8>)
    requires
        v.fits(),
    ensures
        property::take_value(v.kind(), v.bytes() + rest) == Ok::<
            (ValueView, Seq<u8>),
            wire::CodecError,
        >((v, rest)),
{
    match v {
        ValueView::Byte(b) => {
            assert((seq![b] + rest).skip(1) =~= rest);
        },
        ValueView::Two(n) => lemma_u16_roundtrip(n, rest),
        ValueView::Four(n) => lemma_u32_roundtrip(n, rest),
        ValueView::Varint(n) => lemma_varint_roundtrip(n as nat, rest),
        ValueView::Text(t) => lemma_text_roundtrip(t, rest),
        ValueView::Binary(d) => lemma_binary_roundtrip(d, rest),
        ValueView::Pair(k, t) => {
            assert(v.bytes() + rest =~= wire::text_field(k) + (wire::text_field(t) + rest));
            lemma_text_roundtrip(k, wire::text_field(t) + rest);
            lemma_text_roundtrip(t, rest);
        },
    }
}

/// Two lists on the wire, one behind the other.
proof fn lemma_list_bytes_concat(a: Seq<(u8, ValueView)>, b: Seq<(u8, ValueView)>)
    ensures
        property::list_bytes(a + b) == property::list_bytes(a) + property::list_bytes(b),
    decreases b.len(),
{
    if b.len() == 0 {
        assert(a + b =~= a);
        assert(property::list_bytes(a) + property::list_bytes(b) =~= property::list_bytes(a));
    } else {
        assert((a + b).drop_last() =~= a + b.drop_last());
        lemma_list_bytes_concat(a, b.drop_last());
        assert(property::list_bytes(a + b) =~= property::list_bytes(a) + property::list_bytes(b));
    }
}

/// Every value of the list can be written without loss.
pub open spec fn list_fits(list: Seq<(u8, ValueView)>) -> bool {
    forall|i: int| 0 <= i < list.len() ==> (#[trigger] list[i]).1.fits()
}

/// Reading gives back the list of properties that was written.
proof fn lemma_list_roundtrip(set: PropertySet, list: Seq<(u8, ValueView)>)
    requires
        property::well_typed(set, list),
        list_fits(list),
    ensures
        property::parse_properties(set, property::list_bytes(list)) == Ok::<
            Seq<(u8, ValueView)>,
            wire::CodecError,
        >(list),
    decreases list.len(),
{
    if list.len() > 0 {
        let first = list[0];
        let others = list.drop_first();
        assert(list =~= seq![first] + others);
        lemma_list_bytes_concat(seq![first], others);
        assert(seq![first].drop_last() =~= Seq::empty());
        let tail = property::list_bytes(others);
        assert(property::list_bytes(seq![first]) =~= seq![first.0] + first.1.bytes()) by {
            assert(property::list_bytes(seq![first].drop_last()) =~= Seq::empty());
        }
        let s = property::list_bytes(list);
        assert(s =~= seq![first.0] + (first.1.bytes() + tail));
        assert(s.skip(1) =~= first.1.bytes() + tail);
        assert(property::kind_of(set, list[0].0) == Some(first.1.kind()));
        lemma_value_roundtrip(first.1, tail);
        assert forall|i: int| 0 <= i < others.len() implies property::kind_of(
            set,
            (#[trigger] others[i]).0,
        ) == Some(others[i].1.kind()) by {
            assert(others[i] == list[i + 1]);
        }
        assert forall|i: int| 0 <= i < others.len() implies (#[trigger] others[i]).1.fits() by {
            assert(others[i] == list[i + 1]);
        }
        lemma_list_roundtrip(set, others);
    } else {
        assert(list =~= Seq::empty());
    }
}

/// Every property is allowed in the family, with a value of its own form.
pub open spec fn typed(set: PropertySet, p: PropertiesView) -> bool {
    forall|id: u8| #[trigger]
        p.values.contains_key(id) ==> id != 0x26 && property::kind_of(set, id) == Some(
            p.values[id].kind(),
        )
}

/// Every property can be written without loss.
pub open spec fn properties_fit(p: PropertiesView) -> bool {
    &&& forall|id: u8| #[trigger] p.values.contains_key(id) ==> p.values[id].fits()
    &&& forall|i: int|
        0 <= i < p.user.len() ==> utf8::encode_utf8((#[trigger] p.user[i]).0).len() <= 0xffff
            && utf8::encode_utf8(p.user[i].1).len() <= 0xffff
}

/// The value that counts in a list that two lists make up.
proof fn lemma_meaning_concat(a: Seq<(u8, ValueView)>, b: Seq<(u8, ValueView)>)
    ensures
        forall|id: u8| #[trigger]
            property::last_value(a + b, id) == (match property::last_value(b, id) {
                Some(v) => Some(v),
                None => property::last_value(a, id),
            }),
        property::user_pairs(a + b) == property::user_pairs(a) + property::user_pairs(b),
    decreases b.len(),
{
    if b.len() == 0 {
        assert(a + b =~= a);
        assert(property::user_pairs(a) + property::user_pairs(b) =~= property::user_pairs(a));
    } else {
        assert((a + b).drop_last() =~= a + b.drop_last());
        lemma_meaning_concat(a, b.drop_last());
        assert forall|id: u8| #[trigger]
            property::last_value(a + b, id) == (match property::last_value(b, id) {
                Some(v) => Some(v),
                None => property::last_value(a, id),
            }) by {
            assert(property::last_value(a + b.drop_last(), id) == property::last_value(
                (a + b).drop_last(),
                id,
            ));
        }
        assert(property::user_pairs(a + b) =~= property::user_pairs(a) + property::user_pairs(b));
    }
}

/// What the entries of user properties alone mean.
proof fn lemma_user_items(user: Seq<(Seq<char>, Seq<char>)>)
    ensures
        forall|id: u8|
            id != 0x26 ==> #[trigger] property::last_value(properties::user_items(user), id) is None,
        property::user_pairs(properties::user_items(user)) == user,
    decreases user.len(),
{
    let list = properties::user_items(user);
    if user.len() > 0 {
        lemma_user_items(user.drop_last());
        assert(list.drop_last() =~= properties::user_items(user.drop_last()));
        assert(user.drop_last().push(user.last()) =~= user);
        assert forall|id: u8| id != 0x26 implies #[trigger] property::last_value(list, id) is None by {
            assert(property::last_value(properties::user_items(user.drop_last()), id) is None);
        }
    } else {
        assert(property::user_pairs(list) =~= user);
    }
}

/// What a list means that says what `p` says, up to a part of the order.
proof fn lemma_listed_meaning(set: PropertySet, p: PropertiesView, ids: Seq<u8>)
    requires
        typed(set, p),
        ids.no_duplicates(),
    ensures
        forall|id: u8|
            id != 0x26 ==> #[trigger] property::last_value(properties::listed(p, ids), id) == (
            if ids.contains(id) && p.values.contains_key(id) {
                Some(p.values[id])
            } else {
                None
            }),
        property::user_pairs(properties::listed(p, ids)) == (if ids.contains(0x26) {
            p.user
        } else {
            Seq::empty()
        }),
        property::well_typed(set, properties::listed(p, ids)) || (ids.contains(0x26)
            && property::kind_of(set, 0x26) != Some(PropertyKind::Pair)),
        properties_fit(p) ==> list_fits(properties::listed(p, ids)),
    decreases ids.len(),
{
    if ids.len() > 0 {
        let front = ids.drop_last();
        let last = ids.last();
        lemma_listed_meaning(set, p, front);
        let a = properties::listed(p, front);
        let b = properties::items(p, last);
        lemma_meaning_concat(a, b);
        assert(!front.contains(last)) by {
            if front.contains(last) {
                let i = choose|i: int| 0 <= i < front.len() && front[i] == last;
                assert(ids[i] == ids[ids.len() - 1]);
            }
        }
        assert forall|id: u8| ids.contains(id) == (front.contains(id) || id == last) by {
            if front.contains(id) {
                let i = choose|i: int| 0 <= i < front.len() && front[i] == id;
                assert(ids[i] == id);
            }
            if id == last {
                assert(ids[ids.len() - 1] == id);
            }
            if ids.contains(id) && id != last {
                let i = choose|i: int| 0 <= i < ids.len() && ids[i] == id;
                assert(front[i] == id);
            }
        }
        if last == 0x26 {
            lemma_user_items(p.user);
        } else if p.values.contains_key(last) {
            let one = seq![(last, p.values[last])];
            assert(one.drop_last() =~= Seq::empty());
            assert(b == one);
            assert forall|id: u8| #[trigger] property::last_value(b, id) == (if id == last {
                Some(p.values[last])
            } else {
                None
            }) by {
                assert(property::last_value(one.drop_last(), id) is None);
            }
            assert(property::user_pairs(b) =~= Seq::empty()) by {
                assert(p.values[last].kind() != PropertyKind::Pair);
                assert(property::user_pairs(one.drop_last()) =~= Seq::empty());
            }
        }
        let all = properties::listed(p, ids);
        assert(all == a + b);
        if property::well_typed(set, a) && (last == 0x26 ==> property::kind_of(set, 0x26) == Some(
            PropertyKind::Pair,
        )) {
            assert forall|i: int| 0 <= i < all.len() implies property::kind_of(
                set,
                (#[trigger] all[i]).0,
            ) == Some(all[i].1.kind()) by {
                if i < a.len() {
                    assert(all[i] == a[i]);
                } else {
                    assert(all[i] == b[i - a.len()]);
                }
            }
        }
        if properties_fit(p) {
            assert forall|i: int| 0 <= i < all.len() implies (#[trigger] all[i]).1.fits() by {
                if i < a.len() {
                    assert(all[i] == a[i]);
                } else {
                    assert(all[i] == b[i - a.len()]);
                    if last == 0x26 {
                        assert(p.user[i - a.len()] == p.user[i - a.len()]);
                    }
                }
            }
        }
    }
}

/// The order of a family names each of its properties once.
proof fn lemma_order(set: PropertySet)
    ensures
        properties::order(set).no_duplicates(),
        forall|id: u8| property::kind_of(set, id) is Some ==> #[trigger] properties::order(
            set,
        ).contains(id),
        properties::order(set).contains(0x26),
        property::kind_of(set, 0x26) == Some(PropertyKind::Pair),
{
    let ids = properties::order(set);
    assert forall|id: u8| property::kind_of(set, id) is Some implies #[trigger] ids.contains(
        id,
    ) by {
        let ids = properties::order(set);
        assert(exists|i: int| 0 <= i < ids.len() && ids[i] == id) by {
            if set == PropertySet::ConnAck {
                assert(ids[0] == 0x11 && ids[1] == 0x21 && ids[2] == 0x24 && ids[3] == 0x25
                    && ids[4] == 0x27 && ids[5] == 0x12 && ids[6] == 0x22 && ids[7] == 0x1F
                    && ids[8] == 0x26 && ids[9] == 0x28 && ids[10] == 0x29 && ids[11] == 0x2A
                    && ids[12] == 0x13 && ids[13] == 0x1A && ids[14] == 0x1C && ids[15] == 0x15
                    && ids[16] == 0x16);
            } else if set == PropertySet::Connect {
                assert(ids[0] == 0x11 && ids[1] == 0x21 && ids[2] == 0x27 && ids[3] == 0x22
                    && ids[4] == 0x19 && ids[5] == 0x17 && ids[6] == 0x26 && ids[7] == 0x15
                    && ids[8] == 0x16);
            } else if set == PropertySet::Will {
                assert(ids[0] == 0x18 && ids[1] == 0x01 && ids[2] == 0x02 && ids[3] == 0x03
                    && ids[4] == 0x08 && ids[5] == 0x09 && ids[6] == 0x26);
            } else if set == PropertySet::Publish {
                assert(ids[0] == 0x01 && ids[1] == 0x02 && ids[2] == 0x03 && ids[3] == 0x08
                    && ids[4] == 0x09 && ids[5] == 0x0B && ids[6] == 0x23 && ids[7] == 0x26);
            } else if set == PropertySet::Disconnect {
                assert(ids[0] == 0x11 && ids[1] == 0x1F && ids[2] == 0x26 && ids[3] == 0x1C);
            } else if set == PropertySet::Unsubscribe {
                assert(ids[0] == 0x26);
            } else if set == PropertySet::Ack {
                assert(ids[0] == 0x1F && ids[1] == 0x26);
            } else {
                assert(ids[0] == 0x0B && ids[1] == 0x26);
            }
        }
    }
}

/// The properties as they are listed mean what they are.
proof fn lemma_listed_is_meant(set: PropertySet, p: PropertiesView)
    requires
        typed(set, p),
        properties_fit(p),
    ensures
        property::meaning(properties::listed(p, properties::order(set))) == p,
        property::well_typed(set, properties::listed(p, properties::order(set))),
        list_fits(properties::listed(p, properties::order(set))),
{
    let ids = properties::order(set);
    let list = properties::listed(p, ids);
    lemma_order(set);
    lemma_listed_meaning(set, p, ids);
    assert forall|id: u8|
        property::meaning(list).values.contains_key(id) == p.values.contains_key(id) by {
        if id != 0x26 {
            assert(property::last_value(list, id) == (if ids.contains(id)
                && p.values.contains_key(id) {
                Some(p.values[id])
            } else {
                None
            }));
        }
    }
    assert(property::meaning(list) =~= p);
}

/// A block of properties is read back.
proof fn lemma_block_roundtrip(set: PropertySet, list: Seq<(u8, ValueView)>, rest: Seq<u8>)
    requires
        property::well_typed(set, list),
        list_fits(list),
        property::block_bytes(list).len() <= wire::VARINT_MAX,
    ensures
        property::take_properties(set, property::block_bytes(list) + rest) == Ok::<
            (Seq<(u8, ValueView)>, Seq<u8>),
            wire::CodecError,
        >((list, rest)),
        property::block_bytes(list).len() > 0,
{
    reveal(property::take_properties);
    lemma_list_roundtrip(set, list);
    let bytes = property::list_bytes(list);
    let s = property::block_bytes(list) + rest;
    lemma_varint_roundtrip(bytes.len(), bytes + rest);
    assert(s =~= wire::varint(bytes.len()) + (bytes + rest));
    assert((bytes + rest).take(bytes.len() as int) =~= bytes);
    assert((bytes + rest).skip(bytes.len() as int) =~= rest);
}

/// Reading gives back the properties that were written.
pub proof fn lemma_properties_roundtrip(set: PropertySet, p: PropertiesView, rest: Seq<u8>)
    requires
        typed(set, p),
        properties_fit(p),
        properties::properties_bytes(set, p).len() <= wire::VARINT_MAX,
    ensures
        property::take_properties(set, properties::properties_bytes(set, p) + rest) matches Ok(
            (list, after),
        ) && property::meaning(list) == p && after == rest,
        properties::properties_bytes(set, p).len() > 0,
{
    reveal(properties::properties_bytes);
    lemma_listed_is_meant(set, p);
    lemma_block_roundtrip(set, properties::listed(p, properties::order(set)), rest);
}

/// Concatenation is associative.
proof fn lemma_assoc(a: Seq<u8>, b: Seq<u8>, c: Seq<u8>)
    ensures
        a + b + c == a + (b + c),
{
    assert(a + b + c =~= a + (b + c));
}

/// Text whose UTF-8 form has a length of 16 bits.
pub open spec fn text_fits(text: Seq<char>) -> bool {
    utf8::encode_utf8(text).len() <= 0xffff
}

/// A Will that can be written without loss.
pub open spec fn will_fits(w: WillView) -> bool {
    w.qos < 4 && text_fits(w.topic) && w.payload.len() <= 0xffff && properties_fit(w.properties)
}

/// Packets that can be written without loss: texts and byte runs of at most 65535 bytes, numbers
/// in the range of their field, a body of at most 268435455 bytes, a packet identifier exactly
/// where the quality of service asks for one, and at least one subscription or topic filter in
/// a packet that is about them.
pub open spec fn fits(p: PacketView) -> bool {
    &&& p.body().len() <= wire::VARINT_MAX
    &&& match p {
        PacketView::Connect { client_id, will, username, password, properties, .. } => {
            &&& text_fits(client_id)
            &&& will matches Some(w) ==> will_fits(w)
            &&& username matches Some(u) ==> text_fits(u)
            &&& password matches Some(d) ==> d.len() <= 0xffff
            &&& properties_fit(properties)
        },
        PacketView::ConnAck { properties, .. } => properties_fit(properties),
        PacketView::Publish { qos, topic, packet_id, properties, .. } => qos <= 2 && (qos > 0
            <==> packet_id is Some) && text_fits(topic) && properties_fit(properties),
        PacketView::Ack { properties, .. } => properties_fit(properties),
        PacketView::Subscribe { properties, subscriptions, .. } => properties_fit(properties)
            && subscriptions.len() > 0 && forall|i: int|
            0 <= i < subscriptions.len() ==> text_fits((#[trigger] subscriptions[i]).0),
        PacketView::Unsubscribe { properties, topic_filters, .. } => properties_fit(properties)
            && topic_filters.len() > 0 && forall|i: int|
            0 <= i < topic_filters.len() ==> text_fits(#[trigger] topic_filters[i]),
        PacketView::Codes { properties, .. } => properties_fit(properties),
        PacketView::Ping { .. } => true,
        PacketView::Disconnect { properties, .. } => properties_fit(properties),
    }
}

/// The properties of the packet, and of its Will, are those of its family.
pub open spec fn packet_typed(p: PacketView) -> bool {
    match p {
        PacketView::Connect { will, properties, .. } => typed(PropertySet::Connect, properties) && (
        will matches Some(w) ==> typed(PropertySet::Will, w.properties)),
        PacketView::ConnAck { properties, .. } => typed(PropertySet::ConnAck, properties),
        PacketView::Publish { properties, .. } => typed(PropertySet::Publish, properties),
        PacketView::Ack { packet_type, properties, .. } => 4 <= packet_type <= 7 && typed(
            PropertySet::Ack,
            properties,
        ),
        PacketView::Subscribe { properties, .. } => typed(PropertySet::Subscribe, properties),
        PacketView::Unsubscribe { properties, .. } => typed(PropertySet::Unsubscribe, properties),
        PacketView::Codes { packet_type, properties, .. } => (packet_type == 9 || packet_type == 11)
            && typed(PropertySet::Ack, properties),
        PacketView::Ping { packet_type } => packet_type == 12 || packet_type == 13,
        PacketView::Disconnect { properties, .. } => typed(PropertySet::Disconnect, properties),
    }
}

/// What a packet is made of says which properties it can have.
proof fn lemma_packet_typed(p: Packet<'_>)
    ensures
        packet_typed(p@),
{
}

/// Each flag of a CONNECT can be told from the flags byte.
proof fn lemma_connect_flags(clean_start: bool, will: Option<WillView>, username: bool, password: bool)
    ensures
        ({
            let flags = packet::connect_flags(clean_start, will, username, password);
            &&& packet::bit(flags, 2) == clean_start
            &&& packet::bit(flags, 4) == (will is Some)
            &&& will matches Some(w) ==> (flags / 8) % 4 == w.qos % 4 && packet::bit(flags, 32)
                == w.retain
            &&& packet::bit(flags, 64) == password
            &&& packet::bit(flags, 128) == username
        }),
{
    let c: int = packet::weight_if(clean_start, 2) as int;
    let p: int = packet::weight_if(password, 64) as int;
    let u: int = packet::weight_if(username, 128) as int;
    match will {
        Some(w) => {
            let q: int = (w.qos % 4) as int;
            let r: int = packet::weight_if(w.retain, 32) as int;
            assert(q == 0 || q == 1 || q == 2 || q == 3);
        },
        None => {},
    }
}

/// The Will and what follows it are read back.
proof fn lemma_will_roundtrip(flags: u8, will: Option<WillView>, rest: Seq<u8>)
    requires
        packet::bit(flags, 4) == (will is Some),
        will matches Some(w) ==> (flags / 8) % 4 == w.qos % 4 && packet::bit(flags, 32) == w.retain,
        will matches Some(w) ==> will_fits(w) && typed(PropertySet::Will, w.properties)
            && properties::properties_bytes(PropertySet::Will, w.properties).len()
            <= wire::VARINT_MAX,
    ensures
        packet::take_will(flags, packet::will_bytes(will) + rest) == Ok::<
            (Option<WillView>, Seq<u8>),
            wire::CodecError,
        >((will, rest)),
{
    match will {
        None => {
            assert(packet::will_bytes(will) + rest =~= rest);
        },
        Some(w) => {
            let props = properties::properties_bytes(PropertySet::Will, w.properties);
            let topic = wire::text_field(w.topic);
            let payload = wire::binary_field(w.payload);
            lemma_assoc(props + topic, payload, rest);
            lemma_assoc(props, topic, payload + rest);
            lemma_properties_roundtrip(PropertySet::Will, w.properties, topic + (payload + rest));
            lemma_text_roundtrip(w.topic, payload + rest);
            lemma_binary_roundtrip(w.payload, rest);
        },
    }
}

/// The parser gives back what follows the variable header of a CONNECT.
proof fn lemma_connect_payload_roundtrip(p: PacketView, flags: u8, s: Seq<u8>)
    requires
        packet_typed(p),
        fits(p),
        p matches PacketView::Connect {
            client_id,
            clean_start,
            will,
            username,
            password,
            properties,
            ..
        } && flags == packet::connect_flags(clean_start, will, username is Some, password is Some)
            && s == properties::properties_bytes(PropertySet::Connect, properties) + (
        wire::text_field(client_id) + (packet::will_bytes(will) + (packet::text_opt_bytes(username)
            + packet::binary_opt_bytes(password)))),
    ensures
        p matches PacketView::Connect { keep_alive, .. } && packet::parse_connect_payload(
            flags,
            keep_alive,
            s,
        ) == Ok::<PacketView, wire::CodecError>(p),
{
    match p {
        PacketView::Connect {
            client_id,
            keep_alive,
            clean_start,
            will,
            username,
            password,
            properties,
        } => {
            let wb = packet::will_bytes(will);
            let user = packet::text_opt_bytes(username);
            let pass = packet::binary_opt_bytes(password);
            let r4 = user + pass;
            let r3 = wb + r4;
            let r2 = wire::text_field(client_id) + r3;
            lemma_properties_roundtrip(PropertySet::Connect, properties, r2);
            lemma_text_roundtrip(client_id, r3);
            lemma_connect_flags(clean_start, will, username is Some, password is Some);
            lemma_will_roundtrip(flags, will, r4);
            match username {
                Some(u) => lemma_text_roundtrip(u, pass),
                None => {
                    assert(r4 =~= pass);
                },
            }
            match password {
                Some(d) => {
                    lemma_binary_roundtrip(d, Seq::empty());
                    assert(pass + Seq::<u8>::empty() =~= pass);
                },
                None => {},
            }
        },
        _ => {},
    }
}

/// The UTF-8 form of the protocol's name is short.
proof fn lemma_protocol_name()
    ensures
        text_fits("MQTT"@),
{
    reveal_strlit("MQTT");
    utf8::is_ascii_chars_encode_utf8("MQTT"@);
}

/// The parser finds its way through the variable header of a CONNECT.
proof fn lemma_connect_header(flags: u8, keep_alive: u16, rest: Seq<u8>)
    ensures
        packet::parse_connect(
            wire::text_field("MQTT"@) + (seq![5u8] + (seq![flags] + (wire::be16(keep_alive)
                + rest))),
        ) == packet::parse_connect_payload(flags, keep_alive, rest),
{
    let r0 = wire::be16(keep_alive) + rest;
    lemma_protocol_name();
    lemma_text_roundtrip("MQTT"@, seq![5u8] + (seq![flags] + r0));
    assert((seq![5u8] + (seq![flags] + r0)).skip(1) =~= seq![flags] + r0);
    assert((seq![flags] + r0).skip(1) =~= r0);
    lemma_u16_roundtrip(keep_alive, rest);
}

/// Nine pieces, one behind the other.
proof fn lemma_nine_pieces(
    a: Seq<u8>,
    b: Seq<u8>,
    c: Seq<u8>,
    d: Seq<u8>,
    e: Seq<u8>,
    f: Seq<u8>,
    g: Seq<u8>,
    h: Seq<u8>,
    i: Seq<u8>,
)
    ensures
        a + b + c + d + e + f + g + h + i == a + (b + (c + (d + (e + (f + (g + (h + i))))))),
{
    let start = a + b + c + d;
    let r1 = e + (f + (g + (h + i)));
    lemma_assoc(start + e + f + g, h, i);
    lemma_assoc(start + e + f, g, h + i);
    lemma_assoc(start + e, f, g + (h + i));
    lemma_assoc(start, e, f + (g + (h + i)));
    lemma_assoc(a + b + c, d, r1);
    lemma_assoc(a + b, c, d + r1);
    lemma_assoc(a, b, c + (d + r1));
}

/// The parser gives back a CONNECT.
proof fn lemma_connect_roundtrip(p: PacketView)
    requires
        p is Connect,
        packet_typed(p),
        fits(p),
    ensures
        packet::parse_connect(p.body()) == Ok::<PacketView, wire::CodecError>(p),
{
    match p {
        PacketView::Connect {
            client_id,
            keep_alive,
            clean_start,
            will,
            username,
            password,
            properties,
        } => {
            let flags = packet::connect_flags(clean_start, will, username is Some, password is Some);
            let props = properties::properties_bytes(PropertySet::Connect, properties);
            let id = wire::text_field(client_id);
            let wb = packet::will_bytes(will);
            let user = packet::text_opt_bytes(username);
            let pass = packet::binary_opt_bytes(password);
            let r1 = props + (id + (wb + (user + pass)));
            lemma_nine_pieces(
                wire::text_field("MQTT"@),
                seq![5u8],
                seq![flags],
                wire::be16(keep_alive),
                props,
                id,
                wb,
                user,
                pass,
            );
            lemma_connect_header(flags, keep_alive, r1);
            lemma_connect_payload_roundtrip(p, flags, r1);
        },
        _ => {},
    }
}

/// The parser gives back a CONNACK.
proof fn lemma_connack_roundtrip(p: PacketView)
    requires
        p is ConnAck,
        packet_typed(p),
        fits(p),
    ensures
        packet::parse_connack(p.body()) == Ok::<PacketView, wire::CodecError>(p),
{
    match p {
        PacketView::ConnAck { session_present, reason_code, properties } => {
            let props = properties::properties_bytes(PropertySet::ConnAck, properties);
            lemma_properties_roundtrip(PropertySet::ConnAck, properties, Seq::empty());
            assert(props + Seq::<u8>::empty() =~= props);
            assert(p.body().skip(1).skip(1) =~= props);
        },
        _ => {},
    }
}

/// The parser gives back a PUBLISH.
proof fn lemma_publish_roundtrip(p: PacketView)
    requires
        p is Publish,
        packet_typed(p),
        fits(p),
    ensures
        packet::parse_publish(p.first_byte() % 16, p.body()) == Ok::<
            PacketView,
            wire::CodecError,
        >(p),
        p.first_byte() / 16 == 3,
{
    match p {
        PacketView::Publish { dup, qos, retain, topic, packet_id, properties, payload } => {
            let tb = wire::text_field(topic);
            let ib = match packet_id {
                Some(id) => wire::be16(id),
                None => Seq::empty(),
            };
            let props = properties::properties_bytes(PropertySet::Publish, properties);
            lemma_assoc(tb + ib, props, payload);
            lemma_assoc(tb, ib, props + payload);
            lemma_text_roundtrip(topic, ib + (props + payload));
            match packet_id {
                Some(id) => lemma_u16_roundtrip(id, props + payload),
                None => {
                    assert(ib + (props + payload) =~= props + payload);
                },
            }
            lemma_properties_roundtrip(PropertySet::Publish, properties, payload);
        },
        _ => {},
    }
}

/// A reason code and properties are read back, whether or not they were left out.
proof fn lemma_reason_roundtrip(set: PropertySet, reason_code: u8, p: PropertiesView)
    requires
        typed(set, p),
        properties_fit(p),
        packet::reason_bytes(set, reason_code, p).len() <= wire::VARINT_MAX,
    ensures
        packet::parse_reason(set, packet::reason_bytes(set, reason_code, p)) == Ok::<
            (u8, PropertiesView),
            wire::CodecError,
        >((reason_code, p)),
{
    if !(reason_code == 0 && packet::no_properties(p)) {
        let props = properties::properties_bytes(set, p);
        let s = packet::reason_bytes(set, reason_code, p);
        assert(s.skip(1) =~= props + Seq::<u8>::empty());
        lemma_properties_roundtrip(set, p, Seq::empty());
    }
}

/// Subscriptions are read back.
proof fn lemma_subscriptions_roundtrip(list: Seq<(Seq<char>, u8)>)
    requires
        forall|i: int| 0 <= i < list.len() ==> text_fits((#[trigger] list[i]).0),
    ensures
        packet::parse_subscriptions(packet::subscriptions_bytes(list)) == Ok::<
            Seq<(Seq<char>, u8)>,
            wire::CodecError,
        >(list),
    decreases list.len(),
{
    if list.len() > 0 {
        let others = list.drop_first();
        let tail = packet::subscriptions_bytes(others);
        let filter = wire::text_field(list[0].0);
        let options = seq![list[0].1];
        assert(text_fits(list[0].0));
        assert forall|i: int| 0 <= i < others.len() implies text_fits(
            (#[trigger] others[i]).0,
        ) by {
            assert(others[i] == list[i + 1]);
        }
        lemma_subscriptions_roundtrip(others);
        lemma_assoc(filter, options, tail);
        lemma_text_roundtrip(list[0].0, options + tail);
        assert((options + tail).skip(1) =~= tail);
        assert(seq![list[0]] + others =~= list);
    } else {
        assert(list =~= Seq::empty());
    }
}

/// Topic filters are read back.
proof fn lemma_filters_roundtrip(list: Seq<Seq<char>>)
    requires
        forall|i: int| 0 <= i < list.len() ==> text_fits(#[trigger] list[i]),
    ensures
        packet::parse_filters(packet::filters_bytes(list)) == Ok::<
            Seq<Seq<char>>,
            wire::CodecError,
        >(list),
    decreases list.len(),
{
    if list.len() > 0 {
        let others = list.drop_first();
        let tail = packet::filters_bytes(others);
        assert(text_fits(list[0]));
        assert forall|i: int| 0 <= i < others.len() implies text_fits(#[trigger] others[i]) by {
            assert(others[i] == list[i + 1]);
        }
        lemma_filters_roundtrip(others);
        lemma_text_roundtrip(list[0], tail);
        assert(seq![list[0]] + others =~= list);
    } else {
        assert(list =~= Seq::empty());
    }
}

/// The parser gives back every other packet.
proof fn lemma_others_roundtrip(p: PacketView)
    requires
        !(p is Connect),
        !(p is ConnAck),
        !(p is Publish),
        packet_typed(p),
        fits(p),
    ensures
        packet::parse_body(p.first_byte(), p.body()) == Ok::<PacketView, wire::CodecError>(p),
{
    reveal(packet::parse_body);
    match p {
        PacketView::Ack { packet_type, packet_id, reason_code, properties } => {
            let rest = packet::reason_bytes(PropertySet::Ack, reason_code, properties);
            lemma_u16_roundtrip(packet_id, rest);
            lemma_reason_roundtrip(PropertySet::Ack, reason_code, properties);
        },
        PacketView::Subscribe { packet_id, properties, subscriptions } => {
            let id = wire::be16(packet_id);
            let props = properties::properties_bytes(PropertySet::Subscribe, properties);
            let subs = packet::subscriptions_bytes(subscriptions);
            lemma_assoc(id, props, subs);
            lemma_u16_roundtrip(packet_id, props + subs);
            lemma_properties_roundtrip(PropertySet::Subscribe, properties, subs);
            lemma_subscriptions_roundtrip(subscriptions);
        },
        PacketView::Unsubscribe { packet_id, properties, topic_filters } => {
            let id = wire::be16(packet_id);
            let props = properties::properties_bytes(PropertySet::Unsubscribe, properties);
            let filters = packet::filters_bytes(topic_filters);
            lemma_assoc(id, props, filters);
            lemma_u16_roundtrip(packet_id, props + filters);
            lemma_properties_roundtrip(PropertySet::Unsubscribe, properties, filters);
            lemma_filters_roundtrip(topic_filters);
        },
        PacketView::Codes { packet_id, properties, reason_codes, .. } => {
            let id = wire::be16(packet_id);
            let props = properties::properties_bytes(PropertySet::Ack, properties);
            lemma_assoc(id, props, reason_codes);
            lemma_u16_roundtrip(packet_id, props + reason_codes);
            lemma_properties_roundtrip(PropertySet::Ack, properties, reason_codes);
        },
        PacketView::Disconnect { reason_code, properties } => {
            lemma_reason_roundtrip(PropertySet::Disconnect, reason_code, properties);
        },
        _ => {},
    }
}

/// The parser gives back the body of every packet.
proof fn lemma_body_roundtrip(p: PacketView)
    requires
        packet_typed(p),
        fits(p),
    ensures
        packet::parse_body(p.first_byte(), p.body()) == Ok::<PacketView, wire::CodecError>(p),
{
    reveal(packet::parse_body);
    if p is Connect {
        lemma_connect_roundtrip(p);
    } else if p is ConnAck {
        lemma_connack_roundtrip(p);
    } else if p is Publish {
        lemma_publish_roundtrip(p);
    } else {
        lemma_others_roundtrip(p);
    }
}

/// The parser finds its way through the fixed header.
proof fn lemma_fixed_header(first: u8, body: Seq<u8>, rest: Seq<u8>)
    requires
        body.len() <= wire::VARINT_MAX,
    ensures
        ({
            let frame = seq![first] + wire::varint(body.len()) + body;
            &&& packet::parse_packet(frame + rest) == match packet::parse_body(first, body) {
                Ok(p) => Ok::<(PacketView, nat), wire::CodecError>((p, frame.len())),
                Err(e) => Err(e),
            }
            &&& packet::announced_size(frame + rest) == Ok::<nat, wire::CodecError>(frame.len())
        }),
{
    let len = wire::varint(body.len());
    let s = seq![first] + len + body + rest;
    lemma_assoc(seq![first] + len, body, rest);
    lemma_assoc(seq![first], len, body + rest);
    assert(s.skip(1) =~= len + (body + rest));
    lemma_varint_roundtrip(body.len(), body + rest);
    assert(Seq::<u8>::empty() + len + (body + rest) =~= len + (body + rest));
    lemma_varint_at_roundtrip(Seq::empty(), body.len(), body + rest);
    assert((body + rest).take(body.len() as int) =~= body);
}

/// A packet with the given content is read back, and its header announces its length.
proof fn lemma_content_roundtrip(p: PacketView, first: u8, body: Seq<u8>, rest: Seq<u8>)
    requires
        packet::parse_body(first, body) == Ok::<PacketView, wire::CodecError>(p),
        body.len() <= wire::VARINT_MAX,
    ensures
        ({
            let frame = seq![first] + wire::varint((body.len() % 0x1_0000_0000) as nat) + body;
            &&& packet::parse_packet(frame + rest) == Ok::<(PacketView, nat), wire::CodecError>(
                (p, frame.len()),
            )
            &&& packet::announced_size(frame + rest) == Ok::<nat, wire::CodecError>(frame.len())
        }),
{
    lemma_fixed_header(first, body, rest);
}

/// A packet that was written is read back: whatever bytes follow it, the decoder finds the same
/// content in it and stops where it ends. Its fixed header announces its length.
#[verifier::spinoff_prover]
#[verifier::rlimit(50)]
pub proof fn law_packet_roundtrip(p: Packet<'_>, rest: Seq<u8>)
    requires
        fits(p@),
    ensures
        packet::parse_packet(p@.bytes() + rest) == Ok::<(PacketView, nat), wire::CodecError>(
            (p@, p@.bytes().len()),
        ),
        packet::announced_size(p@.bytes() + rest) == Ok::<nat, wire::CodecError>(p@.bytes().len()),
{
    let v = p@;
    assert(packet_typed(v)) by {
        lemma_packet_typed(p);
    }
    assert(packet::parse_body(v.first_byte(), v.body()) == Ok::<PacketView, wire::CodecError>(
        v,
    )) by {
        lemma_body_roundtrip(v);
    }
    lemma_content_roundtrip(v, v.first_byte(), v.body(), rest);
}

/// The content of a packet that was written is read back, whatever bytes follow it.
#[verifier::spinoff_prover]
#[verifier::rlimit(50)]
pub proof fn law_content_is_read_back(v: PacketView, rest: Seq<u8>)
    requires
        fits(v),
        packet_typed(v),
    ensures
        packet::parse_packet(v.bytes() + rest) == Ok::<(PacketView, nat), wire::CodecError>(
            (v, v.bytes().len()),
        ),
{
    assert(packet::parse_body(v.first_byte(), v.body()) == Ok::<PacketView, wire::CodecError>(
        v,
    )) by {
        lemma_body_roundtrip(v);
    }
    lemma_content_roundtrip(v, v.first_byte(), v.body(), rest);
}

/// A packet that was written is accepted under a limit exactly where it is not longer than the
/// limit.
#[verifier::spinoff_prover]
pub proof fn law_limit_is_packet_length(p: Packet<'_>, rest: Seq<u8>, maximum: nat)
    requires
        fits(p@),
    ensures
        packet::parse_packet_limited(p@.bytes() + rest, maximum) == (if p@.bytes().len()
            <= maximum {
            Ok::<(PacketView, nat), wire::CodecError>((p@, p@.bytes().len()))
        } else {
            Err(wire::CodecError::PacketTooLarge)
        }),
{
    law_packet_roundtrip(p, rest);
}

/// A packet that is complete is the same with any bytes behind it.
pub proof fn law_decode_ignores_what_follows(s: Seq<u8>, rest: Seq<u8>)
    requires
        packet::parse_packet(s) is Ok,
    ensures
        packet::parse_packet(s + rest) == packet::parse_packet(s),
{
    let s1 = s.skip(1);
    assert((s + rest).skip(1) =~= s1 + rest);
    lemma_varint_at_prefix(s1, rest, 0);
    wire::lemma_varint_at_bounds(s1, 0);
    let (remaining, end) = wire::varint_at(s1, 0)->Ok_0;
    let s2 = s1.skip(end as int);
    assert((s1 + rest).skip(end as int) =~= s2 + rest);
    assert((s2 + rest).take(remaining as int) =~= s2.take(remaining as int));
}

/// A variable byte integer is the same with any bytes behind it.
proof fn lemma_varint_at_prefix(s: Seq<u8>, rest: Seq<u8>, i: nat)
    requires
        i <= 3,
        wire::varint_at(s, i) is Ok,
    ensures
        wire::varint_at(s + rest, i) == wire::varint_at(s, i),
    decreases 4 - i,
{
    assert((s + rest)[i as int] == s[i as int]);
    if s[i as int] >= 128 {
        lemma_varint_at_prefix(s, rest, i + 1);
    }
}

} // verus!
