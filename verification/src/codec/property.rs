//! The properties of an MQTT 5 packet as a list of identified values.

use vstd::prelude::*;
use vstd::slice::slice_subrange;
use vstd::utf8;
use crate::codec::wire;
use crate::codec::wire::{
    append, decode_varint, encode_varint, read_bytes, read_str, read_u16, read_u32, read_u8,
    write_bytes, write_str, write_u16, write_u32, CodecError,
};

verus! {

/// The form of a property's value on the wire.
#[derive(Debug, PartialEq, Eq, Clone, Copy, Structural)]
pub enum PropertyKind {
    /// One byte.
    Byte,
    /// A 16-bit integer.
    Two,
    /// A 32-bit integer.
    Four,
    /// A variable byte integer.
    Varint,
    /// UTF-8 text.
    Text,
    /// A run of bytes.
    Binary,
    /// A name and a value, both UTF-8 text.
    Pair,
}

/// The value of a property.
#[derive(Debug, PartialEq, Eq, Clone, Copy)]
pub enum PropertyValue<'a> {
    /// One byte.
    Byte(u8),
    /// A 16-bit integer.
    Two(u16),
    /// A 32-bit integer.
    Four(u32),
    /// A variable byte integer.
    Varint(u32),
    /// UTF-8 text.
    Text(&'a str),
    /// A run of bytes.
    Binary(&'a [u8]),
    /// A name and a value.
    Pair(&'a str, &'a str),
}

/// The mathematical content of a property's value.
pub enum ValueView {
    /// One byte.
    Byte(u8),
    /// A 16-bit integer.
    Two(u16),
    /// A 32-bit integer.
    Four(u32),
    /// A variable byte integer.
    Varint(u32),
    /// Text.
    Text(Seq<char>),
    /// A run of bytes.
    Binary(Seq<u8>),
    /// A name and a value.
    Pair(Seq<char>, Seq<char>),
}

impl<'a> View for PropertyValue<'a> {
    type V = ValueView;

    open spec fn view(&self) -> ValueView {
        match *self {
            PropertyValue::Byte(v) => ValueView::Byte(v),
            PropertyValue::Two(v) => ValueView::Two(v),
            PropertyValue::Four(v) => ValueView::Four(v),
            PropertyValue::Varint(v) => ValueView::Varint(v),
            PropertyValue::Text(v) => ValueView::Text(v@),
            PropertyValue::Binary(v) => ValueView::Binary(v@),
            PropertyValue::Pair(k, v) => ValueView::Pair(k@, v@),
        }
    }
}

impl ValueView {
    /// The form of the value.
    pub open spec fn kind(self) -> PropertyKind {
        match self {
            ValueView::Byte(_) => PropertyKind::Byte,
            ValueView::Two(_) => PropertyKind::Two,
            ValueView::Four(_) => PropertyKind::Four,
            ValueView::Varint(_) => PropertyKind::Varint,
            ValueView::Text(_) => PropertyKind::Text,
            ValueView::Binary(_) => PropertyKind::Binary,
            ValueView::Pair(_, _) => PropertyKind::Pair,
        }
    }

    /// The value on the wire.
    pub open spec fn bytes(self) -> Seq<u8> {
        match self {
            ValueView::Byte(v) => seq![v],
            ValueView::Two(v) => wire::be16(v),
            ValueView::Four(v) => wire::be32(v),
            ValueView::Varint(v) => wire::varint(v as nat),
            ValueView::Text(v) => wire::text_field(v),
            ValueView::Binary(v) => wire::binary_field(v),
            ValueView::Pair(k, v) => wire::text_field(k) + wire::text_field(v),
        }
    }

    /// The value can be written without loss: its lengths fit in 16 bits, a variable byte
    /// integer in four bytes.
    pub open spec fn fits(self) -> bool {
        match self {
            ValueView::Varint(v) => v <= wire::VARINT_MAX,
            ValueView::Text(v) => utf8::encode_utf8(v).len() <= 0xffff,
            ValueView::Binary(v) => v.len() <= 0xffff,
            ValueView::Pair(k, v) => utf8::encode_utf8(k).len() <= 0xffff && utf8::encode_utf8(
                v,
            ).len() <= 0xffff,
            _ => true,
        }
    }
}

/// One property: its identifier and its value.
#[derive(Debug, PartialEq, Eq, Clone, Copy)]
pub struct Property<'a> {
    /// The property's identifier.
    pub id: u8,
    /// The property's value.
    pub value: PropertyValue<'a>,
}

impl<'a> View for Property<'a> {
    type V = (u8, ValueView);

    open spec fn view(&self) -> (u8, ValueView) {
        (self.id, self.value@)
    }
}

/// The content of a list of properties.
pub open spec fn list_view(list: Seq<Property<'_>>) -> Seq<(u8, ValueView)> {
    list.map_values(|p: Property<'_>| p@)
}

/// A family of packets that allow the same properties.
#[derive(Debug, PartialEq, Eq, Clone, Copy, Structural)]
pub enum PropertySet {
    /// CONNECT.
    Connect,
    /// The Will of a CONNECT.
    Will,
    /// CONNACK.
    ConnAck,
    /// PUBLISH.
    Publish,
    /// The acknowledgements: PUBACK, PUBREC, PUBREL, PUBCOMP, SUBACK and UNSUBACK.
    Ack,
    /// SUBSCRIBE.
    Subscribe,
    /// UNSUBSCRIBE.
    Unsubscribe,
    /// DISCONNECT.
    Disconnect,
}

/// The form of the value of property `id` in a packet of the family, where it is allowed there.
pub open spec fn kind_of(set: PropertySet, id: u8) -> Option<PropertyKind> {
    let allowed = match set {
        PropertySet::Connect => id == 0x11 || id == 0x21 || id == 0x27 || id == 0x22 || id == 0x19
            || id == 0x17 || id == 0x26 || id == 0x15 || id == 0x16,
        PropertySet::Will => id == 0x18 || id == 0x01 || id == 0x02 || id == 0x03 || id == 0x08
            || id == 0x09 || id == 0x26,
        PropertySet::ConnAck => id == 0x11 || id == 0x21 || id == 0x24 || id == 0x25 || id == 0x27
            || id == 0x12 || id == 0x22 || id == 0x1F || id == 0x26 || id == 0x28 || id == 0x29
            || id == 0x2A || id == 0x13 || id == 0x1A || id == 0x1C || id == 0x15 || id == 0x16,
        PropertySet::Publish => id == 0x01 || id == 0x02 || id == 0x03 || id == 0x08 || id == 0x09
            || id == 0x0B || id == 0x23 || id == 0x26,
        PropertySet::Ack => id == 0x1F || id == 0x26,
        PropertySet::Subscribe => id == 0x0B || id == 0x26,
        PropertySet::Unsubscribe => id == 0x26,
        PropertySet::Disconnect => id == 0x11 || id == 0x1F || id == 0x26 || id == 0x1C,
    };
    if !allowed {
        None
    } else if id == 0x01 || id == 0x17 || id == 0x19 || id == 0x24 || id == 0x25 || id == 0x28 || id
        == 0x29 || id == 0x2A {
        Some(PropertyKind::Byte)
    } else if id == 0x13 || id == 0x21 || id == 0x22 || id == 0x23 {
        Some(PropertyKind::Two)
    } else if id == 0x02 || id == 0x11 || id == 0x18 || id == 0x27 {
        Some(PropertyKind::Four)
    } else if id == 0x0B {
        Some(PropertyKind::Varint)
    } else if id == 0x09 || id == 0x16 {
        Some(PropertyKind::Binary)
    } else if id == 0x26 {
        Some(PropertyKind::Pair)
    } else {
        Some(PropertyKind::Text)
    }
}

/// Every property is allowed in the family, with a value of its own form.
pub open spec fn well_typed(set: PropertySet, list: Seq<(u8, ValueView)>) -> bool {
    forall|i: int|
        0 <= i < list.len() ==> kind_of(set, (#[trigger] list[i]).0) == Some(list[i].1.kind())
}

/// Reads a value of the given form off the front.
pub open spec fn take_value(kind: PropertyKind, s: Seq<u8>) -> Result<
    (ValueView, Seq<u8>),
    CodecError,
> {
    match kind {
        PropertyKind::Byte => match wire::take_u8(s) {
            Ok((v, rest)) => Ok((ValueView::Byte(v), rest)),
            Err(e) => Err(e),
        },
        PropertyKind::Two => match wire::take_u16(s) {
            Ok((v, rest)) => Ok((ValueView::Two(v), rest)),
            Err(e) => Err(e),
        },
        PropertyKind::Four => match wire::take_u32(s) {
            Ok((v, rest)) => Ok((ValueView::Four(v), rest)),
            Err(e) => Err(e),
        },
        PropertyKind::Varint => match wire::take_varint(s) {
            Ok((v, rest)) => Ok((ValueView::Varint(v), rest)),
            Err(e) => Err(e),
        },
        PropertyKind::Text => match wire::take_text(s) {
            Ok((v, rest)) => Ok((ValueView::Text(v), rest)),
            Err(e) => Err(e),
        },
        PropertyKind::Binary => match wire::take_binary(s) {
            Ok((v, rest)) => Ok((ValueView::Binary(v), rest)),
            Err(e) => Err(e),
        },
        PropertyKind::Pair => match wire::take_text(s) {
            Ok((k, rest)) => match wire::take_text(rest) {
                Ok((v, rest2)) => Ok((ValueView::Pair(k, v), rest2)),
                Err(e) => Err(e),
            },
            Err(e) => Err(e),
        },
    }
}

/// Reads one property off the front.
pub open spec fn take_property(set: PropertySet, s: Seq<u8>) -> Result<
    ((u8, ValueView), Seq<u8>),
    CodecError,
> {
    match wire::take_u8(s) {
        Err(e) => Err(e),
        Ok((id, rest)) => match kind_of(set, id) {
            None => Err(CodecError::MalformedPacket),
            Some(kind) => match take_value(kind, rest) {
                Ok((v, rest2)) => Ok(((id, v), rest2)),
                Err(e) => Err(e),
            },
        },
    }
}

/// A value takes nothing from the bytes before it.
pub proof fn lemma_take_value_shrinks(kind: PropertyKind, s: Seq<u8>)
    ensures
        take_value(kind, s) matches Ok((v, rest)) ==> rest.len() <= s.len() && v.kind() == kind,
{
    wire::lemma_varint_at_bounds(s, 0);
}

/// The properties that the bytes hold, one behind the other, up to their end.
pub open spec fn parse_properties(set: PropertySet, s: Seq<u8>) -> Result<
    Seq<(u8, ValueView)>,
    CodecError,
>
    decreases s.len(),
{
    if s.len() == 0 {
        Ok(Seq::empty())
    } else {
        match take_property(set, s) {
            Err(e) => Err(e),
            Ok((first, rest)) => {
                proof {
                    let (id, after_id) = wire::take_u8(s)->Ok_0;
                    lemma_take_value_shrinks(kind_of(set, id)->0, after_id);
                }
                match parse_properties(set, rest) {
                    Err(e) => Err(e),
                    Ok(others) => Ok(seq![first] + others),
                }
            },
        }
    }
}

/// The run of bytes that a property block at the front holds, and what follows the block. A
/// block is its length, a variable byte integer, and as many bytes.
pub open spec fn take_block(s: Seq<u8>) -> Result<(Seq<u8>, Seq<u8>), CodecError> {
    match wire::take_varint(s) {
        Err(e) => Err(e),
        Ok((len, rest)) => if rest.len() < len {
            Err(CodecError::Incomplete)
        } else {
            Ok((rest.take(len as int), rest.skip(len as int)))
        },
    }
}

/// Reads a property block off the front; where no byte is left there is no property.
#[verifier::opaque]
pub open spec fn take_properties(set: PropertySet, s: Seq<u8>) -> Result<
    (Seq<(u8, ValueView)>, Seq<u8>),
    CodecError,
> {
    if s.len() == 0 {
        Ok((Seq::empty(), s))
    } else {
        match take_block(s) {
            Err(e) => Err(e),
            Ok((block, rest)) => match parse_properties(set, block) {
                Err(e) => Err(e),
                Ok(list) => Ok((list, rest)),
            },
        }
    }
}

/// The properties on the wire, one behind the other.
pub open spec fn list_bytes(list: Seq<(u8, ValueView)>) -> Seq<u8>
    decreases list.len(),
{
    if list.len() == 0 {
        Seq::empty()
    } else {
        list_bytes(list.drop_last()) + seq![list.last().0] + list.last().1.bytes()
    }
}

/// The property block of a list: the length of its bytes, reduced to 32 bits, and the bytes.
pub open spec fn block_bytes(list: Seq<(u8, ValueView)>) -> Seq<u8> {
    wire::varint((list_bytes(list).len() % 0x1_0000_0000) as nat) + list_bytes(list)
}

/// The value that counts for property `id`: the last one in the list.
pub open spec fn last_value(list: Seq<(u8, ValueView)>, id: u8) -> Option<ValueView>
    decreases list.len(),
{
    if list.len() == 0 {
        None
    } else if list.last().0 == id {
        Some(list.last().1)
    } else {
        last_value(list.drop_last(), id)
    }
}

/// The user properties of a list, in order.
pub open spec fn user_pairs(list: Seq<(u8, ValueView)>) -> Seq<(Seq<char>, Seq<char>)>
    decreases list.len(),
{
    if list.len() == 0 {
        Seq::empty()
    } else {
        match list.last().1 {
            ValueView::Pair(k, v) => user_pairs(list.drop_last()).push((k, v)),
            _ => user_pairs(list.drop_last()),
        }
    }
}

/// What a list of properties means to its packet: for each identifier but that of user
/// properties the value that counts, and the user properties in order.
#[verifier::ext_equal]
pub struct PropertiesView {
    /// The value of each property that occurs, by identifier.
    pub values: Map<u8, ValueView>,
    /// The user properties.
    pub user: Seq<(Seq<char>, Seq<char>)>,
}

/// The meaning of a list of properties.
pub open spec fn meaning(list: Seq<(u8, ValueView)>) -> PropertiesView {
    PropertiesView {
        values: Map::new(
            |id: u8| id != 0x26 && last_value(list, id) is Some,
            |id: u8| last_value(list, id)->0,
        ),
        user: user_pairs(list),
    }
}

/// The content of borrowed user properties.
pub open spec fn pairs_view(pairs: Seq<(&str, &str)>) -> Seq<(Seq<char>, Seq<char>)> {
    pairs.map_values(|p: (&str, &str)| (p.0@, p.1@))
}

/// The form of the value of property `id` in a packet of the family, where it is allowed there.
fn property_kind(set: PropertySet, id: u8) -> (r: Option<PropertyKind>)
    ensures
        r == kind_of(set, id),
{
    let allowed = match set {
        PropertySet::Connect => id == 0x11 || id == 0x21 || id == 0x27 || id == 0x22 || id == 0x19
            || id == 0x17 || id == 0x26 || id == 0x15 || id == 0x16,
        PropertySet::Will => id == 0x18 || id == 0x01 || id == 0x02 || id == 0x03 || id == 0x08
            || id == 0x09 || id == 0x26,
        PropertySet::ConnAck => id == 0x11 || id == 0x21 || id == 0x24 || id == 0x25 || id == 0x27
            || id == 0x12 || id == 0x22 || id == 0x1F || id == 0x26 || id == 0x28 || id == 0x29
            || id == 0x2A || id == 0x13 || id == 0x1A || id == 0x1C || id == 0x15 || id == 0x16,
        PropertySet::Publish => id == 0x01 || id == 0x02 || id == 0x03 || id == 0x08 || id == 0x09
            || id == 0x0B || id == 0x23 || id == 0x26,
        PropertySet::Ack => id == 0x1F || id == 0x26,
        PropertySet::Subscribe => id == 0x0B || id == 0x26,
        PropertySet::Unsubscribe => id == 0x26,
        PropertySet::Disconnect => id == 0x11 || id == 0x1F || id == 0x26 || id == 0x1C,
    };
    if !allowed {
        return None;
    }
    match id {
        0x01 | 0x17 | 0x19 | 0x24 | 0x25 | 0x28 | 0x29 | 0x2A => Some(PropertyKind::Byte),
        0x13 | 0x21 | 0x22 | 0x23 => Some(PropertyKind::Two),
        0x02 | 0x11 | 0x18 | 0x27 => Some(PropertyKind::Four),
        0x0B => Some(PropertyKind::Varint),
        0x09 | 0x16 => Some(PropertyKind::Binary),
        0x26 => Some(PropertyKind::Pair),
        _ => Some(PropertyKind::Text),
    }
}

/// Reads a value of the given form.
fn read_value<'a>(kind: PropertyKind, buf: &mut &'a [u8]) -> (r: Result<
    PropertyValue<'a>,
    CodecError,
>)
    ensures
        match take_value(kind, old(buf)@) {
            Ok((v, rest)) => r is Ok && r->Ok_0@ == v && final(buf)@ == rest,
            Err(e) => r == Err::<PropertyValue<'a>, CodecError>(e),
        },
{
    match kind {
        PropertyKind::Byte => Ok(PropertyValue::Byte(read_u8(buf)?)),
        PropertyKind::Two => Ok(PropertyValue::Two(read_u16(buf)?)),
        PropertyKind::Four => Ok(PropertyValue::Four(read_u32(buf)?)),
        PropertyKind::Varint => {
            let (value, read) = decode_varint(*buf)?;
            *buf = slice_subrange(*buf, read, buf.len());
            Ok(PropertyValue::Varint(value))
        },
        PropertyKind::Text => Ok(PropertyValue::Text(read_str(buf)?)),
        PropertyKind::Binary => Ok(PropertyValue::Binary(read_bytes(buf)?)),
        PropertyKind::Pair => {
            let key = read_str(buf)?;
            let value = read_str(buf)?;
            Ok(PropertyValue::Pair(key, value))
        },
    }
}

/// Reads a property block: its properties, in order.
pub fn read_properties<'a>(set: PropertySet, buf: &mut &'a [u8]) -> (r: Result<
    Vec<Property<'a>>,
    CodecError,
>)
    ensures
        match take_properties(set, old(buf)@) {
            Ok((list, rest)) => r is Ok && list_view(r->Ok_0@) == list && final(buf)@ == rest
                && well_typed(set, list),
            Err(e) => r == Err::<Vec<Property<'a>>, CodecError>(e),
        },
{
    reveal(take_properties);
    let mut list: Vec<Property<'a>> = Vec::new();
    assert(list_view(list@) =~= Seq::<(u8, ValueView)>::empty());
    if buf.len() == 0 {
        return Ok(list);
    }
    let (len, read) = decode_varint(*buf)?;
    *buf = slice_subrange(*buf, read, buf.len());
    let len: usize = len as usize;
    if buf.len() < len {
        return Err(CodecError::Incomplete);
    }
    let ghost block = buf@.take(len as int);
    let mut slice = slice_subrange(*buf, 0, len);
    *buf = slice_subrange(*buf, len, buf.len());
    assert(take_block(old(buf)@) == Ok::<(Seq<u8>, Seq<u8>), CodecError>((block, buf@)));
    while slice.len() > 0
        invariant
            well_typed(set, list_view(list@)),
            parse_properties(set, block) == match parse_properties(set, slice@) {
                Err(e) => Err::<Seq<(u8, ValueView)>, CodecError>(e),
                Ok(others) => Ok(list_view(list@) + others),
            },
            take_block(old(buf)@) == Ok::<(Seq<u8>, Seq<u8>), CodecError>((block, buf@)),
            old(buf)@.len() > 0,
        decreases slice@.len(),
    {
        let ghost known = list_view(list@);
        reveal(take_properties);
        let id: u8 = read_u8(&mut slice)?;
        let kind = match property_kind(set, id) {
            Some(kind) => kind,
            None => {
                return Err(CodecError::MalformedPacket);
            },
        };
        proof {
            lemma_take_value_shrinks(kind, slice@);
        }
        let value = read_value(kind, &mut slice)?;
        list.push(Property { id, value });
        proof {
            assert(list_view(list@) =~= known.push((id, value@)));
            match parse_properties(set, slice@) {
                Ok(others) => {
                    assert(known + (seq![(id, value@)] + others) =~= list_view(list@) + others);
                },
                Err(_) => {},
            }
        }
    }
    assert(list_view(list@) + Seq::<(u8, ValueView)>::empty() =~= list_view(list@));
    Ok(list)
}

/// Appends a property block.
pub fn write_properties(list: &Vec<Property<'_>>, buf: &mut Vec<u8>)
    ensures
        final(buf)@ == old(buf)@ + block_bytes(list_view(list@)),
{
    let mut block: Vec<u8> = Vec::new();
    let mut i: usize = 0;
    while i < list.len()
        invariant
            i <= list@.len(),
            block@ == list_bytes(list_view(list@).take(i as int)),
        decreases list@.len() - i,
    {
        proof {
            let next = list_view(list@).take(i + 1);
            assert(next.drop_last() =~= list_view(list@).take(i as int));
            assert(next.last() == list@[i as int]@);
        }
        block.push(list[i].id);
        match list[i].value {
            PropertyValue::Byte(v) => block.push(v),
            PropertyValue::Two(v) => write_u16(v, &mut block),
            PropertyValue::Four(v) => write_u32(v, &mut block),
            PropertyValue::Varint(v) => encode_varint(v, &mut block),
            PropertyValue::Text(v) => write_str(v, &mut block),
            PropertyValue::Binary(v) => write_bytes(v, &mut block),
            PropertyValue::Pair(k, v) => {
                write_str(k, &mut block);
                write_str(v, &mut block);
            },
        }
        i = i + 1;
    }
    assert(list_view(list@).take(list@.len() as int) =~= list_view(list@));
    let len: u32 = (block.len() as u64 % 0x1_0000_0000) as u32;
    encode_varint(len, buf);
    append(block.as_slice(), buf);
}

} // verus!
