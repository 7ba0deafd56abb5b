//! Primitive fields of the wire format: integers, length-prefixed text and bytes, and
//! variable byte integers.

use vstd::prelude::*;
use vstd::slice::slice_subrange;
use vstd::string::*;
use vstd::utf8;
use crate::text;

verus! {

/// Why a byte sequence is not a packet.
#[derive(Debug, PartialEq, Eq, Clone, Copy, Structural)]
pub enum CodecError {
    /// More bytes are needed.
    Incomplete,
    /// A variable byte integer is longer than four bytes.
    InvalidVarint,
    /// The bytes break a rule of the packet's layout.
    MalformedPacket,
    /// A CONNECT packet names a protocol level other than 5.
    UnsupportedProtocolVersion(u8),
    /// The layout is sound but a rule of the protocol is broken.
    ProtocolError,
    /// The packet is larger than the limit that was agreed.
    PacketTooLarge,
}

impl CodecError {
    /// The error in words.
    pub open spec fn text(self) -> Seq<char> {
        match self {
            CodecError::Incomplete => "Incomplete packet"@,
            CodecError::InvalidVarint => "Invalid variable byte integer"@,
            CodecError::MalformedPacket => "Malformed MQTT packet"@,
            CodecError::UnsupportedProtocolVersion(v) => "Unsupported protocol version: "@
                + text::decimal_text(v as nat),
            CodecError::ProtocolError => "MQTT protocol error"@,
            CodecError::PacketTooLarge => "MQTT packet too large"@,
        }
    }

    /// The error in words.
    pub fn message(&self) -> (r: String)
        ensures
            r@ == self.text(),
    {
        match self {
            CodecError::Incomplete => "Incomplete packet".to_owned(),
            CodecError::InvalidVarint => "Invalid variable byte integer".to_owned(),
            CodecError::MalformedPacket => "Malformed MQTT packet".to_owned(),
            CodecError::UnsupportedProtocolVersion(v) => {
                "Unsupported protocol version: ".to_owned().concat(
                    text::decimal_string(*v as u64).as_str(),
                )
            },
            CodecError::ProtocolError => "MQTT protocol error".to_owned(),
            CodecError::PacketTooLarge => "MQTT packet too large".to_owned(),
        }
    }
}

/// The largest number a variable byte integer of four bytes can hold.
pub const VARINT_MAX: u32 = 268_435_455;

/// A 16-bit integer, most significant byte first.
pub open spec fn be16(v: u16) -> Seq<u8> {
    seq![(v / 256) as u8, (v % 256) as u8]
}

/// A 32-bit integer, most significant byte first.
pub open spec fn be32(v: u32) -> Seq<u8> {
    seq![(v / 0x100_0000) as u8, (v / 0x1_0000 % 256) as u8, (v / 256 % 256) as u8, (v % 256) as u8]
}

/// The length of `data`, reduced to 16 bits, and then `data` itself.
pub open spec fn binary_field(data: Seq<u8>) -> Seq<u8> {
    be16((data.len() % 0x1_0000) as u16) + data
}

/// Text in the form of a length-prefixed UTF-8 field.
pub open spec fn text_field(text: Seq<char>) -> Seq<u8> {
    binary_field(utf8::encode_utf8(text))
}

/// The variable byte integer of `v`: seven bits to a byte, least significant first, the high
/// bit set in every byte but the last.
pub open spec fn varint(v: nat) -> Seq<u8>
    decreases v,
{
    if v < 128 {
        seq![v as u8]
    } else {
        seq![(v % 128 + 128) as u8] + varint(v / 128)
    }
}

/// Reads one byte off the front.
pub open spec fn take_u8(s: Seq<u8>) -> Result<(u8, Seq<u8>), CodecError> {
    if s.len() < 1 {
        Err(CodecError::Incomplete)
    } else {
        Ok((s[0], s.skip(1)))
    }
}

/// Reads a 16-bit integer off the front.
pub open spec fn take_u16(s: Seq<u8>) -> Result<(u16, Seq<u8>), CodecError> {
    if s.len() < 2 {
        Err(CodecError::Incomplete)
    } else {
        Ok(((s[0] * 256 + s[1]) as u16, s.skip(2)))
    }
}

/// Reads a 32-bit integer off the front.
pub open spec fn take_u32(s: Seq<u8>) -> Result<(u32, Seq<u8>), CodecError> {
    if s.len() < 4 {
        Err(CodecError::Incomplete)
    } else {
        Ok(((s[0] * 0x100_0000 + s[1] * 0x1_0000 + s[2] * 256 + s[3]) as u32, s.skip(4)))
    }
}

/// Reads a length-prefixed run of bytes off the front.
pub open spec fn take_binary(s: Seq<u8>) -> Result<(Seq<u8>, Seq<u8>), CodecError> {
    match take_u16(s) {
        Err(e) => Err(e),
        Ok((len, rest)) => if rest.len() < len {
            Err(CodecError::Incomplete)
        } else {
            Ok((rest.take(len as int), rest.skip(len as int)))
        },
    }
}

/// Reads length-prefixed UTF-8 text off the front.
pub open spec fn take_text(s: Seq<u8>) -> Result<(Seq<char>, Seq<u8>), CodecError> {
    match take_binary(s) {
        Err(e) => Err(e),
        Ok((data, rest)) => if utf8::valid_utf8(data) {
            Ok((utf8::decode_utf8(data), rest))
        } else {
            Err(CodecError::MalformedPacket)
        },
    }
}

/// The variable byte integer whose byte number `i` is `s[i]`: its remaining value, and the
/// number of bytes up to its end.
pub open spec fn varint_at(s: Seq<u8>, i: nat) -> Result<(nat, nat), CodecError>
    decreases 4 - i,
{
    if i >= s.len() {
        Err(CodecError::Incomplete)
    } else if s[i as int] < 128 {
        Ok((s[i as int] as nat, i + 1))
    } else if i >= 3 {
        Err(CodecError::InvalidVarint)
    } else {
        match varint_at(s, i + 1) {
            Err(e) => Err(e),
            Ok((high, end)) => Ok(((s[i as int] - 128 + 128 * high) as nat, end)),
        }
    }
}

/// Reads a variable byte integer off the front.
pub open spec fn take_varint(s: Seq<u8>) -> Result<(u32, Seq<u8>), CodecError> {
    match varint_at(s, 0) {
        Err(e) => Err(e),
        Ok((value, end)) => Ok((value as u32, s.skip(end as int))),
    }
}

/// What a reader owes of what stands at the front of its buffer: on success the value, with the
/// buffer left behind it, on failure the error.
pub open spec fn reads<T>(
    parsed: Result<(T, Seq<u8>), CodecError>,
    result: Result<T, CodecError>,
    after: Seq<u8>,
) -> bool {
    match parsed {
        Ok((value, rest)) => result == Ok::<T, CodecError>(value) && after == rest,
        Err(e) => result == Err::<T, CodecError>(e),
    }
}

/// What is left of `before` when a length-prefixed field at its front cannot be read: the length
/// alone is consumed, where there is one.
pub open spec fn after_failed_field(before: Seq<u8>) -> Seq<u8> {
    if before.len() < 2 {
        before
    } else {
        before.skip(2)
    }
}

/// A variable byte integer ends inside the bytes, after one to four of them, and its value fits
/// in 28 bits.
pub proof fn lemma_varint_at_bounds(s: Seq<u8>, i: nat)
    requires
        i <= 3,
    ensures
        varint_at(s, i) matches Ok((value, end)) ==> i < end <= s.len() && end <= 4 && value <= (
        if i == 0 {
            268_435_455nat
        } else if i == 1 {
            2_097_151
        } else if i == 2 {
            16_383
        } else {
            127
        }),
    decreases 4 - i,
{
    if i < 3 {
        lemma_varint_at_bounds(s, i + 1);
    }
}

/// A variable byte integer of at most 28 bits has one to four bytes.
pub proof fn lemma_varint_len(v: nat)
    requires
        v <= VARINT_MAX,
    ensures
        1 <= varint(v).len() <= 4,
{
    reveal_with_fuel(varint, 4);
    assert(v / 128 / 128 / 128 < 128);
}

/// Whether bytes are a variable byte integer: one to four bytes of seven bits each, least
/// significant first, of which all but the last have the high bit set.
pub open spec fn is_varint(s: Seq<u8>, value: nat) -> bool {
    let n = s.len();
    &&& 1 <= n <= 4
    &&& s[n - 1] < 128
    &&& forall|i: int| 0 <= i < n - 1 ==> #[trigger] s[i] >= 128
    &&& value == (if n == 1 {
        s[0] as int
    } else if n == 2 {
        (s[0] - 128) + s[1] * 128
    } else if n == 3 {
        (s[0] - 128) + (s[1] - 128) * 128 + s[2] * 16_384
    } else {
        (s[0] - 128) + (s[1] - 128) * 128 + (s[2] - 128) * 16_384 + s[3] * 2_097_152
    })
}

/// What is read as a variable byte integer is one.
pub proof fn lemma_varint_at_is_varint(s: Seq<u8>)
    ensures
        varint_at(s, 0) matches Ok((value, n)) ==> n <= s.len() && is_varint(
            s.take(n as int),
            value,
        ),
{
    reveal_with_fuel(varint_at, 5);
    lemma_varint_at_bounds(s, 0);
}

/// What is written as a variable byte integer is one.
pub proof fn lemma_varint_is_varint(v: nat)
    requires
        v <= VARINT_MAX,
    ensures
        is_varint(varint(v), v),
        v < 128 ==> varint(v).len() == 1,
        128 <= v < 16_384 ==> varint(v).len() == 2,
        16_384 <= v < 2_097_152 ==> varint(v).len() == 3,
{
    reveal_with_fuel(varint, 5);
    assert(v / 128 / 128 / 128 < 128);
}

/// Calls `core::str::from_utf8`, which gives the text that the bytes encode, and fails exactly
/// where they are not UTF-8.
#[verifier::external_body]
pub(crate) fn utf8_text(data: &[u8]) -> (text: Option<&str>)
    ensures
        match text {
            Some(t) => utf8::valid_utf8(data@) && t@ == utf8::decode_utf8(data@),
            None => !utf8::valid_utf8(data@),
        },
{
    core::str::from_utf8(data).ok()
}

/// Reads one byte.
pub fn read_u8(buf: &mut &[u8]) -> (r: Result<u8, CodecError>)
    ensures
        reads(take_u8(old(buf)@), r, final(buf)@),
        r is Err ==> final(buf)@ == old(buf)@,
        r is Ok <==> old(buf)@.len() >= 1,
        r matches Ok(v) ==> v == old(buf)@[0] && final(buf)@ == old(buf)@.subrange(
            1,
            old(buf)@.len() as int,
        ),
{
    if buf.len() < 1 {
        return Err(CodecError::Incomplete);
    }
    let val: u8 = buf[0];
    *buf = slice_subrange(*buf, 1, buf.len());
    Ok(val)
}

/// Reads a 16-bit integer, most significant byte first.
pub fn read_u16(buf: &mut &[u8]) -> (r: Result<u16, CodecError>)
    ensures
        reads(take_u16(old(buf)@), r, final(buf)@),
        r is Err ==> final(buf)@ == old(buf)@,
        r is Ok <==> old(buf)@.len() >= 2,
        r matches Ok(v) ==> v == old(buf)@[0] * 256 + old(buf)@[1] && final(buf)@
            == old(buf)@.subrange(2, old(buf)@.len() as int),
{
    if buf.len() < 2 {
        return Err(CodecError::Incomplete);
    }
    let val: u16 = (buf[0] as u16) * 256 + buf[1] as u16;
    *buf = slice_subrange(*buf, 2, buf.len());
    Ok(val)
}

/// Reads a 32-bit integer, most significant byte first.
pub fn read_u32(buf: &mut &[u8]) -> (r: Result<u32, CodecError>)
    ensures
        reads(take_u32(old(buf)@), r, final(buf)@),
        r is Err ==> final(buf)@ == old(buf)@,
        r is Ok <==> old(buf)@.len() >= 4,
        r matches Ok(v) ==> v == old(buf)@[0] * 0x100_0000 + old(buf)@[1] * 0x1_0000 + old(buf)@[2]
            * 0x100 + old(buf)@[3] && final(buf)@ == old(buf)@.subrange(
            4,
            old(buf)@.len() as int,
        ),
{
    if buf.len() < 4 {
        return Err(CodecError::Incomplete);
    }
    let val: u32 = (buf[0] as u32) * 0x100_0000 + (buf[1] as u32) * 0x1_0000 + (buf[2] as u32) * 256
        + buf[3] as u32;
    *buf = slice_subrange(*buf, 4, buf.len());
    Ok(val)
}

/// Reads a length-prefixed run of bytes.
pub fn read_bytes<'a>(buf: &mut &'a [u8]) -> (r: Result<&'a [u8], CodecError>)
    ensures
        match take_binary(old(buf)@) {
            Ok((data, rest)) => r is Ok && r->Ok_0@ == data && final(buf)@ == rest,
            Err(e) => r == Err::<&'a [u8], CodecError>(e) && final(buf)@ == after_failed_field(
                old(buf)@,
            ),
        },
        r matches Ok(data) ==> old(buf)@.len() >= 2 && data@.len() == old(buf)@[0] * 256
            + old(buf)@[1] && old(buf)@ == seq![old(buf)@[0], old(buf)@[1]] + data@ + final(buf)@,
{
    let len: usize = read_u16(buf)? as usize;
    if buf.len() < len {
        return Err(CodecError::Incomplete);
    }
    let data = slice_subrange(*buf, 0, len);
    *buf = slice_subrange(*buf, len, buf.len());
    Ok(data)
}

/// Reads length-prefixed UTF-8 text.
pub fn read_str<'a>(buf: &mut &'a [u8]) -> (r: Result<&'a str, CodecError>)
    ensures
        match take_text(old(buf)@) {
            Ok((text, rest)) => r is Ok && r->Ok_0@ == text && final(buf)@ == rest,
            Err(e) => r == Err::<&'a str, CodecError>(e) && final(buf)@ == after_failed_field(
                old(buf)@,
            ),
        },
        r matches Ok(text) ==> old(buf)@.len() >= 2 && utf8::encode_utf8(text@).len()
            == old(buf)@[0] * 256 + old(buf)@[1] && old(buf)@ == seq![old(buf)@[0], old(buf)@[1]]
            + utf8::encode_utf8(text@) + final(buf)@,
{
    let len: usize = read_u16(buf)? as usize;
    if buf.len() < len {
        return Err(CodecError::Incomplete);
    }
    let text = utf8_text(slice_subrange(*buf, 0, len));
    match text {
        Some(text) => {
            proof {
                utf8::decode_utf8_encode_utf8(buf@.take(len as int));
            }
            *buf = slice_subrange(*buf, len, buf.len());
            Ok(text)
        },
        None => Err(CodecError::MalformedPacket),
    }
}

/// Decodes a variable byte integer at the front of `buf`: its value and the number of bytes it
/// takes.
pub fn decode_varint(buf: &[u8]) -> (r: Result<(u32, usize), CodecError>)
    ensures
        match varint_at(buf@, 0) {
            Ok((value, end)) => r == Ok::<(u32, usize), CodecError>((value as u32, end as usize))
                && value <= VARINT_MAX && 0 < end <= 4 && end <= buf@.len(),
            Err(e) => r == Err::<(u32, usize), CodecError>(e),
        },
        r matches Ok((value, n)) ==> is_varint(buf@.take(n as int), value as nat),
{
    let mut value: u32 = 0;
    let mut multiplier: u32 = 1;
    let mut i: usize = 0;
    proof {
        lemma_varint_at_bounds(buf@, 0);
    }
    while i < buf.len()
        invariant
            i <= 3,
            i <= buf@.len(),
            multiplier == if i == 0 {
                1int
            } else if i == 1 {
                128
            } else if i == 2 {
                16384
            } else {
                2097152
            },
            value < multiplier,
            varint_at(buf@, 0) == match varint_at(buf@, i as nat) {
                Err(e) => Err::<(nat, nat), CodecError>(e),
                Ok((high, end)) => Ok(((value + multiplier * high) as nat, end)),
            },
            varint_at(buf@, 0) matches Ok((v, end)) ==> v <= VARINT_MAX && 0 < end <= 4 && end
                <= buf@.len(),
        decreases buf@.len() - i,
    {
        let byte: u8 = buf[i];
        proof {
            lemma_varint_at_bounds(buf@, i as nat);
        }
        if byte < 128 {
            assert(value + (byte as u32) * multiplier <= VARINT_MAX) by (nonlinear_arith)
                requires
                    value < multiplier,
                    byte <= 127,
                    multiplier <= 2097152,
            ;
            assert((byte as u32) * multiplier == multiplier * byte) by (nonlinear_arith);
            value = value + (byte as u32) * multiplier;
            proof {
                lemma_varint_at_is_varint(buf@);
            }
            return Ok((value, i + 1));
        }
        if i >= 3 {
            return Err(CodecError::InvalidVarint);
        }
        let ghost old_value = value as int;
        let ghost old_mult = multiplier as int;
        assert(0 <= (byte - 128) * multiplier <= 127 * multiplier) by (nonlinear_arith)
            requires
                128 <= byte <= 255,
                multiplier >= 0,
        ;
        value = value + ((byte - 128) as u32) * multiplier;
        multiplier = multiplier * 128;
        proof {
            match varint_at(buf@, (i + 1) as nat) {
                Ok((high, end)) => {
                    assert(old_value + old_mult * (byte - 128 + 128 * high) == value + multiplier
                        * high) by (nonlinear_arith)
                        requires
                            value == old_value + (byte - 128) * old_mult,
                            multiplier == old_mult * 128,
                    ;
                },
                Err(_) => {},
            }
        }
        i = i + 1;
    }
    Err(CodecError::Incomplete)
}

/// Appends the variable byte integer of `value`.
pub fn encode_varint(value: u32, buf: &mut Vec<u8>)
    ensures
        final(buf)@ == old(buf)@ + varint(value as nat),
        value <= VARINT_MAX ==> is_varint(
            final(buf)@.skip(old(buf)@.len() as int),
            value as nat,
        ),
{
    proof {
        if value <= VARINT_MAX {
            lemma_varint_is_varint(value as nat);
        }
        assert((buf@ + varint(value as nat)).skip(buf@.len() as int) =~= varint(value as nat));
    }
    let mut value: u32 = value;
    let ghost whole = value as nat;
    while value >= 128
        invariant
            buf@ + varint(value as nat) == old(buf)@ + varint(whole),
        decreases value,
    {
        let ghost before = buf@;
        let ghost v = value as nat;
        buf.push((value % 128 + 128) as u8);
        value = value / 128;
        assert(buf@ + varint(value as nat) == before + varint(v));
    }
    buf.push(value as u8);
}

/// Appends a 16-bit integer, most significant byte first.
pub fn write_u16(val: u16, buf: &mut Vec<u8>)
    ensures
        final(buf)@ == old(buf)@ + be16(val),
        ({
            let n = old(buf)@.len() as int;
            &&& final(buf)@.len() == n + 2
            &&& final(buf)@.take(n) == old(buf)@
            &&& val == final(buf)@[n] * 256 + final(buf)@[n + 1]
        }),
{
    buf.push((val / 256) as u8);
    buf.push((val % 256) as u8);
}

/// Appends a 32-bit integer, most significant byte first.
pub fn write_u32(val: u32, buf: &mut Vec<u8>)
    ensures
        final(buf)@ == old(buf)@ + be32(val),
        ({
            let n = old(buf)@.len() as int;
            &&& final(buf)@.len() == n + 4
            &&& final(buf)@.take(n) == old(buf)@
            &&& val == final(buf)@[n] * 0x100_0000 + final(buf)@[n + 1] * 0x1_0000 + final(buf)@[n
                + 2] * 0x100 + final(buf)@[n + 3]
        }),
{
    buf.push((val / 0x100_0000) as u8);
    buf.push((val / 0x1_0000 % 256) as u8);
    buf.push((val / 256 % 256) as u8);
    buf.push((val % 256) as u8);
}

/// Appends `data` as it is.
pub(crate) fn append(data: &[u8], buf: &mut Vec<u8>)
    ensures
        final(buf)@ == old(buf)@ + data@,
{
    buf.extend_from_slice(data);
    assert(buf@ =~= old(buf)@ + data@);
}

/// Appends `data` behind its length, which is reduced to 16 bits.
pub fn write_bytes(data: &[u8], buf: &mut Vec<u8>)
    ensures
        final(buf)@ == old(buf)@ + binary_field(data@),
        data@.len() <= 0xffff ==> ({
            let n = old(buf)@.len() as int;
            &&& final(buf)@.len() == n + 2 + data@.len()
            &&& final(buf)@.take(n) == old(buf)@
            &&& data@.len() == final(buf)@[n] * 256 + final(buf)@[n + 1]
            &&& final(buf)@.skip(n + 2) == data@
        }),
{
    write_u16((data.len() % 0x1_0000) as u16, buf);
    append(data, buf);
}

/// Appends text behind the length of its UTF-8 form, which is reduced to 16 bits.
pub fn write_str(s: &str, buf: &mut Vec<u8>)
    ensures
        final(buf)@ == old(buf)@ + text_field(s@),
        utf8::encode_utf8(s@).len() <= 0xffff ==> ({
            let n = old(buf)@.len() as int;
            &&& final(buf)@.len() == n + 2 + utf8::encode_utf8(s@).len()
            &&& final(buf)@.take(n) == old(buf)@
            &&& utf8::encode_utf8(s@).len() == final(buf)@[n] * 256 + final(buf)@[n + 1]
            &&& final(buf)@.skip(n + 2) == utf8::encode_utf8(s@)
        }),
{
    write_bytes(s.as_bytes(), buf);
}

} // verus!
