//! Text and bytes: comparing, trimming, numbers.

use vstd::prelude::*;
use vstd::utf8;
use crate::codec::wire::utf8_text;

verus! {

/// Two texts with the same UTF-8 form are the same text.
pub proof fn lemma_utf8_injective(a: Seq<char>, b: Seq<char>)
    ensures
        utf8::encode_utf8(a) == utf8::encode_utf8(b) <==> a == b,
{
    utf8::encode_utf8_decode_utf8(a);
    utf8::encode_utf8_decode_utf8(b);
}

/// Whether two runs of bytes are the same.
pub fn bytes_eq(a: &[u8], b: &[u8]) -> (same: bool)
    ensures
        same == (a@ == b@),
{
    if a.len() != b.len() {
        return false;
    }
    let mut i: usize = 0;
    while i < a.len()
        invariant
            i <= a@.len(),
            a@.len() == b@.len(),
            forall|k: int| 0 <= k < i ==> a@[k] == b@[k],
        decreases a@.len() - i,
    {
        if a[i] != b[i] {
            return false;
        }
        i = i + 1;
    }
    assert(a@ =~= b@);
    true
}

/// Whether two texts are the same.
pub fn str_eq(a: &str, b: &str) -> (same: bool)
    ensures
        same == (a@ == b@),
{
    proof {
        lemma_utf8_injective(a@, b@);
    }
    bytes_eq(a.as_bytes(), b.as_bytes())
}

/// Whether a byte occurs.
pub fn contains_byte(data: &[u8], byte: u8) -> (found: bool)
    ensures
        found == data@.contains(byte),
{
    let mut i: usize = 0;
    while i < data.len()
        invariant
            i <= data@.len(),
            forall|k: int| 0 <= k < i ==> data@[k] != byte,
        decreases data@.len() - i,
    {
        if data[i] == byte {
            return true;
        }
        i = i + 1;
    }
    false
}

/// A copy of a run of bytes.
pub fn copy_bytes(data: &[u8]) -> (copy: Vec<u8>)
    ensures
        copy@ == data@,
{
    let mut copy: Vec<u8> = Vec::new();
    copy.extend_from_slice(data);
    assert(copy@ =~= data@);
    copy
}

/// The characters that count as white space.
pub open spec fn is_white(c: char) -> bool {
    let v = c as u32;
    (9 <= v <= 13) || v == 32 || v == 0x85 || v == 0xA0 || v == 0x1680 || (0x2000 <= v <= 0x200A)
        || v == 0x2028 || v == 0x2029 || v == 0x202F || v == 0x205F || v == 0x3000
}

/// Text without the white space at its front.
pub open spec fn trim_start(s: Seq<char>) -> Seq<char>
    decreases s.len(),
{
    if s.len() > 0 && is_white(s[0]) {
        trim_start(s.drop_first())
    } else {
        s
    }
}

/// Text without the white space at its end.
pub open spec fn trim_end(s: Seq<char>) -> Seq<char>
    decreases s.len(),
{
    if s.len() > 0 && is_white(s.last()) {
        trim_end(s.drop_last())
    } else {
        s
    }
}

/// A letter from A to Z in lower case; any other character as it is.
pub open spec fn lower(c: char) -> char {
    if 'A' <= c <= 'Z' {
        ((c as u32) + 32) as char
    } else {
        c
    }
}

/// Text as settings are compared: without white space around it, in lower case.
pub open spec fn setting(s: Seq<char>) -> Seq<char> {
    let t = trim_end(trim_start(s));
    Seq::new(t.len(), |i: int| lower(t[i]))
}

/// Whether a character counts as white space.
pub(crate) fn white(c: char) -> (r: bool)
    ensures
        r == is_white(c),
{
    let v: u32 = c as u32;
    (v >= 9 && v <= 13) || v == 32 || v == 0x85 || v == 0xA0 || v == 0x1680 || (v >= 0x2000 && v
        <= 0x200A) || v == 0x2028 || v == 0x2029 || v == 0x202F || v == 0x205F || v == 0x3000
}

/// A letter from A to Z in lower case; any other character as it is.
pub(crate) fn lower_char(c: char) -> (r: char)
    ensures
        r == lower(c),
{
    if c >= 'A' && c <= 'Z' {
        let b: u8 = c as u8;
        (b + 32) as char
    } else {
        c
    }
}

/// The characters of a text.
pub fn chars_of(s: &str) -> (list: Vec<char>)
    ensures
        list@ == s@,
{
    let mut list: Vec<char> = Vec::new();
    for c in it: s.chars()
        invariant
            it.seq() == s@,
            list@ == s@.take(it.index()),
    {
        list.push(c);
        assert(s@.take(it.index() + 1) =~= s@.take(it.index()).push(c));
    }
    assert(s@.take(s@.len() as int) =~= s@);
    list
}

/// Text as settings are compared: without white space around it, in lower case.
pub fn normalized(s: &str) -> (r: Vec<char>)
    ensures
        r@ == setting(s@),
{
    let all = chars_of(s);
    let mut start: usize = 0;
    assert(all@.skip(0) =~= all@);
    while start < all.len() && white(all[start])
        invariant
            start <= all@.len(),
            trim_start(all@) == trim_start(all@.skip(start as int)),
        decreases all@.len() - start,
    {
        assert(all@.skip(start as int).drop_first() =~= all@.skip(start + 1));
        start = start + 1;
    }
    let ghost front = all@.skip(start as int);
    assert(trim_start(all@) == front);
    let mut end: usize = all.len();
    assert(all@.subrange(start as int, end as int) =~= front);
    while end > start && white(all[end - 1])
        invariant
            start <= end <= all@.len(),
            trim_end(front) == trim_end(all@.subrange(start as int, end as int)),
        decreases end,
    {
        assert(all@.subrange(start as int, end as int).drop_last() =~= all@.subrange(
            start as int,
            end - 1,
        ));
        end = end - 1;
    }
    let ghost t = all@.subrange(start as int, end as int);
    assert(trim_end(front) == t);
    let mut r: Vec<char> = Vec::new();
    let mut i: usize = start;
    while i < end
        invariant
            start <= i <= end <= all@.len(),
            t == all@.subrange(start as int, end as int),
            r@.len() == i - start,
            forall|k: int| 0 <= k < r@.len() ==> #[trigger] r@[k] == lower(t[k]),
        decreases end - i,
    {
        r.push(lower_char(all[i]));
        i = i + 1;
    }
    assert(r@ =~= setting(s@));
    r
}

/// Whether characters spell a word.
pub fn spells(list: &Vec<char>, word: &str) -> (r: bool)
    ensures
        r == (list@ == word@),
{
    let other = chars_of(word);
    if list.len() != other.len() {
        return false;
    }
    let mut i: usize = 0;
    while i < list.len()
        invariant
            i <= list@.len(),
            list@.len() == other@.len(),
            other@ == word@,
            forall|k: int| 0 <= k < i ==> list@[k] == other@[k],
        decreases list@.len() - i,
    {
        if list[i] != other[i] {
            return false;
        }
        i = i + 1;
    }
    assert(list@ =~= other@);
    true
}

/// Whether a text begins with another.
pub open spec fn begins_with(t: Seq<char>, prefix: Seq<char>) -> bool {
    prefix.len() <= t.len() && t.take(prefix.len() as int) == prefix
}

/// Whether a text begins with another.
pub fn starts_with(text: &str, prefix: &str) -> (r: bool)
    ensures
        r == begins_with(text@, prefix@),
{
    let all = chars_of(text);
    let front = chars_of(prefix);
    if front.len() > all.len() {
        return false;
    }
    let mut i: usize = 0;
    while i < front.len()
        invariant
            i <= front@.len() <= all@.len(),
            all@ == text@,
            front@ == prefix@,
            forall|k: int| 0 <= k < i ==> all@[k] == front@[k],
        decreases front@.len() - i,
    {
        if all[i] != front[i] {
            assert(text@.take(prefix@.len() as int)[i as int] != prefix@[i as int]);
            return false;
        }
        i = i + 1;
    }
    assert(text@.take(prefix@.len() as int) =~= prefix@);
    true
}

/// The value of decimal digits.
pub open spec fn digits_value(digits: Seq<u8>) -> nat
    decreases digits.len(),
{
    if digits.len() == 0 {
        0
    } else {
        digits_value(digits.drop_last()) * 10 + (digits.last() - 48) as nat
    }
}

/// Whether every byte is a decimal digit.
pub open spec fn all_digits(digits: Seq<u8>) -> bool {
    forall|i: int| 0 <= i < digits.len() ==> 48 <= #[trigger] digits[i] <= 57
}

/// The digits of a number: what follows a `+`, or else the whole.
pub open spec fn after_sign(s: Seq<u8>) -> Seq<u8> {
    if s.len() > 0 && s[0] == 43 {
        s.skip(1)
    } else {
        s
    }
}

/// The number that a text is, where it is one and not larger than `max`: decimal digits, at least
/// one, behind an optional `+`.
pub open spec fn number(s: Seq<u8>, max: u64) -> Option<u64> {
    let digits = after_sign(s);
    if digits.len() > 0 && all_digits(digits) && digits_value(digits) <= max {
        Some(digits_value(digits) as u64)
    } else {
        None
    }
}

/// More digits make no smaller number.
proof fn lemma_digits_grow(digits: Seq<u8>, n: int)
    requires
        0 <= n <= digits.len(),
        all_digits(digits),
    ensures
        digits_value(digits.take(n)) <= digits_value(digits),
    decreases digits.len(),
{
    if n == digits.len() {
        assert(digits.take(n) =~= digits);
    } else {
        let front = digits.drop_last();
        assert(front.take(n) =~= digits.take(n));
        assert forall|i: int| 0 <= i < front.len() implies 48 <= #[trigger] front[i] <= 57 by {
            assert(front[i] == digits[i]);
        }
        lemma_digits_grow(front, n);
    }
}

/// Reads a number that is not larger than `max`.
pub fn parse_number(s: &str, max: u64) -> (r: Option<u64>)
    ensures
        r == number(utf8::encode_utf8(s@), max),
{
    let bytes = s.as_bytes();
    let start: usize = if bytes.len() > 0 && bytes[0] == 43 {
        1
    } else {
        0
    };
    let ghost digits = after_sign(bytes@);
    assert(bytes@.skip(0) =~= bytes@);
    assert(digits =~= bytes@.skip(start as int));
    if start == bytes.len() {
        return None;
    }
    let mut value: u64 = 0;
    let mut i: usize = start;
    assert(digits.take(0) =~= Seq::empty());
    while i < bytes.len()
        invariant
            start <= i <= bytes@.len(),
            digits == bytes@.skip(start as int),
            digits == after_sign(bytes@),
            bytes@ == utf8::encode_utf8(s@),
            forall|k: int| 0 <= k < i - start ==> 48 <= #[trigger] digits[k] <= 57,
            value == digits_value(digits.take(i - start)),
            value <= max,
        decreases bytes@.len() - i,
    {
        let b: u8 = bytes[i];
        let ghost k = i - start;
        assert(digits[k] == b);
        if b < 48 || b > 57 {
            assert(!all_digits(digits));
            return None;
        }
        let d: u64 = (b - 48) as u64;
        assert(digits.take(k + 1).drop_last() =~= digits.take(k));
        if value > max / 10 || (value == max / 10 && d > max % 10) {
            proof {
                assert(value * 10 + d > max);
                if all_digits(digits) {
                    lemma_digits_grow(digits, k + 1);
                }
            }
            return None;
        }
        value = value * 10 + d;
        i = i + 1;
    }
    assert(digits.take(digits.len() as int) =~= digits);
    Some(value)
}

/// Text of ASCII characters, from their codes.
pub open spec fn ascii_text(codes: Seq<u8>) -> Seq<char> {
    Seq::new(codes.len(), |i: int| codes[i] as char)
}

/// Whether every byte is the code of an ASCII character.
pub open spec fn all_ascii(codes: Seq<u8>) -> bool {
    forall|i: int| 0 <= i < codes.len() ==> #[trigger] codes[i] < 128
}

/// ASCII codes are the UTF-8 form of their characters.
pub proof fn lemma_ascii_decodes(codes: Seq<u8>)
    requires
        all_ascii(codes),
    ensures
        utf8::encode_utf8(ascii_text(codes)) == codes,
        utf8::valid_utf8(codes),
        utf8::decode_utf8(codes) == ascii_text(codes),
{
    let text = ascii_text(codes);
    assert(utf8::is_ascii_chars(text)) by {
        assert forall|i: int| 0 <= i < text.len() implies '\0' <= #[trigger] text[i]
            <= '\u{7f}' by {
            assert(codes[i] < 128);
        }
    }
    utf8::is_ascii_chars_encode_utf8(text);
    assert(utf8::encode_utf8(text) =~= codes);
    utf8::encode_utf8_valid_utf8(text);
    utf8::encode_utf8_decode_utf8(text);
}

/// Makes text of ASCII codes.
pub fn ascii_string(codes: &Vec<u8>) -> (r: String)
    requires
        all_ascii(codes@),
    ensures
        r@ == ascii_text(codes@),
{
    proof {
        lemma_ascii_decodes(codes@);
    }
    match utf8_text(codes.as_slice()) {
        Some(text) => text.to_owned(),
        None => String::new(),
    }
}

/// The code of a hexadecimal digit.
pub open spec fn hex_digit(d: int) -> u8 {
    if d < 10 {
        (48 + d) as u8
    } else {
        (87 + d) as u8
    }
}

/// A number in hexadecimal digits, lower case, without leading zeros.
pub open spec fn hex(v: nat) -> Seq<u8>
    decreases v,
{
    if v < 16 {
        seq![hex_digit(v as int)]
    } else {
        hex(v / 16).push(hex_digit((v % 16) as int))
    }
}

/// A number in decimal digits, without leading zeros.
pub open spec fn decimal(v: nat) -> Seq<u8>
    decreases v,
{
    if v < 10 {
        seq![(48 + v) as u8]
    } else {
        decimal(v / 10).push((48 + v % 10) as u8)
    }
}

/// Appends a number in hexadecimal digits.
pub fn push_hex(v: u64, out: &mut Vec<u8>)
    ensures
        final(out)@ == old(out)@ + hex(v as nat),
        all_ascii(old(out)@) ==> all_ascii(final(out)@),
    decreases v,
{
    if v >= 16 {
        push_hex(v / 16, out);
    }
    let d: u8 = (v % 16) as u8;
    let ghost before = out@;
    if d < 10 {
        out.push(48 + d);
    } else {
        out.push(87 + d);
    }
    proof {
        if v >= 16 {
            assert(out@ =~= old(out)@ + hex(v as nat));
        } else {
            assert(out@ =~= old(out)@ + seq![hex_digit(v as int)]);
        }
        if all_ascii(old(out)@) {
            assert forall|i: int| 0 <= i < out@.len() implies #[trigger] out@[i] < 128 by {
                if i < before.len() {
                    assert(out@[i] == before[i]);
                }
            }
        }
    }
}

/// Appends a number in decimal digits.
pub fn push_decimal(v: u64, out: &mut Vec<u8>)
    ensures
        final(out)@ == old(out)@ + decimal(v as nat),
        all_ascii(old(out)@) ==> all_ascii(final(out)@),
    decreases v,
{
    if v >= 10 {
        push_decimal(v / 10, out);
    }
    let ghost before = out@;
    out.push(48 + (v % 10) as u8);
    proof {
        if v >= 10 {
            assert(out@ =~= old(out)@ + decimal(v as nat));
        } else {
            assert(out@ =~= old(out)@ + seq![(48 + v) as u8]);
        }
        if all_ascii(old(out)@) {
            assert forall|i: int| 0 <= i < out@.len() implies #[trigger] out@[i] < 128 by {
                if i < before.len() {
                    assert(out@[i] == before[i]);
                }
            }
        }
    }
}

/// A number in decimal digits, as text.
pub open spec fn decimal_text(v: nat) -> Seq<char> {
    ascii_text(decimal(v))
}

/// Makes text of a number in decimal digits.
pub fn decimal_string(v: u64) -> (r: String)
    ensures
        r@ == decimal_text(v as nat),
{
    let mut codes: Vec<u8> = Vec::new();
    push_decimal(v, &mut codes);
    assert(codes@ =~= decimal(v as nat));
    ascii_string(&codes)
}

} // verus!
