//! Topic names and topic filters: their levels, wildcards and shared subscriptions.
//!
//! A topic is looked at through its UTF-8 form. The characters that have a meaning in it (`/`,
//! `+`, `#` and `$`) are one byte each and occur in no other character's form.

use vstd::prelude::*;
use vstd::slice::slice_subrange;
use vstd::utf8;
use crate::text::{bytes_eq, contains_byte};

verus! {

/// The byte that separates levels.
pub const SLASH: u8 = 47;

/// The byte of the wildcard for one level.
pub const PLUS: u8 = 43;

/// The byte of the wildcard for all remaining levels.
pub const HASH: u8 = 35;

/// The levels of a topic: what stands between its slashes, at least one level.
pub open spec fn levels(topic: Seq<u8>) -> Seq<Seq<u8>>
    decreases topic.len(),
{
    if topic.len() == 0 {
        seq![Seq::<u8>::empty()]
    } else {
        let front = levels(topic.drop_last());
        if topic.last() == SLASH {
            front.push(Seq::empty())
        } else {
            front.drop_last().push(front.last().push(topic.last()))
        }
    }
}

/// The level that matches any one level.
pub open spec fn plus() -> Seq<u8> {
    seq![PLUS]
}

/// The level that matches any number of levels.
pub open spec fn hash() -> Seq<u8> {
    seq![HASH]
}

/// Whether the levels of a topic match those of a filter: `#` matches whatever is left, `+` any
/// one level, and every other level itself.
pub open spec fn levels_match(topic: Seq<Seq<u8>>, filter: Seq<Seq<u8>>) -> bool
    decreases filter.len(),
{
    if filter.len() == 0 {
        topic.len() == 0
    } else if filter[0] == hash() {
        true
    } else {
        topic.len() > 0 && (filter[0] == plus() || filter[0] == topic[0]) && levels_match(
            topic.drop_first(),
            filter.drop_first(),
        )
    }
}

/// `$share/`, which begins the filter of a shared subscription.
pub open spec fn share_prefix() -> Seq<u8> {
    seq![36u8, 115, 104, 97, 114, 101, 47]
}

/// Whether the filter begins with `$share/`.
pub open spec fn has_share_prefix(filter: Seq<u8>) -> bool {
    filter.len() >= 7 && filter.take(7) == share_prefix()
}

/// Where a byte occurs first.
pub open spec fn first_index(data: Seq<u8>, byte: u8) -> Option<int>
    decreases data.len(),
{
    if data.len() == 0 {
        None
    } else {
        match first_index(data.drop_last(), byte) {
            Some(i) => Some(i),
            None => if data.last() == byte {
                Some(data.len() - 1)
            } else {
                None
            },
        }
    }
}

/// The group of a shared subscription, `$share/group/filter`, where the filter is of that form.
pub open spec fn share_group(filter: Seq<u8>) -> Option<Seq<u8>> {
    if has_share_prefix(filter) {
        match first_index(filter.skip(7), SLASH) {
            Some(i) => Some(filter.skip(7).take(i)),
            None => None,
        }
    } else {
        None
    }
}

/// The filter that topics are held against: what follows the group of a shared subscription, or
/// else the whole.
pub open spec fn plain_filter(filter: Seq<u8>) -> Seq<u8> {
    if has_share_prefix(filter) {
        match first_index(filter.skip(7), SLASH) {
            Some(i) => filter.skip(7).skip(i + 1),
            None => filter,
        }
    } else {
        filter
    }
}

/// Whether wildcards stand only where they may: `#` alone as the last level, `+` alone as a level.
pub open spec fn wildcards_placed(filter: Seq<Seq<u8>>) -> bool {
    forall|i: int|
        0 <= i < filter.len() ==> {
            &&& (#[trigger] filter[i]).contains(HASH) ==> filter[i] == hash() && i + 1
                == filter.len()
            &&& filter[i].contains(PLUS) ==> filter[i] == plus()
        }
}

/// Whether a topic filter is valid: not empty, wildcards where they may stand, and in a shared
/// subscription a group that is not empty and has no wildcard, and a filter that is not empty.
pub open spec fn filter_valid(filter: Seq<u8>) -> bool {
    if filter.len() == 0 {
        false
    } else if has_share_prefix(filter) {
        match share_group(filter) {
            None => false,
            Some(group) => group.len() > 0 && !group.contains(PLUS) && !group.contains(HASH)
                && plain_filter(filter).len() > 0 && wildcards_placed(
                levels(plain_filter(filter)),
            ),
        }
    } else {
        wildcards_placed(levels(filter))
    }
}

/// Whether a filter names exactly one topic: no wildcard and no shared subscription.
pub open spec fn exact_filter(filter: Seq<u8>) -> bool {
    !has_share_prefix(filter) && !filter.contains(PLUS) && !filter.contains(HASH)
}

/// A byte that a topic name may not hold, and the reason code for it: a wildcard is a protocol
/// error (0x82), a control character makes the packet malformed (0x81).
pub open spec fn byte_fault(byte: u8) -> Option<u8> {
    if byte == PLUS || byte == HASH {
        Some(0x82)
    } else if byte <= 0x1f || byte == 0x7f {
        Some(0x81)
    } else {
        None
    }
}

/// The fault of the first byte that has one.
pub open spec fn first_byte_fault(topic: Seq<u8>) -> Option<u8>
    decreases topic.len(),
{
    if topic.len() == 0 {
        None
    } else {
        match first_byte_fault(topic.drop_last()) {
            Some(reason) => Some(reason),
            None => byte_fault(topic.last()),
        }
    }
}

/// Characters beyond ASCII that a topic name may not hold: control characters and
/// non-characters.
pub open spec fn forbidden_char(c: char) -> bool {
    let cp = c as u32;
    (0x80 <= cp <= 0x9f) || (0xfdd0 <= cp <= 0xfdef) || cp % 0x1_0000 == 0xfffe || cp % 0x1_0000
        == 0xffff
}

/// The reason code with which a topic name is refused.
pub open spec fn topic_fault(topic: Seq<char>) -> Option<u8> {
    match first_byte_fault(utf8::encode_utf8(topic)) {
        Some(reason) => Some(reason),
        None => if exists|i: int| 0 <= i < topic.len() && forbidden_char(#[trigger] topic[i]) {
            Some(0x81u8)
        } else {
            None
        },
    }
}

/// There is at least one level.
pub proof fn lemma_levels_nonempty(topic: Seq<u8>)
    ensures
        levels(topic).len() > 0,
    decreases topic.len(),
{
    if topic.len() > 0 {
        lemma_levels_nonempty(topic.drop_last());
    }
}

/// The content of a list of borrowed levels.
pub open spec fn slices_view(list: Seq<&[u8]>) -> Seq<Seq<u8>> {
    list.map_values(|s: &[u8]| s@)
}

/// Splits a topic into its levels.
pub fn split_levels<'a>(topic: &'a [u8]) -> (list: Vec<&'a [u8]>)
    ensures
        slices_view(list@) == levels(topic@),
        list@.len() > 0,
{
    let mut list: Vec<&'a [u8]> = Vec::new();
    let mut start: usize = 0;
    let mut i: usize = 0;
    assert(topic@.take(0) =~= Seq::empty());
    assert(slices_view(list@).push(topic@.subrange(0, 0)) =~= levels(topic@.take(0)));
    while i < topic.len()
        invariant
            start <= i <= topic@.len(),
            slices_view(list@).push(topic@.subrange(start as int, i as int)) == levels(
                topic@.take(i as int),
            ),
        decreases topic@.len() - i,
    {
        let ghost before = slices_view(list@);
        let ghost next = topic@.take(i + 1);
        assert(next.drop_last() =~= topic@.take(i as int));
        let ghost current = topic@.subrange(start as int, i as int);
        if topic[i] == SLASH {
            list.push(slice_subrange(topic, start, i));
            start = i + 1;
            assert(slices_view(list@) =~= before.push(current));
            assert(topic@.subrange(start as int, i + 1) =~= Seq::empty());
        } else {
            assert(before.push(current).drop_last() =~= before);
            assert(topic@.subrange(start as int, i + 1) =~= current.push(topic@[i as int]));
        }
        i = i + 1;
    }
    let ghost before = slices_view(list@);
    list.push(slice_subrange(topic, start, topic.len()));
    assert(topic@.take(topic@.len() as int) =~= topic@);
    assert(slices_view(list@) =~= before.push(topic@.subrange(start as int, topic@.len() as int)));
    list
}

/// Whether a level is `+`.
pub fn is_plus(level: &[u8]) -> (r: bool)
    ensures
        r == (level@ == plus()),
{
    let r = level.len() == 1 && level[0] == PLUS;
    assert(r ==> level@ =~= plus());
    r
}

/// Whether a level is `#`.
pub fn is_hash(level: &[u8]) -> (r: bool)
    ensures
        r == (level@ == hash()),
{
    let r = level.len() == 1 && level[0] == HASH;
    assert(r ==> level@ =~= hash());
    r
}

/// Whether a topic's levels match a filter's.
fn match_levels(topic: &Vec<&[u8]>, filter: &Vec<&[u8]>) -> (r: bool)
    ensures
        r == levels_match(slices_view(topic@), slices_view(filter@)),
{
    let ghost t = slices_view(topic@);
    let ghost f = slices_view(filter@);
    let mut i: usize = 0;
    assert(t.skip(0) =~= t);
    assert(f.skip(0) =~= f);
    while i < filter.len()
        invariant
            i <= filter@.len(),
            i <= topic@.len(),
            t == slices_view(topic@),
            f == slices_view(filter@),
            levels_match(t, f) == levels_match(t.skip(i as int), f.skip(i as int)),
        decreases filter@.len() - i,
    {
        assert(f.skip(i as int)[0] == filter@[i as int]@);
        if is_hash(filter[i]) {
            return true;
        }
        if i >= topic.len() {
            return false;
        }
        assert(t.skip(i as int)[0] == topic@[i as int]@);
        if !is_plus(filter[i]) && !bytes_eq(filter[i], topic[i]) {
            return false;
        }
        assert(t.skip(i as int).drop_first() =~= t.skip(i + 1));
        assert(f.skip(i as int).drop_first() =~= f.skip(i + 1));
        i = i + 1;
    }
    i == topic.len()
}

/// Whether a topic matches the filter of an access rule, for example `sensor/temp` matches
/// `sensor/+` and `sensor/#`.
pub fn topic_matches_acl_filter(topic: &str, filter: &str) -> (r: bool)
    ensures
        r == levels_match(levels(utf8::encode_utf8(topic@)), levels(utf8::encode_utf8(filter@))),
{
    let topic_levels = split_levels(topic.as_bytes());
    let filter_levels = split_levels(filter.as_bytes());
    match_levels(&topic_levels, &filter_levels)
}

/// Whether the filter begins with `$share/`.
pub fn starts_with_share(filter: &[u8]) -> (r: bool)
    ensures
        r == has_share_prefix(filter@),
{
    if filter.len() < 7 {
        return false;
    }
    let r = filter[0] == 36 && filter[1] == 115 && filter[2] == 104 && filter[3] == 97 && filter[4]
        == 114 && filter[5] == 101 && filter[6] == 47;
    proof {
        if r {
            assert(filter@.take(7) =~= share_prefix());
        } else if filter@.take(7) == share_prefix() {
            assert forall|i: int| 0 <= i < 7 implies filter@[i] == share_prefix()[i] by {
                assert(filter@.take(7)[i] == share_prefix()[i]);
            }
        }
    }
    r
}

/// Where a byte occurs first.
pub fn find_byte(data: &[u8], byte: u8) -> (r: Option<usize>)
    ensures
        match r {
            Some(i) => first_index(data@, byte) == Some(i as int) && i < data@.len(),
            None => first_index(data@, byte) is None,
        },
{
    let mut i: usize = 0;
    assert(data@.take(0) =~= Seq::empty());
    while i < data.len()
        invariant
            i <= data@.len(),
            first_index(data@.take(i as int), byte) is None,
        decreases data@.len() - i,
    {
        assert(data@.take(i + 1).drop_last() =~= data@.take(i as int));
        if data[i] == byte {
            proof {
                lemma_first_index_prefix(data@, i + 1, byte);
            }
            return Some(i);
        }
        i = i + 1;
    }
    assert(data@.take(data@.len() as int) =~= data@);
    None
}

/// A byte that occurs in the front occurs first there.
proof fn lemma_first_index_prefix(data: Seq<u8>, n: int, byte: u8)
    requires
        0 <= n <= data.len(),
        first_index(data.take(n), byte) is Some,
    ensures
        first_index(data, byte) == first_index(data.take(n), byte),
    decreases data.len(),
{
    if n == data.len() {
        assert(data.take(n) =~= data);
    } else {
        assert(data.drop_last().take(n) =~= data.take(n));
        lemma_first_index_prefix(data.drop_last(), n, byte);
    }
}

/// Takes the filter of a shared subscription apart: the group, where there is one, and the filter
/// that topics are held against.
pub fn parse_shared_subscription<'a>(filter: &'a [u8]) -> (r: (Option<&'a [u8]>, &'a [u8]))
    ensures
        r.1@ == plain_filter(filter@),
        match r.0 {
            Some(group) => share_group(filter@) == Some(group@),
            None => share_group(filter@) is None,
        },
{
    if starts_with_share(filter) {
        let rest = slice_subrange(filter, 7, filter.len());
        assert(rest@ =~= filter@.skip(7));
        if let Some(i) = find_byte(rest, SLASH) {
            let group = slice_subrange(rest, 0, i);
            let plain = slice_subrange(rest, i + 1, rest.len());
            assert(group@ =~= rest@.take(i as int));
            assert(plain@ =~= rest@.skip(i + 1));
            return (Some(group), plain);
        }
    }
    (None, filter)
}

/// Whether a topic matches the filter of a subscription.
pub fn topic_matches_filter(topic: &str, filter: &str) -> (r: bool)
    ensures
        r == levels_match(levels(utf8::encode_utf8(topic@)), levels(plain_filter(utf8::encode_utf8(filter@)))),
{
    let (_, plain) = parse_shared_subscription(filter.as_bytes());
    let topic_levels = split_levels(topic.as_bytes());
    let filter_levels = split_levels(plain);
    match_levels(&topic_levels, &filter_levels)
}

/// Whether wildcards stand only where they may.
fn check_wildcards(filter: &[u8]) -> (r: bool)
    ensures
        r == wildcards_placed(levels(filter@)),
{
    let list = split_levels(filter);
    let ghost all = levels(filter@);
    let mut i: usize = 0;
    while i < list.len()
        invariant
            i <= list@.len(),
            all == slices_view(list@),
            all == levels(filter@),
            forall|k: int|
                0 <= k < i ==> {
                    &&& (#[trigger] all[k]).contains(HASH) ==> all[k] == hash() && k + 1
                        == all.len()
                    &&& all[k].contains(PLUS) ==> all[k] == plus()
                },
        decreases list@.len() - i,
    {
        let level = list[i];
        assert(all[i as int] == level@);
        if contains_byte(level, HASH) && (!is_hash(level) || i + 1 != list.len()) {
            return false;
        }
        if contains_byte(level, PLUS) && !is_plus(level) {
            return false;
        }
        i = i + 1;
    }
    true
}

/// Whether a topic filter is valid: where its wildcards stand, and the form of a shared
/// subscription.
pub fn topic_filter_valid(topic_filter: &str) -> (r: bool)
    ensures
        r == filter_valid(utf8::encode_utf8(topic_filter@)),
{
    let filter = topic_filter.as_bytes();
    if filter.len() == 0 {
        return false;
    }
    if starts_with_share(filter) {
        match parse_shared_subscription(filter) {
            (None, _) => false,
            (Some(group), plain) => {
                if group.len() == 0 || contains_byte(group, PLUS) || contains_byte(group, HASH)
                    || plain.len() == 0 {
                    return false;
                }
                check_wildcards(plain)
            },
        }
    } else {
        check_wildcards(filter)
    }
}

/// Whether a filter names exactly one topic.
pub fn is_exact_filter(filter: &[u8]) -> (r: bool)
    ensures
        r == exact_filter(filter@),
{
    !starts_with_share(filter) && !contains_byte(filter, PLUS) && !contains_byte(filter, HASH)
}

/// Whether a topic name holds a wildcard.
pub fn topic_contains_wildcard(topic: &str) -> (r: bool)
    ensures
        r == (utf8::encode_utf8(topic@).contains(PLUS) || utf8::encode_utf8(topic@).contains(HASH)),
{
    contains_byte(topic.as_bytes(), PLUS) || contains_byte(topic.as_bytes(), HASH)
}

/// The reason code with which a topic name is refused, where it is.
pub fn publish_topic_error_reason(topic: &str) -> (r: Option<u8>)
    ensures
        r == topic_fault(topic@),
{
    let bytes = topic.as_bytes();
    let mut i: usize = 0;
    assert(bytes@.take(0) =~= Seq::empty());
    while i < bytes.len()
        invariant
            i <= bytes@.len(),
            bytes@ == utf8::encode_utf8(topic@),
            first_byte_fault(bytes@.take(i as int)) is None,
        decreases bytes@.len() - i,
    {
        assert(bytes@.take(i + 1).drop_last() =~= bytes@.take(i as int));
        let byte: u8 = bytes[i];
        if byte == PLUS || byte == HASH {
            proof {
                lemma_byte_fault_prefix(bytes@, i + 1);
            }
            return Some(0x82);
        }
        if byte <= 0x1f || byte == 0x7f {
            proof {
                lemma_byte_fault_prefix(bytes@, i + 1);
            }
            return Some(0x81);
        }
        i = i + 1;
    }
    assert(bytes@.take(bytes@.len() as int) =~= bytes@);
    let mut forbidden = false;
    for c in it: topic.chars()
        invariant
            it.seq() == topic@,
            forbidden == exists|k: int| 0 <= k < it.index() && forbidden_char(#[trigger] topic@[k]),
    {
        let cp: u32 = c as u32;
        if (cp >= 0x80 && cp <= 0x9f) || (cp >= 0xfdd0 && cp <= 0xfdef) || cp % 0x1_0000 == 0xfffe
            || cp % 0x1_0000 == 0xffff {
            assert(forbidden_char(topic@[it.index()]));
            forbidden = true;
        } else {
            assert(!forbidden_char(topic@[it.index()]));
        }
    }
    if forbidden {
        Some(0x81)
    } else {
        None
    }
}

/// A fault in the front is the first fault.
proof fn lemma_byte_fault_prefix(topic: Seq<u8>, n: int)
    requires
        0 <= n <= topic.len(),
        first_byte_fault(topic.take(n)) is Some,
    ensures
        first_byte_fault(topic) == first_byte_fault(topic.take(n)),
    decreases topic.len(),
{
    if n == topic.len() {
        assert(topic.take(n) =~= topic);
    } else {
        assert(topic.drop_last().take(n) =~= topic.take(n));
        lemma_byte_fault_prefix(topic.drop_last(), n);
    }
}

} // verus!
