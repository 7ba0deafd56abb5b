//! What topics and filters mean, byte by byte and level by level.

use vstd::prelude::*;
use vstd::utf8;
use crate::topic;

verus! {

/// The topic that levels make up, with a `/` between each two.
pub open spec fn joined(parts: Seq<Seq<u8>>) -> Seq<u8>
    decreases parts.len(),
{
    if parts.len() == 0 {
        Seq::empty()
    } else if parts.len() == 1 {
        parts[0]
    } else {
        joined(parts.drop_last()) + seq![0x2Fu8] + parts.last()
    }
}

/// Whether a level of a filter stands for a level of a topic: `+` for any, another for itself.
pub open spec fn stands_for(filter: Seq<u8>, level: Seq<u8>) -> bool {
    filter == seq![0x2Bu8] || filter == level
}

/// Whether the first levels of a filter stand for those of a topic, one for one.
pub open spec fn stand_for(filter: Seq<Seq<u8>>, topic: Seq<Seq<u8>>, n: int) -> bool {
    forall|i: int| 0 <= i < n ==> stands_for(#[trigger] filter[i], topic[i])
}

/// Whether a filter is made up as that of a shared subscription: `$share/`, a group without `/`,
/// `/` and a filter.
pub open spec fn shares(filter: Seq<u8>, group: Seq<u8>, rest: Seq<u8>) -> bool {
    &&& filter == seq![36u8, 115, 104, 97, 114, 101, 47] + group + seq![0x2Fu8] + rest
    &&& !group.contains(0x2F)
}

/// Whether a byte is one that a topic name may hold: no wildcard and no control character.
pub open spec fn plain_byte(b: u8) -> bool {
    b != 0x2B && b != 0x23 && b >= 0x20 && b != 0x7F
}

/// Whether a character is one that a topic name may hold beyond ASCII.
pub open spec fn plain_char(c: char) -> bool {
    let v = c as u32;
    !(0x80 <= v <= 0x9F) && !(0xFDD0 <= v <= 0xFDEF) && v % 0x1_0000 != 0xFFFE && v % 0x1_0000
        != 0xFFFF
}

/// The levels of a topic make it up with a `/` between each two, and no level holds a `/`. There
/// is only one such list.
pub proof fn law_levels_are_what_slashes_part(t: Seq<u8>)
    ensures
        topic::levels(t).len() > 0,
        joined(topic::levels(t)) == t,
        forall|i: int|
            0 <= i < topic::levels(t).len() ==> !(#[trigger] topic::levels(t)[i]).contains(0x2F),
    decreases t.len(),
{
    let all = topic::levels(t);
    if t.len() == 0 {
        assert(joined(all) =~= t);
    } else {
        let front = topic::levels(t.drop_last());
        law_levels_are_what_slashes_part(t.drop_last());
        assert(t.drop_last().push(t.last()) =~= t);
        if t.last() == 0x2F {
            assert(all.drop_last() =~= front);
            assert(joined(all) =~= t);
            assert forall|i: int| 0 <= i < all.len() implies !(#[trigger] all[i]).contains(
                0x2F,
            ) by {
                if i < front.len() {
                    assert(all[i] == front[i]);
                }
            }
        } else {
            let longer = front.last().push(t.last());
            assert(all.last() == longer);
            if front.len() == 1 {
                assert(all =~= seq![longer]);
            } else {
                assert(all.drop_last() =~= front.drop_last());
                assert(joined(all) =~= t);
            }
            assert forall|i: int| 0 <= i < all.len() implies !(#[trigger] all[i]).contains(
                0x2F,
            ) by {
                if i < front.len() - 1 {
                    assert(all[i] == front[i]);
                } else {
                    assert(!front[front.len() - 1].contains(0x2F));
                    assert forall|k: int| 0 <= k < longer.len() implies longer[k] != 0x2F by {
                        if k < longer.len() - 1 {
                            assert(front.last().contains(front.last()[k]));
                        }
                    }
                }
            }
        }
    }
}

/// A filter matches a topic exactly where its levels up to the first `#` stand for the levels of
/// the topic one for one: for all of them where there is no `#`, and otherwise for the first of
/// them, however many follow. `k` is where the first `#` is, or the number of levels of a filter
/// without one.
pub proof fn law_filter_matches(t: Seq<Seq<u8>>, filter: Seq<Seq<u8>>, k: int)
    requires
        0 <= k <= filter.len(),
        forall|i: int| 0 <= i < k ==> #[trigger] filter[i] != seq![0x23u8],
        k < filter.len() ==> filter[k] == seq![0x23u8],
    ensures
        topic::levels_match(t, filter) <==> (if k < filter.len() {
            t.len() >= k
        } else {
            t.len() == k
        }) && stand_for(filter, t, k),
    decreases filter.len(),
{
    assert(topic::hash() =~= seq![0x23u8]);
    assert(topic::plus() =~= seq![0x2Bu8]);
    if k > 0 {
        assert(filter[0] != seq![0x23u8]);
        if t.len() > 0 {
            let f1 = filter.drop_first();
            let t1 = t.drop_first();
            assert forall|i: int| 0 <= i < k - 1 implies #[trigger] f1[i] != seq![0x23u8] by {
                assert(f1[i] == filter[i + 1]);
            }
            law_filter_matches(t1, f1, k - 1);
            if t.len() >= k && stand_for(filter, t, k) {
                assert(stands_for(filter[0], t[0]));
                assert forall|i: int| 0 <= i < k - 1 implies stands_for(
                    #[trigger] f1[i],
                    t1[i],
                ) by {
                    assert(stands_for(filter[i + 1], t[i + 1]));
                }
                assert(stand_for(f1, t1, k - 1));
            }
            if t.len() >= k && stand_for(f1, t1, k - 1) && stands_for(filter[0], t[0]) {
                assert forall|i: int| 0 <= i < k implies stands_for(
                    #[trigger] filter[i],
                    t[i],
                ) by {
                    if i > 0 {
                        assert(stands_for(f1[i - 1], t1[i - 1]));
                    }
                }
                assert(stand_for(filter, t, k));
            }
        }
    }
}

/// Where a byte occurs first, it occurs, and nowhere before.
proof fn lemma_first(data: Seq<u8>, b: u8)
    ensures
        match topic::first_index(data, b) {
            Some(i) => 0 <= i < data.len() && data[i] == b && forall|j: int|
                0 <= j < i ==> #[trigger] data[j] != b,
            None => !data.contains(b),
        },
    decreases data.len(),
{
    if data.len() > 0 {
        lemma_first(data.drop_last(), b);
        match topic::first_index(data.drop_last(), b) {
            Some(i) => {
                assert(data.drop_last()[i] == data[i]);
                assert forall|j: int| 0 <= j < i implies #[trigger] data[j] != b by {
                    assert(data.drop_last()[j] == data[j]);
                }
            },
            None => {
                assert forall|j: int| 0 <= j < data.len() - 1 implies #[trigger] data[j] != b by {
                    assert(data.drop_last()[j] == data[j]);
                    assert(data.drop_last().contains(data.drop_last()[j]));
                }
            },
        }
    }
}

/// The group of a shared subscription stands between `$share/` and the next `/`, and the filter
/// behind it.
pub proof fn law_shared_filter(filter: Seq<u8>, group: Seq<u8>, rest: Seq<u8>)
    requires
        shares(filter, group, rest),
    ensures
        topic::share_group(filter) == Some(group),
        topic::plain_filter(filter) == rest,
{
    let tail = filter.skip(7);
    assert(filter.take(7) =~= topic::share_prefix());
    assert(tail =~= group + seq![0x2Fu8] + rest);
    lemma_first(tail, topic::SLASH);
    let g = group.len() as int;
    assert(tail[g] == 0x2F);
    assert(tail.contains(tail[g]));
    match topic::first_index(tail, topic::SLASH) {
        Some(i) => {
            if i < g {
                assert(tail[i] == group[i]);
                assert(group.contains(group[i]));
            }
            assert(i == g);
            assert(tail.take(i) =~= group);
            assert(tail.skip(i + 1) =~= rest);
        },
        None => {},
    }
}

/// A filter that is not made up as that of a shared subscription has no group, and topics are
/// held against the whole of it.
pub proof fn law_filter_of_one_client(filter: Seq<u8>)
    requires
        forall|group: Seq<u8>, rest: Seq<u8>| !#[trigger] shares(filter, group, rest),
    ensures
        topic::share_group(filter) is None,
        topic::plain_filter(filter) == filter,
{
    if topic::has_share_prefix(filter) {
        let tail = filter.skip(7);
        lemma_first(tail, topic::SLASH);
        match topic::first_index(tail, topic::SLASH) {
            Some(i) => {
                let group = tail.take(i);
                let rest = tail.skip(i + 1);
                assert(filter =~= filter.take(7) + tail);
                assert(tail =~= group + seq![0x2Fu8] + rest);
                assert(filter =~= seq![36u8, 115, 104, 97, 114, 101, 47] + group + seq![0x2Fu8]
                    + rest);
                assert forall|j: int| 0 <= j < group.len() implies group[j] != 0x2F by {
                    assert(group[j] == tail[j]);
                }
                assert(shares(filter, group, rest));
            },
            None => {},
        }
    }
}

/// Whether wildcards stand where they may among the levels of a filter: `#` alone and last, `+`
/// alone.
pub open spec fn placed(parts: Seq<Seq<u8>>) -> bool {
    &&& forall|i: int|
        0 <= i < parts.len() && (#[trigger] parts[i]).contains(0x23) ==> i == parts.len() - 1
            && parts[i] == seq![0x23u8]
    &&& forall|i: int|
        0 <= i < parts.len() && (#[trigger] parts[i]).contains(0x2B) ==> parts[i] == seq![0x2Bu8]
}

/// A filter is valid where it is not empty and its wildcards stand where they may; that of a
/// shared subscription where its group is not empty and holds no wildcard, and the filter behind
/// the group is valid. What begins with `$share/` and has no group is not valid.
pub proof fn law_valid_filter(filter: Seq<u8>)
    ensures
        forall|group: Seq<u8>, rest: Seq<u8>| #[trigger]
            shares(filter, group, rest) ==> (topic::filter_valid(filter) <==> group.len() > 0
                && !group.contains(0x2B) && !group.contains(0x23) && rest.len() > 0 && placed(
                topic::levels(rest),
            )),
        (forall|group: Seq<u8>, rest: Seq<u8>| !#[trigger] shares(filter, group, rest)) ==> (
        topic::filter_valid(filter) <==> filter.len() > 0 && placed(topic::levels(filter)) && !(
        filter.len() >= 7 && filter.take(7) == seq![36u8, 115, 104, 97, 114, 101, 47])),
{
    assert(topic::hash() =~= seq![0x23u8]);
    assert(topic::plus() =~= seq![0x2Bu8]);
    assert forall|parts: Seq<Seq<u8>>| #[trigger]
        topic::wildcards_placed(parts) == placed(parts) by {
        if topic::wildcards_placed(parts) {
            assert(placed(parts));
        }
        if placed(parts) {
            assert(topic::wildcards_placed(parts));
        }
    }
    assert forall|group: Seq<u8>, rest: Seq<u8>| #[trigger]
        shares(filter, group, rest) implies (topic::filter_valid(filter) <==> group.len() > 0
        && !group.contains(0x2B) && !group.contains(0x23) && rest.len() > 0 && placed(
        topic::levels(rest),
    )) by {
        law_shared_filter(filter, group, rest);
        assert(filter.take(7) =~= topic::share_prefix());
        assert(topic::wildcards_placed(topic::levels(rest)) == placed(topic::levels(rest)));
    }
    if forall|group: Seq<u8>, rest: Seq<u8>| !#[trigger] shares(filter, group, rest) {
        law_filter_of_one_client(filter);
        assert(topic::wildcards_placed(topic::levels(filter)) == placed(topic::levels(filter)));
    }
}

/// The fault of a topic name is that of its first byte that has one.
proof fn lemma_first_fault(data: Seq<u8>, i: int)
    requires
        0 <= i < data.len(),
        !plain_byte(data[i]),
        forall|j: int| 0 <= j < i ==> plain_byte(#[trigger] data[j]),
    ensures
        topic::first_byte_fault(data) == topic::byte_fault(data[i]),
    decreases data.len(),
{
    let front = data.drop_last();
    if i < front.len() {
        assert forall|j: int| 0 <= j < i implies plain_byte(#[trigger] front[j]) by {
            assert(front[j] == data[j]);
        }
        lemma_first_fault(front, i);
    } else {
        assert forall|j: int| 0 <= j < front.len() implies plain_byte(#[trigger] front[j]) by {
            assert(front[j] == data[j]);
        }
        lemma_no_fault(front);
    }
}

/// Bytes that a topic name may hold have no fault.
proof fn lemma_no_fault(data: Seq<u8>)
    requires
        forall|j: int| 0 <= j < data.len() ==> plain_byte(#[trigger] data[j]),
    ensures
        topic::first_byte_fault(data) is None,
    decreases data.len(),
{
    if data.len() > 0 {
        let front = data.drop_last();
        assert forall|j: int| 0 <= j < front.len() implies plain_byte(#[trigger] front[j]) by {
            assert(front[j] == data[j]);
        }
        lemma_no_fault(front);
        assert(plain_byte(data[data.len() - 1]));
    }
}

/// A topic name is accepted where all its bytes and all its characters are ones that it may hold.
pub proof fn law_accepted_topic(t: Seq<char>)
    ensures
        topic::topic_fault(t) is None <==> (forall|i: int|
            0 <= i < utf8::encode_utf8(t).len() ==> plain_byte(
                #[trigger] utf8::encode_utf8(t)[i],
            )) && (forall|i: int| 0 <= i < t.len() ==> plain_char(#[trigger] t[i])),
{
    let data = utf8::encode_utf8(t);
    if forall|i: int| 0 <= i < data.len() ==> plain_byte(#[trigger] data[i]) {
        lemma_no_fault(data);
        if exists|i: int| 0 <= i < t.len() && topic::forbidden_char(#[trigger] t[i]) {
            let i = choose|i: int| 0 <= i < t.len() && topic::forbidden_char(#[trigger] t[i]);
            assert(!plain_char(t[i]));
        }
        if exists|i: int| 0 <= i < t.len() && !plain_char(#[trigger] t[i]) {
            let i = choose|i: int| 0 <= i < t.len() && !plain_char(#[trigger] t[i]);
            assert(topic::forbidden_char(t[i]));
        }
    } else {
        let i = lemma_a_first_fault(data, data.len() as int);
        lemma_first_fault(data, i);
    }
}

/// Where bytes have a fault among the first `n`, one of them is the first that has.
proof fn lemma_a_first_fault(data: Seq<u8>, n: int) -> (i: int)
    requires
        0 <= n <= data.len(),
        exists|j: int| 0 <= j < n && !plain_byte(#[trigger] data[j]),
    ensures
        0 <= i < n,
        !plain_byte(data[i]),
        forall|j: int| 0 <= j < i ==> plain_byte(#[trigger] data[j]),
    decreases n,
{
    if exists|j: int| 0 <= j < n - 1 && !plain_byte(#[trigger] data[j]) {
        lemma_a_first_fault(data, n - 1)
    } else {
        n - 1
    }
}

/// A topic name is refused with 0x82 where its first byte that it may not hold is a wildcard, and
/// with 0x81 where that is another; a character beyond ASCII that it may not hold is refused with
/// 0x81 too.
pub proof fn law_refused_topic(t: Seq<char>, i: int)
    requires
        0 <= i <= utf8::encode_utf8(t).len(),
        forall|j: int| 0 <= j < i ==> plain_byte(#[trigger] utf8::encode_utf8(t)[j]),
        i < utf8::encode_utf8(t).len() ==> !plain_byte(utf8::encode_utf8(t)[i]),
    ensures
        i < utf8::encode_utf8(t).len() ==> topic::topic_fault(t) == Some(
            if utf8::encode_utf8(t)[i] == 0x2B || utf8::encode_utf8(t)[i] == 0x23 {
                0x82u8
            } else {
                0x81
            },
        ),
        i == utf8::encode_utf8(t).len() ==> topic::topic_fault(t) is None
            || topic::topic_fault(t) == Some(0x81u8),
{
    let data = utf8::encode_utf8(t);
    if i < data.len() {
        lemma_first_fault(data, i);
    } else {
        lemma_no_fault(data);
    }
}

} // verus!
