//! Whose turn it is in each group of shared subscriptions.

use vstd::prelude::*;
use crate::broker::model;
use crate::text::{bytes_eq, copy_bytes};

verus! {

/// How often each group was served.
#[derive(Debug)]
pub struct Turns {
    entries: Vec<(Vec<u8>, u64)>,
}

/// What a list says of a group: the last entry counts.
spec fn lookup(entries: Seq<(Vec<u8>, u64)>, group: Seq<u8>) -> Option<u64>
    decreases entries.len(),
{
    if entries.len() == 0 {
        None
    } else if entries.last().0@ == group {
        Some(entries.last().1)
    } else {
        lookup(entries.drop_last(), group)
    }
}

/// The last entry of a group says what counts.
proof fn lemma_last_entry(entries: Seq<(Vec<u8>, u64)>, n: int, group: Seq<u8>)
    requires
        0 <= n <= entries.len(),
        forall|k: int| n <= k < entries.len() ==> (#[trigger] entries[k]).0@ != group,
    ensures
        lookup(entries, group) == lookup(entries.take(n), group),
    decreases entries.len(),
{
    if n < entries.len() {
        let front = entries.drop_last();
        assert(entries[entries.len() - 1].0@ != group);
        assert forall|k: int| n <= k < front.len() implies (#[trigger] front[k]).0@ != group by {
            assert(entries[k].0@ != group);
        }
        lemma_last_entry(front, n, group);
        assert(front.take(n) =~= entries.take(n));
    } else {
        assert(entries.take(n) =~= entries);
    }
}

/// Another number in the last entry of a group changes what counts for that group only.
proof fn lemma_renumbered(
    entries: Seq<(Vec<u8>, u64)>,
    changed: Seq<(Vec<u8>, u64)>,
    i: int,
    group: Seq<u8>,
    other: Seq<u8>,
)
    requires
        0 <= i < entries.len(),
        changed.len() == entries.len(),
        entries[i].0@ == group,
        changed[i].0@ == group,
        forall|k: int| 0 <= k < entries.len() && k != i ==> #[trigger] changed[k] == entries[k],
        forall|k: int| i < k < entries.len() ==> (#[trigger] entries[k]).0@ != group,
    ensures
        lookup(changed, other) == (if other == group {
            Some(changed[i].1)
        } else {
            lookup(entries, other)
        }),
    decreases entries.len(),
{
    if i == entries.len() - 1 {
        assert(changed.drop_last() =~= entries.drop_last());
    } else {
        let e = entries.drop_last();
        let c = changed.drop_last();
        assert(changed.last() == changed[entries.len() - 1]);
        assert(changed[entries.len() - 1] == entries[entries.len() - 1]);
        assert(entries[entries.len() - 1].0@ != group);
        assert forall|k: int| 0 <= k < e.len() && k != i implies #[trigger] c[k] == e[k] by {
            assert(changed[k] == entries[k]);
        }
        assert forall|k: int| i < k < e.len() implies (#[trigger] e[k]).0@ != group by {
            assert(entries[k].0@ != group);
        }
        lemma_renumbered(e, c, i, group, other);
    }
}

impl View for Turns {
    type V = Map<Seq<u8>, u64>;

    closed spec fn view(&self) -> Map<Seq<u8>, u64> {
        Map::new(
            |g: Seq<u8>| lookup(self.entries@, g) is Some,
            |g: Seq<u8>| lookup(self.entries@, g)->0,
        )
    }
}

impl Turns {
    /// No group was served.
    pub fn new() -> (r: Self)
        ensures
            r@ == Map::<Seq<u8>, u64>::empty(),
    {
        let r = Turns { entries: Vec::new() };
        assert(r@ =~= Map::<Seq<u8>, u64>::empty());
        r
    }

    /// How often a group was served so far; it is served once more.
    pub fn next(&mut self, group: &[u8]) -> (turn: u64)
        ensures
            turn == model::times_served(old(self)@, group@),
            final(self)@ == old(self)@.insert(group@, turn.wrapping_add(1)),
    {
        let ghost before = self.entries@;
        let mut n: usize = self.entries.len();
        while n > 0
            invariant
                n <= self.entries@.len(),
                self.entries@ == before,
                before == old(self).entries@,
                forall|k: int| n <= k < before.len() ==> (#[trigger] before[k]).0@ != group@,
            decreases n,
        {
            n = n - 1;
            if bytes_eq(self.entries[n].0.as_slice(), group) {
                let turn: u64 = self.entries[n].1;
                let name = copy_bytes(group);
                self.entries.set(n, (name, turn.wrapping_add(1)));
                proof {
                    let changed = self.entries@;
                    lemma_last_entry(before, n + 1, group@);
                    assert(before.take(n + 1).last() == before[n as int]);
                    assert forall|g: Seq<u8>| lookup(changed, g) == (if g == group@ {
                        Some(turn.wrapping_add(1))
                    } else {
                        lookup(before, g)
                    }) by {
                        lemma_renumbered(before, changed, n as int, group@, g);
                    }
                    assert(self@ =~= old(self)@.insert(group@, turn.wrapping_add(1)));
                }
                return turn;
            }
        }
        proof {
            lemma_last_entry(before, 0, group@);
            assert(before.take(0) =~= Seq::empty());
        }
        self.entries.push((copy_bytes(group), 1));
        proof {
            assert(self.entries@.drop_last() =~= before);
            assert(self@ =~= old(self)@.insert(group@, 1));
        }
        0
    }
}

} // verus!
