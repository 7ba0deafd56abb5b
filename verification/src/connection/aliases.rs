//! The topic aliases that the server uses towards a client.

use vstd::prelude::*;
use crate::text::str_eq;

verus! {

/// The topics for which a connection has an alias: the alias of the first is 1, and so on. No
/// topic occurs twice.
#[derive(Debug)]
pub struct OutboundAliases {
    /// The largest alias that the client takes.
    pub maximum: u16,
    /// The topics, and whether the client knows the alias.
    pub topics: Vec<(String, bool)>,
}

/// The topics of an alias table, as the contracts see them.
pub open spec fn topics_view(list: Seq<(String, bool)>) -> Seq<(Seq<char>, bool)> {
    list.map_values(|e: (String, bool)| (e.0@, e.1))
}

/// Where a topic stands in a table, or the length of the table.
pub open spec fn place_of(table: Seq<(Seq<char>, bool)>, t: Seq<char>) -> nat
    decreases table.len(),
{
    if table.len() == 0 {
        0
    } else if place_of(table.drop_last(), t) < table.len() - 1 {
        place_of(table.drop_last(), t)
    } else if table.last().0 == t {
        (table.len() - 1) as nat
    } else {
        table.len()
    }
}

/// The place of a topic is where it stands first.
proof fn lemma_place_of(table: Seq<(Seq<char>, bool)>, t: Seq<char>, n: nat)
    requires
        n <= table.len(),
        forall|i: int| 0 <= i < n ==> (#[trigger] table[i]).0 != t,
        n < table.len() ==> table[n as int].0 == t,
    ensures
        place_of(table, t) == n,
    decreases table.len(),
{
    if table.len() > 0 {
        let front = table.drop_last();
        assert(forall|i: int| 0 <= i < front.len() ==> front[i] == table[i]);
        if n < table.len() - 1 {
            lemma_place_of(front, t, n);
        } else {
            lemma_place_of(front, t, front.len());
        }
    }
}

impl OutboundAliases {
    /// No alias is larger than the client takes.
    pub open spec fn wf(&self) -> bool {
        self.topics@.len() <= self.maximum
    }

    /// The table, as the contracts see it.
    pub open spec fn table(&self) -> Seq<(Seq<char>, bool)> {
        topics_view(self.topics@)
    }

    /// No alias yet.
    pub fn new(maximum: u16) -> (r: Self)
        ensures
            r.wf(),
            r.maximum == maximum,
            r.table() == Seq::<(Seq<char>, bool)>::empty(),
    {
        let r = OutboundAliases { maximum, topics: Vec::new() };
        assert(r.table() =~= Seq::empty());
        r
    }

    /// Where a topic stands in the table, or its length.
    fn position(&self, topic: &str) -> (n: usize)
        ensures
            n == place_of(self.table(), topic@),
            n <= self.topics@.len(),
            n < self.topics@.len() ==> self.topics@[n as int].0@ == topic@,
    {
        let mut i: usize = 0;
        while i < self.topics.len()
            invariant
                i <= self.topics@.len(),
                forall|j: int| 0 <= j < i ==> (#[trigger] self.table()[j]).0 != topic@,
            decreases self.topics@.len() - i,
        {
            if str_eq(self.topics[i].0.as_str(), topic) {
                proof {
                    assert(self.table()[i as int].0 == topic@);
                    lemma_place_of(self.table(), topic@, i as nat);
                }
                return i;
            }
            i = i + 1;
        }
        proof {
            lemma_place_of(self.table(), topic@, i as nat);
        }
        i
    }

    /// The alias of a topic and whether the client knows it; a topic without alias gets one while
    /// there is room.
    pub fn alias_for(&mut self, topic: &str) -> (r: Option<(u16, bool)>)
        requires
            old(self).wf(),
        ensures
            final(self).wf(),
            final(self).maximum == old(self).maximum,
            ({
                let n = place_of(old(self).table(), topic@);
                if n < old(self).table().len() {
                    r == Some(((n + 1) as u16, old(self).table()[n as int].1)) && final(self).table() == old(self).table()
                } else if n < old(self).maximum {
                    r == Some(((n + 1) as u16, false)) && final(self).table() == old(self).table().push((topic@, false))
                } else {
                    r is None && final(self).table() == old(self).table()
                }
            }),
    {
        let n: usize = self.position(topic);
        if n < self.topics.len() {
            let known = self.topics[n].1;
            assert(self.table()[n as int].1 == known);
            Some(((n + 1) as u16, known))
        } else if n < self.maximum as usize {
            let ghost was = self.table();
            let entry = (topic.to_owned(), false);
            self.topics.push(entry);
            assert(self.table() =~= was.push((topic@, false)));
            Some(((n + 1) as u16, false))
        } else {
            None
        }
    }

    /// Notes that the client knows the alias of a topic.
    pub fn mark_established(&mut self, topic: &str)
        requires
            old(self).wf(),
        ensures
            final(self).wf(),
            final(self).maximum == old(self).maximum,
            ({
                let n = place_of(old(self).table(), topic@);
                final(self).table() == if n < old(self).table().len() {
                    old(self).table().update(n as int, (topic@, true))
                } else {
                    old(self).table()
                }
            }),
    {
        let n: usize = self.position(topic);
        if n < self.topics.len() {
            let ghost was = self.table();
            let entry = (topic.to_owned(), true);
            self.topics.set(n, entry);
            assert(self.table() =~= was.update(n as int, (topic@, true)));
        }
    }
}

/// Two topics never share an alias.
pub proof fn law_aliases_are_distinct(
    table: Seq<(Seq<char>, bool)>,
    a: Seq<char>,
    b: Seq<char>,
)
    requires
        place_of(table, a) < table.len(),
        place_of(table, b) < table.len(),
        place_of(table, a) == place_of(table, b),
    ensures
        a == b,
    decreases table.len(),
{
    let front = table.drop_last();
    if place_of(front, a) < front.len() && place_of(front, b) < front.len() {
        law_aliases_are_distinct(front, a, b);
    } else {
        lemma_place_bound(front, a);
        lemma_place_bound(front, b);
    }
}

/// The place of a topic is at most the length of the table.
proof fn lemma_place_bound(table: Seq<(Seq<char>, bool)>, t: Seq<char>)
    ensures
        place_of(table, t) <= table.len(),
    decreases table.len(),
{
    if table.len() > 0 {
        lemma_place_bound(table.drop_last(), t);
    }
}

} // verus!
