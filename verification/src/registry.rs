//! A table of values by name.

use vstd::prelude::*;
use crate::text::str_eq;

verus! {

/// Values by name; no name occurs twice.
#[derive(Debug)]
pub struct Registry<T> {
    entries: Vec<(String, T)>,
}

/// What a list of entries says of a name: the last entry counts.
spec fn lookup<T>(entries: Seq<(String, T)>, name: Seq<char>) -> Option<T>
    decreases entries.len(),
{
    if entries.len() == 0 {
        None
    } else if entries.last().0@ == name {
        Some(entries.last().1)
    } else {
        lookup(entries.drop_last(), name)
    }
}

/// Whether no name occurs twice.
spec fn distinct<T>(entries: Seq<(String, T)>) -> bool {
    forall|i: int, j: int|
        0 <= i < j < entries.len() ==> (#[trigger] entries[i]).0@ != (#[trigger] entries[j]).0@
}

/// A name that occurs has the value of its entry.
proof fn lemma_lookup<T>(entries: Seq<(String, T)>, name: Seq<char>)
    requires
        distinct(entries),
    ensures
        lookup(entries, name) matches Some(v) ==> exists|i: int|
            0 <= i < entries.len() && (#[trigger] entries[i]).0@ == name && entries[i].1 == v,
        lookup(entries, name) is None ==> forall|i: int|
            0 <= i < entries.len() ==> (#[trigger] entries[i]).0@ != name,
        forall|i: int|
            0 <= i < entries.len() && (#[trigger] entries[i]).0@ == name ==> lookup(entries, name)
                == Some(entries[i].1),
    decreases entries.len(),
{
    if entries.len() > 0 {
        let front = entries.drop_last();
        if entries.last().0@ == name {
            assert(entries[entries.len() - 1].0@ == name);
        } else {
            lemma_lookup(front, name);
            if let Some(v) = lookup(front, name) {
                let i = choose|i: int|
                    0 <= i < front.len() && (#[trigger] front[i]).0@ == name && front[i].1 == v;
                assert(entries[i] == front[i]);
            } else {
                assert forall|i: int| 0 <= i < entries.len() implies (#[trigger] entries[i]).0@
                    != name by {
                    if i < front.len() {
                        assert(front[i] == entries[i]);
                    }
                }
            }
        }
    }
}

impl<T> View for Registry<T> {
    type V = Map<Seq<char>, T>;

    closed spec fn view(&self) -> Map<Seq<char>, T> {
        Map::new(
            |name: Seq<char>| lookup(self.entries@, name) is Some,
            |name: Seq<char>| lookup(self.entries@, name)->0,
        )
    }
}

impl<T> Registry<T> {
    /// No name occurs twice.
    #[verifier::type_invariant]
    spec fn type_inv(&self) -> bool {
        distinct(self.entries@)
    }

    /// A table without values.
    pub fn new() -> (r: Self)
        ensures
            r@ == Map::<Seq<char>, T>::empty(),
    {
        let r = Registry { entries: Vec::new() };
        assert(r@ =~= Map::<Seq<char>, T>::empty());
        r
    }

    /// Where a name stands.
    fn find(&self, name: &str) -> (r: Option<usize>)
        ensures
            match r {
                Some(i) => i < self.entries@.len() && self.entries@[i as int].0@ == name@
                    && self@.contains_key(name@) && self@[name@] == self.entries@[i as int].1,
                None => !self@.contains_key(name@),
            },
    {
        proof {
            use_type_invariant(self);
            lemma_lookup(self.entries@, name@);
        }
        let mut i: usize = 0;
        while i < self.entries.len()
            invariant
                i <= self.entries@.len(),
                forall|k: int| 0 <= k < i ==> (#[trigger] self.entries@[k]).0@ != name@,
                forall|k: int|
                    0 <= k < self.entries@.len() && (#[trigger] self.entries@[k]).0@ == name@
                        ==> lookup(self.entries@, name@) == Some(self.entries@[k].1),
                lookup(self.entries@, name@) matches Some(v) ==> exists|k: int|
                    0 <= k < self.entries@.len() && (#[trigger] self.entries@[k]).0@ == name@
                        && self.entries@[k].1 == v,
            decreases self.entries@.len() - i,
        {
            if str_eq(self.entries[i].0.as_str(), name) {
                return Some(i);
            }
            i = i + 1;
        }
        None
    }

    /// Whether a name has a value.
    pub fn contains_key(&self, name: &str) -> (r: bool)
        ensures
            r == self@.contains_key(name@),
    {
        self.find(name).is_some()
    }

    /// The value of a name.
    pub fn get(&self, name: &str) -> (r: Option<&T>)
        ensures
            match r {
                Some(v) => self@.contains_key(name@) && *v == self@[name@],
                None => !self@.contains_key(name@),
            },
    {
        match self.find(name) {
            Some(i) => Some(&self.entries[i].1),
            None => None,
        }
    }

    /// Takes the value of a name out.
    pub fn remove(&mut self, name: &str) -> (r: Option<T>)
        ensures
            final(self)@ == old(self)@.remove(name@),
            match r {
                Some(v) => old(self)@.contains_key(name@) && v == old(self)@[name@],
                None => !old(self)@.contains_key(name@),
            },
    {
        let ghost id = name@;
        match self.find(name) {
            Some(i) => {
                let ghost before = self.entries@;
                proof {
                    use_type_invariant(&*self);
                }
                let mut entries: Vec<(String, T)> = Vec::new();
                std::mem::swap(&mut entries, &mut self.entries);
                let (_, value) = entries.remove(i);
                proof {
                    let after = entries@;
                    assert forall|a: int, b: int| 0 <= a < b < after.len() implies (
                    #[trigger] after[a]).0@ != (#[trigger] after[b]).0@ by {
                        let x = if a < i {
                            a
                        } else {
                            a + 1
                        };
                        let y = if b < i {
                            b
                        } else {
                            b + 1
                        };
                        assert(after[a] == before[x] && after[b] == before[y]);
                    }
                    assert forall|k: Seq<char>| lookup(after, k) == (if k == id {
                        None
                    } else {
                        lookup(before, k)
                    }) by {
                        lemma_lookup(after, k);
                        lemma_lookup(before, k);
                        if let Some(v) = lookup(after, k) {
                            let a = choose|a: int|
                                0 <= a < after.len() && (#[trigger] after[a]).0@ == k && after[a].1
                                    == v;
                            let x = if a < i {
                                a
                            } else {
                                a + 1
                            };
                            assert(before[x] == after[a]);
                            assert(before[i as int].0@ == id);
                        }
                        if let Some(v) = lookup(before, k) {
                            let a = choose|a: int|
                                0 <= a < before.len() && (#[trigger] before[a]).0@ == k
                                    && before[a].1 == v;
                            if k != id {
                                let x = if a < i {
                                    a
                                } else {
                                    a - 1
                                };
                                assert(after[x] == before[a]);
                            }
                        }
                    }
                }
                self.entries = entries;
                assert(self@ =~= old(self)@.remove(id));
                Some(value)
            },
            None => {
                assert(self@ =~= old(self)@.remove(id));
                None
            },
        }
    }

    /// Sets the value of a name.
    pub fn insert(&mut self, name: String, value: T)
        ensures
            final(self)@ == old(self)@.insert(name@, value),
    {
        let ghost id = name@;
        let _ = self.remove(name.as_str());
        let ghost before = self.entries@;
        let ghost mid = self@;
        proof {
            use_type_invariant(&*self);
        }
        let mut entries: Vec<(String, T)> = Vec::new();
        std::mem::swap(&mut entries, &mut self.entries);
        entries.push((name, value));
        proof {
            let after = entries@;
            assert(after.drop_last() =~= before);
            lemma_lookup(before, id);
            assert(lookup(before, id) is None) by {
                assert(!mid.contains_key(id));
            }
            assert forall|a: int, b: int| 0 <= a < b < after.len() implies (#[trigger] after[a]).0@
                != (#[trigger] after[b]).0@ by {
                assert(after[a] == before[a]);
                if b < before.len() {
                    assert(after[b] == before[b]);
                }
            }
        }
        self.entries = entries;
        assert forall|k: Seq<char>| lookup(self.entries@, k) == (if k == id {
            Some(value)
        } else {
            lookup(before, k)
        }) by {
            assert(self.entries@.drop_last() =~= before);
        }
        assert(mid =~= old(self)@.remove(id));
        let ghost want = mid.insert(id, value);
        assert forall|k: Seq<char>| self@.contains_key(k) == want.contains_key(k) by {
            assert(mid.contains_key(k) == (lookup(before, k) is Some));
        }
        assert forall|k: Seq<char>| #[trigger] self@.contains_key(k) implies self@[k]
            == want[k] by {
            assert(lookup(self.entries@, k)->0 == self@[k]);
            if k != id {
                assert(mid[k] == lookup(before, k)->0);
            }
        }
        assert(self@ =~= want);
        assert(self@ =~= old(self)@.insert(id, value));
    }

    /// The names that have a value, each once.
    pub fn keys(&self) -> (list: Vec<String>)
        ensures
            ({
                let names = names_view(list@);
                &&& names.no_duplicates()
                &&& names.to_set() == self@.dom()
            }),
    {
        proof {
            use_type_invariant(self);
        }
        let mut list: Vec<String> = Vec::new();
        let mut i: usize = 0;
        while i < self.entries.len()
            invariant
                i <= self.entries@.len(),
                list@.len() == i,
                forall|k: int| 0 <= k < i ==> (#[trigger] list@[k])@ == self.entries@[k].0@,
            decreases self.entries@.len() - i,
        {
            list.push(self.entries[i].0.clone());
            i = i + 1;
        }
        proof {
            let names = names_view(list@);
            assert forall|name: Seq<char>| #[trigger] names.contains(name) <==> self@.contains_key(
                name,
            ) by {
                lemma_lookup(self.entries@, name);
                if names.contains(name) {
                    let k = choose|k: int| 0 <= k < names.len() && names[k] == name;
                    assert(list@[k]@ == name);
                    assert(self.entries@[k].0@ == name);
                }
                if let Some(v) = lookup(self.entries@, name) {
                    let k = choose|k: int|
                        0 <= k < self.entries@.len() && (#[trigger] self.entries@[k]).0@ == name
                            && self.entries@[k].1 == v;
                    assert(list@[k]@ == name);
                    assert(names[k] == name);
                }
            }
            assert(names.to_set() =~= self@.dom());
            assert forall|a: int, b: int|
                0 <= a < names.len() && 0 <= b < names.len() && a != b implies names[a]
                != names[b] by {
                assert(list@[a]@ == names[a] && list@[b]@ == names[b]);
                assert(self.entries@[a].0@ == names[a] && self.entries@[b].0@ == names[b]);
            }
        }
        list
    }

    /// How many names have a value.
    pub fn len(&self) -> (n: usize)
        ensures
            n == self@.dom().len(),
            self@.dom().finite(),
    {
        let list = self.keys();
        proof {
            names_view(list@).unique_seq_to_set();
        }
        list.len()
    }
}

/// The content of a list of names.
pub open spec fn names_view(list: Seq<String>) -> Seq<Seq<char>> {
    Seq::new(list.len(), |i: int| list[i]@)
}

} // verus!
