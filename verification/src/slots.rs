//! A table of values by packet identifier.

use vstd::prelude::*;

verus! {

/// Values by packet identifier; no identifier occurs twice.
#[derive(Debug)]
pub struct Slots<T> {
    entries: Vec<(u16, T)>,
}

/// What a list of entries says of an identifier: the last entry counts.
spec fn lookup<T>(entries: Seq<(u16, T)>, id: u16) -> Option<T>
    decreases entries.len(),
{
    if entries.len() == 0 {
        None
    } else if entries.last().0 == id {
        Some(entries.last().1)
    } else {
        lookup(entries.drop_last(), id)
    }
}

/// Whether no identifier occurs twice.
spec fn distinct<T>(entries: Seq<(u16, T)>) -> bool {
    forall|i: int, j: int|
        0 <= i < j < entries.len() ==> (#[trigger] entries[i]).0 != (#[trigger] entries[j]).0
}

/// An identifier that occurs has the value of its entry.
proof fn lemma_lookup<T>(entries: Seq<(u16, T)>, id: u16)
    requires
        distinct(entries),
    ensures
        lookup(entries, id) matches Some(v) ==> exists|i: int|
            0 <= i < entries.len() && #[trigger] entries[i] == (id, v),
        lookup(entries, id) is None ==> forall|i: int|
            0 <= i < entries.len() ==> (#[trigger] entries[i]).0 != id,
        forall|i: int|
            0 <= i < entries.len() && (#[trigger] entries[i]).0 == id ==> lookup(entries, id)
                == Some(entries[i].1),
    decreases entries.len(),
{
    if entries.len() > 0 {
        let front = entries.drop_last();
        if entries.last().0 == id {
            assert(entries[entries.len() - 1] == (id, entries.last().1));
        } else {
            lemma_lookup(front, id);
            if let Some(v) = lookup(front, id) {
                let i = choose|i: int| 0 <= i < front.len() && #[trigger] front[i] == (id, v);
                assert(entries[i] == (id, v));
            } else {
                assert forall|i: int| 0 <= i < entries.len() implies (#[trigger] entries[i]).0
                    != id by {
                    if i < front.len() {
                        assert(front[i] == entries[i]);
                    }
                }
            }
        }
    }
}

/// The identifiers of a list are finitely many: as many as there are entries.
proof fn lemma_dom<T>(entries: Seq<(u16, T)>)
    requires
        distinct(entries),
    ensures
        Set::new(|id: u16| lookup(entries, id) is Some).finite(),
        Set::new(|id: u16| lookup(entries, id) is Some).len() == entries.len(),
    decreases entries.len(),
{
    let all = Set::new(|id: u16| lookup(entries, id) is Some);
    if entries.len() == 0 {
        assert(all =~= Set::empty());
    } else {
        let front = entries.drop_last();
        let last = entries.last().0;
        lemma_dom(front);
        lemma_lookup(front, last);
        let some = Set::new(|id: u16| lookup(front, id) is Some);
        assert(lookup(front, last) is None) by {
            if let Some(v) = lookup(front, last) {
                let i = choose|i: int| 0 <= i < front.len() && #[trigger] front[i] == (last, v);
                assert(entries[i].0 == entries[entries.len() - 1].0);
            }
        }
        assert(all =~= some.insert(last));
    }
}

impl<T> View for Slots<T> {
    type V = Map<u16, T>;

    closed spec fn view(&self) -> Map<u16, T> {
        Map::new(
            |id: u16| lookup(self.entries@, id) is Some,
            |id: u16| lookup(self.entries@, id)->0,
        )
    }
}

impl<T> Slots<T> {
    /// No identifier occurs twice.
    #[verifier::type_invariant]
    spec fn type_inv(&self) -> bool {
        distinct(self.entries@)
    }

    /// A table without values.
    pub fn new() -> (r: Self)
        ensures
            r@ == Map::<u16, T>::empty(),
    {
        let r = Slots { entries: Vec::new() };
        assert(r@ =~= Map::<u16, T>::empty());
        r
    }

    /// How many values there are.
    pub fn len(&self) -> (n: usize)
        ensures
            n == self@.dom().len(),
            self@.dom().finite(),
    {
        proof {
            use_type_invariant(self);
            lemma_dom(self.entries@);
            assert(self@.dom() =~= Set::new(|id: u16| lookup(self.entries@, id) is Some));
        }
        self.entries.len()
    }

    /// Where an identifier stands.
    fn find(&self, id: u16) -> (r: Option<usize>)
        ensures
            match r {
                Some(i) => i < self.entries@.len() && self.entries@[i as int].0 == id && self@.contains_key(id)
                    && self@[id] == self.entries@[i as int].1,
                None => !self@.contains_key(id),
            },
    {
        proof {
            use_type_invariant(self);
            lemma_lookup(self.entries@, id);
        }
        let mut i: usize = 0;
        while i < self.entries.len()
            invariant
                i <= self.entries@.len(),
                forall|k: int| 0 <= k < i ==> (#[trigger] self.entries@[k]).0 != id,
                forall|k: int|
                    0 <= k < self.entries@.len() && (#[trigger] self.entries@[k]).0 == id
                        ==> lookup(self.entries@, id) == Some(self.entries@[k].1),
                lookup(self.entries@, id) matches Some(v) ==> exists|k: int|
                    0 <= k < self.entries@.len() && #[trigger] self.entries@[k] == (id, v),
            decreases self.entries@.len() - i,
        {
            if self.entries[i].0 == id {
                return Some(i);
            }
            i = i + 1;
        }
        None
    }

    /// Whether an identifier has a value.
    pub fn contains_key(&self, id: u16) -> (r: bool)
        ensures
            r == self@.contains_key(id),
    {
        self.find(id).is_some()
    }

    /// The value of an identifier.
    pub fn get(&self, id: u16) -> (r: Option<&T>)
        ensures
            match r {
                Some(v) => self@.contains_key(id) && *v == self@[id],
                None => !self@.contains_key(id),
            },
    {
        match self.find(id) {
            Some(i) => Some(&self.entries[i].1),
            None => None,
        }
    }

    /// Takes the value of an identifier out.
    pub fn remove(&mut self, id: u16) -> (r: Option<T>)
        ensures
            final(self)@ == old(self)@.remove(id),
            match r {
                Some(v) => old(self)@.contains_key(id) && v == old(self)@[id],
                None => !old(self)@.contains_key(id),
            },
    {
        match self.find(id) {
            Some(i) => {
                let ghost before = self.entries@;
                proof {
                    use_type_invariant(&*self);
                }
                let mut entries: Vec<(u16, T)> = Vec::new();
                std::mem::swap(&mut entries, &mut self.entries);
                let (_, value) = entries.remove(i);
                proof {
                    let after = entries@;
                    assert forall|a: int, b: int| 0 <= a < b < after.len() implies (
                    #[trigger] after[a]).0 != (#[trigger] after[b]).0 by {
                        let x = if a < i {
                            a
                        } else {
                            a + 1
                        };
                        let y = if b < i {
                            b
                        } else {
                            b + 1
                        };
                        assert(after[a] == before[x] && after[b] == before[y]);
                    }
                    assert forall|k: u16| lookup(after, k) == (if k == id {
                        None
                    } else {
                        lookup(before, k)
                    }) by {
                        lemma_lookup(after, k);
                        lemma_lookup(before, k);
                        if let Some(v) = lookup(after, k) {
                            let a = choose|a: int|
                                0 <= a < after.len() && #[trigger] after[a] == (k, v);
                            let x = if a < i {
                                a
                            } else {
                                a + 1
                            };
                            assert(before[x] == after[a]);
                            assert(before[i as int].0 == id);
                        }
                        if let Some(v) = lookup(before, k) {
                            let a = choose|a: int|
                                0 <= a < before.len() && #[trigger] before[a] == (k, v);
                            if k != id {
                                let x = if a < i {
                                    a
                                } else {
                                    a - 1
                                };
                                assert(after[x] == before[a]);
                            }
                        }
                    }
                }
                self.entries = entries;
                assert(self@ =~= old(self)@.remove(id));
                Some(value)
            },
            None => {
                assert(self@ =~= old(self)@.remove(id));
                None
            },
        }
    }

    /// Sets the value of an identifier.
    pub fn insert(&mut self, id: u16, value: T)
        ensures
            final(self)@ == old(self)@.insert(id, value),
    {
        let _ = self.remove(id);
        let ghost before = self.entries@;
        let ghost mid = self@;
        proof {
            use_type_invariant(&*self);
        }
        let mut entries: Vec<(u16, T)> = Vec::new();
        std::mem::swap(&mut entries, &mut self.entries);
        entries.push((id, value));
        proof {
            let after = entries@;
            assert(after.drop_last() =~= before);
            lemma_lookup(before, id);
            assert(lookup(before, id) is None) by {
                assert(!mid.contains_key(id));
            }
            assert forall|a: int, b: int| 0 <= a < b < after.len() implies (#[trigger] after[a]).0
                != (#[trigger] after[b]).0 by {
                assert(after[a] == before[a]);
                if b < before.len() {
                    assert(after[b] == before[b]);
                }
            }
        }
        self.entries = entries;
        assert forall|k: u16| lookup(self.entries@, k) == (if k == id {
            Some(value)
        } else {
            lookup(before, k)
        }) by {
            assert(self.entries@.drop_last() =~= before);
        }
        assert(mid =~= old(self)@.remove(id));
        let ghost want = mid.insert(id, value);
        assert forall|k: u16| self@.contains_key(k) == want.contains_key(k) by {
            assert(mid.contains_key(k) == (lookup(before, k) is Some));
        }
        assert forall|k: u16| #[trigger] self@.contains_key(k) implies self@[k] == want[k] by {
            assert(lookup(self.entries@, k)->0 == self@[k]);
            if k != id {
                assert(mid[k] == lookup(before, k)->0);
            }
        }
        assert(self@ =~= want);
        assert(self@ =~= old(self)@.insert(id, value));
    }

    /// The identifiers that have a value, each once.
    pub fn ids(&self) -> (list: Vec<u16>)
        ensures
            list@.no_duplicates(),
            list@.len() == self@.dom().len(),
            self@.dom().finite(),
            forall|id: u16| #[trigger] list@.contains(id) <==> self@.contains_key(id),
            forall|k: int| 0 <= k < list@.len() ==> self@.contains_key(#[trigger] list@[k]),
    {
        proof {
            use_type_invariant(self);
            lemma_dom(self.entries@);
            assert(self@.dom() =~= Set::new(|id: u16| lookup(self.entries@, id) is Some));
        }
        let mut list: Vec<u16> = Vec::new();
        let mut i: usize = 0;
        while i < self.entries.len()
            invariant
                i <= self.entries@.len(),
                list@.len() == i,
                forall|k: int| 0 <= k < i ==> #[trigger] list@[k] == self.entries@[k].0,
            decreases self.entries@.len() - i,
        {
            list.push(self.entries[i].0);
            i = i + 1;
        }
        proof {
            assert forall|id: u16| #[trigger] list@.contains(id) <==> self@.contains_key(id) by {
                lemma_lookup(self.entries@, id);
                if list@.contains(id) {
                    let k = choose|k: int| 0 <= k < list@.len() && list@[k] == id;
                    assert(self.entries@[k].0 == id);
                }
                if let Some(v) = lookup(self.entries@, id) {
                    let k = choose|k: int|
                        0 <= k < self.entries@.len() && #[trigger] self.entries@[k] == (id, v);
                    assert(list@[k] == id);
                }
            }
            assert forall|k: int| 0 <= k < list@.len() implies self@.contains_key(
                #[trigger] list@[k],
            ) by {
                assert(list@.contains(list@[k]));
            }
            assert forall|a: int, b: int|
                0 <= a < list@.len() && 0 <= b < list@.len() && a != b implies list@[a]
                != list@[b] by {
                assert(self.entries@[a].0 == list@[a] && self.entries@[b].0 == list@[b]);
            }
        }
        list
    }
}

} // verus!
