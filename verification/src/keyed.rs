//! A map from strings, walked in an order of its own.
//!
//! `Keyed` is a hash map that can be walked by position: the entries stand in a
//! row, and an index says where each key stands. The row's order means nothing.

use vstd::hash_map::*;
use vstd::prelude::*;
use vstd::string::*;

use crate::text::{clone_strings, views};

verus! {

#[verifier::reject_recursive_types(V)]
pub struct Keyed<V> {
    keys: Vec<String>,
    vals: Vec<V>,
    slots: StringHashMap<usize>,
}

impl<V> View for Keyed<V> {
    type V = Map<Seq<char>, V>;

    closed spec fn view(&self) -> Map<Seq<char>, V> {
        Map::new(|k: Seq<char>| self.slots@.contains_key(k), |k: Seq<char>| self.vals@[self.slots@[k] as int])
    }
}

impl<V> Keyed<V> {
    /// Every key stands at the place that the index gives, and nowhere else.
    pub closed spec fn wf(self) -> bool {
        &&& self.keys@.len() == self.vals@.len()
        &&& forall|i: int|
            0 <= i < self.keys@.len() ==> self.slots@.contains_key((#[trigger] self.keys@[i])@)
                && self.slots@[self.keys@[i]@] == i
        &&& forall|k: Seq<char>| #[trigger]
            self.slots@.contains_key(k) ==> self.slots@[k] < self.keys@.len()
                && self.keys@[self.slots@[k] as int]@ == k
    }

    /// How many entries there are.
    pub closed spec fn size(self) -> nat {
        self.keys@.len()
    }

    /// The key at a place of the row.
    pub closed spec fn key(self, i: int) -> Seq<char> {
        self.keys@[i]@
    }

    /// The row holds each key of the map once.
    pub proof fn lemma_row(&self)
        requires
            self.wf(),
        ensures
            forall|i: int| #![trigger self.key(i)] 0 <= i < self.size() ==> self@.contains_key(self.key(i)),
            forall|i: int, j: int|
                #![trigger self.key(i), self.key(j)]
                0 <= i < self.size() && 0 <= j < self.size() && i != j ==> self.key(i) != self.key(j),
            forall|k: Seq<char>| #[trigger]
                self@.contains_key(k) ==> exists|i: int| 0 <= i < self.size() && self.key(i) == k,
    {
        assert forall|i: int| #![trigger self.key(i)] 0 <= i < self.size() implies self@.contains_key(
            self.key(i),
        ) by {
            assert(self.slots@.contains_key(self.keys@[i]@));
        }
        assert forall|i: int, j: int|
            #![trigger self.key(i), self.key(j)]
            0 <= i < self.size() && 0 <= j < self.size() && i != j implies self.key(i) != self.key(
            j,
        ) by {
            assert(self.slots@[self.keys@[i]@] == i);
            assert(self.slots@[self.keys@[j]@] == j);
        }
        assert forall|k: Seq<char>| #[trigger] self@.contains_key(k) implies exists|i: int|
            0 <= i < self.size() && self.key(i) == k by {
            assert(self.slots@.contains_key(k));
            assert(self.key(self.slots@[k] as int) == k);
        }
    }

    /// A map with nothing in it.
    pub fn new() -> (r: Self)
        ensures
            r.wf(),
            r@ == Map::<Seq<char>, V>::empty(),
            r.size() == 0,
    {
        let r = Keyed { keys: Vec::new(), vals: Vec::new(), slots: StringHashMap::new() };
        assert(r@ =~= Map::<Seq<char>, V>::empty());
        r
    }

    pub fn len(&self) -> (n: usize)
        ensures
            n == self.size(),
    {
        self.keys.len()
    }

    pub fn contains(&self, k: &str) -> (r: bool)
        ensures
            r == self@.contains_key(k@),
    {
        self.slots.contains_key(k)
    }

    pub fn get(&self, k: &str) -> (r: Option<&V>)
        requires
            self.wf(),
        ensures
            match r {
                Some(v) => self@.contains_key(k@) && *v == self@[k@],
                None => !self@.contains_key(k@),
            },
    {
        match self.slots.get(k) {
            Some(i) => {
                assert(self.slots@.contains_key(k@));
                Some(&self.vals[*i])
            },
            None => None,
        }
    }

    /// The key at a place of the row.
    pub fn key_at(&self, i: usize) -> (r: &String)
        requires
            i < self.size(),
        ensures
            r@ == self.key(i as int),
    {
        &self.keys[i]
    }

    /// The value at a place of the row.
    pub fn value_at(&self, i: usize) -> (r: &V)
        requires
            self.wf(),
            i < self.size(),
        ensures
            *r == self@[self.key(i as int)],
    {
        assert(self.slots@[self.keys@[i as int]@] == i);
        &self.vals[i]
    }

    /// The keys, each once.
    pub fn key_list(&self) -> (r: Vec<String>)
        requires
            self.wf(),
        ensures
            views(r@).no_duplicates(),
            forall|k: Seq<char>| #[trigger] views(r@).contains(k) <==> self@.contains_key(k),
    {
        let r = clone_strings(&self.keys);
        proof {
            self.lemma_row();
            let vs = views(r@);
            assert forall|i: int| 0 <= i < vs.len() implies #[trigger] vs[i] == self.key(i) by {
                assert(views(self.keys@)[i] == self.keys@[i]@);
            }
            assert forall|k: Seq<char>| #[trigger] vs.contains(k) <==> self@.contains_key(k) by {
                if vs.contains(k) {
                    let i = choose|i: int| 0 <= i < vs.len() && vs[i] == k;
                    assert(self@.contains_key(self.key(i)));
                }
                if self@.contains_key(k) {
                    let i = choose|i: int| 0 <= i < self.size() && self.key(i) == k;
                    assert(vs[i] == k);
                }
            }
        }
        r
    }

    /// Puts a value under a key, in place of the one that stood there.
    pub fn insert(&mut self, k: String, v: V)
        requires
            old(self).wf(),
        ensures
            final(self).wf(),
            final(self)@ == old(self)@.insert(k@, v),
    {
        let ghost m = self@;
        let found: Option<usize> = match self.slots.get(k.as_str()) {
            Some(i) => Some(*i),
            None => None,
        };
        match found {
            Some(i) => {
                assert(self.slots@.contains_key(k@));
                self.vals.set(i, v);
                assert(self@ =~= m.insert(k@, v)) by {
                    assert forall|x: Seq<char>| #[trigger] self@.contains_key(x) implies self@[x]
                        == m.insert(k@, v)[x] by {
                        assert(self.keys@[self.slots@[x] as int]@ == x);
                    }
                }
            },
            None => {
                let n: usize = self.keys.len();
                let copy = k.clone();
                self.keys.push(k);
                self.vals.push(v);
                self.slots.insert(copy, n);
                assert(self@ =~= m.insert(k@, v));
            },
        }
    }

    /// Takes a key out, with its value.
    pub fn remove(&mut self, k: &str) -> (r: Option<V>)
        requires
            old(self).wf(),
        ensures
            final(self).wf(),
            final(self)@ == old(self)@.remove(k@),
            r is Some ==> final(self).size() == old(self).size() - 1,
            match r {
                Some(v) => old(self)@.contains_key(k@) && v == old(self)@[k@],
                None => !old(self)@.contains_key(k@),
            },
    {
        let ghost m = self@;
        let ghost before = *self;
        let found: Option<usize> = match self.slots.get(k) {
            Some(i) => Some(*i),
            None => None,
        };
        match found {
            Some(i) => {
                assert(self.slots@.contains_key(k@));
                let last: usize = self.keys.len() - 1;
                let moved = self.keys[last].clone();
                assert(self.slots@[self.keys@[last as int]@] == last);
                let _ = self.keys.swap_remove(i);
                let v = self.vals.swap_remove(i);
                if i != last {
                    self.slots.insert(moved, i);
                }
                self.slots.remove(k);
                proof {
                    assert forall|j: int| 0 <= j < self.keys@.len() implies self.slots@.contains_key(
                        (#[trigger] self.keys@[j])@,
                    ) && self.slots@[self.keys@[j]@] == j by {
                        let old_at = if j == i {
                            last as int
                        } else {
                            j
                        };
                        assert(before.slots@[before.keys@[old_at]@] == old_at);
                    }
                    assert forall|x: Seq<char>| #[trigger] self.slots@.contains_key(x) implies self.slots@[x]
                        < self.keys@.len() && self.keys@[self.slots@[x] as int]@ == x by {
                        assert(before.slots@.contains_key(x));
                    }
                    assert(self@ =~= m.remove(k@)) by {
                        assert forall|x: Seq<char>| #[trigger] self@.contains_key(x) implies self@[x]
                            == m.remove(k@)[x] by {
                            assert(before.slots@.contains_key(x));
                        }
                        assert forall|x: Seq<char>| m.remove(k@).contains_key(x) implies #[trigger] self@.contains_key(
                            x,
                        ) by {
                            assert(before.slots@.contains_key(x));
                        }
                    }
                }
                Some(v)
            },
            None => {
                assert(self@ =~= m.remove(k@));
                None
            },
        }
    }
}

} // verus!
