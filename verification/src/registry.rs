//! The shared registries of one enumeration episode: a set of byte strings
//! with an insert-if-absent primitive. One instance records the prefixes
//! already visited, another the dictionary words found so far.

use vstd::prelude::*;
use crate::bytes::bytes_eq;

verus! {

/// A set of byte strings with atomic insert-if-absent.
pub struct Registry {
    items: Vec<Vec<u8>>,
}

impl Registry {
    /// The stored strings, in insertion order.
    pub closed spec fn entries(self) -> Seq<Seq<u8>> {
        self.items@.map_values(|v: Vec<u8>| v@)
    }

    /// The set of stored strings.
    pub closed spec fn view(self) -> Set<Seq<u8>> {
        self.entries().to_set()
    }

    /// Each string is stored at most once.
    pub closed spec fn wf(self) -> bool {
        self.entries().no_duplicates()
    }

    /// An empty registry, fresh for each episode.
    pub fn new() -> (r: Registry)
        ensures
            r.wf(),
            r@ == Set::<Seq<u8>>::empty(),
    {
        let r = Registry { items: Vec::new() };
        proof {
            assert(r.entries() =~= Seq::<Seq<u8>>::empty());
            assert(r@ =~= Set::<Seq<u8>>::empty());
        }
        r
    }

    /// Whether `s` is registered.
    pub fn contains(&self, s: &Vec<u8>) -> (r: bool)
        ensures
            r == self@.contains(s@),
    {
        let n = self.items.len();
        let mut i: usize = 0;
        while i < n
            invariant
                i <= n,
                n == self.items@.len(),
                forall|j: int| 0 <= j < i ==> #[trigger] self.entries()[j] != s@,
            decreases n - i,
        {
            if bytes_eq(&self.items[i], s) {
                assert(self.entries()[i as int] == s@);
                assert(self.entries().contains(s@));
                return true;
            }
            assert(self.entries()[i as int] == self.items@[i as int]@);
            i = i + 1;
        }
        proof {
            if self@.contains(s@) {
                let j = choose|j: int| 0 <= j < self.entries().len() && self.entries()[j] == s@;
                assert(self.entries()[j] != s@);
            }
        }
        false
    }

    /// Register `s` unless it is already present. Returns whether `s` was
    /// newly inserted; at most one caller per string ever sees `true`.
    pub fn insert_if_absent(&mut self, s: Vec<u8>) -> (fresh: bool)
        requires
            old(self).wf(),
        ensures
            final(self).wf(),
            final(self)@ == old(self)@.insert(s@),
            fresh == !old(self)@.contains(s@),
    {
        if self.contains(&s) {
            proof {
                assert(self@.insert(s@) =~= self@);
            }
            return false;
        }
        let ghost pre = *self;
        self.items.push(s);
        proof {
            let e0 = pre.entries();
            let e1 = self.entries();
            assert(e1 =~= e0.push(s@));
            assert forall|x: Seq<u8>| e1.contains(x) implies (e0.contains(x) || x == s@) by {
                let j = choose|j: int| 0 <= j < e1.len() && e1[j] == x;
                if j < e0.len() {
                    assert(e0[j] == x);
                }
            }
            assert forall|x: Seq<u8>| e0.contains(x) implies e1.contains(x) by {
                let j = choose|j: int| 0 <= j < e0.len() && e0[j] == x;
                assert(e1[j] == x);
            }
            assert(e1.contains(s@)) by {
                assert(e1[e0.len() as int] == s@);
            }
            assert(self@ =~= pre@.insert(s@));
            assert(!e0.contains(s@));
            assert forall|i: int, j: int| 0 <= i < j < e1.len() implies e1[i] != e1[j] by {
                if j < e0.len() {
                    assert(e0[i] != e0[j]);
                } else {
                    assert(e1[j] == s@);
                    if e1[i] == s@ {
                        assert(e0[i] == s@);
                        assert(e0.contains(s@));
                    }
                }
            }
        }
        true
    }

    /// How many strings are registered.
    pub fn len(&self) -> (n: usize)
        requires
            self.wf(),
        ensures
            n == self@.len(),
    {
        proof {
            self.entries().unique_seq_to_set();
        }
        self.items.len()
    }

    /// Hand the registered strings out, in insertion order, consuming the
    /// registry at the end of its episode.
    pub fn into_items(self) -> (items: Vec<Vec<u8>>)
        requires
            self.wf(),
        ensures
            items@.map_values(|v: Vec<u8>| v@) == self.entries(),
            items@.map_values(|v: Vec<u8>| v@).to_set() == self@,
            items@.map_values(|v: Vec<u8>| v@).no_duplicates(),
    {
        self.items
    }
}

} // verus!
