//! The dictionary index: an immutable word list loaded once at startup,
//! offering an exact-membership oracle and a prefix-viability oracle.

use vstd::prelude::*;
use crate::bytes::{bytes_eq, bytes_prefix_of};
use crate::tiles::is_letter;

verus! {

/// A dictionary word: nonempty, all lowercase letters.
pub open spec fn word_ok(w: Seq<u8>) -> bool {
    w.len() > 0 && forall|k: int| 0 <= k < w.len() ==> is_letter(#[trigger] w[k])
}

/// Every member of a word set is a well-formed word.
pub open spec fn dict_ok(d: Set<Seq<u8>>) -> bool {
    forall|w: Seq<u8>| d.contains(w) ==> word_ok(w)
}

/// True iff some word of `d` starts with `p` (including `p` itself).
pub open spec fn has_prefix_in(d: Set<Seq<u8>>, p: Seq<u8>) -> bool {
    exists|w: Seq<u8>| d.contains(w) && p.is_prefix_of(w)
}

/// The dictionary index, read-only after construction.
pub struct Dictionary {
    words: Vec<Vec<u8>>,
}

impl Dictionary {
    /// The words of the list, as mathematical sequences.
    pub closed spec fn entries(self) -> Seq<Seq<u8>> {
        self.words@.map_values(|v: Vec<u8>| v@)
    }

    /// The set of indexed words.
    pub closed spec fn view(self) -> Set<Seq<u8>> {
        self.entries().to_set()
    }

    /// The index is well formed: every stored word is nonempty lowercase.
    pub closed spec fn wf(self) -> bool {
        forall|i: int| 0 <= i < self.entries().len() ==> word_ok(#[trigger] self.entries()[i])
    }

    /// A well-formed index holds only well-formed words.
    pub proof fn lemma_wf_words(self)
        requires
            self.wf(),
        ensures
            dict_ok(self@),
    {
        assert forall|w: Seq<u8>| self@.contains(w) implies word_ok(w) by {
            let i = choose|i: int| 0 <= i < self.entries().len() && self.entries()[i] == w;
            assert(word_ok(self.entries()[i]));
        }
    }

    /// Build the index from a word list. Every word must be nonempty and
    /// all lowercase letters; otherwise the list is rejected.
    pub fn new(words: Vec<Vec<u8>>) -> (r: Option<Dictionary>)
        ensures
            r is Some <==> (forall|i: int|
                0 <= i < words@.len() ==> word_ok(#[trigger] words@[i]@)),
            r matches Some(d) ==> d.wf() && d@ == words@.map_values(|v: Vec<u8>| v@).to_set(),
    {
        let n = words.len();
        let mut i: usize = 0;
        while i < n
            invariant
                i <= n,
                n == words@.len(),
                forall|j: int| 0 <= j < i ==> word_ok(#[trigger] words@[j]@),
            decreases n - i,
        {
            let w = &words[i];
            if w.len() == 0 {
                proof {
                    assert(!word_ok(words@[i as int]@));
                }
                return None;
            }
            let mut k: usize = 0;
            while k < w.len()
                invariant
                    k <= w@.len(),
                    0 <= i < words@.len(),
                    w@ == words@[i as int]@,
                    forall|m: int| 0 <= m < k ==> is_letter(#[trigger] w@[m]),
                decreases w@.len() - k,
            {
                let b = w[k];
                if b < 97 || b > 122 {
                    proof {
                        assert(!is_letter(words@[i as int]@[k as int]));
                        assert(!word_ok(words@[i as int]@));
                    }
                    return None;
                }
                k = k + 1;
            }
            assert(word_ok(words@[i as int]@));
            i = i + 1;
        }
        let d = Dictionary { words };
        proof {
            assert forall|i2: int| 0 <= i2 < d.entries().len()
                implies word_ok(#[trigger] d.entries()[i2]) by {
                assert(d.entries()[i2] == d.words@[i2]@);
            }
        }
        Some(d)
    }

    /// Exact membership: is `s` an indexed word?
    pub fn is_word(&self, s: &Vec<u8>) -> (r: bool)
        ensures
            r == self@.contains(s@),
    {
        let n = self.words.len();
        let mut i: usize = 0;
        while i < n
            invariant
                i <= n,
                n == self.words@.len(),
                forall|j: int| 0 <= j < i ==> #[trigger] self.entries()[j] != s@,
            decreases n - i,
        {
            if bytes_eq(&self.words[i], s) {
                assert(self.entries()[i as int] == s@);
                assert(self.entries().contains(s@));
                return true;
            }
            assert(self.entries()[i as int] == self.words@[i as int]@);
            i = i + 1;
        }
        proof {
            if self@.contains(s@) {
                let j = choose|j: int| 0 <= j < self.entries().len() && self.entries()[j] == s@;
                assert(self.entries()[j] != s@);
            }
        }
        false
    }

    /// Prefix viability: does any indexed word start with `p`?
    pub fn has_words_with_prefix(&self, p: &Vec<u8>) -> (r: bool)
        ensures
            r == has_prefix_in(self@, p@),
    {
        let n = self.words.len();
        let mut i: usize = 0;
        while i < n
            invariant
                i <= n,
                n == self.words@.len(),
                forall|j: int| 0 <= j < i ==> !p@.is_prefix_of(#[trigger] self.entries()[j]),
            decreases n - i,
        {
            if bytes_prefix_of(p, &self.words[i]) {
                assert(self.entries()[i as int] == self.words@[i as int]@);
                assert(self.entries().contains(self.entries()[i as int]));
                assert(self@.contains(self.entries()[i as int]));
                return true;
            }
            assert(self.entries()[i as int] == self.words@[i as int]@);
            i = i + 1;
        }
        proof {
            if has_prefix_in(self@, p@) {
                let w = choose|w: Seq<u8>| self@.contains(w) && p@.is_prefix_of(w);
                let j = choose|j: int| 0 <= j < self.entries().len() && self.entries()[j] == w;
                assert(!p@.is_prefix_of(self.entries()[j]));
            }
        }
        false
    }
}

} // verus!
