//! The direct multiset-subtraction filter: per-word letter-count vectors
//! and a feasibility test against a rack's counts. The search laws prove
//! that, on racks without wildcards, this filter accepts exactly the
//! words the enumeration engine finds, so it serves as its cross-check.

use vstd::prelude::*;
use crate::MAX_DEPTH;
use crate::dict::dict_ok;
use crate::feasible::{all_letters, rack_count};
use crate::laws::{lemma_concrete_rack_exact, within_rack};
use crate::search::episode_results;
use crate::seqs::count_byte;
use crate::tiles::{is_letter, Tile};

verus! {

/// How many bytes of `s` are not lowercase letters; such symbols count
/// as wildcards.
pub open spec fn wildcard_count(s: Seq<u8>) -> int
    decreases s.len(),
{
    if s.len() == 0 {
        0
    } else {
        wildcard_count(s.drop_last()) + if is_letter(s.last()) { 0int } else { 1int }
    }
}

/// The letter counts of a string: one slot per alphabet letter, plus the
/// number of wildcard symbols.
pub struct Counts {
    /// Slot `k` counts the letter with alphabet position `k`.
    pub values: Vec<usize>,
    /// How many symbols were not letters.
    pub wildcards: usize,
}

/// Count the letters and wildcard symbols of a string.
pub fn char_counts(word: &Vec<u8>) -> (r: Counts)
    ensures
        r.values@.len() == 26,
        forall|c: u8| is_letter(c) ==> r.values@[c - 97] == count_byte(word@, c),
        r.wildcards == wildcard_count(word@),
{
    let mut values: Vec<usize> = vec![0; 26];
    let mut wildcards: usize = 0;
    let mut i: usize = 0;
    while i < word.len()
        invariant
            i <= word@.len(),
            values@.len() == 26,
            forall|c: u8| is_letter(c)
                ==> values@[c - 97] == count_byte(word@.take(i as int), c),
            wildcards == wildcard_count(word@.take(i as int)),
            forall|k: int| 0 <= k < 26 ==> values@[k] <= i,
            wildcards <= i,
        decreases word@.len() - i,
    {
        proof {
            assert(word@.take(i + 1 as int).drop_last() =~= word@.take(i as int));
            assert(word@.take(i + 1 as int).last() == word@[i as int]);
        }
        let b = word[i];
        if 97 <= b && b <= 122 {
            let idx = (b - 97) as usize;
            let cur = values[idx];
            values[idx] = cur + 1;
        } else {
            wildcards = wildcards + 1;
        }
        i = i + 1;
    }
    proof {
        assert(word@.take(word@.len() as int) =~= word@);
    }
    Counts { values, wildcards }
}

/// The total shortfall over the first `k` alphabet letters: how many
/// tiles are missing when spelling a word with counts `wv` from a rack
/// with counts `iv`.
pub open spec fn deficits(wv: Seq<usize>, iv: Seq<usize>, k: int) -> int
    decreases k,
{
    if k <= 0 {
        0
    } else {
        deficits(wv, iv, k - 1) + if wv[k - 1] > iv[k - 1] {
            wv[k - 1] - iv[k - 1]
        } else {
            0int
        }
    }
}

/// The shortfall only grows with more letters considered.
pub proof fn lemma_deficits_mono(wv: Seq<usize>, iv: Seq<usize>, j: int, k: int)
    requires
        0 <= j <= k,
    ensures
        deficits(wv, iv, j) <= deficits(wv, iv, k),
    decreases k,
{
    if j < k {
        lemma_deficits_mono(wv, iv, j, k - 1);
    }
}

/// No shortfall at all means every letter is covered outright.
pub proof fn lemma_deficits_zero(wv: Seq<usize>, iv: Seq<usize>, k: int)
    requires
        0 <= k,
    ensures
        deficits(wv, iv, k) <= 0 <==> (forall|j: int| 0 <= j < k ==> #[trigger] wv[j] <= iv[j]),
    decreases k,
{
    if k > 0 {
        lemma_deficits_zero(wv, iv, k - 1);
        lemma_deficits_mono(wv, iv, 0, k - 1);
    }
}

/// Whether a word with counts `word` can be spelled from a rack with
/// counts `input`: the total shortfall must be covered by the rack's
/// wildcards.
pub fn can_spell(word: &Counts, input: &Counts) -> (r: bool)
    requires
        word.values@.len() == 26,
        input.values@.len() == 26,
    ensures
        r == (deficits(word.values@, input.values@, 26) <= input.wildcards),
{
    let mut remaining: usize = input.wildcards;
    let mut k: usize = 0;
    while k < 26
        invariant
            k <= 26,
            word.values@.len() == 26,
            input.values@.len() == 26,
            remaining == input.wildcards - deficits(word.values@, input.values@, k as int),
            deficits(word.values@, input.values@, k as int) <= input.wildcards,
        decreases 26 - k,
    {
        let wk = word.values[k];
        let ik = input.values[k];
        if wk > ik {
            let need = wk - ik;
            if need > remaining {
                proof {
                    lemma_deficits_mono(word.values@, input.values@, k + 1 as int, 26);
                }
                return false;
            }
            remaining = remaining - need;
        }
        k = k + 1;
    }
    true
}

/// The cross-check: on a rack with no wildcards, the enumeration engine
/// returns a word exactly when the direct filter finds no shortfall and
/// the word is a dictionary word within the depth cap.
pub proof fn lemma_filter_matches_search(
    d: Set<Seq<u8>>,
    rack: Seq<Tile>,
    w: Seq<u8>,
    wv: Seq<usize>,
    iv: Seq<usize>,
)
    requires
        dict_ok(d),
        all_letters(rack),
        wv.len() == 26,
        iv.len() == 26,
        forall|c: u8| is_letter(c) ==> wv[c - 97] == count_byte(w, c),
        forall|c: u8| is_letter(c) ==> iv[c - 97] == rack_count(rack, c),
    ensures
        episode_results(d, rack).contains(w)
            <==> d.contains(w) && 1 <= w.len() <= MAX_DEPTH && deficits(wv, iv, 26) <= 0,
{
    lemma_concrete_rack_exact(d, rack);
    lemma_deficits_zero(wv, iv, 26);
    if deficits(wv, iv, 26) <= 0 {
        assert forall|c: u8| is_letter(c)
            implies #[trigger] count_byte(w, c) <= rack_count(rack, c) by {
            assert(wv[c - 97] <= iv[c - 97]);
        }
    }
    if within_rack(w, rack) {
        assert forall|j: int| 0 <= j < 26 implies #[trigger] wv[j] <= iv[j] by {
            let c = (97 + j) as u8;
            assert(is_letter(c));
            assert(count_byte(w, c) <= rack_count(rack, c));
        }
    }
}

} // verus!
