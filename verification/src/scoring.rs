//! The scoring table: each letter has a point value, and a word's score is
//! the sum of its letters' values.

use vstd::prelude::*;

verus! {

/// Point value of a single letter byte.
pub open spec fn letter_power(c: u8) -> int {
    if c == 98 || c == 99 || c == 102 || c == 104 || c == 109 || c == 112 {
        5  // b c f h m p
    } else if c == 118 || c == 119 || c == 121 {
        6  // v w y
    } else if c == 106 || c == 107 {
        7  // j k
    } else if c == 120 || c == 122 {
        8  // x z
    } else if c == 113 {
        11  // q
    } else {
        4
    }
}

/// Score of a word: the sum of its letters' point values.
pub open spec fn word_power_spec(w: Seq<u8>) -> int
    decreases w.len(),
{
    if w.len() == 0 {
        0
    } else {
        word_power_spec(w.drop_last()) + letter_power(w.last())
    }
}

/// Every letter is worth at least 4 and at most 11 points.
pub proof fn lemma_word_power_bounds(w: Seq<u8>)
    ensures
        4 * w.len() <= word_power_spec(w) <= 11 * w.len(),
    decreases w.len(),
{
    if w.len() > 0 {
        lemma_word_power_bounds(w.drop_last());
    }
}

/// Compute the score of a word.
pub fn word_power(word: &Vec<u8>) -> (power: u32)
    requires
        11 * word@.len() <= u32::MAX,
    ensures
        power == word_power_spec(word@),
{
    let mut power: u32 = 0;
    let mut i: usize = 0;
    while i < word.len()
        invariant
            i <= word@.len(),
            11 * word@.len() <= u32::MAX,
            power == word_power_spec(word@.take(i as int)),
        decreases word@.len() - i,
    {
        proof {
            lemma_word_power_bounds(word@.take(i as int));
            assert(word@.take(i + 1 as int).drop_last() =~= word@.take(i as int));
            assert(word@.take(i + 1 as int).last() == word@[i as int]);
        }
        let c = word[i];
        let value: u32 = if c == 98 || c == 99 || c == 102 || c == 104 || c == 109 || c == 112 {
            5
        } else if c == 118 || c == 119 || c == 121 {
            6
        } else if c == 106 || c == 107 {
            7
        } else if c == 120 || c == 122 {
            8
        } else if c == 113 {
            11
        } else {
            4
        };
        power = power + value;
        i = i + 1;
    }
    proof {
        assert(word@.take(word@.len() as int) =~= word@);
    }
    power
}

} // verus!
