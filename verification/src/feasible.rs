//! What a rack can spell: the letters a tile may stand for, sequences
//! spellable by consuming tiles, and letter counts of a rack.

use vstd::prelude::*;
use crate::seqs::{count_byte, lemma_count_drop_first};
use crate::tiles::{is_letter, Tile};

verus! {

/// Whether the tile `t` may stand for the letter `c`.
pub open spec fn tile_yields(t: Tile, c: u8) -> bool {
    match t {
        Tile::Letter(b) => b == c,
        Tile::Wildcard => is_letter(c),
    }
}

/// Whether `s` can be spelled by consuming tiles of `rack`, one tile per
/// letter, in any order.
pub open spec fn spellable(s: Seq<u8>, rack: Seq<Tile>) -> bool
    decreases s.len(),
{
    s.len() == 0 || exists|i: int|
        0 <= i < rack.len() && tile_yields(#[trigger] rack[i], s[0])
            && spellable(s.drop_first(), rack.remove(i))
}

/// Every tile of the rack is a concrete letter.
pub open spec fn all_letters(rack: Seq<Tile>) -> bool {
    forall|i: int| 0 <= i < rack.len() ==> #[trigger] rack[i] is Letter
}

/// Every tile of the rack is a wildcard.
pub open spec fn all_wildcards(rack: Seq<Tile>) -> bool {
    forall|i: int| 0 <= i < rack.len() ==> #[trigger] rack[i] == Tile::Wildcard
}

/// How many tiles of `rack` carry the concrete letter `c`.
pub open spec fn rack_count(rack: Seq<Tile>, c: u8) -> int
    decreases rack.len(),
{
    if rack.len() == 0 {
        0
    } else {
        rack_count(rack.drop_last(), c) + match rack.last() {
            Tile::Letter(b) => if b == c { 1int } else { 0int },
            Tile::Wildcard => 0int,
        }
    }
}

/// Rack letter counts are never negative.
pub proof fn lemma_rack_count_nonneg(rack: Seq<Tile>, c: u8)
    ensures
        rack_count(rack, c) >= 0,
    decreases rack.len(),
{
    if rack.len() > 0 {
        lemma_rack_count_nonneg(rack.drop_last(), c);
    }
}

/// Removing one tile lowers the count of its letter by one and no other.
pub proof fn lemma_rack_count_remove(rack: Seq<Tile>, i: int, c: u8)
    requires
        0 <= i < rack.len(),
    ensures
        rack_count(rack.remove(i), c) == rack_count(rack, c) - (match rack[i] {
            Tile::Letter(b) => if b == c { 1int } else { 0int },
            Tile::Wildcard => 0int,
        }),
    decreases rack.len(),
{
    if i == rack.len() - 1 {
        assert(rack.remove(i) =~= rack.drop_last());
    } else {
        assert(rack.remove(i).drop_last() =~= rack.drop_last().remove(i));
        assert(rack.remove(i).last() == rack.last());
        lemma_rack_count_remove(rack.drop_last(), i, c);
    }
}

/// A positive count names a tile: some position carries the letter.
pub proof fn lemma_rack_count_witness(rack: Seq<Tile>, c: u8)
    requires
        rack_count(rack, c) > 0,
    ensures
        exists|i: int| 0 <= i < rack.len() && #[trigger] rack[i] == Tile::Letter(c),
    decreases rack.len(),
{
    if rack.last() == Tile::Letter(c) {
        assert(rack[rack.len() - 1] == Tile::Letter(c));
    } else {
        lemma_rack_count_witness(rack.drop_last(), c);
        let i = choose|i: int|
            0 <= i < rack.drop_last().len() && #[trigger] rack.drop_last()[i] == Tile::Letter(c);
        assert(rack[i] == Tile::Letter(c));
    }
}

/// A spellable sequence consumes one tile per letter, so it is no longer
/// than the rack.
pub proof fn lemma_spellable_len(s: Seq<u8>, rack: Seq<Tile>)
    requires
        spellable(s, rack),
    ensures
        s.len() <= rack.len(),
    decreases s.len(),
{
    if s.len() > 0 {
        let i = choose|i: int|
            0 <= i < rack.len() && tile_yields(#[trigger] rack[i], s[0])
                && spellable(s.drop_first(), rack.remove(i));
        lemma_spellable_len(s.drop_first(), rack.remove(i));
    }
}

/// On a rack of concrete letters, a spellable sequence takes no letter
/// more often than the rack carries it.
pub proof fn lemma_spellable_counts(s: Seq<u8>, rack: Seq<Tile>, c: u8)
    requires
        spellable(s, rack),
        all_letters(rack),
    ensures
        count_byte(s, c) <= rack_count(rack, c),
    decreases s.len(),
{
    if s.len() == 0 {
        lemma_rack_count_nonneg(rack, c);
    } else {
        let i = choose|i: int|
            0 <= i < rack.len() && tile_yields(#[trigger] rack[i], s[0])
                && spellable(s.drop_first(), rack.remove(i));
        assert(forall|k: int| 0 <= k < rack.remove(i).len()
            ==> #[trigger] rack.remove(i)[k] is Letter);
        lemma_spellable_counts(s.drop_first(), rack.remove(i), c);
        lemma_rack_count_remove(rack, i, c);
        lemma_count_drop_first(s, c);
    }
}

} // verus!
