//! Completeness of the explorer on racks of concrete letters: every
//! dictionary word within the depth cap whose letter counts the rack
//! covers is found.
//!
//! The induction threads an invariant through the recursion: every prefix
//! claimed in the visited registry that does not lie on the current path
//! is already *settled* — each fitting dictionary word below it has been
//! recorded. A branch pruned at a claimed candidate therefore misses
//! nothing, because the rack remaining below a prefix of concrete letters
//! is the same multiset however the prefix was reached.

use vstd::prelude::*;
use crate::MAX_DEPTH;
use crate::dict::{dict_ok, has_prefix_in, word_ok};
use crate::feasible::{all_letters, rack_count, lemma_rack_count_remove, lemma_rack_count_witness};
use crate::search::{cand_spec, explore_spec, step_word, tiles_spec, Registries};
use crate::seqs::{
    count_byte, lemma_count_prefix_le, lemma_count_push, lemma_prefix_full, lemma_prefix_of_push,
    lemma_prefix_push, lemma_prefix_refl, lemma_prefix_trans, lemma_push_prefix_of,
};
use crate::sound::{lemma_cand_sound, lemma_explore_sound, lemma_tiles_sound, sound_step};
use crate::tiles::{is_letter, Tile};

verus! {

/// The letter a concrete tile carries.
pub open spec fn tile_letter(t: Tile) -> u8 {
    match t {
        Tile::Letter(c) => c,
        Tile::Wildcard => 97,
    }
}

/// `w` fits the supply of one exploration call: its letter counts stay
/// within the rack's tiles plus the letters already in the prefix.
pub open spec fn fits_letters(w: Seq<u8>, rack: Seq<Tile>, p: Seq<u8>) -> bool {
    forall|c: u8| is_letter(c)
        ==> #[trigger] count_byte(w, c) <= rack_count(rack, c) + count_byte(p, c)
}

/// Everything owed below the claimed prefix `q` is recorded: every
/// fitting dictionary word within the depth cap that extends `q`.
pub open spec fn settled(
    d: Set<Seq<u8>>,
    found: Set<Seq<u8>>,
    q: Seq<u8>,
    rack: Seq<Tile>,
    p: Seq<u8>,
) -> bool {
    forall|w: Seq<u8>| d.contains(w) && #[trigger] q.is_prefix_of(w) && w.len() <= MAX_DEPTH
        && fits_letters(w, rack, p) ==> found.contains(w)
}

/// The episode invariant: every claimed prefix off the current path is
/// settled.
pub open spec fn registries_settled(
    d: Set<Seq<u8>>,
    st: Registries,
    rack: Seq<Tile>,
    p: Seq<u8>,
) -> bool {
    forall|q: Seq<u8>| #[trigger] st.0.contains(q) && !q.is_prefix_of(p)
        ==> settled(d, st.1, q, rack, p)
}

/// Consuming the concrete tile `i` into the prefix leaves the combined
/// supply unchanged, so fitting is unchanged.
proof fn lemma_fits_transfer(w: Seq<u8>, rack: Seq<Tile>, p: Seq<u8>, i: int, letter: u8)
    requires
        0 <= i < rack.len(),
        rack[i] == Tile::Letter(letter),
    ensures
        fits_letters(w, rack, p) == fits_letters(w, rack.remove(i), p.push(letter)),
{
    let sub = rack.remove(i);
    let cand = p.push(letter);
    if fits_letters(w, rack, p) {
        assert forall|c: u8| is_letter(c)
            implies #[trigger] count_byte(w, c) <= rack_count(sub, c) + count_byte(cand, c) by {
            lemma_rack_count_remove(rack, i, c);
            lemma_count_push(p, letter, c);
        }
    }
    if fits_letters(w, sub, cand) {
        assert forall|c: u8| is_letter(c)
            implies #[trigger] count_byte(w, c) <= rack_count(rack, c) + count_byte(p, c) by {
            lemma_rack_count_remove(rack, i, c);
            lemma_count_push(p, letter, c);
        }
    }
}

/// `settled` carries over the same consumption step.
proof fn lemma_settled_transfer(
    d: Set<Seq<u8>>,
    found: Set<Seq<u8>>,
    q: Seq<u8>,
    rack: Seq<Tile>,
    p: Seq<u8>,
    i: int,
    letter: u8,
)
    requires
        0 <= i < rack.len(),
        rack[i] == Tile::Letter(letter),
    ensures
        settled(d, found, q, rack, p) == settled(d, found, q, rack.remove(i), p.push(letter)),
{
    let sub = rack.remove(i);
    let cand = p.push(letter);
    if settled(d, found, q, rack, p) {
        assert forall|w: Seq<u8>| d.contains(w) && #[trigger] q.is_prefix_of(w)
            && w.len() <= MAX_DEPTH && fits_letters(w, sub, cand)
            implies found.contains(w) by {
            lemma_fits_transfer(w, rack, p, i, letter);
        }
    }
    if settled(d, found, q, sub, cand) {
        assert forall|w: Seq<u8>| d.contains(w) && #[trigger] q.is_prefix_of(w)
            && w.len() <= MAX_DEPTH && fits_letters(w, rack, p)
            implies found.contains(w) by {
            lemma_fits_transfer(w, rack, p, i, letter);
        }
    }
}

/// A settled prefix stays settled as the found set grows.
proof fn lemma_settled_grow(
    d: Set<Seq<u8>>,
    f1: Set<Seq<u8>>,
    f2: Set<Seq<u8>>,
    q: Seq<u8>,
    rack: Seq<Tile>,
    p: Seq<u8>,
)
    requires
        settled(d, f1, q, rack, p),
        forall|x: Seq<u8>| #[trigger] f1.contains(x) ==> f2.contains(x),
    ensures
        settled(d, f2, q, rack, p),
{
    assert forall|w: Seq<u8>| d.contains(w) && #[trigger] q.is_prefix_of(w)
        && w.len() <= MAX_DEPTH && fits_letters(w, rack, p)
        implies f2.contains(w) by {
        assert(f1.contains(w));
    }
}

/// Removing a tile from a rack of concrete letters leaves concrete
/// letters.
proof fn lemma_all_letters_remove(rack: Seq<Tile>, i: int)
    requires
        all_letters(rack),
        0 <= i < rack.len(),
    ensures
        all_letters(rack.remove(i)),
{
    assert forall|k: int| 0 <= k < rack.remove(i).len()
        implies #[trigger] rack.remove(i)[k] is Letter by {
        if k < i {
            assert(rack.remove(i)[k] == rack[k]);
        } else {
            assert(rack.remove(i)[k] == rack[k + 1]);
        }
    }
}

/// Completeness of one whole exploration call on a concrete rack: the
/// invariant is preserved, and on return the call's own prefix is
/// settled.
pub proof fn lemma_explore_settle(d: Set<Seq<u8>>, rack: Seq<Tile>, p: Seq<u8>, st: Registries)
    requires
        dict_ok(d),
        all_letters(rack),
        p.len() <= MAX_DEPTH,
        registries_settled(d, st, rack, p),
    ensures
        ({
            let st2 = explore_spec(d, rack, p, st);
            registries_settled(d, st2, rack, p) && settled(d, st2.1, p, rack, p)
        }),
    decreases MAX_DEPTH - p.len(), 2int, 0int, 0int,
{
    let st1 = step_word(d, p, st);
    assert forall|q: Seq<u8>| #[trigger] st1.0.contains(q) && !q.is_prefix_of(p)
        implies settled(d, st1.1, q, rack, p) by {
        lemma_settled_grow(d, st.1, st1.1, q, rack, p);
    }
    if p.len() == MAX_DEPTH {
        let st2 = st1;
        assert forall|w: Seq<u8>| d.contains(w) && #[trigger] p.is_prefix_of(w)
            && w.len() <= MAX_DEPTH && fits_letters(w, rack, p)
            implies st2.1.contains(w) by {
            lemma_prefix_full(p, w);
        }
    } else {
        lemma_tiles_sound(d, rack, p, 0, st1);
        lemma_tiles_settle(d, rack, p, 0, st1);
        let st2 = tiles_spec(d, rack, p, 0, st1);
        assert forall|w: Seq<u8>| d.contains(w) && #[trigger] p.is_prefix_of(w)
            && w.len() <= MAX_DEPTH && fits_letters(w, rack, p)
            implies st2.1.contains(w) by {
            if w == p {
                assert(word_ok(p));
                assert(p.len() > 0);
                assert(st1.1.contains(p));
                assert(sound_step(d, rack, p, st1, st2));
            } else {
                if w.len() <= p.len() {
                    lemma_prefix_full(p, w);
                }
                let lc = w[p.len() as int];
                assert(word_ok(w));
                assert(is_letter(lc));
                lemma_push_prefix_of(p, lc, w);
                lemma_count_push(p, lc, lc);
                lemma_count_prefix_le(p.push(lc), w, lc);
                assert(count_byte(w, lc) <= rack_count(rack, lc) + count_byte(p, lc));
                assert(rack_count(rack, lc) > 0);
                lemma_rack_count_witness(rack, lc);
                let j = choose|j: int|
                    0 <= j < rack.len() && #[trigger] rack[j] == Tile::Letter(lc);
                assert(tile_letter(rack[j]) == lc);
                assert(p.push(tile_letter(rack[j])).is_prefix_of(w));
            }
        }
    }
}

/// Completeness of trying the tiles from position `i` on: afterwards,
/// every fitting word whose next letter some remaining tile carries is
/// recorded.
pub proof fn lemma_tiles_settle(
    d: Set<Seq<u8>>,
    rack: Seq<Tile>,
    p: Seq<u8>,
    i: int,
    st: Registries,
)
    requires
        dict_ok(d),
        all_letters(rack),
        p.len() < MAX_DEPTH,
        0 <= i,
        registries_settled(d, st, rack, p),
    ensures
        ({
            let st2 = tiles_spec(d, rack, p, i, st);
            registries_settled(d, st2, rack, p) && forall|w: Seq<u8>, j: int|
                i <= j < rack.len() && d.contains(w) && w.len() <= MAX_DEPTH
                    && fits_letters(w, rack, p)
                    && #[trigger] p.push(tile_letter(rack[j])).is_prefix_of(w)
                    ==> st2.1.contains(w)
        }),
    decreases MAX_DEPTH - p.len(), 1int, rack.len() - i, 28int,
{
    if i < rack.len() {
        let c = tile_letter(rack[i]);
        assert(rack[i] == Tile::Letter(c));
        lemma_cand_sound(d, rack, p, i, c, st);
        lemma_cand_settle(d, rack, p, i, c, st);
        let stb = cand_spec(d, rack, p, i, c, st);
        lemma_tiles_sound(d, rack, p, i + 1, stb);
        lemma_tiles_settle(d, rack, p, i + 1, stb);
        let st2 = tiles_spec(d, rack, p, i + 1, stb);
        assert forall|w: Seq<u8>, j: int|
            i <= j < rack.len() && d.contains(w) && w.len() <= MAX_DEPTH
                && fits_letters(w, rack, p)
                && #[trigger] p.push(tile_letter(rack[j])).is_prefix_of(w)
            implies st2.1.contains(w) by {
            if j == i {
                assert(p.push(c).is_prefix_of(w));
                assert(stb.1.contains(w));
                assert(sound_step(d, rack, p, stb, st2));
            }
        }
    }
}

/// Completeness of trying one concrete candidate: afterwards, every
/// fitting word continuing with that letter is recorded, however the
/// candidate branch was disposed of.
pub proof fn lemma_cand_settle(
    d: Set<Seq<u8>>,
    rack: Seq<Tile>,
    p: Seq<u8>,
    i: int,
    letter: u8,
    st: Registries,
)
    requires
        dict_ok(d),
        all_letters(rack),
        p.len() < MAX_DEPTH,
        0 <= i < rack.len(),
        rack[i] == Tile::Letter(letter),
        registries_settled(d, st, rack, p),
    ensures
        ({
            let st2 = cand_spec(d, rack, p, i, letter, st);
            registries_settled(d, st2, rack, p) && forall|w: Seq<u8>|
                d.contains(w) && #[trigger] p.push(letter).is_prefix_of(w)
                    && w.len() <= MAX_DEPTH && fits_letters(w, rack, p)
                    ==> st2.1.contains(w)
        }),
    decreases MAX_DEPTH - p.len(), 1int, rack.len() - i, 0int,
{
    let cand = p.push(letter);
    lemma_prefix_push(p, letter);
    lemma_prefix_refl(cand);
    if st.0.contains(cand) {
        let st2 = st;
        assert(cand_spec(d, rack, p, i, letter, st) == st2);
        assert(!cand.is_prefix_of(p));
        assert(settled(d, st.1, cand, rack, p));
        assert forall|w: Seq<u8>| d.contains(w) && #[trigger] p.push(letter).is_prefix_of(w)
            && w.len() <= MAX_DEPTH && fits_letters(w, rack, p)
            implies st2.1.contains(w) by {
            assert(cand.is_prefix_of(w));
        }
    } else if !has_prefix_in(d, cand) {
        let st2 = st;
        assert(cand_spec(d, rack, p, i, letter, st) == st2);
        assert forall|w: Seq<u8>| d.contains(w) && #[trigger] p.push(letter).is_prefix_of(w)
            && w.len() <= MAX_DEPTH && fits_letters(w, rack, p)
            implies st2.1.contains(w) by {
            assert(has_prefix_in(d, cand));
        }
    } else {
        let sti: Registries = (st.0.insert(cand), st.1);
        let sub = rack.remove(i);
        lemma_all_letters_remove(rack, i);
        assert forall|q: Seq<u8>| #[trigger] sti.0.contains(q) && !q.is_prefix_of(cand)
            implies settled(d, sti.1, q, sub, cand) by {
            assert(q != cand);
            assert(st.0.contains(q));
            if q.is_prefix_of(p) {
                lemma_prefix_trans(q, p, cand);
            }
            assert(settled(d, st.1, q, rack, p));
            lemma_settled_transfer(d, st.1, q, rack, p, i, letter);
        }
        lemma_explore_sound(d, sub, cand, sti);
        lemma_explore_settle(d, sub, cand, sti);
        let st2 = explore_spec(d, sub, cand, sti);
        assert(cand_spec(d, rack, p, i, letter, st) == st2);
        assert forall|w: Seq<u8>| d.contains(w) && #[trigger] p.push(letter).is_prefix_of(w)
            && w.len() <= MAX_DEPTH && fits_letters(w, rack, p)
            implies st2.1.contains(w) by {
            lemma_fits_transfer(w, rack, p, i, letter);
            assert(cand.is_prefix_of(w));
            assert(settled(d, st2.1, cand, sub, cand));
        }
        assert forall|q: Seq<u8>| #[trigger] st2.0.contains(q) && !q.is_prefix_of(p)
            implies settled(d, st2.1, q, rack, p) by {
            if q.is_prefix_of(cand) {
                lemma_prefix_of_push(q, p, letter);
                assert(q == cand);
                assert(settled(d, st2.1, cand, sub, cand));
                lemma_settled_transfer(d, st2.1, q, rack, p, i, letter);
            } else {
                assert(registries_settled(d, st2, sub, cand));
                assert(settled(d, st2.1, q, sub, cand));
                lemma_settled_transfer(d, st2.1, q, rack, p, i, letter);
            }
        }
    }
}

} // verus!
