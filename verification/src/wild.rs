//! Completeness of the explorer on all-wildcard racks: every dictionary
//! word within the depth cap and no longer than the rack is found.
//!
//! The induction mirrors the concrete-rack one; here the supply below a
//! prefix is simply the number of wildcards left, which depends only on
//! the prefix's length, so a branch pruned at a claimed candidate again
//! misses nothing.

use vstd::prelude::*;
use crate::MAX_DEPTH;
use crate::dict::{dict_ok, has_prefix_in, word_ok};
use crate::feasible::all_wildcards;
use crate::search::{cand_spec, explore_spec, letters_spec, step_word, tiles_spec, Registries};
use crate::seqs::{
    lemma_prefix_full, lemma_prefix_of_push, lemma_prefix_push, lemma_prefix_refl,
    lemma_prefix_trans, lemma_push_prefix_of,
};
use crate::sound::{
    lemma_cand_sound, lemma_explore_sound, lemma_letters_sound, lemma_tiles_sound, sound_step,
};
use crate::tiles::{is_letter, Tile};

verus! {

/// Everything owed below the claimed prefix `q` is recorded: every
/// dictionary word within the depth cap that extends `q` and fits the
/// number of tiles.
pub open spec fn settled_wild(
    d: Set<Seq<u8>>,
    found: Set<Seq<u8>>,
    q: Seq<u8>,
    rack: Seq<Tile>,
    p: Seq<u8>,
) -> bool {
    forall|w: Seq<u8>| d.contains(w) && #[trigger] q.is_prefix_of(w) && w.len() <= MAX_DEPTH
        && w.len() <= rack.len() + p.len() ==> found.contains(w)
}

/// The episode invariant: every claimed prefix off the current path is
/// settled.
pub open spec fn registries_settled_wild(
    d: Set<Seq<u8>>,
    st: Registries,
    rack: Seq<Tile>,
    p: Seq<u8>,
) -> bool {
    forall|q: Seq<u8>| #[trigger] st.0.contains(q) && !q.is_prefix_of(p)
        ==> settled_wild(d, st.1, q, rack, p)
}

/// Consuming one tile into the prefix leaves the combined supply
/// unchanged.
proof fn lemma_settled_wild_transfer(
    d: Set<Seq<u8>>,
    found: Set<Seq<u8>>,
    q: Seq<u8>,
    rack: Seq<Tile>,
    p: Seq<u8>,
    i: int,
    letter: u8,
)
    requires
        0 <= i < rack.len(),
    ensures
        settled_wild(d, found, q, rack, p)
            == settled_wild(d, found, q, rack.remove(i), p.push(letter)),
{
    let sub = rack.remove(i);
    let cand = p.push(letter);
    assert(sub.len() + cand.len() == rack.len() + p.len());
    if settled_wild(d, found, q, rack, p) {
        assert forall|w: Seq<u8>| d.contains(w) && #[trigger] q.is_prefix_of(w)
            && w.len() <= MAX_DEPTH && w.len() <= sub.len() + cand.len()
            implies found.contains(w) by {}
    }
    if settled_wild(d, found, q, sub, cand) {
        assert forall|w: Seq<u8>| d.contains(w) && #[trigger] q.is_prefix_of(w)
            && w.len() <= MAX_DEPTH && w.len() <= rack.len() + p.len()
            implies found.contains(w) by {}
    }
}

/// A settled prefix stays settled as the found set grows.
proof fn lemma_settled_wild_grow(
    d: Set<Seq<u8>>,
    f1: Set<Seq<u8>>,
    f2: Set<Seq<u8>>,
    q: Seq<u8>,
    rack: Seq<Tile>,
    p: Seq<u8>,
)
    requires
        settled_wild(d, f1, q, rack, p),
        forall|x: Seq<u8>| #[trigger] f1.contains(x) ==> f2.contains(x),
    ensures
        settled_wild(d, f2, q, rack, p),
{
    assert forall|w: Seq<u8>| d.contains(w) && #[trigger] q.is_prefix_of(w)
        && w.len() <= MAX_DEPTH && w.len() <= rack.len() + p.len()
        implies f2.contains(w) by {
        assert(f1.contains(w));
    }
}

/// Removing a tile from an all-wildcard rack leaves wildcards.
proof fn lemma_all_wildcards_remove(rack: Seq<Tile>, i: int)
    requires
        all_wildcards(rack),
        0 <= i < rack.len(),
    ensures
        all_wildcards(rack.remove(i)),
{
    assert forall|k: int| 0 <= k < rack.remove(i).len()
        implies #[trigger] rack.remove(i)[k] == Tile::Wildcard by {
        if k < i {
            assert(rack.remove(i)[k] == rack[k]);
        } else {
            assert(rack.remove(i)[k] == rack[k + 1]);
        }
    }
}

/// Completeness of one whole exploration call on an all-wildcard rack.
pub proof fn lemma_explore_settle_wild(
    d: Set<Seq<u8>>,
    rack: Seq<Tile>,
    p: Seq<u8>,
    st: Registries,
)
    requires
        dict_ok(d),
        all_wildcards(rack),
        p.len() <= MAX_DEPTH,
        registries_settled_wild(d, st, rack, p),
    ensures
        ({
            let st2 = explore_spec(d, rack, p, st);
            registries_settled_wild(d, st2, rack, p) && settled_wild(d, st2.1, p, rack, p)
        }),
    decreases MAX_DEPTH - p.len(), 2int, 0int, 0int,
{
    let st1 = step_word(d, p, st);
    assert forall|q: Seq<u8>| #[trigger] st1.0.contains(q) && !q.is_prefix_of(p)
        implies settled_wild(d, st1.1, q, rack, p) by {
        lemma_settled_wild_grow(d, st.1, st1.1, q, rack, p);
    }
    if p.len() == MAX_DEPTH {
        let st2 = st1;
        assert forall|w: Seq<u8>| d.contains(w) && #[trigger] p.is_prefix_of(w)
            && w.len() <= MAX_DEPTH && w.len() <= rack.len() + p.len()
            implies st2.1.contains(w) by {
            lemma_prefix_full(p, w);
        }
    } else {
        lemma_tiles_sound(d, rack, p, 0, st1);
        lemma_tiles_settle_wild(d, rack, p, 0, st1);
        let st2 = tiles_spec(d, rack, p, 0, st1);
        assert forall|w: Seq<u8>| d.contains(w) && #[trigger] p.is_prefix_of(w)
            && w.len() <= MAX_DEPTH && w.len() <= rack.len() + p.len()
            implies st2.1.contains(w) by {
            if w == p {
                assert(word_ok(p));
                assert(p.len() > 0);
                assert(st1.1.contains(p));
                assert(sound_step(d, rack, p, st1, st2));
            } else {
                if w.len() <= p.len() {
                    lemma_prefix_full(p, w);
                }
                assert(rack.len() >= 1);
            }
        }
    }
}

/// Completeness of trying the tiles from position `i` on: with any tile
/// left, every fitting strict extension is recorded.
pub proof fn lemma_tiles_settle_wild(
    d: Set<Seq<u8>>,
    rack: Seq<Tile>,
    p: Seq<u8>,
    i: int,
    st: Registries,
)
    requires
        dict_ok(d),
        all_wildcards(rack),
        p.len() < MAX_DEPTH,
        0 <= i,
        registries_settled_wild(d, st, rack, p),
    ensures
        ({
            let st2 = tiles_spec(d, rack, p, i, st);
            registries_settled_wild(d, st2, rack, p) && (i < rack.len() ==> forall|w: Seq<u8>|
                d.contains(w) && #[trigger] p.is_prefix_of(w) && p.len() < w.len()
                    && w.len() <= MAX_DEPTH && w.len() <= rack.len() + p.len()
                    ==> st2.1.contains(w))
        }),
    decreases MAX_DEPTH - p.len(), 1int, rack.len() - i, 28int,
{
    if i < rack.len() {
        assert(rack[i] == Tile::Wildcard);
        lemma_letters_sound(d, rack, p, i, 0, st);
        lemma_letters_settle_wild(d, rack, p, i, 0, st);
        let stb = letters_spec(d, rack, p, i, 0, st);
        lemma_tiles_sound(d, rack, p, i + 1, stb);
        lemma_tiles_settle_wild(d, rack, p, i + 1, stb);
        let st2 = tiles_spec(d, rack, p, i + 1, stb);
        assert forall|w: Seq<u8>| d.contains(w) && #[trigger] p.is_prefix_of(w)
            && p.len() < w.len() && w.len() <= MAX_DEPTH && w.len() <= rack.len() + p.len()
            implies st2.1.contains(w) by {
            assert(word_ok(w));
            let lc = w[p.len() as int];
            assert(is_letter(lc));
            assert(lc >= 97 + 0);
            assert(stb.1.contains(w));
            assert(sound_step(d, rack, p, stb, st2));
        }
    }
}

/// Completeness of expanding a wildcard over the letters from alphabet
/// position `l` on: every fitting word whose next letter lies at or
/// beyond `l` is recorded.
pub proof fn lemma_letters_settle_wild(
    d: Set<Seq<u8>>,
    rack: Seq<Tile>,
    p: Seq<u8>,
    i: int,
    l: int,
    st: Registries,
)
    requires
        dict_ok(d),
        all_wildcards(rack),
        p.len() < MAX_DEPTH,
        0 <= i < rack.len(),
        0 <= l <= 26,
        registries_settled_wild(d, st, rack, p),
    ensures
        ({
            let st2 = letters_spec(d, rack, p, i, l, st);
            registries_settled_wild(d, st2, rack, p) && forall|w: Seq<u8>|
                d.contains(w) && #[trigger] p.is_prefix_of(w) && p.len() < w.len()
                    && w.len() <= MAX_DEPTH && w.len() <= rack.len() + p.len()
                    && w[p.len() as int] >= 97 + l
                    ==> st2.1.contains(w)
        }),
    decreases MAX_DEPTH - p.len(), 1int, rack.len() - i, 26 - l,
{
    if l == 26 {
        let st2 = st;
        assert forall|w: Seq<u8>| d.contains(w) && #[trigger] p.is_prefix_of(w)
            && p.len() < w.len() && w.len() <= MAX_DEPTH && w.len() <= rack.len() + p.len()
            && w[p.len() as int] >= 97 + 26
            implies st2.1.contains(w) by {
            assert(word_ok(w));
            assert(is_letter(w[p.len() as int]));
        }
    } else {
        let letter = (97 + l) as u8;
        lemma_cand_sound(d, rack, p, i, letter, st);
        lemma_cand_settle_wild(d, rack, p, i, letter, st);
        let stb = cand_spec(d, rack, p, i, letter, st);
        lemma_letters_sound(d, rack, p, i, l + 1, stb);
        lemma_letters_settle_wild(d, rack, p, i, l + 1, stb);
        let st2 = letters_spec(d, rack, p, i, l + 1, stb);
        assert forall|w: Seq<u8>| d.contains(w) && #[trigger] p.is_prefix_of(w)
            && p.len() < w.len() && w.len() <= MAX_DEPTH && w.len() <= rack.len() + p.len()
            && w[p.len() as int] >= 97 + l
            implies st2.1.contains(w) by {
            if w[p.len() as int] == letter {
                lemma_push_prefix_of(p, letter, w);
                assert(p.push(letter).is_prefix_of(w));
                assert(stb.1.contains(w));
                assert(sound_step(d, rack, p, stb, st2));
            } else {
                assert(w[p.len() as int] >= 97 + l + 1);
            }
        }
    }
}

/// Completeness of trying one wildcard candidate letter.
pub proof fn lemma_cand_settle_wild(
    d: Set<Seq<u8>>,
    rack: Seq<Tile>,
    p: Seq<u8>,
    i: int,
    letter: u8,
    st: Registries,
)
    requires
        dict_ok(d),
        all_wildcards(rack),
        p.len() < MAX_DEPTH,
        0 <= i < rack.len(),
        is_letter(letter),
        registries_settled_wild(d, st, rack, p),
    ensures
        ({
            let st2 = cand_spec(d, rack, p, i, letter, st);
            registries_settled_wild(d, st2, rack, p) && forall|w: Seq<u8>|
                d.contains(w) && #[trigger] p.push(letter).is_prefix_of(w)
                    && w.len() <= MAX_DEPTH && w.len() <= rack.len() + p.len()
                    ==> st2.1.contains(w)
        }),
    decreases MAX_DEPTH - p.len(), 1int, rack.len() - i, 0int,
{
    let cand = p.push(letter);
    lemma_prefix_push(p, letter);
    lemma_prefix_refl(cand);
    if st.0.contains(cand) {
        let st2 = st;
        assert(cand_spec(d, rack, p, i, letter, st) == st2);
        assert(!cand.is_prefix_of(p));
        assert(settled_wild(d, st.1, cand, rack, p));
        assert forall|w: Seq<u8>| d.contains(w) && #[trigger] p.push(letter).is_prefix_of(w)
            && w.len() <= MAX_DEPTH && w.len() <= rack.len() + p.len()
            implies st2.1.contains(w) by {
            assert(cand.is_prefix_of(w));
        }
    } else if !has_prefix_in(d, cand) {
        let st2 = st;
        assert(cand_spec(d, rack, p, i, letter, st) == st2);
        assert forall|w: Seq<u8>| d.contains(w) && #[trigger] p.push(letter).is_prefix_of(w)
            && w.len() <= MAX_DEPTH && w.len() <= rack.len() + p.len()
            implies st2.1.contains(w) by {
            assert(has_prefix_in(d, cand));
        }
    } else {
        let sti: Registries = (st.0.insert(cand), st.1);
        let sub = rack.remove(i);
        lemma_all_wildcards_remove(rack, i);
        assert forall|q: Seq<u8>| #[trigger] sti.0.contains(q) && !q.is_prefix_of(cand)
            implies settled_wild(d, sti.1, q, sub, cand) by {
            assert(q != cand);
            assert(st.0.contains(q));
            if q.is_prefix_of(p) {
                lemma_prefix_trans(q, p, cand);
            }
            assert(settled_wild(d, st.1, q, rack, p));
            lemma_settled_wild_transfer(d, st.1, q, rack, p, i, letter);
        }
        lemma_explore_sound(d, sub, cand, sti);
        lemma_explore_settle_wild(d, sub, cand, sti);
        let st2 = explore_spec(d, sub, cand, sti);
        assert(cand_spec(d, rack, p, i, letter, st) == st2);
        assert forall|w: Seq<u8>| d.contains(w) && #[trigger] p.push(letter).is_prefix_of(w)
            && w.len() <= MAX_DEPTH && w.len() <= rack.len() + p.len()
            implies st2.1.contains(w) by {
            assert(cand.is_prefix_of(w));
            assert(w.len() <= sub.len() + cand.len());
            assert(settled_wild(d, st2.1, cand, sub, cand));
        }
        assert forall|q: Seq<u8>| #[trigger] st2.0.contains(q) && !q.is_prefix_of(p)
            implies settled_wild(d, st2.1, q, rack, p) by {
            if q.is_prefix_of(cand) {
                lemma_prefix_of_push(q, p, letter);
                assert(q == cand);
                assert(settled_wild(d, st2.1, cand, sub, cand));
                lemma_settled_wild_transfer(d, st2.1, q, rack, p, i, letter);
            } else {
                assert(registries_settled_wild(d, st2, sub, cand));
                assert(settled_wild(d, st2.1, q, sub, cand));
                lemma_settled_wild_transfer(d, st2.1, q, rack, p, i, letter);
            }
        }
    }
}

} // verus!
