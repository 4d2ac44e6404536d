//! The laws of the search engine, each proved from the spec functions
//! that the executable explorer's contracts are stated over.

use vstd::prelude::*;
use crate::MAX_DEPTH;
use crate::dict::{dict_ok, has_prefix_in, word_ok};
use crate::feasible::{
    all_letters, all_wildcards, lemma_spellable_counts, lemma_spellable_len, rack_count,
};
use crate::search::{cand_spec, episode_results, episode_spec, episode_visited, explore_spec, Registries};
use crate::seqs::count_byte;
use crate::sound::{lemma_explore_sound, reached_from, sound_step};
use crate::complete::{fits_letters, lemma_explore_settle, settled};
use crate::wild::{lemma_explore_settle_wild, settled_wild};
use crate::tiles::{is_letter, Tile};

verus! {

/// `w` takes no letter more often than the rack carries it.
pub open spec fn within_rack(w: Seq<u8>, rack: Seq<Tile>) -> bool {
    forall|c: u8| is_letter(c) ==> #[trigger] count_byte(w, c) <= rack_count(rack, c)
}

/// On a rack with no wildcards, an episode finds exactly the dictionary
/// words within the depth cap whose letters are a multiset subset of the
/// rack's letters — the same words the direct multiset-subtraction filter
/// accepts.
pub proof fn lemma_concrete_rack_exact(d: Set<Seq<u8>>, rack: Seq<Tile>)
    requires
        dict_ok(d),
        all_letters(rack),
    ensures
        episode_results(d, rack) == Set::new(|w: Seq<u8>|
            d.contains(w) && 1 <= w.len() <= MAX_DEPTH && within_rack(w, rack)),
{
    let st0: Registries = (Set::empty(), Set::empty());
    let empty = Seq::<u8>::empty();
    let st2 = explore_spec(d, rack, empty, st0);
    let res = episode_results(d, rack);
    let goal = Set::new(|w: Seq<u8>|
        d.contains(w) && 1 <= w.len() <= MAX_DEPTH && within_rack(w, rack));
    lemma_explore_sound(d, rack, empty, st0);
    lemma_explore_settle(d, rack, empty, st0);
    assert forall|w: Seq<u8>| #[trigger] res.contains(w) implies goal.contains(w) by {
        assert(st2.1.contains(w));
        assert(d.contains(w) && reached_from(empty, rack, w));
        assert(w.skip(0) =~= w);
        assert(word_ok(w));
        assert forall|c: u8| is_letter(c)
            implies #[trigger] count_byte(w, c) <= rack_count(rack, c) by {
            lemma_spellable_counts(w, rack, c);
        }
    }
    assert forall|w: Seq<u8>| #[trigger] goal.contains(w) implies res.contains(w) by {
        assert(empty.is_prefix_of(w)) by {
            assert(empty =~= w.subrange(0, 0));
        }
        assert(fits_letters(w, rack, empty)) by {
            assert forall|c: u8| is_letter(c)
                implies #[trigger] count_byte(w, c)
                    <= rack_count(rack, c) + count_byte(empty, c) by {
                assert(count_byte(empty, c) == 0);
            }
        }
        assert(settled(d, st2.1, empty, rack, empty));
    }
    assert(res =~= goal);
}

/// On a rack of `n` wildcards, an episode finds exactly the dictionary
/// words of length at most `n` (and at most the depth cap), each once —
/// the result registry is a set.
pub proof fn lemma_wildcard_rack_exact(d: Set<Seq<u8>>, rack: Seq<Tile>)
    requires
        dict_ok(d),
        all_wildcards(rack),
    ensures
        episode_results(d, rack) == Set::new(|w: Seq<u8>|
            d.contains(w) && 1 <= w.len() <= MAX_DEPTH && w.len() <= rack.len()),
{
    let st0: Registries = (Set::empty(), Set::empty());
    let empty = Seq::<u8>::empty();
    let st2 = explore_spec(d, rack, empty, st0);
    let res = episode_results(d, rack);
    let goal = Set::new(|w: Seq<u8>|
        d.contains(w) && 1 <= w.len() <= MAX_DEPTH && w.len() <= rack.len());
    lemma_explore_sound(d, rack, empty, st0);
    lemma_explore_settle_wild(d, rack, empty, st0);
    assert forall|w: Seq<u8>| #[trigger] res.contains(w) implies goal.contains(w) by {
        assert(st2.1.contains(w));
        assert(d.contains(w) && reached_from(empty, rack, w));
        assert(w.skip(0) =~= w);
        assert(word_ok(w));
        lemma_spellable_len(w, rack);
    }
    assert forall|w: Seq<u8>| #[trigger] goal.contains(w) implies res.contains(w) by {
        assert(empty.is_prefix_of(w)) by {
            assert(empty =~= w.subrange(0, 0));
        }
        assert(settled_wild(d, st2.1, empty, rack, empty));
    }
    assert(res =~= goal);
}

/// Idempotence: an episode's outcome is a mathematical function of the
/// dictionary's word set and the rack — nothing else enters — so running
/// the same query twice against an unmodified dictionary yields the same
/// result set.
pub proof fn lemma_episode_deterministic(
    d1: Set<Seq<u8>>,
    rack1: Seq<Tile>,
    d2: Set<Seq<u8>>,
    rack2: Seq<Tile>,
)
    requires
        d1 == d2,
        rack1 == rack2,
    ensures
        episode_results(d1, rack1) == episode_results(d2, rack2),
        episode_spec(d1, rack1) == episode_spec(d2, rack2),
{
}

/// Pruning correctness: a candidate prefix with which no dictionary word
/// begins is never claimed for exploration, and no descendant of it is
/// ever in the result set.
pub proof fn lemma_pruning(d: Set<Seq<u8>>, rack: Seq<Tile>, c: Seq<u8>)
    requires
        !has_prefix_in(d, c),
    ensures
        !episode_visited(d, rack).contains(c),
        forall|w: Seq<u8>| #[trigger] episode_results(d, rack).contains(w)
            ==> !c.is_prefix_of(w),
{
    let st0: Registries = (Set::empty(), Set::empty());
    let empty = Seq::<u8>::empty();
    lemma_explore_sound(d, rack, empty, st0);
    let st2 = explore_spec(d, rack, empty, st0);
    assert(sound_step(d, rack, empty, st0, st2));
    if st2.0.contains(c) {
        assert(has_prefix_in(d, c));
    }
    assert forall|w: Seq<u8>| #[trigger] episode_results(d, rack).contains(w)
        implies !c.is_prefix_of(w) by {
        assert(st2.1.contains(w));
        assert(d.contains(w));
        if c.is_prefix_of(w) {
            assert(has_prefix_in(d, c));
        }
    }
}

/// Deduplication: once a candidate prefix is claimed in the visited
/// registry, a later branch that forms the same candidate — via a second
/// tile with the same letter, or a wildcard landing on it — does nothing:
/// it neither recurses nor records.
pub proof fn lemma_claimed_candidate_skipped(
    d: Set<Seq<u8>>,
    rack: Seq<Tile>,
    p: Seq<u8>,
    i: int,
    letter: u8,
    st: Registries,
)
    requires
        st.0.contains(p.push(letter)),
    ensures
        cand_spec(d, rack, p, i, letter, st) == st,
{
}

} // verus!
