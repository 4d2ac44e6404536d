//! The explorer: a pruned, deduplicated recursive enumeration of every
//! distinct letter sequence reachable from a rack of tiles.
//!
//! Each call visits one prefix. It records the prefix in the result
//! registry when it is a dictionary word, then, below the depth cap,
//! extends the prefix by each still-available tile (a wildcard tile by
//! every letter of the alphabet in turn). A candidate already claimed in
//! the visited registry, or with no dictionary continuation, is pruned;
//! otherwise it is claimed and explored with that tile removed.
//!
//! The spec functions in this module mirror the exploration step for step;
//! the executable functions' contracts pin their entire effect on the two
//! registries to those spec functions, so the outcome of an episode is a
//! mathematical function of the dictionary, the rack and nothing else.

use vstd::prelude::*;
use crate::MAX_DEPTH;
use crate::bytes::{copy_bytes, copy_tiles};
use crate::dict::{Dictionary, has_prefix_in};
use crate::rank::{pair_words, rank, ranks_before, word_views};
use crate::registry::Registry;
use crate::scoring::word_power_spec;
use crate::sound::{lemma_explore_sound, reached_from, sound_step};
use crate::tiles::Tile;

verus! {

/// The two registries of one episode, as mathematics: the visited
/// prefixes and the found words.
pub type Registries = (Set<Seq<u8>>, Set<Seq<u8>>);

/// Record `prefix` among the found words when it is a nonempty
/// dictionary word.
pub open spec fn step_word(dict: Set<Seq<u8>>, prefix: Seq<u8>, st: Registries) -> Registries {
    if prefix.len() > 0 && dict.contains(prefix) {
        (st.0, st.1.insert(prefix))
    } else {
        st
    }
}

/// One full exploration call on `prefix`: record it if it is a word,
/// then, below the depth cap, try every tile of `rack`.
pub open spec fn explore_spec(
    dict: Set<Seq<u8>>,
    rack: Seq<Tile>,
    prefix: Seq<u8>,
    st: Registries,
) -> Registries
    decreases MAX_DEPTH - prefix.len(), 2int, 0int, 0int,
{
    let st1 = step_word(dict, prefix, st);
    if prefix.len() < MAX_DEPTH {
        tiles_spec(dict, rack, prefix, 0, st1)
    } else {
        st1
    }
}

/// Try the tiles of `rack` from position `i` on, in order.
pub open spec fn tiles_spec(
    dict: Set<Seq<u8>>,
    rack: Seq<Tile>,
    prefix: Seq<u8>,
    i: int,
    st: Registries,
) -> Registries
    decreases MAX_DEPTH - prefix.len(), 1int, rack.len() - i, 28int,
{
    if prefix.len() < MAX_DEPTH && 0 <= i < rack.len() {
        let st1 = match rack[i] {
            Tile::Letter(c) => cand_spec(dict, rack, prefix, i, c, st),
            Tile::Wildcard => letters_spec(dict, rack, prefix, i, 0, st),
        };
        tiles_spec(dict, rack, prefix, i + 1, st1)
    } else {
        st
    }
}

/// Expand a wildcard at position `i`: try every letter from alphabet
/// position `l` on.
pub open spec fn letters_spec(
    dict: Set<Seq<u8>>,
    rack: Seq<Tile>,
    prefix: Seq<u8>,
    i: int,
    l: int,
    st: Registries,
) -> Registries
    decreases MAX_DEPTH - prefix.len(), 1int, rack.len() - i, 26 - l,
{
    if prefix.len() < MAX_DEPTH && 0 <= i < rack.len() && 0 <= l < 26 {
        letters_spec(dict, rack, prefix, i, l + 1, cand_spec(dict, rack, prefix, i, (97 + l) as u8, st))
    } else {
        st
    }
}

/// One candidate `prefix + letter`, consuming the tile at position `i`:
/// pruned when already visited or when no dictionary word starts with it;
/// otherwise claimed in the visited registry and explored recursively.
pub open spec fn cand_spec(
    dict: Set<Seq<u8>>,
    rack: Seq<Tile>,
    prefix: Seq<u8>,
    i: int,
    letter: u8,
    st: Registries,
) -> Registries
    decreases MAX_DEPTH - prefix.len(), 1int, rack.len() - i, 0int,
{
    let cand = prefix.push(letter);
    if prefix.len() < MAX_DEPTH && 0 <= i < rack.len() && !st.0.contains(cand)
        && has_prefix_in(dict, cand) {
        explore_spec(dict, rack.remove(i), cand, (st.0.insert(cand), st.1))
    } else {
        st
    }
}

/// The registries at the end of a whole episode: empty prefix, empty
/// registries, the full rack.
pub open spec fn episode_spec(dict: Set<Seq<u8>>, rack: Seq<Tile>) -> Registries {
    explore_spec(dict, rack, Seq::empty(), (Set::empty(), Set::empty()))
}

/// The set of words one episode finds.
pub open spec fn episode_results(dict: Set<Seq<u8>>, rack: Seq<Tile>) -> Set<Seq<u8>> {
    episode_spec(dict, rack).1
}

/// The set of prefixes one episode visits.
pub open spec fn episode_visited(dict: Set<Seq<u8>>, rack: Seq<Tile>) -> Set<Seq<u8>> {
    episode_spec(dict, rack).0
}

/// Recursively visit every distinct prefix reachable from `prefix` by
/// appending letters of still-available tiles, recording dictionary words
/// in `results` and claimed prefixes in `visited`.
pub fn explore(
    dict: &Dictionary,
    rack: &Vec<Tile>,
    prefix: &Vec<u8>,
    visited: &mut Registry,
    results: &mut Registry,
)
    requires
        dict.wf(),
        old(visited).wf(),
        old(results).wf(),
        prefix@.len() <= MAX_DEPTH,
    ensures
        final(visited).wf(),
        final(results).wf(),
        (final(visited)@, final(results)@)
            == explore_spec(dict@, rack@, prefix@, (old(visited)@, old(results)@)),
    decreases MAX_DEPTH - prefix@.len(), 1int,
{
    let ghost st0: Registries = (visited@, results@);
    if prefix.len() > 0 && dict.is_word(prefix) {
        let owned = copy_bytes(prefix);
        let _ = results.insert_if_absent(owned);
    }
    let ghost st1: Registries = (visited@, results@);
    proof {
        assert(st1 == step_word(dict@, prefix@, st0));
    }
    if prefix.len() == MAX_DEPTH {
        return;
    }
    let n = rack.len();
    let mut i: usize = 0;
    while i < n
        invariant
            dict.wf(),
            visited.wf(),
            results.wf(),
            i <= n,
            n == rack@.len(),
            prefix@.len() < MAX_DEPTH,
            tiles_spec(dict@, rack@, prefix@, i as int, (visited@, results@))
                == tiles_spec(dict@, rack@, prefix@, 0, st1),
        decreases n - i,
    {
        let ghost st_i: Registries = (visited@, results@);
        let t = rack[i];
        match t {
            Tile::Letter(c) => {
                try_candidate(dict, rack, prefix, i, c, visited, results);
            }
            Tile::Wildcard => {
                let mut l: u8 = 0;
                while l < 26
                    invariant
                        dict.wf(),
                        visited.wf(),
                        results.wf(),
                        l <= 26,
                        i < rack@.len(),
                        prefix@.len() < MAX_DEPTH,
                        letters_spec(dict@, rack@, prefix@, i as int, l as int, (visited@, results@))
                            == letters_spec(dict@, rack@, prefix@, i as int, 0, st_i),
                    decreases 26 - l,
                {
                    let ghost st_l: Registries = (visited@, results@);
                    let ghost l0 = l as int;
                    try_candidate(dict, rack, prefix, i, 97 + l, visited, results);
                    proof {
                        assert(letters_spec(dict@, rack@, prefix@, i as int, l0, st_l)
                            == letters_spec(dict@, rack@, prefix@, i as int, l0 + 1, (visited@, results@)));
                    }
                    l = l + 1;
                }
                proof {
                    assert(letters_spec(dict@, rack@, prefix@, i as int, 26, (visited@, results@))
                        == (visited@, results@));
                }
            }
        }
        proof {
            assert(tiles_spec(dict@, rack@, prefix@, i as int, st_i)
                == tiles_spec(dict@, rack@, prefix@, i as int + 1, (visited@, results@)));
        }
        i = i + 1;
    }
    proof {
        assert(tiles_spec(dict@, rack@, prefix@, n as int, (visited@, results@))
            == (visited@, results@));
    }
}

/// Try one candidate extension of `prefix` by `letter`, consuming the
/// tile at position `i`, as `cand_spec` says.
fn try_candidate(
    dict: &Dictionary,
    rack: &Vec<Tile>,
    prefix: &Vec<u8>,
    i: usize,
    letter: u8,
    visited: &mut Registry,
    results: &mut Registry,
)
    requires
        dict.wf(),
        old(visited).wf(),
        old(results).wf(),
        i < rack@.len(),
        prefix@.len() < MAX_DEPTH,
    ensures
        final(visited).wf(),
        final(results).wf(),
        (final(visited)@, final(results)@)
            == cand_spec(dict@, rack@, prefix@, i as int, letter, (old(visited)@, old(results)@)),
    decreases MAX_DEPTH - prefix@.len(), 0int,
{
    let ghost st0: Registries = (visited@, results@);
    let mut cand = copy_bytes(prefix);
    cand.push(letter);
    proof {
        assert(cand@ == prefix@.push(letter));
    }
    if visited.contains(&cand) {
        return;
    }
    if !dict.has_words_with_prefix(&cand) {
        return;
    }
    let owned = copy_bytes(&cand);
    let _ = visited.insert_if_absent(owned);
    let mut sub = copy_tiles(rack);
    let _ = sub.remove(i);
    explore(dict, &sub, &cand, visited, results);
}

/// Run one whole enumeration episode on fresh registries and hand out the
/// found words.
pub fn find_words(dict: &Dictionary, rack: &Vec<Tile>) -> (found: Vec<Vec<u8>>)
    requires
        dict.wf(),
    ensures
        found@.map_values(|v: Vec<u8>| v@).to_set() == episode_results(dict@, rack@),
        found@.map_values(|v: Vec<u8>| v@).no_duplicates(),
{
    let mut visited = Registry::new();
    let mut results = Registry::new();
    let prefix: Vec<u8> = Vec::new();
    proof {
        assert(prefix@ =~= Seq::<u8>::empty());
    }
    explore(dict, rack, &prefix, &mut visited, &mut results);
    results.into_items()
}

/// Answer one query: run the enumeration episode and hand back the best
/// `k` scored words, ordered by score descending with lexicographic
/// tie-break.
pub fn query(dict: &Dictionary, rack: &Vec<Tile>, k: usize) -> (ranked: Vec<(Vec<u8>, u32)>)
    requires
        dict.wf(),
    ensures
        ({
            let res = episode_results(dict@, rack@);
            &&& ranked@.len() == if k <= res.len() { k as int } else { res.len() as int }
            &&& forall|m: int| 0 <= m < ranked@.len() ==> res.contains(#[trigger] ranked@[m].0@)
            &&& forall|m: int| 0 <= m < ranked@.len()
                ==> (#[trigger] ranked@[m].1) == word_power_spec(ranked@[m].0@)
            &&& forall|m: int, j: int| #![trigger ranked@[m], ranked@[j]]
                0 <= m < j < ranked@.len() ==> ranks_before(ranked@[m].0@, ranked@[j].0@)
            &&& forall|w: Seq<u8>| #[trigger] res.contains(w) && !pair_words(ranked@).contains(w)
                ==> ranked@.len() == k
                    && forall|m: int| 0 <= m < ranked@.len()
                        ==> ranks_before((#[trigger] ranked@[m]).0@, w)
        }),
{
    let words = find_words(dict, rack);
    let ghost res = episode_results(dict@, rack@);
    proof {
        assert(word_views(words@) =~= words@.map_values(|v: Vec<u8>| v@));
        lemma_explore_sound(dict@, rack@, Seq::empty(), (Set::empty(), Set::empty()));
        let st0: Registries = (Set::empty(), Set::empty());
        let st2 = explore_spec(dict@, rack@, Seq::empty(), st0);
        assert(sound_step(dict@, rack@, Seq::empty(), st0, st2));
        assert forall|i: int| 0 <= i < words@.len()
            implies 11 * #[trigger] words@[i]@.len() <= u32::MAX by {
            assert(word_views(words@)[i] == words@[i]@);
            assert(word_views(words@).contains(words@[i]@));
            assert(res.contains(words@[i]@));
            assert(st2.1.contains(words@[i]@));
            assert(reached_from(Seq::empty(), rack@, words@[i]@));
        }
        word_views(words@).unique_seq_to_set();
    }
    let ranked = rank(&words, k);
    proof {
        assert forall|m: int| 0 <= m < ranked@.len()
            implies res.contains(#[trigger] ranked@[m].0@) by {
            assert(word_views(words@).contains(ranked@[m].0@));
        }
        assert forall|w: Seq<u8>| #[trigger] res.contains(w) && !pair_words(ranked@).contains(w)
            implies ranked@.len() == k
                && forall|m: int| 0 <= m < ranked@.len()
                    ==> ranks_before((#[trigger] ranked@[m]).0@, w) by {
            assert(word_views(words@).to_set().contains(w));
            assert(word_views(words@).contains(w));
        }
    }
    ranked
}

} // verus!
