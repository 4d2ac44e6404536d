//! Soundness of the explorer: the registries only grow, every recorded
//! word is a dictionary word spellable from the rack, and every visited
//! prefix is viable and spellable from the rack.

use vstd::prelude::*;
use crate::MAX_DEPTH;
use crate::dict::has_prefix_in;
use crate::feasible::{spellable, tile_yields};
use crate::search::{cand_spec, explore_spec, letters_spec, step_word, tiles_spec, Registries};
use crate::seqs::{lemma_prefix_push, lemma_prefix_refl, lemma_push_prefix_of};
use crate::tiles::Tile;

verus! {

/// What exploration under `p` can reach: `x` extends `p`, stays within
/// the depth cap, and the extension is spellable from the rack.
pub open spec fn reached_from(p: Seq<u8>, rack: Seq<Tile>, x: Seq<u8>) -> bool {
    p.is_prefix_of(x) && x.len() <= MAX_DEPTH && spellable(x.skip(p.len() as int), rack)
}

/// The soundness guarantees relating a state `st` before some exploration
/// step under `(rack, p)` to the state `st2` after it: both registries
/// grow, new words are reachable dictionary words, and new visited
/// prefixes are reachable, strictly longer, viable prefixes.
pub open spec fn sound_step(
    d: Set<Seq<u8>>,
    rack: Seq<Tile>,
    p: Seq<u8>,
    st: Registries,
    st2: Registries,
) -> bool {
    &&& forall|x: Seq<u8>| #[trigger] st.0.contains(x) ==> st2.0.contains(x)
    &&& forall|x: Seq<u8>| #[trigger] st.1.contains(x) ==> st2.1.contains(x)
    &&& forall|w: Seq<u8>| #[trigger] st2.1.contains(w) ==> st.1.contains(w)
        || (d.contains(w) && reached_from(p, rack, w))
    &&& forall|v: Seq<u8>| #[trigger] st2.0.contains(v) ==> st.0.contains(v)
        || (p.len() < v.len() && has_prefix_in(d, v) && reached_from(p, rack, v))
}

/// Extending a reach by one consumed tile: if `x` continues `p` with a
/// letter the tile at `i` yields, and the rest is spellable without that
/// tile, then `x` is reachable from `p` with the whole rack.
proof fn lemma_extend_reach(p: Seq<u8>, letter: u8, rack: Seq<Tile>, i: int, x: Seq<u8>)
    requires
        0 <= i < rack.len(),
        tile_yields(rack[i], letter),
        p.push(letter).is_prefix_of(x),
        x.len() <= MAX_DEPTH,
        spellable(x.skip(p.len() as int + 1), rack.remove(i)),
    ensures
        reached_from(p, rack, x),
        p.len() < x.len(),
{
    lemma_push_prefix_of(p, letter, x);
    let s0 = x.skip(p.len() as int);
    assert(s0[0] == x[p.len() as int]);
    assert(s0.drop_first() =~= x.skip(p.len() as int + 1));
    assert(spellable(s0, rack)) by {
        assert(0 <= i < rack.len() && tile_yields(rack[i], s0[0])
            && spellable(s0.drop_first(), rack.remove(i)));
    }
}

/// Soundness of one whole exploration call.
pub proof fn lemma_explore_sound(d: Set<Seq<u8>>, rack: Seq<Tile>, p: Seq<u8>, st: Registries)
    requires
        p.len() <= MAX_DEPTH,
    ensures
        sound_step(d, rack, p, st, explore_spec(d, rack, p, st)),
    decreases MAX_DEPTH - p.len(), 2int, 0int, 0int,
{
    let st1 = step_word(d, p, st);
    lemma_prefix_refl(p);
    assert(p.skip(p.len() as int) =~= Seq::<u8>::empty());
    assert(sound_step(d, rack, p, st, st1));
    if p.len() < MAX_DEPTH {
        lemma_tiles_sound(d, rack, p, 0, st1);
        let st2 = tiles_spec(d, rack, p, 0, st1);
        assert(sound_step(d, rack, p, st, st2));
    }
}

/// Soundness of trying the tiles from position `i` on.
pub proof fn lemma_tiles_sound(d: Set<Seq<u8>>, rack: Seq<Tile>, p: Seq<u8>, i: int, st: Registries)
    requires
        p.len() <= MAX_DEPTH,
    ensures
        sound_step(d, rack, p, st, tiles_spec(d, rack, p, i, st)),
    decreases MAX_DEPTH - p.len(), 1int, rack.len() - i, 28int,
{
    if p.len() < MAX_DEPTH && 0 <= i < rack.len() {
        let stb = match rack[i] {
            Tile::Letter(c) => cand_spec(d, rack, p, i, c, st),
            Tile::Wildcard => letters_spec(d, rack, p, i, 0, st),
        };
        match rack[i] {
            Tile::Letter(c) => {
                lemma_cand_sound(d, rack, p, i, c, st);
            }
            Tile::Wildcard => {
                lemma_letters_sound(d, rack, p, i, 0, st);
            }
        }
        assert(sound_step(d, rack, p, st, stb));
        lemma_tiles_sound(d, rack, p, i + 1, stb);
        let st2 = tiles_spec(d, rack, p, i + 1, stb);
        assert(sound_step(d, rack, p, st, st2));
    }
}

/// Soundness of expanding a wildcard at `i` over the letters from
/// alphabet position `l` on.
pub proof fn lemma_letters_sound(
    d: Set<Seq<u8>>,
    rack: Seq<Tile>,
    p: Seq<u8>,
    i: int,
    l: int,
    st: Registries,
)
    requires
        p.len() <= MAX_DEPTH,
        0 <= i < rack.len() ==> rack[i] == Tile::Wildcard,
    ensures
        sound_step(d, rack, p, st, letters_spec(d, rack, p, i, l, st)),
    decreases MAX_DEPTH - p.len(), 1int, rack.len() - i, 26 - l,
{
    if p.len() < MAX_DEPTH && 0 <= i < rack.len() && 0 <= l < 26 {
        let letter = (97 + l) as u8;
        lemma_cand_sound(d, rack, p, i, letter, st);
        let stb = cand_spec(d, rack, p, i, letter, st);
        lemma_letters_sound(d, rack, p, i, l + 1, stb);
        let st2 = letters_spec(d, rack, p, i, l + 1, stb);
        assert(sound_step(d, rack, p, st, st2));
    }
}

/// Soundness of trying one candidate letter on the tile at `i`.
pub proof fn lemma_cand_sound(
    d: Set<Seq<u8>>,
    rack: Seq<Tile>,
    p: Seq<u8>,
    i: int,
    letter: u8,
    st: Registries,
)
    requires
        p.len() <= MAX_DEPTH,
        0 <= i < rack.len(),
        tile_yields(rack[i], letter),
    ensures
        sound_step(d, rack, p, st, cand_spec(d, rack, p, i, letter, st)),
    decreases MAX_DEPTH - p.len(), 1int, rack.len() - i, 0int,
{
    let cand = p.push(letter);
    if p.len() < MAX_DEPTH && 0 <= i < rack.len() && !st.0.contains(cand)
        && has_prefix_in(d, cand) {
        let sti: Registries = (st.0.insert(cand), st.1);
        let sub = rack.remove(i);
        lemma_explore_sound(d, sub, cand, sti);
        let st2 = explore_spec(d, sub, cand, sti);
        lemma_prefix_push(p, letter);
        assert(cand.skip(cand.len() as int) =~= Seq::<u8>::empty());
        lemma_prefix_refl(cand);
        assert(reached_from(cand, sub, cand));
        assert forall|w: Seq<u8>| #[trigger] st2.1.contains(w) && !st.1.contains(w)
            implies d.contains(w) && reached_from(p, rack, w) by {
            assert(d.contains(w) && reached_from(cand, sub, w));
            lemma_extend_reach(p, letter, rack, i, w);
        }
        assert forall|v: Seq<u8>| #[trigger] st2.0.contains(v) && !st.0.contains(v)
            implies p.len() < v.len() && has_prefix_in(d, v) && reached_from(p, rack, v) by {
            if v == cand {
                lemma_extend_reach(p, letter, rack, i, v);
            } else {
                assert(sti.0.contains(v) || (cand.len() < v.len() && has_prefix_in(d, v)
                    && reached_from(cand, sub, v)));
                lemma_extend_reach(p, letter, rack, i, v);
            }
        }
        assert forall|x: Seq<u8>| #[trigger] st.0.contains(x) implies st2.0.contains(x) by {
            assert(sti.0.contains(x));
        }
        assert forall|x: Seq<u8>| #[trigger] st.1.contains(x) implies st2.1.contains(x) by {
            assert(sti.1.contains(x));
        }
        assert(sound_step(d, rack, p, st, st2));
    }
}

} // verus!
