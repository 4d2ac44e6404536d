//! Rack tiles: a tile is either a concrete lowercase letter or a wildcard
//! that may stand for any letter, and a rack is an ordered sequence of tiles
//! parsed from one line of query input.

use vstd::prelude::*;

verus! {

/// One tile of the player's rack.
#[derive(Clone, Copy, PartialEq, Eq, Structural, Debug)]
pub enum Tile {
    /// A tile carrying a fixed lowercase letter.
    Letter(u8),
    /// A tile that may stand for any letter of the alphabet.
    Wildcard,
}

/// A letter byte: ASCII `a` through `z`.
pub open spec fn is_letter(b: u8) -> bool {
    97 <= b <= 122
}

/// A tile is valid when a letter tile carries a lowercase letter.
pub open spec fn tile_valid(t: Tile) -> bool {
    match t {
        Tile::Letter(c) => is_letter(c),
        Tile::Wildcard => true,
    }
}

/// Every tile of the rack is valid.
pub open spec fn rack_valid(rack: Seq<Tile>) -> bool {
    forall|i: int| 0 <= i < rack.len() ==> tile_valid(#[trigger] rack[i])
}

/// A byte the rack parser accepts: a lowercase letter, the wildcard
/// symbol `?`, or a space separating tiles.
pub open spec fn symbol_ok(b: u8) -> bool {
    is_letter(b) || b == 63 || b == 32
}

/// The tile a non-space input byte stands for.
pub open spec fn tile_of(b: u8) -> Tile {
    if b == 63 {
        Tile::Wildcard
    } else {
        Tile::Letter(b)
    }
}

/// The tiles of an input line: one per non-space byte, in input order.
pub open spec fn tiles_of(s: Seq<u8>) -> Seq<Tile>
    decreases s.len(),
{
    if s.len() == 0 {
        Seq::empty()
    } else if s.last() == 32 {
        tiles_of(s.drop_last())
    } else {
        tiles_of(s.drop_last()).push(tile_of(s.last()))
    }
}

/// Why a query line was rejected.
#[derive(Clone, Copy, PartialEq, Eq, Structural, Debug)]
pub enum RackError {
    /// The line held a byte that is neither a letter, the wildcard
    /// symbol, nor a space.
    BadSymbol,
    /// The line held no tiles at all.
    Empty,
}

/// Parse one query line into a rack.
///
/// The line must consist of lowercase letters, `?` wildcards and spaces,
/// and must hold at least one tile; otherwise it is rejected.
pub fn parse_rack(line: &Vec<u8>) -> (r: Result<Vec<Tile>, RackError>)
    ensures
        r is Ok <==> (forall|k: int| 0 <= k < line@.len() ==> symbol_ok(#[trigger] line@[k]))
            && tiles_of(line@).len() > 0,
        r == Result::<Vec<Tile>, RackError>::Err(RackError::BadSymbol)
            <==> exists|k: int| 0 <= k < line@.len() && !symbol_ok(#[trigger] line@[k]),
        r matches Ok(tiles) ==> tiles@ == tiles_of(line@) && rack_valid(tiles@),
{
    let mut tiles: Vec<Tile> = Vec::new();
    let mut i: usize = 0;
    while i < line.len()
        invariant
            i <= line@.len(),
            tiles@ == tiles_of(line@.take(i as int)),
            rack_valid(tiles@),
            forall|k: int| 0 <= k < i ==> symbol_ok(#[trigger] line@[k]),
        decreases line@.len() - i,
    {
        proof {
            assert(line@.take(i + 1 as int).drop_last() =~= line@.take(i as int));
            assert(line@.take(i + 1 as int).last() == line@[i as int]);
        }
        let b = line[i];
        if 97 <= b && b <= 122 {
            tiles.push(Tile::Letter(b));
        } else if b == 63 {
            tiles.push(Tile::Wildcard);
        } else if b != 32 {
            return Err(RackError::BadSymbol);
        }
        i = i + 1;
    }
    proof {
        assert(line@.take(line@.len() as int) =~= line@);
    }
    if tiles.len() == 0 {
        return Err(RackError::Empty);
    }
    Ok(tiles)
}

} // verus!
