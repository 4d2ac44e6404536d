//! A verified engine for a letter-tile word game: given a rack of tiles
//! (concrete lowercase letters and wildcards), it enumerates every distinct
//! letter sequence reachable by choosing and ordering a subset of the tiles,
//! prunes branches with no dictionary continuation, collects the dictionary
//! words among them, and ranks the hits by score.

use vstd::prelude::*;

pub mod bytes;
pub mod complete;
pub mod counts;
pub mod dict;
pub mod feasible;
pub mod laws;
pub mod rank;
pub mod registry;
pub mod scoring;
pub mod search;
pub mod seqs;
pub mod sound;
pub mod tiles;
pub mod wild;

verus! {

/// Exploration stops once a prefix reaches this many letters.
pub const MAX_DEPTH: usize = 16;

/// How many ranked words a query reports.
pub const TOP_K: usize = 10;

} // verus!
