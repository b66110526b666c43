//! Exact unit-cost pairwise alignment with a bit-parallel block engine.
//!
//! The edit-distance matrix of `a` and `b` is swept column by column, each
//! column stored as packed `+1` and `-1` differences in 64-row words
//! (`kernel`, `blocks`). Under a bound on the distance only the rows that a
//! path within the bound can reach are computed (`domain`), from a gap band
//! or, in the A* domain, from a consistent heuristic (`heuristic`); the bound is
//! doubled until the result lies within it, and the stored columns give an
//! optimal alignment back (`trace`, `cigar`). The model the contracts speak
//! of is in `model`, and facts about alignments on boundary inputs in
//! `laws`.
pub mod kernel;
pub mod model;
pub mod profile;
pub mod blocks;
pub mod cigar;
pub mod trace;
pub mod aligners;
pub mod heuristic;
pub mod domain;
pub mod util;
pub mod visualizer;
pub mod laws;
pub mod diagonal_map;
pub mod generate;
pub mod cli;

use vstd::prelude::*;

verus! {

/// The text that a UTF-8 byte sequence encodes.
pub fn to_string(seq: &[u8]) -> (r: String)
    requires
        vstd::utf8::valid_utf8(seq@),
    ensures
        r@ == vstd::utf8::decode_utf8(seq@),
{
    util::to_string(seq)
}

} // verus!
