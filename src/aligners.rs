//! The interface of an aligner, and the exponential search on the distance
//! bound that turns a bounded aligner into an exact one.
use vstd::prelude::*;
use crate::cigar::{is_optimal_alignment, Cigar};
use crate::model::{edit_distance, valid_a, valid_b};

verus! {

/// A position `(i, j)` in the matrix: `i` characters of `a`, `j` of `b`.
#[derive(Clone, Copy, PartialEq, Eq, Structural, Debug)]
pub struct Pos(pub i32, pub i32);

/// A visualizer records the progress of an aligner.
pub trait VisualizerT {
    fn explore(&mut self, _pos: Pos) {
    }

    fn expand(&mut self, _pos: Pos) {
    }
}

/// The lengths an aligner accepts: the matrix and its values fit in words.
pub open spec fn fits(a: Seq<u8>, b: Seq<u8>) -> bool {
    a.len() + b.len() + 64 < u32::MAX
}

/// The inputs on which an aligner works.
pub open spec fn alignable(a: Seq<u8>, b: Seq<u8>) -> bool {
    valid_a(a) && valid_b(b) && fits(a, b)
}

/// What a bounded search for the cost may return: never less than the
/// distance, and the distance itself whenever it is within the bound.
pub open spec fn bounded_cost_ok(a: Seq<u8>, b: Seq<u8>, s: u64, r: Option<u64>) -> bool {
    &&& (r matches Some(c) ==> c >= edit_distance(a, b))
    &&& (edit_distance(a, b) <= s ==> r == Some(edit_distance(a, b) as u64))
}

/// The same for a bounded search for an alignment.
pub open spec fn bounded_align_ok(a: Seq<u8>, b: Seq<u8>, s: u64, r: Option<(u64, Cigar)>) -> bool {
    &&& (r matches Some(t) ==> (t.0 >= edit_distance(a, b) && (t.0 <= s ==> t.0 == edit_distance(
        a,
        b,
    ) && is_optimal_alignment(t.1@, a, b) && t.1.runs_ok())))
    &&& (edit_distance(a, b) <= s ==> (r matches Some(t) && t.0 == edit_distance(a, b)))
}

/// The cost that a gap-only alignment between the two lengths needs: a
/// lower bound on the distance.
pub fn gap_cost(n: usize, m: usize) -> (r: u64)
    ensures
        r == if n >= m {
            n - m
        } else {
            m - n
        },
{
    if n >= m {
        (n - m) as u64
    } else {
        (m - n) as u64
    }
}

/// An aligner finds the edit distance of two sequences, and an optimal
/// alignment, given a bound on the distance that it may assume.
pub trait Aligner {
    /// The cost of aligning `a` and `b` assuming it is at most `s`.
    fn cost_for_bounded_dist(&mut self, a: &[u8], b: &[u8], s: u64) -> (r: Option<u64>)
        requires
            alignable(a@, b@),
        ensures
            bounded_cost_ok(a@, b@, s, r),
    ;

    /// An alignment of `a` and `b` assuming its cost is at most `s`.
    fn align_for_bounded_dist(&mut self, a: &[u8], b: &[u8], s: u64) -> (r: Option<(u64, Cigar)>)
        requires
            alignable(a@, b@),
        ensures
            bounded_align_ok(a@, b@, s, r),
    ;

    /// Finds the cost of aligning `a` and `b`.
    fn cost(&mut self, a: &[u8], b: &[u8]) -> (r: u64)
        requires
            alignable(a@, b@),
        ensures
            r == edit_distance(a@, b@),
    {
        self.cost_exponential_search(a, b)
    }

    /// Finds an optimal alignment of `a` and `b`, with its cost.
    fn align(&mut self, a: &[u8], b: &[u8]) -> (r: (u64, Cigar))
        requires
            alignable(a@, b@),
        ensures
            r.0 == edit_distance(a@, b@),
            is_optimal_alignment(r.1@, a@, b@),
            r.1.runs_ok(),
    {
        self.align_exponential_search(a, b)
    }

    /// Finds the cost by doubling the bound, starting from the gap cost,
    /// until the bounded search succeeds within it.
    fn cost_exponential_search(&mut self, a: &[u8], b: &[u8]) -> (r: u64)
        requires
            alignable(a@, b@),
        ensures
            r == edit_distance(a@, b@),
    {
        let mut s: u64 = gap_cost(a.len(), b.len());
        proof {
            crate::blocks::lemma_dist_bounds(a@, b@, a@.len(), b@.len());
        }
        loop
            invariant
                alignable(a@, b@),
                s <= 2 * edit_distance(a@, b@) + 1,
                edit_distance(a@, b@) <= a.len() + b.len(),
            decreases 2 * edit_distance(a@, b@) + 2 - s,
        {
            let r = self.cost_for_bounded_dist(a, b, s);
            if let Some(cost) = r {
                if cost <= s {
                    return cost;
                }
            }
            s = if s == 0 {
                1
            } else {
                2 * s
            };
        }
    }

    /// Finds an optimal alignment by doubling the bound, starting from the
    /// gap cost, until the bounded search succeeds within it.
    fn align_exponential_search(&mut self, a: &[u8], b: &[u8]) -> (r: (u64, Cigar))
        requires
            alignable(a@, b@),
        ensures
            r.0 == edit_distance(a@, b@),
            is_optimal_alignment(r.1@, a@, b@),
            r.1.runs_ok(),
    {
        let mut s: u64 = gap_cost(a.len(), b.len());
        proof {
            crate::blocks::lemma_dist_bounds(a@, b@, a@.len(), b@.len());
        }
        loop
            invariant
                alignable(a@, b@),
                s <= 2 * edit_distance(a@, b@) + 1,
                edit_distance(a@, b@) <= a.len() + b.len(),
            decreases 2 * edit_distance(a@, b@) + 2 - s,
        {
            let r = self.align_for_bounded_dist(a, b, s);
            if let Some(t) = r {
                if t.0 <= s {
                    return t;
                }
            }
            s = if s == 0 {
                1
            } else {
                2 * s
            };
        }
    }
}

} // verus!
