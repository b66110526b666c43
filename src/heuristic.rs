//! The heuristic interface of the A* domain: a lower bound on the distance
//! that is left from a cell to the end, with the hooks for pruning.
use vstd::prelude::*;
use crate::blocks::gap_h;

verus! {

/// `hf` is a consistent heuristic on the grid up to `(n, m)`: zero at the
/// end, bounded, changing by at most one per row or column step, and never
/// falling along a diagonal step, which may cost nothing.
#[verifier::opaque]
pub open spec fn consistent_fn(hf: spec_fn(int, int) -> int, n: int, m: int) -> bool {
    &&& hf(n, m) == 0
    &&& forall|i: int, j: int| 0 <= i <= n && 0 <= j <= m ==> 0 <= #[trigger] hf(i, j) <= n + m
    &&& forall|i: int, j: int|
        0 <= i < n && 0 <= j <= m ==> #[trigger] hf(i, j) <= hf(i + 1, j) + 1 && hf(i + 1, j)
            <= hf(i, j) + 1
    &&& forall|i: int, j: int|
        0 <= i <= n && 0 <= j < m ==> #[trigger] hf(i, j) <= hf(i, j + 1) + 1 && hf(i, j + 1)
            <= hf(i, j) + 1
    &&& forall|i: int, j: int| 0 <= i < n && 0 <= j < m ==> #[trigger] hf(i, j) <= hf(i + 1, j + 1)
}

/// A lower bound on the remaining distance, which the A* domain uses to
/// bound the rows of each column. A query may move an internal hint, and
/// pruning is only recorded until the contours are updated.
pub trait Heuristic: Sized {
    /// The value of the heuristic at `(i, j)`.
    spec fn h_spec(&self, i: int, j: int) -> int;

    /// The end of the grid, `(a.len(), b.len())`.
    spec fn target(&self) -> (int, int);

    /// The value at `(i, j)`.
    fn h(&mut self, i: usize, j: usize) -> (r: u64)
        requires
            i <= old(self).target().0,
            j <= old(self).target().1,
        ensures
            r == old(self).h_spec(i as int, j as int),
            final(self).target() == old(self).target(),
            forall|x: int, y: int| #[trigger] final(self).h_spec(x, y) == old(self).h_spec(x, y),
    ;

    /// Records that the matches starting in the given rectangle are passed;
    /// the values do not change until `update_contours`.
    fn prune_block(&mut self, i_lo: usize, i_hi: usize, j_lo: usize, j_hi: usize)
        ensures
            final(self).target() == old(self).target(),
            forall|x: int, y: int| #[trigger] final(self).h_spec(x, y) == old(self).h_spec(x, y),
    ;

    /// Applies the recorded pruning.
    fn update_contours(&mut self)
        requires
            consistent_fn(
                |x: int, y: int| old(self).h_spec(x, y),
                old(self).target().0,
                old(self).target().1,
            ),
        ensures
            final(self).target() == old(self).target(),
            consistent_fn(
                |x: int, y: int| final(self).h_spec(x, y),
                final(self).target().0,
                final(self).target().1,
            ),
    ;
}

/// The heuristic as a function of the cell.
pub open spec fn h_fn<H: Heuristic>(h: H) -> spec_fn(int, int) -> int {
    |i: int, j: int| h.h_spec(i, j)
}

/// `h` is consistent on its grid.
pub open spec fn consistent<H: Heuristic>(h: H) -> bool {
    consistent_fn(h_fn(h), h.target().0, h.target().1)
}

/// `h2` has the same grid and values as `h1`.
pub open spec fn same_heuristic<H: Heuristic>(h1: H, h2: H) -> bool {
    &&& h2.target() == h1.target()
    &&& forall|i: int, j: int| #[trigger] h2.h_spec(i, j) == h1.h_spec(i, j)
}

/// The gap heuristic: the cost of the length difference left between a
/// cell and the end.
#[derive(Clone, Copy, Debug)]
pub struct GapHeuristic {
    pub n: usize,
    pub m: usize,
}

/// The gap heuristic is consistent.
pub proof fn lemma_gap_consistent(n: int, m: int)
    requires
        0 <= n,
        0 <= m,
    ensures
        consistent_fn(|i: int, j: int| gap_h(n, m, i, j), n, m),
{
    reveal(consistent_fn);
}

/// A consistent heuristic is zero at the end and at most `n + m`.
pub proof fn lemma_h_bounded(hf: spec_fn(int, int) -> int, n: int, m: int, i: int, j: int)
    requires
        consistent_fn(hf, n, m),
        0 <= i <= n,
        0 <= j <= m,
    ensures
        0 <= hf(i, j) <= n + m,
        hf(n, m) == 0,
{
    reveal(consistent_fn);
}

impl Heuristic for GapHeuristic {
    open spec fn h_spec(&self, i: int, j: int) -> int {
        gap_h(self.n as int, self.m as int, i, j)
    }

    open spec fn target(&self) -> (int, int) {
        (self.n as int, self.m as int)
    }

    fn h(&mut self, i: usize, j: usize) -> (r: u64) {
        let x = (self.m - j) as u64;
        let y = (self.n - i) as u64;
        if x >= y {
            x - y
        } else {
            y - x
        }
    }

    fn prune_block(&mut self, i_lo: usize, i_hi: usize, j_lo: usize, j_hi: usize) {
    }

    fn update_contours(&mut self) {
    }
}

impl GapHeuristic {
    /// The gap heuristic of an `n` by `m` grid.
    pub fn new(n: usize, m: usize) -> (r: GapHeuristic)
        ensures
            r.n == n,
            r.m == m,
            consistent(r),
    {
        let r = GapHeuristic { n, m };
        proof {
            lemma_gap_consistent(n as int, m as int);
            assert(h_fn(r) =~= (|i: int, j: int| gap_h(n as int, m as int, i, j)));
        }
        r
    }
}

} // verus!
