//! The block aligner: its parameters, the range of rows of each column for
//! a distance bound, the bounded search for one bound, and the doubling
//! search over bounds.
use vstd::prelude::*;
use crate::aligners::{alignable, gap_cost, Aligner};
use crate::blocks::{
    band, column_ok, compute_next_block, covered, covered_upto, gap_f, gap_h, init_block,
    lemma_band_exact_h, lemma_band_ge_dist, lemma_column_ok_prefix, lemma_crossing,
    lemma_dist_bounds, lemma_dist_down, lemma_h_along_row, Block,
};
use crate::cigar::{is_optimal_alignment, Cigar};
use crate::heuristic::{
    consistent, consistent_fn, h_fn, lemma_gap_consistent, lemma_h_bounded, same_heuristic, GapHeuristic, Heuristic,
};
use crate::model::{base_code, dist, edit_distance, is_base};
use crate::profile::{is_scatter_profile, num_words, ScatterProfile};
use crate::trace::{column_values, steps_by_one, trace, widths};

verus! {

/// Which part of the matrix is computed for a bound.
#[derive(Clone, Copy, PartialEq, Eq, Structural, Debug)]
pub enum Domain {
    /// Every row of every column.
    Full,
    /// The rows reachable from the start within the bound.
    GapStart,
    /// The rows reachable from the start and still able to reach the end
    /// within the bound.
    GapGap,
    /// The rows that a heuristic leaves within the bound, extended from the
    /// fixed range of the column before each block.
    Astar,
}

/// Parameters of the block aligner.
#[derive(Clone, Copy, PartialEq, Eq, Structural, Debug)]
pub struct AstarPa2 {
    pub domain: Domain,
    /// Number of columns of a block, which share one range of rows in the
    /// A* domain.
    pub block_width: usize,
    /// Skip rows that the heuristic shows out of reach, instead of testing
    /// each.
    pub sparse_h: bool,
    /// Prune the heuristic behind the fixed ranges.
    pub prune: bool,
    /// Whether `align` returns an alignment besides the cost.
    pub trace: bool,
}

/// `blocks` holds the first columns of a banded matrix of `a` and `b`, each
/// right for the widths that the blocks have, the first one whole.
pub open spec fn store_ok(a: Seq<u8>, b: Seq<u8>, blocks: Seq<Block>) -> bool {
    &&& blocks.len() <= a.len() + 1
    &&& blocks.len() > 0 ==> blocks[0].lo == 0 && blocks[0].pv@.len() == num_words(b.len() as int)
    &&& forall|k: int|
        0 <= k < blocks.len() ==> column_ok(
            a,
            b,
            widths(blocks),
            k as nat,
            (#[trigger] blocks[k]).pv@,
            blocks[k].mv@,
        )
}

/// Every column kept from `old` computes at least the words it computed
/// there.
pub open spec fn ranges_grow(old: Seq<Block>, new: Seq<Block>) -> bool {
    forall|k: int|
        0 <= k < old.len() && k < new.len() ==> (#[trigger] new[k]).lo <= old[k].lo
            && new[k].pv@.len() >= old[k].pv@.len()
}

/// The value of row `j` in column `i` plus the heuristic there.
pub open spec fn f_at(vals: Seq<u64>, hf: spec_fn(int, int) -> int, i: int, j: int) -> int {
    vals[j] + hf(i, j)
}

/// `r` is the fixed range of a column of values `vals`: the first and the
/// last row whose value plus heuristic is at most `f`, or `None` where no
/// row is.
pub open spec fn is_fixed_range(
    vals: Seq<u64>,
    hf: spec_fn(int, int) -> int,
    m: int,
    i: int,
    f: int,
    r: Option<(usize, usize)>,
) -> bool {
    match r {
        None => forall|j: int| 0 <= j <= m ==> #[trigger] f_at(vals, hf, i, j) > f,
        Some((s, e)) => {
            &&& s <= e <= m
            &&& f_at(vals, hf, i, s as int) <= f
            &&& f_at(vals, hf, i, e as int) <= f
            &&& forall|j: int| 0 <= j < s ==> #[trigger] f_at(vals, hf, i, j) > f
            &&& forall|j: int| e < j <= m ==> #[trigger] f_at(vals, hf, i, j) > f
        },
    }
}

/// `f_at` changes by at most two per row.
proof fn lemma_f_steps(
    vals: Seq<u64>,
    hf: spec_fn(int, int) -> int,
    n: int,
    m: int,
    i: int,
    j: int,
    k: int,
)
    requires
        consistent_fn(hf, n, m),
        steps_by_one(vals),
        vals.len() == m + 1,
        0 <= i <= n,
        0 <= j <= k <= m,
    ensures
        f_at(vals, hf, i, k) >= f_at(vals, hf, i, j) - 2 * (k - j),
        f_at(vals, hf, i, j) >= f_at(vals, hf, i, k) - 2 * (k - j),
    decreases k - j,
{
    reveal(consistent_fn);
    if j < k {
        lemma_f_steps(vals, hf, n, m, i, j, k - 1);
        assert(hf(i, k - 1) <= hf(i, k) + 1 && hf(i, k) <= hf(i, k - 1) + 1);
        assert(vals[k - 1] <= vals[k] + 1 && vals[k] <= vals[k - 1] + 1);
    }
}

/// From a row exceeding the bound, the next `step` rows exceed it too when
/// twice `step` is at most the excess plus one.
proof fn lemma_skip(
    vals: Seq<u64>,
    hf: spec_fn(int, int) -> int,
    n: int,
    m: int,
    i: int,
    f: int,
    j0: int,
    step: int,
)
    requires
        consistent_fn(hf, n, m),
        steps_by_one(vals),
        vals.len() == m + 1,
        0 <= i <= n,
        0 <= j0 <= m,
        step >= 1,
        f_at(vals, hf, i, j0) > f,
        2 * step <= f_at(vals, hf, i, j0) - f + 1,
    ensures
        forall|j: int| j0 <= j < j0 + step && j <= m ==> #[trigger] f_at(vals, hf, i, j) > f,
        forall|j: int| j0 - step < j <= j0 && 0 <= j ==> #[trigger] f_at(vals, hf, i, j) > f,
{
    assert forall|j: int| j0 <= j < j0 + step && j <= m implies #[trigger] f_at(vals, hf, i, j) > f by {
        lemma_f_steps(vals, hf, n, m, i, j0, j);
    }
    assert forall|j: int| j0 - step < j <= j0 && 0 <= j implies #[trigger] f_at(vals, hf, i, j) > f by {
        lemma_f_steps(vals, hf, n, m, i, j, j0);
    }
}

/// Down a column, the row plus a consistent heuristic never falls.
proof fn lemma_row_plus_h(hf: spec_fn(int, int) -> int, n: int, m: int, i: int, j1: int, j2: int)
    requires
        consistent_fn(hf, n, m),
        0 <= i <= n,
        0 <= j1 <= j2 <= m,
    ensures
        j1 + hf(i, j1) <= j2 + hf(i, j2),
    decreases j2 - j1,
{
    reveal(consistent_fn);
    if j1 < j2 {
        lemma_row_plus_h(hf, n, m, i, j1, j2 - 1);
        assert(hf(i, j2 - 1) <= hf(i, j2) + 1);
    }
}

/// The last row of column `i` that a bounded domain computes for the bound
/// `f`, before clipping to the matrix.
pub open spec fn range_end(domain: Domain, n: int, m: int, i: int, f: int) -> int {
    let d = m - n;
    match domain {
        Domain::GapStart => i + f,
        Domain::GapGap => i + (if d > 0 {
            d
        } else {
            0
        }) + (f - (if d >= 0 {
            d
        } else {
            -d
        })) / 2,
        _ => m,
    }
}

/// The first row of column `i` that a bounded domain computes for the bound
/// `f`, before clipping to the matrix.
pub open spec fn range_start(domain: Domain, n: int, m: int, i: int, f: int) -> int {
    let d = m - n;
    match domain {
        Domain::GapStart => i - f,
        Domain::GapGap => i + (if d < 0 {
            d
        } else {
            0
        }) - (f - (if d >= 0 {
            d
        } else {
            -d
        })) / 2,
        _ => 0,
    }
}

pub open spec fn max_int(x: int, y: int) -> int {
    if x >= y {
        x
    } else {
        y
    }
}

pub open spec fn min_int(x: int, y: int) -> int {
    if x <= y {
        x
    } else {
        y
    }
}

pub open spec fn abs_diff(n: int, m: int) -> int {
    if n >= m {
        n - m
    } else {
        m - n
    }
}

/// `g_u + j + h <= f_max + fe + d`, computed without overflow.
fn within(g_u: u64, j: usize, hv: u64, f_max: u64, fe: usize, d: usize) -> (r: bool)
    requires
        g_u + j + hv < u64::MAX,
        fe + d < u64::MAX,
    ensures
        r == (g_u + j + hv <= f_max + fe + d),
{
    let lhs = g_u + j as u64 + hv;
    lhs <= f_max || lhs - f_max <= fe as u64 + d as u64
}

/// The rows `[lo, hi]` as words: the first computed word and the number of
/// words, so that every row in the range lies in the computed words.
fn words_of(lo: usize, hi: usize, m: usize) -> (r: (usize, usize))
    requires
        hi <= m,
        m + 64 < usize::MAX,
    ensures
        r.0 <= r.1 <= num_words(m as int),
        r.1 == (hi + 63) / 64,
        hi <= 64 * r.1,
        r.0 == 0 || 64 * r.0 < lo,
{
    let hw = (hi + 63) / 64;
    let lw = if lo == 0 {
        0
    } else if (lo - 1) / 64 <= hw {
        (lo - 1) / 64
    } else {
        hw
    };
    (lw, hw)
}

impl AstarPa2 {
    /// The default parameters: the gap-gap domain, blocks of 256 columns,
    /// sparse heuristic scans, pruning on, no trace.
    pub fn new() -> (r: AstarPa2)
        ensures
            r.domain == Domain::GapGap,
            r.block_width == 256,
            r.sparse_h,
            r.prune,
            !r.trace,
    {
        AstarPa2 { domain: Domain::GapGap, block_width: 256, sparse_h: true, prune: true, trace: false }
    }

    /// The first and the last row of column `i` of an `n` by `m` matrix to
    /// compute under the bound `f_max`. Without a bound, in the full domain
    /// and in the A* domain (whose rows come from `j_range_astar`) this is
    /// every row. Otherwise the range encloses every row that a path of cost
    /// at most `f_max` can pass through; it is empty (`r.0 > r.1`) where the
    /// bound is below the gap cost in the gap-gap domain.
    pub fn j_range(&self, n: usize, m: usize, i: usize, f_max: Option<u64>) -> (r: (usize, usize))
        requires
            i <= n,
            n + m < u32::MAX,
        ensures
            f_max is None || self.domain == Domain::Full || self.domain == Domain::Astar ==> r == (
            0usize,
            m,
            ),
            f_max is Some && (self.domain == Domain::GapStart || (self.domain == Domain::GapGap
                && f_max.unwrap() >= abs_diff(n as int, m as int))) ==> r.0 == max_int(
                range_start(self.domain, n as int, m as int, i as int, f_max.unwrap() as int),
                0,
            ) && r.1 == min_int(
                range_end(self.domain, n as int, m as int, i as int, f_max.unwrap() as int),
                m as int,
            ),
            f_max is Some && self.domain == Domain::GapGap && f_max.unwrap() < abs_diff(
                n as int,
                m as int,
            ) ==> r.0 > r.1,
            f_max is Some ==> forall|j: int|
                0 <= j <= m && gap_f(n as int, m as int, i as int, j) <= f_max.unwrap() ==> r.0 <= j
                    <= r.1,
    {
        let f = match f_max {
            None => {
                return (0, m);
            },
            Some(f) => f,
        };
        if self.domain == Domain::Full || self.domain == Domain::Astar {
            return (0, m);
        }
        let (d_neg, d_pos): (u64, u64) = if m >= n {
            (0, (m - n) as u64)
        } else {
            ((n - m) as u64, 0)
        };
        if self.domain == Domain::GapGap && f < d_neg + d_pos {
            return (m + 1, m);
        }
        if f >= (n + m) as u64 {
            proof {
                if self.domain == Domain::GapGap {
                    assert(range_end(self.domain, n as int, m as int, i as int, f as int) >= m);
                    assert(range_start(self.domain, n as int, m as int, i as int, f as int) <= 0);
                }
            }
            return (0, m);
        }
        let (below, hi): (u64, u64) = if self.domain == Domain::GapStart {
            (f, i as u64 + f)
        } else {
            let extra = (f - (d_neg + d_pos)) / 2;
            (d_neg + extra, i as u64 + d_pos + extra)
        };
        let lo: usize = if below >= i as u64 {
            0
        } else {
            i - below as usize
        };
        let hi: usize = if hi < m as u64 {
            hi as usize
        } else {
            m
        };
        (lo, hi)
    }

    /// The rows of the columns `is + 1 ..= ie` in the A* domain: from the
    /// start of the fixed range of column `is` to the last row that is not
    /// shown out of reach, extending from the bottom state `(is, fixed.1)` of
    /// that range, whose value is `g_u`. A path reaches row `j` of the last
    /// column from there at a cost of at least `(j - fixed.1) - (ie - is)`.
    /// The range holds `old_range`, the range of an earlier bound, if any.
    pub fn j_range_astar<H: Heuristic>(
        &self,
        h: &mut H,
        n: usize,
        m: usize,
        is: usize,
        ie: usize,
        f_max: u64,
        fixed: (usize, usize),
        g_u: u64,
        old_range: Option<(usize, usize)>,
    ) -> (r: (usize, usize))
        requires
            is < ie <= n,
            fixed.0 <= fixed.1 <= m,
            n + m < u32::MAX,
            g_u <= n + m,
            consistent(*old(h)),
            old(h).target() == (n as int, m as int),
            old_range matches Some(o) ==> o.1 <= m,
        ensures
            same_heuristic(*old(h), *final(h)),
            r.1 <= m,
            r.0 <= fixed.0,
            r.1 >= min_int(fixed.1 + (ie - is), m as int),
            old_range matches Some(o) ==> r.0 <= o.0 && o.1 <= r.1,
            forall|j: int|
                r.1 < j <= m ==> g_u + (j - fixed.1) - (ie - is) + old(h).h_spec(ie as int, j)
                    > f_max,
    {
        let ghost h0 = *h;
        let d = ie - is;
        let mut v: usize = if fixed.1 + d < m {
            fixed.1 + d
        } else {
            m
        };
        let mut step: usize = 1;
        loop
            invariant
                same_heuristic(h0, *h),
                consistent(h0),
                h0.target() == (n as int, m as int),
                is < ie <= n,
                d == ie - is,
                fixed.1 <= m,
                n + m < u32::MAX,
                g_u <= n + m,
                min_int(fixed.1 + d, m as int) <= v <= m,
                1 <= step,
            ensures
                same_heuristic(h0, *h),
                min_int(fixed.1 + d, m as int) <= v <= m,
                v == m || g_u + (v + 1) + h0.h_spec(ie as int, v + 1) > f_max + fixed.1 + d,
            decreases 2 * (m - v) + (if step > 1 {
                1int
            } else {
                0int
            }),
        {
            if v >= m {
                break;
            }
            let t = if self.sparse_h && step <= m - v {
                v + step
            } else if self.sparse_h {
                m
            } else {
                v + 1
            };
            proof {
                lemma_h_bounded(h_fn(h0), n as int, m as int, ie as int, t as int);
            }
            let hv = h.h(ie, t);
            if within(g_u, t, hv, f_max, fixed.1, d) {
                v = t;
                if step <= m / 2 {
                    step = 2 * step;
                }
            } else if t == v + 1 {
                break;
            } else {
                step = 1;
            }
        }
        proof {
            let hf = h_fn(h0);
            assert forall|j: int|
                v < j <= m implies g_u + (j - fixed.1) - (ie - is) + old(h).h_spec(ie as int, j)
                > f_max by {
                lemma_row_plus_h(hf, n as int, m as int, ie as int, v + 1, j);
            }
        }
        match old_range {
            Some(o) => {
                let lo = if o.0 < fixed.0 {
                    o.0
                } else {
                    fixed.0
                };
                let hi = if o.1 > v {
                    o.1
                } else {
                    v
                };
                (lo, hi)
            },
            None => (fixed.0, v),
        }
    }

    /// The fixed range of column `i` in the A* domain: the first and the last
    /// row whose value plus heuristic is at most `f_max`. Other domains, and
    /// a search without a bound, have none.
    ///
    /// With `sparse_h` the scans jump over rows: the value plus heuristic
    /// changes by at most two per row, so from a row that exceeds the bound
    /// by `x` the next `ceil(x / 2) - 1` rows exceed it too.
    pub fn fixed_j_range<H: Heuristic>(
        &self,
        h: &mut H,
        vals: &Vec<u64>,
        n: usize,
        m: usize,
        i: usize,
        f_max: Option<u64>,
    ) -> (r: Option<(usize, usize)>)
        requires
            vals.len() == m + 1,
            steps_by_one(vals@),
            i <= n,
            n + m < u32::MAX,
            forall|j: int| 0 <= j <= m ==> #[trigger] vals@[j] <= n + m,
            consistent(*old(h)),
            old(h).target() == (n as int, m as int),
        ensures
            same_heuristic(*old(h), *final(h)),
            self.domain != Domain::Astar || f_max is None ==> r is None,
            self.domain == Domain::Astar && f_max is Some ==> is_fixed_range(
                vals@,
                h_fn(*old(h)),
                m as int,
                i as int,
                f_max.unwrap() as int,
                r,
            ),
    {
        let ghost h0 = *h;
        let ghost hf = h_fn(h0);
        if self.domain != Domain::Astar {
            return None;
        }
        let f_max = match f_max {
            None => {
                return None;
            },
            Some(f) => f,
        };
        let mut start: usize = 0;
        loop
            invariant
                same_heuristic(h0, *h),
                consistent(h0),
                hf == h_fn(h0),
                h0.target() == (n as int, m as int),
                vals.len() == m + 1,
                steps_by_one(vals@),
                i <= n,
                n + m < u32::MAX,
                forall|j: int| 0 <= j <= m ==> #[trigger] vals@[j] <= n + m,
                start <= m + 1,
                forall|j: int| 0 <= j < start && j <= m ==> #[trigger] f_at(vals@, hf, i as int, j) > f_max,
            ensures
                same_heuristic(h0, *h),
                start <= m + 1,
                forall|j: int| 0 <= j < start && j <= m ==> #[trigger] f_at(vals@, hf, i as int, j) > f_max,
                start <= m ==> f_at(vals@, hf, i as int, start as int) <= f_max,
            decreases m + 1 - start,
        {
            if start > m {
                break;
            }
            proof {
                lemma_h_bounded(hf, n as int, m as int, i as int, start as int);
            }
            let fv = vals[start] + h.h(i, start);
            if fv <= f_max {
                break;
            }
            let step: usize = if self.sparse_h {
                ((fv - f_max + 1) / 2) as usize
            } else {
                1
            };
            proof {
                lemma_skip(vals@, hf, n as int, m as int, i as int, f_max as int, start as int, step as int);
            }
            if step > m - start {
                start = m + 1;
            } else {
                start = start + step;
            }
        }
        if start > m {
            return None;
        }
        let mut end: usize = m;
        loop
            invariant
                same_heuristic(h0, *h),
                consistent(h0),
                hf == h_fn(h0),
                h0.target() == (n as int, m as int),
                start <= end <= m,
                vals.len() == m + 1,
                steps_by_one(vals@),
                i <= n,
                n + m < u32::MAX,
                forall|j: int| 0 <= j <= m ==> #[trigger] vals@[j] <= n + m,
                f_at(vals@, hf, i as int, start as int) <= f_max,
                forall|j: int| end < j <= m ==> #[trigger] f_at(vals@, hf, i as int, j) > f_max,
            ensures
                same_heuristic(h0, *h),
                start <= end <= m,
                f_at(vals@, hf, i as int, end as int) <= f_max,
                forall|j: int| end < j <= m ==> #[trigger] f_at(vals@, hf, i as int, j) > f_max,
            decreases end,
        {
            if end <= start {
                break;
            }
            proof {
                lemma_h_bounded(hf, n as int, m as int, i as int, end as int);
            }
            let fv = vals[end] + h.h(i, end);
            if fv <= f_max {
                break;
            }
            let step: usize = if self.sparse_h {
                ((fv - f_max + 1) / 2) as usize
            } else {
                1
            };
            proof {
                lemma_skip(vals@, hf, n as int, m as int, i as int, f_max as int, end as int, step as int);
            }
            if step > end - start {
                end = start;
            } else {
                end = end - step;
            }
        }
        Some((start, end))
    }

    /// Aligns `a` and `b` under the bound `f_max`, computing in each column
    /// only the rows of its range, and keeping the columns of `blocks` (from
    /// an earlier bound) whose computed words do not change. The range of a
    /// column kept in the store holds its range there.
    ///
    /// Returns `None` when the bound is below the gap cost, or when in the A*
    /// domain the fixed range of the column before a block is empty.
    /// Otherwise the value at the end of the banded matrix: never below the
    /// distance, and the distance itself when that is within the bound; with
    /// an optimal alignment when `trace_path` is set and the value is within
    /// the bound.
    #[verifier::rlimit(100)]
    #[verifier::spinoff_prover]
    pub fn align_for_bounded_dist<H: Heuristic>(
        &self,
        a: &[u8],
        b: &[u8],
        f_max: u64,
        trace_path: bool,
        blocks: &mut Vec<Block>,
        h: &mut H,
    ) -> (r: Option<(u64, Option<Cigar>)>)
        requires
            alignable(a@, b@),
            store_ok(a@, b@, old(blocks)@),
            consistent(*old(h)),
            old(h).target() == (a.len() as int, b.len() as int),
        ensures
            store_ok(a@, b@, final(blocks)@),
            ranges_grow(old(blocks)@, final(blocks)@),
            consistent(*final(h)),
            final(h).target() == (a.len() as int, b.len() as int),
            r is None ==> edit_distance(a@, b@) > f_max,
            r matches Some(t) ==> {
                &&& t.0 >= edit_distance(a@, b@)
                &&& (edit_distance(a@, b@) <= f_max ==> t.0 == edit_distance(a@, b@))
                &&& (t.1 is Some <==> trace_path && t.0 <= f_max)
                &&& (t.1 matches Some(c) ==> is_optimal_alignment(c@, a@, b@) && c.runs_ok())
            },
    {
        let n = a.len();
        let m = b.len();
        let gap = gap_cost(n, m);
        proof {
            lemma_dist_bounds(a@, b@, n as nat, m as nat);
            assert(ranges_grow(blocks@, blocks@));
        }
        if f_max < gap {
            return None;
        }
        let astar = self.domain == Domain::Astar;
        if astar && self.prune {
            h.update_contours();
            proof {
                assert(h_fn(*h) =~= (|x: int, y: int| h.h_spec(x, y)));
            }
        }
        let ghost h0 = *h;
        let ghost hf: spec_fn(int, int) -> int = if astar {
            h_fn(h0)
        } else {
            |x: int, y: int| gap_h(n as int, m as int, x, y)
        };
        proof {
            lemma_gap_consistent(n as int, m as int);
        }
        let ghost old_blocks = blocks@;
        let mut old_lo: Vec<usize> = Vec::new();
        let mut old_hi: Vec<usize> = Vec::new();
        for k in 0..blocks.len()
            invariant
                blocks@ == old_blocks,
                old_lo.len() == k,
                old_hi.len() == k,
                forall|q: int| 0 <= q < k ==> #[trigger] old_lo@[q] == old_blocks[q].lo,
                forall|q: int| 0 <= q < k ==> #[trigger] old_hi@[q] == old_blocks[q].pv@.len(),
        {
            old_lo.push(blocks[k].lo);
            old_hi.push(blocks[k].pv.len());
        }
        let (pa, pb) = ScatterProfile::build(a, b);
        let mut all_reused = blocks.len() > 0;
        if blocks.len() == 0 {
            blocks.push(init_block(m));
            proof {
                assert(column_ok(a@, b@, widths(blocks@), 0, blocks@[0].pv@, blocks@[0].mv@));
            }
        }
        let bw: usize = if self.block_width == 0 {
            1
        } else {
            self.block_width
        };
        let mut blk_ie: usize = 0;
        let mut cur: (usize, usize) = (0, m);
        let mut k: usize = 1;
        while k <= n
            invariant
                n == a.len(),
                m == b.len(),
                alignable(a@, b@),
                is_scatter_profile(a@, b@, pa@, pb@),
                astar == (self.domain == Domain::Astar),
                bw >= 1,
                f_max >= gap,
                gap == abs_diff(n as int, m as int),
                consistent(h0),
                h0.target() == (n as int, m as int),
                same_heuristic(h0, *h),
                consistent_fn(hf, n as int, m as int),
                astar ==> hf == h_fn(h0),
                !astar ==> hf == (|x: int, y: int| gap_h(n as int, m as int, x, y)),
                old_lo.len() == old_blocks.len(),
                old_hi.len() == old_blocks.len(),
                forall|q: int| 0 <= q < old_blocks.len() ==> #[trigger] old_lo@[q] == old_blocks[q].lo,
                forall|q: int|
                    0 <= q < old_blocks.len() ==> #[trigger] old_hi@[q] == old_blocks[q].pv@.len(),
                store_ok(a@, b@, old_blocks),
                old_blocks == old(blocks)@,
                1 <= k <= n + 1,
                blocks.len() >= k,
                all_reused ==> blocks@ == old_blocks,
                !all_reused ==> blocks.len() == k,
                store_ok(a@, b@, blocks@),
                ranges_grow(old_blocks, blocks@),
                covered_upto(a@, b@, widths(blocks@), hf, f_max as int, k - 1),
                astar ==> k <= blk_ie + 1 && blk_ie <= n,
                astar ==> cur.1 <= m,
                astar ==> forall|kk: int, j: int|
                    k <= kk <= blk_ie && 0 <= j <= m && dist(a@, b@, kk as nat, j as nat) + #[trigger] hf(
                        kk,
                        j,
                    ) <= f_max ==> cur.0 <= j <= cur.1,
            decreases n + 1 - k,
        {
            if astar && k > blk_ie {
                let is = k - 1;
                let ie = if bw < n - is {
                    is + bw
                } else {
                    n
                };
                let ghost ws = widths(blocks@);
                proof {
                    assert(column_ok(a@, b@, ws, is as nat, blocks@[is as int].pv@, blocks@[is as int].mv@));
                }
                let vals = column_values(a, b, Ghost(ws), is, &blocks[is], m);
                proof {
                    assert(h_fn(*h) =~= h_fn(h0));
                }
                let fixed = self.fixed_j_range(h, &vals, n, m, is, Some(f_max));
                proof {
                    assert(h_fn(*h) =~= h_fn(h0));
                }
                match fixed {
                    None => {
                        proof {
                            lemma_h_bounded(hf, n as int, m as int, n as int, m as int);
                            if edit_distance(a@, b@) <= f_max {
                                let j = lemma_crossing(a@, b@, hf, is as nat, n as nat, m as nat);
                                lemma_band_exact_h(a@, b@, ws, hf, f_max as int, is as nat, j);
                                assert(f_at(vals@, hf, is as int, j as int) <= f_max);
                            }
                        }
                        return None;
                    },
                    Some((fs, fe)) => {
                        if self.prune {
                            h.prune_block(is, ie, fs, fe);
                        }
                        let g_u = vals[fe];
                        proof {
                            assert(h_fn(*h) =~= h_fn(h0));
                        }
                        let r = self.j_range_astar(h, n, m, is, ie, f_max, (fs, fe), g_u, None);
                        proof {
                            assert forall|kk: int, j: int|
                                k <= kk <= ie && 0 <= j <= m && dist(a@, b@, kk as nat, j as nat)
                                    + #[trigger] hf(kk, j) <= f_max implies r.0 <= j <= r.1 by {
                                lemma_astar_covers(
                                    a@,
                                    b@,
                                    ws,
                                    hf,
                                    f_max as int,
                                    vals@,
                                    is as int,
                                    ie as int,
                                    kk,
                                    j,
                                    fs as int,
                                    fe as int,
                                    r.0 as int,
                                    r.1 as int,
                                );
                            }
                        }
                        cur = r;
                        blk_ie = ie;
                    },
                }
            }
            let rg = if astar {
                cur
            } else {
                self.j_range(n, m, k, Some(f_max))
            };
            proof {
                assert forall|j: int|
                    0 <= j <= m && dist(a@, b@, k as nat, j as nat) + #[trigger] hf(k as int, j)
                        <= f_max implies rg.0 <= j <= rg.1 by {
                    if !astar {
                        lemma_dist_bounds(a@, b@, k as nat, j as nat);
                        assert(gap_f(n as int, m as int, k as int, j) <= f_max);
                    }
                }
            }
            let hi_r = if rg.1 <= m {
                rg.1
            } else {
                m
            };
            let (mut lo_w, mut hi_w) = words_of(rg.0, hi_r, m);
            if k < old_lo.len() {
                proof {
                    assert(column_ok(a@, b@, widths(old_blocks), k as nat, old_blocks[k as int].pv@, old_blocks[k as int].mv@));
                }
                if old_lo[k] < lo_w {
                    lo_w = old_lo[k];
                }
                if old_hi[k] > hi_w {
                    hi_w = old_hi[k];
                }
            }
            let ghost before = blocks@;
            if all_reused && k < blocks.len() && blocks[k].lo == lo_w && blocks[k].pv.len() == hi_w {
                proof {
                    assert(widths(blocks@)[k as int] == (lo_w as nat, hi_w as nat));
                }
            } else {
                if all_reused {
                    blocks.truncate(k);
                    all_reused = false;
                }
                let ghost trunc = blocks@;
                proof {
                    assert(column_ok(a@, b@, widths(before), (k - 1) as nat, before[k - 1].pv@, before[k - 1].mv@));
                    assert forall|q: int| 0 <= q <= k - 1 implies #[trigger] widths(before)[q] == widths(trunc)[q] by {
                        assert(trunc[q] == before[q]);
                    }
                    lemma_column_ok_prefix(a@, b@, widths(before), widths(trunc), (k - 1) as nat, trunc[k - 1].pv@, trunc[k - 1].mv@);
                    assert(is_base(a@[k - 1]));
                    assert(pa@[k - 1].0 == base_code(a@[k - 1]));
                }
                let nb = compute_next_block(&blocks[k - 1], &pa, &pb, k - 1, lo_w, hi_w);
                blocks.push(nb);
                proof {
                    let ws2 = widths(blocks@);
                    assert forall|q: int| 0 <= q <= k - 1 implies #[trigger] widths(trunc)[q] == ws2[q] by {
                        assert(blocks@[q] == trunc[q]);
                    }
                    lemma_column_ok_prefix(a@, b@, widths(trunc), ws2, (k - 1) as nat, trunc[k - 1].pv@, trunc[k - 1].mv@);
                    assert(ws2[k as int] == (lo_w as nat, hi_w as nat));
                    assert(column_ok(a@, b@, ws2, k as nat, blocks@[k as int].pv@, blocks@[k as int].mv@));
                    assert forall|q: int| 0 <= q < blocks.len() implies column_ok(
                        a@,
                        b@,
                        ws2,
                        q as nat,
                        (#[trigger] blocks@[q]).pv@,
                        blocks@[q].mv@,
                    ) by {
                        if q < k {
                            assert(blocks@[q] == before[q]);
                            assert forall|p: int| 0 <= p <= q implies #[trigger] widths(before)[p] == ws2[p] by {
                                assert(blocks@[p] == before[p]);
                            }
                            lemma_column_ok_prefix(a@, b@, widths(before), ws2, q as nat, before[q].pv@, before[q].mv@);
                        }
                    }
                }
            }
            proof {
                let ws2 = widths(blocks@);
                assert forall|q: int| 0 <= q < k implies #[trigger] ws2[q] == widths(before)[q] by {
                    assert(blocks@[q] == before[q]);
                }
                assert forall|kk: int, j: int|
                    0 <= kk <= k && 0 <= j <= b.len() && dist(a@, b@, kk as nat, j as nat) + #[trigger] hf(kk, j)
                        <= f_max implies covered(ws2, kk, j) by {
                    if kk < k {
                        assert(covered(widths(before), kk, j));
                    } else {
                        assert(rg.0 <= j <= rg.1);
                    }
                }
            }
            k = k + 1;
        }
        proof {
            assert(blocks.len() == n + 1);
        }
        let ghost ws = widths(blocks@);
        let col = column_values(a, b, Ghost(ws), n, &blocks[n], m);
        let v = col[m];
        proof {
            lemma_band_ge_dist(a@, b@, ws, n as nat, m as nat);
            lemma_h_bounded(hf, n as int, m as int, n as int, m as int);
            if edit_distance(a@, b@) <= f_max {
                lemma_band_exact_h(a@, b@, ws, hf, f_max as int, n as nat, m as nat);
            }
            assert(h_fn(*h) =~= h_fn(h0));
        }
        if trace_path && v <= f_max {
            let c = trace(a, b, blocks);
            Some((v, Some(c)))
        } else {
            Some((v, None))
        }
    }

    /// Aligns `a` and `b` with the heuristic `h`: the edit distance, with an
    /// optimal alignment when `self.trace` is set.
    ///
    /// Doubles the bound from the gap cost until the bounded search
    /// succeeds within it, keeping the block store between bounds so that
    /// columns whose range did not change are not computed again.
    pub fn align_with<H: Heuristic>(&mut self, a: &[u8], b: &[u8], h: &mut H) -> (r: (
        u64,
        Option<Cigar>,
    ))
        requires
            alignable(a@, b@),
            consistent(*old(h)),
            old(h).target() == (a.len() as int, b.len() as int),
        ensures
            r.0 == edit_distance(a@, b@),
            r.1 is Some <==> old(self).trace,
            r.1 matches Some(c) ==> is_optimal_alignment(c@, a@, b@) && c.runs_ok(),
    {
        let mut blocks: Vec<Block> = Vec::new();
        let mut s: u64 = gap_cost(a.len(), b.len());
        proof {
            lemma_dist_bounds(a@, b@, a@.len(), b@.len());
        }
        loop
            invariant
                alignable(a@, b@),
                store_ok(a@, b@, blocks@),
                consistent(*h),
                h.target() == (a.len() as int, b.len() as int),
                s <= 2 * edit_distance(a@, b@) + 1,
                edit_distance(a@, b@) <= a.len() + b.len(),
                *self == *old(self),
            decreases 2 * edit_distance(a@, b@) + 2 - s,
        {
            let r = AstarPa2::align_for_bounded_dist(self, a, b, s, self.trace, &mut blocks, h);
            if let Some(t) = r {
                if t.0 <= s {
                    return t;
                }
            }
            s = if s == 0 {
                1
            } else {
                2 * s
            };
        }
    }

    /// Aligns `a` and `b` with the gap heuristic: the edit distance, with an
    /// optimal alignment when `self.trace` is set.
    pub fn align(&mut self, a: &[u8], b: &[u8]) -> (r: (u64, Option<Cigar>))
        requires
            alignable(a@, b@),
        ensures
            r.0 == edit_distance(a@, b@),
            r.1 is Some <==> old(self).trace,
            r.1 matches Some(c) ==> is_optimal_alignment(c@, a@, b@) && c.runs_ok(),
    {
        let mut h = GapHeuristic::new(a.len(), b.len());
        self.align_with(a, b, &mut h)
    }
}

/// In the A* domain, every cell of columns `is + 1 ..= ie` within the bound
/// lies in the range that `j_range_astar` gives from the fixed range of
/// column `is`.
proof fn lemma_astar_covers(
    a: Seq<u8>,
    b: Seq<u8>,
    ws: Seq<(nat, nat)>,
    hf: spec_fn(int, int) -> int,
    f: int,
    vals: Seq<u64>,
    is: int,
    ie: int,
    kk: int,
    j: int,
    fs: int,
    fe: int,
    r0: int,
    r1: int,
)
    requires
        consistent_fn(hf, a.len() as int, b.len() as int),
        covered_upto(a, b, ws, hf, f, is),
        vals.len() == b.len() + 1,
        forall|q: int| 0 <= q <= b.len() ==> #[trigger] vals[q] == band(a, b, ws, is as nat, q as nat),
        0 <= fs <= fe <= b.len(),
        f_at(vals, hf, is, fs) <= f,
        f_at(vals, hf, is, fe) <= f,
        forall|q: int| 0 <= q < fs ==> #[trigger] f_at(vals, hf, is, q) > f,
        forall|q: int| fe < q <= b.len() ==> #[trigger] f_at(vals, hf, is, q) > f,
        r0 <= fs,
        r1 >= min_int(fe + (ie - is), b.len() as int),
        forall|q: int|
            r1 < q <= b.len() ==> vals[fe] + (q - fe) - (ie - is) + #[trigger] hf(ie, q) > f,
        0 <= is < kk <= ie <= a.len(),
        0 <= j <= b.len(),
        dist(a, b, kk as nat, j as nat) + hf(kk, j) <= f,
    ensures
        r0 <= j <= r1,
{
    let n = a.len() as int;
    let m = b.len() as int;
    let c = lemma_crossing(a, b, hf, is as nat, kk as nat, j as nat);
    lemma_band_exact_h(a, b, ws, hf, f, is as nat, c);
    assert(vals[c as int] == dist(a, b, is as nat, c));
    assert(f_at(vals, hf, is, c as int) <= f);
    assert(fs <= c <= fe);
    // The bottom state of the fixed range is exact.
    lemma_band_ge_dist(a, b, ws, is as nat, fe as nat);
    lemma_band_exact_h(a, b, ws, hf, f, is as nat, fe as nat);
    lemma_dist_down(a, b, is as nat, c, fe as nat);
    lemma_h_along_row(hf, n, m, kk, ie, j);
    if j > r1 {
        assert(vals[fe] + (j - fe) - (ie - is) + hf(ie, j) > f);
    }
}

impl Aligner for AstarPa2 {
    fn cost_for_bounded_dist(&mut self, a: &[u8], b: &[u8], s: u64) -> (r: Option<u64>) {
        let mut blocks: Vec<Block> = Vec::new();
        let mut h = GapHeuristic::new(a.len(), b.len());
        match AstarPa2::align_for_bounded_dist(self, a, b, s, false, &mut blocks, &mut h) {
            Some(t) => Some(t.0),
            None => None,
        }
    }

    fn align_for_bounded_dist(&mut self, a: &[u8], b: &[u8], s: u64) -> (r: Option<(u64, Cigar)>) {
        let mut blocks: Vec<Block> = Vec::new();
        let mut h = GapHeuristic::new(a.len(), b.len());
        match AstarPa2::align_for_bounded_dist(self, a, b, s, true, &mut blocks, &mut h) {
            Some((d, Some(c))) => Some((d, c)),
            _ => None,
        }
    }
}

/// The fixed range is determined by the values alone: the dense and the
/// sparse scan of `fixed_j_range` give the same range.
pub proof fn lemma_fixed_range_unique(
    vals: Seq<u64>,
    hf: spec_fn(int, int) -> int,
    m: int,
    i: int,
    f: int,
    r1: Option<(usize, usize)>,
    r2: Option<(usize, usize)>,
)
    requires
        is_fixed_range(vals, hf, m, i, f, r1),
        is_fixed_range(vals, hf, m, i, f, r2),
    ensures
        r1 == r2,
{
    match (r1, r2) {
        (Some((s1, e1)), Some((s2, e2))) => {
            assert(!(s1 < s2) && !(s2 < s1));
            assert(!(e1 < e2) && !(e2 < e1));
        },
        (Some((s1, e1)), None) => {
            assert(f_at(vals, hf, i, s1 as int) > f);
        },
        (None, Some((s2, e2))) => {
            assert(f_at(vals, hf, i, s2 as int) > f);
        },
        (None, None) => {},
    }
}

/// Raising the bound never shrinks the rows computed in a column: the range
/// of a later, larger bound holds the range of an earlier one.
pub proof fn lemma_range_grows(domain: Domain, n: int, m: int, i: int, f1: int, f2: int)
    requires
        f1 <= f2,
        f1 >= abs_diff(n, m),
    ensures
        min_int(range_end(domain, n, m, i, f1), m) <= min_int(range_end(domain, n, m, i, f2), m),
        max_int(range_start(domain, n, m, i, f2), 0) <= max_int(range_start(domain, n, m, i, f1), 0),
{
}

} // verus!
