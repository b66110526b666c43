//! The block store: one block per column of the matrix, holding the
//! vertical differences of that column as packed plus and minus masks.
use vstd::prelude::*;
use crate::heuristic::consistent_fn;
use crate::kernel::{bit, carry_ok, carry_value, cell_rise, compute_block, delta, h_at, min3};
use crate::model::{compatible, dist, sub_cost, valid_a};
use crate::profile::{is_scatter_profile, lemma_scatter_profile_matches, num_words, row_bit, ScatterProfile, CC};

verus! {

/// Word `w` of a plus mask; words past the stored ones read as all `+1`.
pub open spec fn word_p(pv: Seq<u64>, w: int) -> u64 {
    if 0 <= w < pv.len() {
        pv[w]
    } else {
        u64::MAX
    }
}

/// Word `w` of a minus mask; words past the stored ones read as empty.
pub open spec fn word_m(mv: Seq<u64>, w: int) -> u64 {
    if 0 <= w < mv.len() {
        mv[w]
    } else {
        0
    }
}

/// The difference stored for row `j` (`j >= 1`): `D[j] - D[j - 1]`.
pub open spec fn col_delta(pv: Seq<u64>, mv: Seq<u64>, j: int) -> int {
    delta(word_p(pv, (j - 1) / 64), word_m(mv, (j - 1) / 64), ((j - 1) % 64) as u64)
}

/// The banded matrix of `a` and `b`: with `ws[i] == (lo, hi)`, column `i`
/// is computed by the recurrence on the rows of its words `lo..hi`. Above
/// them each row is one more than in the column before, below them one more
/// than the row above, as if the cells there were out of reach.
pub open spec fn band(a: Seq<u8>, b: Seq<u8>, ws: Seq<(nat, nat)>, i: nat, j: nat) -> int
    decreases i + j,
{
    if j == 0 {
        i as int
    } else if i == 0 {
        j as int
    } else if j <= 64 * ws[i as int].0 {
        band(a, b, ws, (i - 1) as nat, j) + 1
    } else if j > 64 * ws[i as int].1 {
        band(a, b, ws, i, (j - 1) as nat) + 1
    } else {
        min3(
            band(a, b, ws, (i - 1) as nat, (j - 1) as nat) + sub_cost(a, b, i - 1, j - 1),
            band(a, b, ws, (i - 1) as nat, j) + 1,
            band(a, b, ws, i, (j - 1) as nat) + 1,
        )
    }
}

/// `pv`, `mv` hold column `i` of the banded matrix for every row: the
/// `ws[i].1` stored words, and `+1` differences below them.
pub open spec fn column_ok(
    a: Seq<u8>,
    b: Seq<u8>,
    ws: Seq<(nat, nat)>,
    i: nat,
    pv: Seq<u64>,
    mv: Seq<u64>,
) -> bool {
    &&& pv.len() == ws[i as int].1
    &&& ws[i as int].0 <= ws[i as int].1
    &&& pv.len() <= num_words(b.len() as int)
    &&& mv.len() == pv.len()
    &&& forall|w: int| 0 <= w < pv.len() ==> #[trigger] pv[w] & mv[w] == 0
    &&& forall|j: int|
        1 <= j <= b.len() ==> #[trigger] col_delta(pv, mv, j) == band(a, b, ws, i, j as nat) - band(
            a,
            b,
            ws,
            i,
            (j - 1) as nat,
        )
}

/// The gap heuristic: the cost of the length difference left between
/// `(i, j)` and the end.
pub open spec fn gap_h(n: int, m: int, i: int, j: int) -> int {
    let d = (m - j) - (n - i);
    if d >= 0 {
        d
    } else {
        -d
    }
}

/// The least cost of any path through `(i, j)`: the gap from the start
/// plus the gap to the end.
pub open spec fn gap_f(n: int, m: int, i: int, j: int) -> int {
    (if i >= j {
        i - j
    } else {
        j - i
    }) + gap_h(n, m, i, j)
}

/// The banded matrix never undercuts the distance.
pub proof fn lemma_band_ge_dist(a: Seq<u8>, b: Seq<u8>, ws: Seq<(nat, nat)>, i: nat, j: nat)
    ensures
        band(a, b, ws, i, j) >= dist(a, b, i, j),
        band(a, b, ws, i, j) <= i + j,
    decreases i + j,
{
    if j > 0 && i > 0 {
        lemma_band_ge_dist(a, b, ws, i, (j - 1) as nat);
        lemma_band_ge_dist(a, b, ws, (i - 1) as nat, j);
        lemma_dist_vertical(a, b, i, j);
        lemma_dist_horizontal(a, b, i, j);
        if j <= 64 * ws[i as int].1 {
            lemma_band_ge_dist(a, b, ws, (i - 1) as nat, (j - 1) as nat);
            lemma_band_ge_dist(a, b, ws, (i - 1) as nat, j);
        }
    }
}

/// Column `i` of the banded matrix depends on the widths of columns
/// `0..=i` only.
pub proof fn lemma_band_prefix(a: Seq<u8>, b: Seq<u8>, ws1: Seq<(nat, nat)>, ws2: Seq<(nat, nat)>, i: nat, j: nat)
    requires
        forall|k: int| 0 <= k <= i ==> #[trigger] ws1[k] == ws2[k],
    ensures
        band(a, b, ws1, i, j) == band(a, b, ws2, i, j),
    decreases i + j,
{
    if i > 0 && j > 0 {
        assert(ws1[i as int] == ws2[i as int]);
        lemma_band_prefix(a, b, ws1, ws2, (i - 1) as nat, j);
        lemma_band_prefix(a, b, ws1, ws2, i, (j - 1) as nat);
        lemma_band_prefix(a, b, ws1, ws2, (i - 1) as nat, (j - 1) as nat);
        lemma_band_prefix(a, b, ws1, ws2, (i - 1) as nat, j);
    }
}

/// A stored column stays right when the widths of later columns change.
pub proof fn lemma_column_ok_prefix(
    a: Seq<u8>,
    b: Seq<u8>,
    ws1: Seq<(nat, nat)>,
    ws2: Seq<(nat, nat)>,
    i: nat,
    pv: Seq<u64>,
    mv: Seq<u64>,
)
    requires
        forall|k: int| 0 <= k <= i ==> #[trigger] ws1[k] == ws2[k],
        column_ok(a, b, ws1, i, pv, mv),
    ensures
        column_ok(a, b, ws2, i, pv, mv),
{
    assert(ws1[i as int] == ws2[i as int]);
    assert forall|j: int| 1 <= j <= b.len() implies #[trigger] col_delta(pv, mv, j) == band(
        a,
        b,
        ws2,
        i,
        j as nat,
    ) - band(a, b, ws2, i, (j - 1) as nat) by {
        lemma_band_prefix(a, b, ws1, ws2, i, j as nat);
        lemma_band_prefix(a, b, ws1, ws2, i, (j - 1) as nat);
    }
}

/// Where every column is stored whole, every value recovered from the
/// blocks is the distance.
pub proof fn lemma_full_band_is_dist(a: Seq<u8>, b: Seq<u8>, ws: Seq<(nat, nat)>, i: nat, j: nat)
    requires
        forall|k: int| 0 <= k <= a.len() ==> 64 * (#[trigger] ws[k]).1 >= b.len() && ws[k].0 == 0,
        i <= a.len(),
        j <= b.len(),
    ensures
        band(a, b, ws, i, j) == dist(a, b, i, j),
    decreases i + j,
{
    if i > 0 && j > 0 {
        assert(64 * ws[i as int].1 >= b.len() && ws[i as int].0 == 0);
        lemma_full_band_is_dist(a, b, ws, (i - 1) as nat, (j - 1) as nat);
        lemma_full_band_is_dist(a, b, ws, (i - 1) as nat, j);
        lemma_full_band_is_dist(a, b, ws, i, (j - 1) as nat);
    }
}

/// Cell `(k, j)` lies in the computed rows of column `k`.
pub open spec fn covered(ws: Seq<(nat, nat)>, k: int, j: int) -> bool {
    j <= 64 * ws[k].1 && (j == 0 || k == 0 || j > 64 * ws[k].0)
}

/// Every cell of the columns up to `i` whose distance plus heuristic is at
/// most `f` lies in the computed rows.
pub open spec fn covered_upto(
    a: Seq<u8>,
    b: Seq<u8>,
    ws: Seq<(nat, nat)>,
    hf: spec_fn(int, int) -> int,
    f: int,
    i: int,
) -> bool {
    forall|k: int, j: int|
        0 <= k <= i && 0 <= j <= b.len() && dist(a, b, k as nat, j as nat) + #[trigger] hf(k, j)
            <= f ==> covered(ws, k, j)
}

/// With a consistent heuristic, where the computed rows hold every cell up
/// to column `i` whose distance plus heuristic is at most `f`, the banded
/// matrix is exact on each of those cells.
pub proof fn lemma_band_exact_h(
    a: Seq<u8>,
    b: Seq<u8>,
    ws: Seq<(nat, nat)>,
    hf: spec_fn(int, int) -> int,
    f: int,
    i: nat,
    j: nat,
)
    requires
        consistent_fn(hf, a.len() as int, b.len() as int),
        covered_upto(a, b, ws, hf, f, i as int),
        i <= a.len(),
        j <= b.len(),
        dist(a, b, i, j) + hf(i as int, j as int) <= f,
    ensures
        band(a, b, ws, i, j) == dist(a, b, i, j),
    decreases i + j,
{
    reveal(consistent_fn);
    if i > 0 && j > 0 {
        assert(covered(ws, i as int, j as int));
        lemma_band_ge_dist(a, b, ws, i, j);
        lemma_band_ge_dist(a, b, ws, (i - 1) as nat, (j - 1) as nat);
        lemma_band_ge_dist(a, b, ws, (i - 1) as nat, j);
        lemma_band_ge_dist(a, b, ws, i, (j - 1) as nat);
        let dd = dist(a, b, (i - 1) as nat, (j - 1) as nat) + sub_cost(a, b, i - 1, j - 1);
        let dl = dist(a, b, (i - 1) as nat, j) + 1;
        assert(hf(i - 1, j - 1) <= hf(i as int, j as int));
        assert(hf(i - 1, j as int) <= hf(i as int, j as int) + 1);
        assert(hf(i as int, j - 1) <= hf(i as int, j as int) + 1);
        if dist(a, b, i, j) == dd {
            lemma_dist_bounds(a, b, (i - 1) as nat, (j - 1) as nat);
            lemma_band_exact_h(a, b, ws, hf, f, (i - 1) as nat, (j - 1) as nat);
        } else if dist(a, b, i, j) == dl {
            lemma_band_exact_h(a, b, ws, hf, f, (i - 1) as nat, j);
        } else {
            lemma_band_exact_h(a, b, ws, hf, f, i, (j - 1) as nat);
        }
    }
}

/// An optimal path to `(i0, j0)` crosses column `i` at a row `j` no lower,
/// where the distance plus a consistent heuristic is no more than at
/// `(i0, j0)`; the rest of the path costs at least its excess of rows over
/// columns.
pub proof fn lemma_crossing(
    a: Seq<u8>,
    b: Seq<u8>,
    hf: spec_fn(int, int) -> int,
    i: nat,
    i0: nat,
    j0: nat,
) -> (j: nat)
    requires
        consistent_fn(hf, a.len() as int, b.len() as int),
        i <= i0 <= a.len(),
        j0 <= b.len(),
    ensures
        j <= j0,
        dist(a, b, i, j) + hf(i as int, j as int) <= dist(a, b, i0, j0) + hf(i0 as int, j0 as int),
        dist(a, b, i0, j0) >= dist(a, b, i, j) + (j0 - j) - (i0 - i),
    decreases i0 + j0,
{
    reveal(consistent_fn);
    if i == i0 {
        j0
    } else if j0 == 0 {
        assert(hf(i0 - 1, 0) <= hf(i0 as int, 0) + 1);
        lemma_crossing(a, b, hf, i, (i0 - 1) as nat, 0)
    } else {
        let dd = dist(a, b, (i0 - 1) as nat, (j0 - 1) as nat) + sub_cost(a, b, i0 - 1, j0 - 1);
        let dl = dist(a, b, (i0 - 1) as nat, j0) + 1;
        assert(hf(i0 - 1, j0 - 1) <= hf(i0 as int, j0 as int));
        assert(hf(i0 - 1, j0 as int) <= hf(i0 as int, j0 as int) + 1);
        assert(hf(i0 as int, j0 - 1) <= hf(i0 as int, j0 as int) + 1);
        if dist(a, b, i0, j0) == dd {
            lemma_crossing(a, b, hf, i, (i0 - 1) as nat, (j0 - 1) as nat)
        } else if dist(a, b, i0, j0) == dl {
            lemma_crossing(a, b, hf, i, (i0 - 1) as nat, j0)
        } else {
            lemma_crossing(a, b, hf, i, i0, (j0 - 1) as nat)
        }
    }
}

/// Down a column the distance grows by at most one per row.
pub proof fn lemma_dist_down(a: Seq<u8>, b: Seq<u8>, i: nat, j1: nat, j2: nat)
    requires
        j1 <= j2,
    ensures
        dist(a, b, i, j2) <= dist(a, b, i, j1) + (j2 - j1),
    decreases j2 - j1,
{
    if j1 < j2 {
        lemma_dist_down(a, b, i, j1, (j2 - 1) as nat);
        lemma_dist_vertical(a, b, i, j2);
    }
}

/// Along a row a consistent heuristic falls by at most one per column.
pub proof fn lemma_h_along_row(hf: spec_fn(int, int) -> int, n: int, m: int, k: int, ie: int, j: int)
    requires
        consistent_fn(hf, n, m),
        0 <= k <= ie <= n,
        0 <= j <= m,
    ensures
        hf(k, j) >= hf(ie, j) - (ie - k),
    decreases ie - k,
{
    reveal(consistent_fn);
    if k < ie {
        lemma_h_along_row(hf, n, m, k + 1, ie, j);
        assert(hf(k + 1, j) <= hf(k, j) + 1);
    }
}

/// Bounds on every entry of the matrix.
pub proof fn lemma_dist_bounds(a: Seq<u8>, b: Seq<u8>, i: nat, j: nat)
    ensures
        0 <= dist(a, b, i, j) <= i + j,
        i >= j ==> dist(a, b, i, j) >= i - j,
        j >= i ==> dist(a, b, i, j) >= j - i,
    decreases i + j,
{
    if i > 0 && j > 0 {
        lemma_dist_bounds(a, b, (i - 1) as nat, (j - 1) as nat);
        lemma_dist_bounds(a, b, (i - 1) as nat, j);
        lemma_dist_bounds(a, b, i, (j - 1) as nat);
    }
}

/// Neighbouring entries of a column differ by at most one.
pub proof fn lemma_dist_vertical(a: Seq<u8>, b: Seq<u8>, i: nat, j: nat)
    requires
        j >= 1,
    ensures
        -1 <= dist(a, b, i, j) - dist(a, b, i, (j - 1) as nat) <= 1,
    decreases i + j,
{
    if i > 0 {
        if j > 1 {
            lemma_dist_vertical(a, b, (i - 1) as nat, (j - 1) as nat);
        }
        lemma_dist_vertical(a, b, (i - 1) as nat, j);
        lemma_dist_horizontal(a, b, i, (j - 1) as nat);
    }
}

/// Neighbouring entries of a row differ by at most one.
pub proof fn lemma_dist_horizontal(a: Seq<u8>, b: Seq<u8>, i: nat, j: nat)
    requires
        i >= 1,
    ensures
        -1 <= dist(a, b, i, j) - dist(a, b, (i - 1) as nat, j) <= 1,
    decreases i + j,
{
    if j > 0 {
        if i > 1 {
            lemma_dist_horizontal(a, b, (i - 1) as nat, (j - 1) as nat);
        }
        lemma_dist_horizontal(a, b, i, (j - 1) as nat);
        lemma_dist_vertical(a, b, (i - 1) as nat, j);
    }
}

/// The recurrence in difference form: a computed entry at `(i + 1, j)`
/// rises over its diagonal predecessor by the kernel's cell rule.
proof fn lemma_band_cell(a: Seq<u8>, b: Seq<u8>, ws: Seq<(nat, nat)>, i: nat, j: nat)
    requires
        j >= 1,
        i < a.len(),
        j <= b.len(),
        j <= 64 * ws[(i + 1) as int].1,
        j > 64 * ws[(i + 1) as int].0,
    ensures
        band(a, b, ws, i + 1, j) - band(a, b, ws, i, (j - 1) as nat) == cell_rise(
            band(a, b, ws, i, j) - band(a, b, ws, i, (j - 1) as nat),
            band(a, b, ws, i + 1, (j - 1) as nat) - band(a, b, ws, i, (j - 1) as nat),
            compatible(a[i as int], b[j - 1]),
        ),
{
    assert(sub_cost(a, b, i as int, j - 1) == (if compatible(a[i as int], b[j - 1]) {
        0int
    } else {
        1int
    }));
}

/// Inside one computed word, the naive scan of the kernel carries the
/// horizontal differences between columns `i` and `i + 1`.
proof fn lemma_word_scan(
    a: Seq<u8>,
    b: Seq<u8>,
    ws: Seq<(nat, nat)>,
    pa: Seq<CC>,
    pb: Seq<[u64; 4]>,
    i: nat,
    w: int,
    p: u64,
    m: u64,
    h0: int,
    k: nat,
)
    requires
        valid_a(a),
        is_scatter_profile(a, b, pa, pb),
        i < a.len(),
        ws[(i + 1) as int].0 <= w < ws[(i + 1) as int].1,
        w < pb.len(),
        k <= 64,
        64 * w + k <= b.len(),
        h0 == band(a, b, ws, i + 1, (64 * w) as nat) - band(a, b, ws, i, (64 * w) as nat),
        forall|kk: u64|
            kk < 64 && 64 * w + kk + 1 <= b.len() ==> #[trigger] delta(p, m, kk) == band(
                a,
                b,
                ws,
                i,
                (64 * w + kk + 1) as nat,
            ) - band(a, b, ws, i, (64 * w + kk) as nat),
    ensures
        h_at(p, m, pb[w][pa[i as int].0 as int], h0, k) == band(
            a,
            b,
            ws,
            i + 1,
            (64 * w + k) as nat,
        ) - band(a, b, ws, i, (64 * w + k) as nat),
    decreases k,
{
    if k > 0 {
        let kk = (k - 1) as nat;
        let eq = pb[w][pa[i as int].0 as int];
        lemma_word_scan(a, b, ws, pa, pb, i, w, p, m, h0, kk);
        let j = 64 * w + kk + 1;
        lemma_band_cell(a, b, ws, i, j as nat);
        lemma_scatter_profile_matches(a, b, pa, pb, i as int, j - 1);
        assert((j - 1) / 64 == w && (j - 1) % 64 == kk);
        assert(bit(eq, kk as u64) == row_bit(pb, j - 1, pa[i as int].0 as int));
        assert(delta(p, m, kk as u64) == band(a, b, ws, i, j as nat) - band(
            a,
            b,
            ws,
            i,
            (j - 1) as nat,
        ));
    }
}

proof fn lemma_all_ones(t: u64)
    requires
        t < 64,
    ensures
        bit(u64::MAX, t),
        !bit(0, t),
        u64::MAX & 0u64 == 0,
{
    assert((u64::MAX >> t) & 1u64 == 1u64) by (bit_vector)
        requires
            t < 64,
    ;
    assert((0u64 >> t) & 1u64 != 1u64) by (bit_vector);
    assert(u64::MAX & 0u64 == 0) by (bit_vector);
}

/// One column of the matrix in packed form: the first words of its plus
/// and minus masks. Words below `lo` were not computed for this column:
/// they repeat the differences of the column before.
pub struct Block {
    /// Rows whose difference to the row above is `+1`.
    pub pv: Vec<u64>,
    /// Rows whose difference to the row above is `-1`.
    pub mv: Vec<u64>,
    /// The first word computed by the kernel.
    pub lo: usize,
}

/// The first column: `D(0, j) = j`, so every difference is `+1`.
pub fn init_block(m: usize) -> (r: Block)
    requires
        m + 64 <= usize::MAX,
    ensures
        r.pv.len() == num_words(m as int),
        r.lo == 0,
        forall|a: Seq<u8>, b: Seq<u8>, ws: Seq<(nat, nat)>|
            b.len() == m && ws[0] == (0nat, num_words(m as int) as nat) ==> column_ok(a, b, ws, 0, r.pv@, r.mv@),
{
    let nw = (m + 63) / 64;
    let mut pv: Vec<u64> = Vec::new();
    let mut mv: Vec<u64> = Vec::new();
    for w in 0..nw
        invariant
            pv.len() == w,
            mv.len() == w,
            forall|ww: int| 0 <= ww < w ==> #[trigger] pv@[ww] == u64::MAX,
            forall|ww: int| 0 <= ww < w ==> #[trigger] mv@[ww] == 0,
    {
        pv.push(u64::MAX);
        mv.push(0);
    }
    proof {
        assert forall|a: Seq<u8>, b: Seq<u8>, ws: Seq<(nat, nat)>|
            b.len() == m && ws[0] == (0nat, num_words(m as int) as nat) implies column_ok(a, b, ws, 0, pv@, mv@) by {
            assert forall|w: int| 0 <= w < pv.len() implies #[trigger] pv@[w] & mv@[w] == 0 by {
                assert(pv@[w] == u64::MAX && mv@[w] == 0);
                lemma_all_ones(0);
            }
            assert forall|j: int| 1 <= j <= b.len() implies #[trigger] col_delta(pv@, mv@, j) == band(
                a,
                b,
                ws,
                0,
                j as nat,
            ) - band(a, b, ws, 0, (j - 1) as nat) by {
                lemma_all_ones(((j - 1) % 64) as u64);
            }
        }
    }
    Block { pv, mv, lo: 0 }
}

/// Computes the first `nw` words of column `i + 1` from column `i`. Words
/// below `lo` repeat those of column `i`; the others are computed word by
/// word with the kernel, starting from the horizontal difference `+1` at
/// the top of word `lo`. Words of column `i` past its stored ones count as
/// `+1` differences.
pub fn compute_next_block(
    prev: &Block,
    pa: &Vec<CC>,
    pb: &Vec<[u64; 4]>,
    i: usize,
    lo: usize,
    nw: usize,
) -> (r: Block)
    requires
        i < pa.len(),
        pa@[i as int].0 < 4,
        lo <= nw <= pb.len(),
        prev.pv.len() == prev.mv.len(),
        forall|w: int| 0 <= w < prev.pv.len() ==> #[trigger] prev.pv@[w] & prev.mv@[w] == 0,
    ensures
        r.pv.len() == nw,
        r.lo == lo,
        forall|w: int| 0 <= w < r.pv.len() ==> #[trigger] r.pv@[w] & r.mv@[w] == 0,
        r.mv.len() == nw,
        forall|a: Seq<u8>, b: Seq<u8>, ws: Seq<(nat, nat)>|
            valid_a(a) && is_scatter_profile(a, b, pa@, pb@) && ws[(i + 1) as int] == (
            lo as nat,
            nw as nat,
        ) && column_ok(a, b, ws, i as nat, prev.pv@, prev.mv@) ==> column_ok(
            a,
            b,
            ws,
            (i + 1) as nat,
            r.pv@,
            r.mv@,
        ),
{
    let mut pv: Vec<u64> = Vec::new();
    let mut mv: Vec<u64> = Vec::new();
    proof {
        lemma_all_ones(0);
    }
    // Rows above the computed range: column `i + 1` is column `i` plus one.
    for w in 0..lo
        invariant
            lo <= nw <= pb.len(),
            prev.pv.len() == prev.mv.len(),
            forall|ww: int| 0 <= ww < prev.pv.len() ==> #[trigger] prev.pv@[ww] & prev.mv@[ww] == 0,
            u64::MAX & 0u64 == 0,
            pv.len() == w,
            mv.len() == w,
            forall|ww: int| 0 <= ww < w ==> #[trigger] pv@[ww] & mv@[ww] == 0,
            forall|ww: int| 0 <= ww < w ==> #[trigger] pv@[ww] == word_p(prev.pv@, ww),
            forall|ww: int| 0 <= ww < w ==> #[trigger] mv@[ww] == word_m(prev.mv@, ww),
    {
        let p: u64 = if w < prev.pv.len() {
            prev.pv[w]
        } else {
            u64::MAX
        };
        let m: u64 = if w < prev.mv.len() {
            prev.mv[w]
        } else {
            0
        };
        pv.push(p);
        mv.push(m);
    }
    proof {
        assert forall|a: Seq<u8>, b: Seq<u8>, ws: Seq<(nat, nat)>|
            valid_a(a) && is_scatter_profile(a, b, pa@, pb@) && ws[(i + 1) as int] == (
            lo as nat,
            nw as nat,
        ) && column_ok(a, b, ws, i as nat, prev.pv@, prev.mv@) implies forall|j: int|
            1 <= j <= b.len() && j <= 64 * lo ==> #[trigger] col_delta(pv@, mv@, j) == band(
                a,
                b,
                ws,
                (i + 1) as nat,
                j as nat,
            ) - band(a, b, ws, (i + 1) as nat, (j - 1) as nat) by {
            assert forall|j: int| 1 <= j <= b.len() && j <= 64 * lo implies #[trigger] col_delta(
                pv@,
                mv@,
                j,
            ) == band(a, b, ws, (i + 1) as nat, j as nat) - band(
                a,
                b,
                ws,
                (i + 1) as nat,
                (j - 1) as nat,
            ) by {
                assert(col_delta(pv@, mv@, j) == col_delta(prev.pv@, prev.mv@, j));
            }
        }
    }
    let mut ph: u64 = 1;
    let mut mh: u64 = 0;
    let ca = pa[i];
    let mut w: usize = lo;
    while w < nw
        invariant
            lo <= w <= nw,
            nw <= pb.len(),
            prev.pv.len() == prev.mv.len(),
            ca == pa@[i as int],
            ca.0 < 4,
            i < pa.len(),
            forall|ww: int| 0 <= ww < prev.pv.len() ==> #[trigger] prev.pv@[ww] & prev.mv@[ww] == 0,
            pv.len() == w,
            mv.len() == w,
            carry_ok(ph, mh),
            forall|ww: int| 0 <= ww < w ==> #[trigger] pv@[ww] & mv@[ww] == 0,
            forall|a: Seq<u8>, b: Seq<u8>, ws: Seq<(nat, nat)>|
                valid_a(a) && is_scatter_profile(a, b, pa@, pb@) && ws[(i + 1) as int] == (
                lo as nat,
                nw as nat,
                ) && column_ok(a, b, ws, i as nat, prev.pv@, prev.mv@) ==> {
                    &&& (64 * w <= b.len() ==> carry_value(ph, mh) == band(
                        a,
                        b,
                        ws,
                        (i + 1) as nat,
                        (64 * w) as nat,
                    ) - band(a, b, ws, i as nat, (64 * w) as nat))
                    &&& forall|j: int|
                        1 <= j <= b.len() && j <= 64 * w ==> #[trigger] col_delta(pv@, mv@, j)
                            == band(a, b, ws, (i + 1) as nat, j as nat) - band(
                            a,
                            b,
                            ws,
                            (i + 1) as nat,
                            (j - 1) as nat,
                        )
                },
        decreases nw - w,
    {
        let eq = ScatterProfile::eq(&ca, &pb[w]);
        let mut p: u64 = if w < prev.pv.len() {
            prev.pv[w]
        } else {
            u64::MAX
        };
        let mut m: u64 = if w < prev.mv.len() {
            prev.mv[w]
        } else {
            0
        };
        proof {
            lemma_all_ones(0);
        }
        let ghost p0 = p;
        let ghost m0 = m;
        let ghost h0 = carry_value(ph, mh);
        compute_block(&mut ph, &mut mh, &mut p, &mut m, eq);
        let ghost old_pv = pv@;
        let ghost old_mv = mv@;
        pv.push(p);
        mv.push(m);
        proof {
            assert forall|a: Seq<u8>, b: Seq<u8>, ws: Seq<(nat, nat)>|
                valid_a(a) && is_scatter_profile(a, b, pa@, pb@) && ws[(i + 1) as int] == (
                lo as nat,
                nw as nat,
                ) && column_ok(a, b, ws, i as nat, prev.pv@, prev.mv@) implies {
                &&& (64 * (w + 1) <= b.len() ==> carry_value(ph, mh) == band(
                    a,
                    b,
                    ws,
                    (i + 1) as nat,
                    (64 * (w + 1)) as nat,
                ) - band(a, b, ws, i as nat, (64 * (w + 1)) as nat))
                &&& forall|j: int|
                    1 <= j <= b.len() && j <= 64 * (w + 1) ==> #[trigger] col_delta(pv@, mv@, j)
                        == band(a, b, ws, (i + 1) as nat, j as nat) - band(
                        a,
                        b,
                        ws,
                        (i + 1) as nat,
                        (j - 1) as nat,
                    )
            } by {
                if 64 * w <= b.len() {
                    assert forall|kk: u64|
                        kk < 64 && 64 * w + kk + 1 <= b.len() implies #[trigger] delta(p0, m0, kk)
                        == band(a, b, ws, i as nat, (64 * w + kk + 1) as nat) - band(
                        a,
                        b,
                        ws,
                        i as nat,
                        (64 * w + kk) as nat,
                    ) by {
                        let j = 64 * w + kk + 1;
                        assert((j - 1) / 64 == w && (j - 1) % 64 == kk);
                        assert(col_delta(prev.pv@, prev.mv@, j) == band(
                            a,
                            b,
                            ws,
                            i as nat,
                            j as nat,
                        ) - band(a, b, ws, i as nat, (j - 1) as nat));
                    }
                    if 64 * (w + 1) <= b.len() {
                        lemma_word_scan(a, b, ws, pa@, pb@, i as nat, w as int, p0, m0, h0, 64);
                    }
                    assert forall|j: int|
                        1 <= j <= b.len() && j <= 64 * (w + 1) implies #[trigger] col_delta(
                        pv@,
                        mv@,
                        j,
                    ) == band(a, b, ws, (i + 1) as nat, j as nat) - band(
                        a,
                        b,
                        ws,
                        (i + 1) as nat,
                        (j - 1) as nat,
                    ) by {
                        if j > 64 * w {
                            let kk = (j - 1 - 64 * w) as u64;
                            assert((j - 1) / 64 == w && (j - 1) % 64 == kk);
                            lemma_word_scan(
                                a,
                                b,
                                ws,
                                pa@,
                                pb@,
                                i as nat,
                                w as int,
                                p0,
                                m0,
                                h0,
                                kk as nat,
                            );
                            lemma_band_cell(a, b, ws, i as nat, j as nat);
                            lemma_scatter_profile_matches(a, b, pa@, pb@, i as int, j - 1);
                            assert(bit(eq, kk) == row_bit(pb@, j - 1, ca.0 as int));
                            assert(delta(p0, m0, kk) == band(a, b, ws, i as nat, j as nat) - band(
                                a,
                                b,
                                ws,
                                i as nat,
                                (j - 1) as nat,
                            ));
                        } else {
                            assert(pv@[(j - 1) / 64] == old_pv[(j - 1) / 64]);
                            assert(mv@[(j - 1) / 64] == old_mv[(j - 1) / 64]);
                            assert(col_delta(pv@, mv@, j) == col_delta(old_pv, old_mv, j));
                        }
                    }
                }
            }
        }
        w = w + 1;
    }
    proof {
        assert forall|a: Seq<u8>, b: Seq<u8>, ws: Seq<(nat, nat)>|
            valid_a(a) && is_scatter_profile(a, b, pa@, pb@) && ws[(i + 1) as int] == (
            lo as nat,
            nw as nat,
        ) && column_ok(a, b, ws, i as nat, prev.pv@, prev.mv@) implies column_ok(
            a,
            b,
            ws,
            (i + 1) as nat,
            pv@,
            mv@,
        ) by {
            assert forall|j: int| 1 <= j <= b.len() implies #[trigger] col_delta(pv@, mv@, j) == band(
                a,
                b,
                ws,
                (i + 1) as nat,
                j as nat,
            ) - band(a, b, ws, (i + 1) as nat, (j - 1) as nat) by {
                if j > 64 * nw {
                    lemma_all_ones(((j - 1) % 64) as u64);
                }
            }
        }
    }
    Block { pv, mv, lo }
}

} // verus!
