//! Filling the block store for a pair, reading columns back as integers,
//! and tracing an optimal alignment back through the stored columns.
use vstd::prelude::*;
use crate::blocks::{band, col_delta, column_ok, lemma_band_ge_dist, lemma_dist_bounds, Block};
use crate::cigar::{is_path, op_cost, ops_cost, Cigar, CigarOp};
use crate::model::{base_code, compatible, sub_cost};

verus! {

/// Whether `ca` of `a` and `cb` of `b` match.
pub fn chars_compatible(ca: u8, cb: u8) -> (r: bool)
    ensures
        r == compatible(ca, cb),
{
    let x: i32 = if ca == 65 || ca == 97 {
        0
    } else if ca == 67 || ca == 99 {
        1
    } else if ca == 84 || ca == 116 {
        2
    } else if ca == 71 || ca == 103 {
        3
    } else {
        -1
    };
    assert(x == base_code(ca));
    let yb: i32 = if cb == 65 || cb == 97 {
        0
    } else if cb == 67 || cb == 99 {
        1
    } else if cb == 84 || cb == 116 {
        2
    } else if cb == 71 || cb == 103 {
        3
    } else {
        -1
    };
    assert(yb == base_code(cb));
    if yb >= 0 {
        yb == x
    } else if cb == 78 || cb == 110 || cb == 42 {
        0 <= x && x < 4
    } else if cb == 89 || cb == 121 {
        x == 1 || x == 2
    } else if cb == 82 || cb == 114 {
        x == 0 || x == 3
    } else {
        false
    }
}

/// For each column, the first word computed and the number of words
/// stored.
pub open spec fn widths(blocks: Seq<Block>) -> Seq<(nat, nat)> {
    Seq::new(blocks.len(), |i: int| (blocks[i].lo as nat, blocks[i].pv@.len()))
}

/// All columns `0..=a.len()` of the banded matrix of `a` and `b`, one block
/// each.
pub open spec fn all_columns_ok(a: Seq<u8>, b: Seq<u8>, blocks: Seq<Block>) -> bool {
    &&& blocks.len() == a.len() + 1
    &&& forall|i: int|
        0 <= i <= a.len() ==> column_ok(
            a,
            b,
            widths(blocks),
            i as nat,
            (#[trigger] blocks[i]).pv@,
            blocks[i].mv@,
        )
}

/// Neighbouring values differ by at most one.
pub open spec fn steps_by_one(v: Seq<u64>) -> bool {
    forall|j: int| 1 <= j < v.len() ==> v[j - 1] <= #[trigger] v[j] + 1 && v[j] <= v[j - 1] + 1
}

/// The values of column `i` of the banded matrix, read from `blk`.
pub fn column_values(a: &[u8], b: &[u8], ws: Ghost<Seq<(nat, nat)>>, i: usize, blk: &Block, rows: usize) -> (r: Vec<u64>)
    requires
        column_ok(a@, b@, ws@, i as nat, blk.pv@, blk.mv@),
        i + b.len() < u64::MAX,
        b.len() < usize::MAX,
        rows <= b.len(),
    ensures
        r.len() == rows + 1,
        forall|j: int| 0 <= j <= rows ==> #[trigger] r@[j] == band(a@, b@, ws@, i as nat, j as nat),
        steps_by_one(r@),
        forall|j: int| 0 <= j <= rows ==> #[trigger] r@[j] <= i + j,
{
    let m = rows;
    let mut r: Vec<u64> = Vec::new();
    let mut v: u64 = i as u64;
    r.push(v);
    let mut j: usize = 1;
    while j <= m
        invariant
            m <= b.len(),
            b.len() < usize::MAX,
            1 <= j <= m + 1,
            column_ok(a@, b@, ws@, i as nat, blk.pv@, blk.mv@),
            i + b.len() < u64::MAX,
            r.len() == j,
            v == band(a@, b@, ws@, i as nat, (j - 1) as nat),
            forall|jj: int| 0 <= jj < j ==> #[trigger] r@[jj] == band(a@, b@, ws@, i as nat, jj as nat),
            steps_by_one(r@),
            forall|jj: int| 0 <= jj < j ==> #[trigger] r@[jj] <= i + jj,
        decreases m + 1 - j,
    {
        let w = (j - 1) / 64;
        let t = ((j - 1) % 64) as u64;
        proof {
            assert(col_delta(blk.pv@, blk.mv@, j as int) == band(a@, b@, ws@, i as nat, j as nat)
                - band(a@, b@, ws@, i as nat, (j - 1) as nat));
            lemma_band_ge_dist(a@, b@, ws@, i as nat, j as nat);
            lemma_dist_bounds(a@, b@, i as nat, j as nat);
        }
        if w < blk.pv.len() {
            if (blk.pv[w] >> t) & 1 == 1 {
                v = v + 1;
            } else if (blk.mv[w] >> t) & 1 == 1 {
                v = v - 1;
            }
        } else {
            proof {
                assert((u64::MAX >> t) & 1u64 == 1u64) by (bit_vector)
                    requires
                        t < 64,
                ;
            }
            v = v + 1;
        }
        r.push(v);
        j = j + 1;
    }
    r
}

/// The rows of column `i` that the blocks store, clipped to `b`.
pub open spec fn stored_rows(m: int, ws: Seq<(nat, nat)>, i: int) -> int {
    if 64 * ws[i].1 <= m {
        (64 * ws[i].1) as int
    } else {
        m
    }
}

/// Row `j` of a column of which the first rows are in `col`: each row
/// below them is one more than the row above.
pub open spec fn ext(col: Seq<u64>, j: int) -> int {
    if j < col.len() {
        col[j] as int
    } else {
        col[col.len() - 1] + (j - (col.len() - 1))
    }
}

/// Below the stored rows each value is one more than the value above.
pub proof fn lemma_band_below_rows(a: Seq<u8>, b: Seq<u8>, ws: Seq<(nat, nat)>, i: nat, j: nat)
    requires
        stored_rows(b.len() as int, ws, i as int) <= j <= b.len(),
        ws[i as int].0 <= ws[i as int].1,
    ensures
        band(a, b, ws, i, j) == band(a, b, ws, i, stored_rows(b.len() as int, ws, i as int) as nat)
            + j - stored_rows(b.len() as int, ws, i as int),
    decreases j,
{
    if j > stored_rows(b.len() as int, ws, i as int) {
        lemma_band_below_rows(a, b, ws, i, (j - 1) as nat);
    }
}

fn value_at(col: &Vec<u64>, j: usize) -> (r: u64)
    requires
        col.len() >= 1,
        col@[col.len() - 1] + j < u64::MAX,
    ensures
        r == ext(col@, j as int),
{
    let last = col.len() - 1;
    if j <= last {
        col[j]
    } else {
        col[last] + (j - last) as u64
    }
}

/// The stored rows of column `i` as values.
fn stored_values(a: &[u8], b: &[u8], ws: Ghost<Seq<(nat, nat)>>, i: usize, blk: &Block) -> (r: Vec<u64>)
    requires
        column_ok(a@, b@, ws@, i as nat, blk.pv@, blk.mv@),
        i + b.len() < u64::MAX,
        b.len() < usize::MAX,
    ensures
        1 <= r.len() <= b.len() + 1,
        forall|j: int| 0 <= j <= b.len() ==> #[trigger] ext(r@, j) == band(a@, b@, ws@, i as nat, j as nat),
        forall|j: int| 0 <= j <= b.len() ==> #[trigger] ext(r@, j) <= i + j,
{
    let rows: usize = if blk.pv.len() <= b.len() / 64 {
        64 * blk.pv.len()
    } else {
        b.len()
    };
    proof {
        assert(rows == stored_rows(b.len() as int, ws@, i as int));
    }
    let r = column_values(a, b, ws, i, blk, rows);
    proof {
        assert forall|j: int| 0 <= j <= b.len() implies #[trigger] ext(r@, j) == band(
            a@,
            b@,
            ws@,
            i as nat,
            j as nat,
        ) by {
            if j > rows {
                lemma_band_below_rows(a@, b@, ws@, i as nat, j as nat);
            }
        }
        assert forall|j: int| 0 <= j <= b.len() implies #[trigger] ext(r@, j) <= i + j by {
            if j > rows {
                assert(r@[rows as int] <= i + rows);
            }
        }
    }
    r
}

/// The step that the trace takes back from cell `(i, j)`: the first of the
/// diagonal (a match or a substitution), the left neighbour (a deletion)
/// and the upper neighbour (an insertion) whose value leads to the cell's
/// value.
pub open spec fn step_choice(a: Seq<u8>, b: Seq<u8>, ws: Seq<(nat, nat)>, i: int, j: int) -> CigarOp {
    let here = band(a, b, ws, i as nat, j as nat);
    if i > 0 && j > 0 && band(a, b, ws, (i - 1) as nat, (j - 1) as nat) + sub_cost(a, b, i - 1, j - 1)
        == here {
        if compatible(a[i - 1], b[j - 1]) {
            CigarOp::Match
        } else {
            CigarOp::Sub
        }
    } else if i > 0 && (j == 0 || band(a, b, ws, (i - 1) as nat, j as nat) + 1 == here) {
        CigarOp::Del
    } else {
        CigarOp::Ins
    }
}

/// The cell that `op` leads to from `(i, j)`.
pub open spec fn after(op: CigarOp, i: int, j: int) -> (int, int) {
    match op {
        CigarOp::Ins => (i, j + 1),
        CigarOp::Del => (i + 1, j),
        _ => (i + 1, j + 1),
    }
}

/// Every operation of `ops`, walked from `(i, j)`, is the step that the
/// trace takes back from the cell it leads to.
pub open spec fn follows_choice(
    ops: Seq<CigarOp>,
    a: Seq<u8>,
    b: Seq<u8>,
    ws: Seq<(nat, nat)>,
    i: int,
    j: int,
) -> bool
    decreases ops.len(),
{
    if ops.len() == 0 {
        true
    } else {
        let next = after(ops[0], i, j);
        ops[0] == step_choice(a, b, ws, next.0, next.1) && follows_choice(
            ops.drop_first(),
            a,
            b,
            ws,
            next.0,
            next.1,
        )
    }
}

/// Traces a path back from `(a.len(), b.len())` to `(0, 0)` whose cost is
/// the value of the banded matrix at the end.
///
/// At each cell the predecessor is the first of the diagonal, the left
/// neighbour (a deletion) and the upper neighbour (an insertion) whose value
/// leads to the cell's value.
pub fn trace(a: &[u8], b: &[u8], blocks: &Vec<Block>) -> (r: Cigar)
    requires
        all_columns_ok(a@, b@, blocks@),
        a.len() + 2 * b.len() + 1 < u64::MAX,
        a.len() + b.len() + 1 < usize::MAX,
    ensures
        is_path(r@, a@, b@, 0, 0),
        ops_cost(r@) == band(a@, b@, widths(blocks@), a.len() as nat, b.len() as nat),
        follows_choice(r@, a@, b@, widths(blocks@), 0, 0),
        r.runs_ok(),
{
    let ghost ws = widths(blocks@);
    let n = a.len();
    let m = b.len();
    let mut i = n;
    let mut j = m;
    let mut cur = stored_values(a, b, Ghost(ws), n, &blocks[n]);
    let mut prev = if n > 0 {
        stored_values(a, b, Ghost(ws), n - 1, &blocks[n - 1])
    } else {
        Vec::new()
    };
    let mut rev: Vec<CigarOp> = Vec::new();
    let ghost mut fwd: Seq<CigarOp> = Seq::empty();
    while i > 0 || j > 0
        invariant
            n == a.len(),
            m == b.len(),
            ws == widths(blocks@),
            all_columns_ok(a@, b@, blocks@),
            n + 2 * m + 1 < u64::MAX,
            n + m + 1 < usize::MAX,
            i <= n,
            j <= m,
            1 <= cur.len() <= m + 1,
            forall|jj: int| 0 <= jj <= m ==> #[trigger] ext(cur@, jj) == band(a@, b@, ws, i as nat, jj as nat),
            forall|jj: int| 0 <= jj <= m ==> #[trigger] ext(cur@, jj) <= i + jj,
            i > 0 ==> 1 <= prev.len() <= m + 1,
            i > 0 ==> forall|jj: int|
                0 <= jj <= m ==> #[trigger] ext(prev@, jj) == band(a@, b@, ws, (i - 1) as nat, jj as nat),
            i > 0 ==> forall|jj: int| 0 <= jj <= m ==> #[trigger] ext(prev@, jj) <= i - 1 + jj,
            is_path(fwd, a@, b@, i as int, j as int),
            ops_cost(fwd) + band(a@, b@, ws, i as nat, j as nat) == band(a@, b@, ws, n as nat, m as nat),
            follows_choice(fwd, a@, b@, ws, i as int, j as int),
            fwd.len() == rev.len(),
            rev.len() <= (n - i) + (m - j),
            forall|k: int| 0 <= k < rev.len() ==> #[trigger] fwd[k] == rev@[rev.len() - 1 - k],
        decreases i + j,
    {
        let op: CigarOp;
        if i > 0 && j > 0 {
            let c = chars_compatible(a[i - 1], b[j - 1]);
            let sub: u64 = if c {
                0
            } else {
                1
            };
            proof {
                lemma_band_ge_dist(a@, b@, ws, i as nat, j as nat);
                lemma_band_ge_dist(a@, b@, ws, (i - 1) as nat, (j - 1) as nat);
                lemma_band_ge_dist(a@, b@, ws, (i - 1) as nat, j as nat);
                lemma_band_ge_dist(a@, b@, ws, i as nat, (j - 1) as nat);
                assert(sub_cost(a@, b@, i - 1, j - 1) == sub);
            }
            proof {
                assert(ext(prev@, prev.len() - 1) <= i + m);
                assert(ext(cur@, cur.len() - 1) <= i + m);
                assert(ext(prev@, j - 1) <= i + j);
                assert(ext(prev@, j as int) <= i + j);
                assert(ext(cur@, j as int) <= i + j);
            }
            let diag = value_at(&prev, j - 1);
            let left = value_at(&prev, j);
            let here = value_at(&cur, j);
            if diag + sub == here {
                op = if c {
                    CigarOp::Match
                } else {
                    CigarOp::Sub
                };
            } else if left + 1 == here {
                op = CigarOp::Del;
            } else {
                op = CigarOp::Ins;
            }
        } else if i > 0 {
            op = CigarOp::Del;
        } else {
            op = CigarOp::Ins;
        }
        proof {
            assert(op == step_choice(a@, b@, ws, i as int, j as int));
        }
        let ghost old_fwd = fwd;
        let ghost old_i = i;
        let ghost old_j = j;
        proof {
            fwd = seq![op] + old_fwd;
            assert(fwd.drop_first() =~= old_fwd);
        }
        rev.push(op);
        if op == CigarOp::Ins {
            j = j - 1;
        } else {
            if op != CigarOp::Del {
                j = j - 1;
            }
            i = i - 1;
            cur = prev;
            prev = if i > 0 {
                stored_values(a, b, Ghost(ws), i - 1, &blocks[i - 1])
            } else {
                Vec::new()
            };
        }
        proof {
            assert(ops_cost(fwd) == op_cost(op) + ops_cost(old_fwd));
            assert(after(op, i as int, j as int) == (old_i as int, old_j as int));
            assert forall|k: int| 0 <= k < rev.len() implies #[trigger] fwd[k] == rev@[rev.len() - 1
                - k] by {
                if k > 0 {
                    assert(fwd[k] == old_fwd[k - 1]);
                }
            }
        }
    }
    let mut cigar = Cigar::new();
    let mut k = rev.len();
    while k > 0
        invariant
            k <= rev.len(),
            rev.len() == fwd.len(),
            rev.len() <= n + m,
            n + m + 1 < u64::MAX,
            forall|kk: int| 0 <= kk < rev.len() ==> #[trigger] fwd[kk] == rev@[rev.len() - 1 - kk],
            cigar@ == fwd.subrange(0, (rev.len() - k) as int),
            cigar.runs_ok(),
        decreases k,
    {
        let op = rev[k - 1];
        cigar.push(op);
        k = k - 1;
        proof {
            assert(cigar@ =~= fwd.subrange(0, (rev.len() - k) as int));
        }
    }
    proof {
        assert(cigar@ =~= fwd);
    }
    cigar
}

} // verus!
