//! Alignments as run-length encoded edit scripts.
use vstd::prelude::*;
use crate::model::{compatible, dist};
use crate::util::{ascii_text, lemma_ascii_utf8, to_string};

verus! {

/// One edit operation. An insertion consumes a character of `b` only, a
/// deletion one of `a` only.
#[derive(Clone, Copy, PartialEq, Eq, Structural, Debug)]
pub enum CigarOp {
    Match,
    Sub,
    Ins,
    Del,
}

/// A run of `cnt` equal operations.
#[derive(Clone, Copy, PartialEq, Eq, Structural, Debug)]
pub struct CigarElem {
    pub op: CigarOp,
    pub cnt: usize,
}

/// A run-length encoded edit script.
#[derive(Clone, Debug)]
pub struct Cigar {
    pub ops: Vec<CigarElem>,
}

/// `n` copies of `op`.
pub open spec fn repeat(op: CigarOp, n: nat) -> Seq<CigarOp>
    decreases n,
{
    if n == 0 {
        Seq::empty()
    } else {
        repeat(op, (n - 1) as nat).push(op)
    }
}

/// The operations of a run-length encoding, one per character step.
pub open spec fn expand(elems: Seq<CigarElem>) -> Seq<CigarOp>
    decreases elems.len(),
{
    if elems.len() == 0 {
        Seq::empty()
    } else {
        expand(elems.drop_last()) + repeat(elems.last().op, elems.last().cnt as nat)
    }
}

/// Each operation costs one, but a match.
pub open spec fn op_cost(op: CigarOp) -> int {
    if op == CigarOp::Match {
        0
    } else {
        1
    }
}

/// The cost of a sequence of operations.
pub open spec fn ops_cost(ops: Seq<CigarOp>) -> int
    decreases ops.len(),
{
    if ops.len() == 0 {
        0
    } else {
        op_cost(ops[0]) + ops_cost(ops.drop_first())
    }
}

/// `ops` leads from `(i, j)` to `(n, m)` through the alignment graph of `a`
/// and `b`: a match or a substitution consumes one character of each, and
/// is a match exactly when the two are compatible.
pub open spec fn is_path(ops: Seq<CigarOp>, a: Seq<u8>, b: Seq<u8>, i: int, j: int) -> bool
    decreases ops.len(),
{
    if ops.len() == 0 {
        i == a.len() && j == b.len()
    } else {
        let rest = ops.drop_first();
        match ops[0] {
            CigarOp::Match => 0 <= i < a.len() && 0 <= j < b.len() && compatible(a[i], b[j])
                && is_path(rest, a, b, i + 1, j + 1),
            CigarOp::Sub => 0 <= i < a.len() && 0 <= j < b.len() && !compatible(a[i], b[j])
                && is_path(rest, a, b, i + 1, j + 1),
            CigarOp::Ins => 0 <= j < b.len() && is_path(rest, a, b, i, j + 1),
            CigarOp::Del => 0 <= i < a.len() && is_path(rest, a, b, i + 1, j),
        }
    }
}

/// `ops` is an optimal alignment of `a` and `b`.
pub open spec fn is_optimal_alignment(ops: Seq<CigarOp>, a: Seq<u8>, b: Seq<u8>) -> bool {
    &&& is_path(ops, a, b, 0, 0)
    &&& ops_cost(ops) == dist(a, b, a.len(), b.len())
}

/// Run `k` has another operation than run `k + 1`.
pub open spec fn differs_next(elems: Seq<CigarElem>, k: int) -> bool {
    elems[k].op != elems[k + 1].op
}

impl Cigar {
    pub open spec fn view(&self) -> Seq<CigarOp> {
        expand(self.ops@)
    }

    /// Every run is non-empty, no longer than the whole script, and has
    /// another operation than the next run.
    pub open spec fn runs_ok(&self) -> bool {
        &&& forall|k: int|
            0 <= k < self.ops@.len() ==> 0 < (#[trigger] self.ops@[k]).cnt <= self@.len()
        &&& forall|k: int| 0 <= k < self.ops@.len() - 1 ==> #[trigger] differs_next(self.ops@, k)
    }

    /// The empty script.
    pub fn new() -> (r: Cigar)
        ensures
            r@ == Seq::<CigarOp>::empty(),
            r.ops@.len() == 0,
            r.runs_ok(),
    {
        Cigar { ops: Vec::new() }
    }

    /// Appends one operation, extending the last run where it has the same
    /// operation.
    pub fn push(&mut self, op: CigarOp)
        requires
            old(self)@.len() < usize::MAX,
            old(self).runs_ok(),
        ensures
            final(self)@ == old(self)@.push(op),
            final(self).runs_ok(),
    {
        let n = self.ops.len();
        proof {
            lemma_expand_len(self.ops@);
        }
        if n > 0 && self.ops[n - 1].op == op {
            let last = self.ops[n - 1];
            proof {
                assert(last.cnt <= self@.len());
            }
            let ghost old_ops = self.ops@;
            self.ops.set(n - 1, CigarElem { op, cnt: last.cnt + 1 });
            proof {
                assert(self.ops@.drop_last() == old_ops.drop_last());
                assert(repeat(op, (last.cnt + 1) as nat) == repeat(op, last.cnt as nat).push(op));
                assert(expand(old_ops) == expand(old_ops.drop_last()) + repeat(op, last.cnt as nat));
                assert(expand(self.ops@) == expand(old_ops.drop_last()) + repeat(
                    op,
                    (last.cnt + 1) as nat,
                ));
                assert(expand(self.ops@) =~= expand(old_ops).push(op));
                lemma_expand_len(self.ops@);
                assert forall|k: int| 0 <= k < self.ops@.len() - 1 implies #[trigger] differs_next(
                    self.ops@,
                    k,
                ) by {
                    assert(differs_next(old_ops, k));
                    assert(self.ops@[k].op == old_ops[k].op);
                    assert(self.ops@[k + 1].op == old_ops[k + 1].op);
                }
            }
        } else {
            let ghost old_ops = self.ops@;
            self.ops.push(CigarElem { op, cnt: 1 });
            proof {
                assert(self.ops@.drop_last() == old_ops);
                assert(repeat(op, 1) == repeat(op, 0).push(op));
                assert(expand(self.ops@) =~= expand(old_ops).push(op));
                lemma_expand_len(self.ops@);
                assert forall|k: int| 0 <= k < self.ops@.len() - 1 implies #[trigger] differs_next(
                    self.ops@,
                    k,
                ) by {
                    if k + 1 < old_ops.len() {
                        assert(differs_next(old_ops, k));
                        assert(self.ops@[k] == old_ops[k]);
                        assert(self.ops@[k + 1] == old_ops[k + 1]);
                    } else {
                        assert(self.ops@[k] == old_ops[k]);
                    }
                }
            }
        }
    }
}

/// The decimal digits of `n`, most significant first.
pub open spec fn decimal(n: nat) -> Seq<u8>
    decreases n,
{
    if n < 10 {
        seq![(48 + n) as u8]
    } else {
        decimal(n / 10).push((48 + n % 10) as u8)
    }
}

/// The letter of an operation: `=`, `X`, `I` or `D`.
pub open spec fn op_char(op: CigarOp) -> u8 {
    match op {
        CigarOp::Match => 61,
        CigarOp::Sub => 88,
        CigarOp::Ins => 73,
        CigarOp::Del => 68,
    }
}

/// The text of a run-length encoding: each run as its count and letter.
pub open spec fn cigar_text(elems: Seq<CigarElem>) -> Seq<u8>
    decreases elems.len(),
{
    if elems.len() == 0 {
        Seq::empty()
    } else {
        cigar_text(elems.drop_last()) + decimal(elems.last().cnt as nat) + seq![op_char(elems.last().op)]
    }
}

pub proof fn lemma_decimal_ascii(n: nat)
    ensures
        forall|i: int| 0 <= i < decimal(n).len() ==> #[trigger] decimal(n)[i] < 128,
    decreases n,
{
    if n >= 10 {
        lemma_decimal_ascii(n / 10);
        let d = decimal(n);
        let p = decimal(n / 10);
        assert(d == p.push((48 + n % 10) as u8));
        assert forall|i: int| 0 <= i < d.len() implies #[trigger] d[i] < 128 by {
            if i < p.len() {
                assert(d[i] == p[i]);
            }
        }
    }
}

proof fn lemma_cigar_text_ascii(elems: Seq<CigarElem>)
    ensures
        forall|i: int| 0 <= i < cigar_text(elems).len() ==> #[trigger] cigar_text(elems)[i] < 128,
    decreases elems.len(),
{
    if elems.len() > 0 {
        lemma_cigar_text_ascii(elems.drop_last());
        lemma_decimal_ascii(elems.last().cnt as nat);
        let t = cigar_text(elems);
        let p = cigar_text(elems.drop_last());
        let d = decimal(elems.last().cnt as nat);
        assert forall|i: int| 0 <= i < t.len() implies #[trigger] t[i] < 128 by {
            if i < p.len() {
                assert(t[i] == p[i]);
            } else if i < p.len() + d.len() {
                assert(t[i] == d[i - p.len()]);
            }
        }
    }
}

/// Appends the decimal digits of `n` to `v`.
pub fn push_decimal(v: &mut Vec<u8>, n: usize)
    ensures
        final(v)@ == old(v)@ + decimal(n as nat),
    decreases n,
{
    if n < 10 {
        v.push((48 + n) as u8);
        proof {
            assert(final(v)@ =~= old(v)@ + decimal(n as nat));
        }
    } else {
        push_decimal(v, n / 10);
        v.push((48 + n % 10) as u8);
        proof {
            assert(final(v)@ =~= old(v)@ + decimal(n as nat));
        }
    }
}

impl Cigar {
    /// The text of the script, such as `2=1X3=`.
    pub fn to_string(&self) -> (r: String)
        ensures
            r@ == ascii_text(cigar_text(self.ops@)),
    {
        let mut v: Vec<u8> = Vec::new();
        for t in 0..self.ops.len()
            invariant
                v@ == cigar_text(self.ops@.subrange(0, t as int)),
        {
            let e = self.ops[t];
            push_decimal(&mut v, e.cnt);
            let c: u8 = match e.op {
                CigarOp::Match => 61,
                CigarOp::Sub => 88,
                CigarOp::Ins => 73,
                CigarOp::Del => 68,
            };
            v.push(c);
            proof {
                assert(self.ops@.subrange(0, t + 1).drop_last() =~= self.ops@.subrange(0, t as int));
                assert(v@ =~= cigar_text(self.ops@.subrange(0, t + 1)));
            }
        }
        proof {
            assert(self.ops@.subrange(0, self.ops@.len() as int) =~= self.ops@);
            lemma_cigar_text_ascii(self.ops@);
            lemma_ascii_utf8(v@);
        }
        to_string(v.as_slice())
    }
}

/// `repeat` gives `n` operations.
pub proof fn lemma_repeat_len(op: CigarOp, n: nat)
    ensures
        repeat(op, n).len() == n,
    decreases n,
{
    if n > 0 {
        lemma_repeat_len(op, (n - 1) as nat);
    }
}

/// The expansion is at least as long as each run.
proof fn lemma_expand_len(elems: Seq<CigarElem>)
    ensures
        forall|k: int| 0 <= k < elems.len() ==> (#[trigger] elems[k]).cnt <= expand(elems).len(),
        expand(elems).len() >= 0,
    decreases elems.len(),
{
    if elems.len() > 0 {
        lemma_expand_len(elems.drop_last());
        lemma_repeat_len(elems.last().op, elems.last().cnt as nat);
        assert forall|k: int| 0 <= k < elems.len() implies (#[trigger] elems[k]).cnt <= expand(
            elems,
        ).len() by {
            if k < elems.len() - 1 {
                assert(elems[k] == elems.drop_last()[k]);
            }
        }
    }
}

} // verus!
