//! Facts about alignments on boundary inputs, and about what an edit script
//! does to `a`.
use vstd::prelude::*;
use crate::blocks::lemma_dist_bounds;
use crate::cigar::{
    differs_next, expand, is_optimal_alignment, is_path, lemma_repeat_len, op_cost, ops_cost, repeat, Cigar,
    CigarElem, CigarOp,
};
use crate::model::{compatible, dist, edit_distance, is_base, sub_cost, valid_a};
use crate::profile::{is_upper_base, upper_bases};

verus! {

/// The sequence that `ops` makes of `a[i..]`, taking inserted and
/// substituted characters from `b[j..]`.
pub open spec fn applied(ops: Seq<CigarOp>, a: Seq<u8>, b: Seq<u8>, i: int, j: int) -> Seq<u8>
    decreases ops.len(),
{
    if ops.len() == 0 {
        Seq::empty()
    } else {
        let rest = ops.drop_first();
        match ops[0] {
            CigarOp::Match => seq![a[i]] + applied(rest, a, b, i + 1, j + 1),
            CigarOp::Sub => seq![b[j]] + applied(rest, a, b, i + 1, j + 1),
            CigarOp::Ins => seq![b[j]] + applied(rest, a, b, i, j + 1),
            CigarOp::Del => applied(rest, a, b, i + 1, j),
        }
    }
}

/// On sequences of upper case bases, an edit script that leads through the
/// alignment graph turns `a` into `b`.
pub proof fn lemma_path_applies(ops: Seq<CigarOp>, a: Seq<u8>, b: Seq<u8>, i: int, j: int)
    requires
        upper_bases(a),
        upper_bases(b),
        is_path(ops, a, b, i, j),
    ensures
        applied(ops, a, b, i, j) == b.subrange(j, b.len() as int),
    decreases ops.len(),
{
    if ops.len() == 0 {
        assert(b.subrange(j, b.len() as int) =~= Seq::<u8>::empty());
    } else {
        let rest = ops.drop_first();
        match ops[0] {
            CigarOp::Match => {
                lemma_path_applies(rest, a, b, i + 1, j + 1);
                assert(is_upper_base(a[i]) && is_upper_base(b[j]));
                assert(a[i] == b[j]);
                assert(b.subrange(j, b.len() as int) =~= seq![b[j]] + b.subrange(j + 1, b.len() as int));
            },
            CigarOp::Sub => {
                lemma_path_applies(rest, a, b, i + 1, j + 1);
                assert(b.subrange(j, b.len() as int) =~= seq![b[j]] + b.subrange(j + 1, b.len() as int));
            },
            CigarOp::Ins => {
                lemma_path_applies(rest, a, b, i, j + 1);
                assert(b.subrange(j, b.len() as int) =~= seq![b[j]] + b.subrange(j + 1, b.len() as int));
            },
            CigarOp::Del => {
                lemma_path_applies(rest, a, b, i + 1, j);
            },
        }
    }
}

/// An optimal alignment of upper case bases, applied to `a`, gives `b`, and
/// costs the edit distance.
pub proof fn lemma_alignment_turns_a_into_b(ops: Seq<CigarOp>, a: Seq<u8>, b: Seq<u8>)
    requires
        upper_bases(a),
        upper_bases(b),
        is_optimal_alignment(ops, a, b),
    ensures
        applied(ops, a, b, 0, 0) == b,
        ops_cost(ops) == edit_distance(a, b),
{
    lemma_path_applies(ops, a, b, 0, 0);
    assert(b.subrange(0, b.len() as int) =~= b);
}

/// From column `i` of an empty `b`, a path only deletes.
proof fn lemma_only_deletions(ops: Seq<CigarOp>, a: Seq<u8>, b: Seq<u8>, i: int, j: int)
    requires
        b.len() == 0,
        is_path(ops, a, b, i, j),
    ensures
        forall|k: int| 0 <= k < ops.len() ==> #[trigger] ops[k] == CigarOp::Del,
    decreases ops.len(),
{
    if ops.len() > 0 {
        lemma_only_deletions(ops.drop_first(), a, b, i + 1, j);
        assert forall|k: int| 0 <= k < ops.len() implies #[trigger] ops[k] == CigarOp::Del by {
            if k > 0 {
                assert(ops[k] == ops.drop_first()[k - 1]);
            }
        }
    }
}

/// From row `j` of an empty `a`, a path only inserts.
proof fn lemma_only_insertions(ops: Seq<CigarOp>, a: Seq<u8>, b: Seq<u8>, i: int, j: int)
    requires
        a.len() == 0,
        is_path(ops, a, b, i, j),
    ensures
        forall|k: int| 0 <= k < ops.len() ==> #[trigger] ops[k] == CigarOp::Ins,
    decreases ops.len(),
{
    if ops.len() > 0 {
        lemma_only_insertions(ops.drop_first(), a, b, i, j + 1);
        assert forall|k: int| 0 <= k < ops.len() implies #[trigger] ops[k] == CigarOp::Ins by {
            if k > 0 {
                assert(ops[k] == ops.drop_first()[k - 1]);
            }
        }
    }
}

/// With `a` empty the distance is the length of `b` and an alignment is all
/// insertions; with `b` empty, the length of `a` and all deletions.
pub proof fn lemma_empty_side(ops: Seq<CigarOp>, a: Seq<u8>, b: Seq<u8>)
    requires
        a.len() == 0 || b.len() == 0,
        is_path(ops, a, b, 0, 0),
    ensures
        a.len() == 0 ==> edit_distance(a, b) == b.len(),
        a.len() == 0 ==> forall|k: int| 0 <= k < ops.len() ==> #[trigger] ops[k] == CigarOp::Ins,
        b.len() == 0 ==> edit_distance(a, b) == a.len(),
        b.len() == 0 ==> forall|k: int| 0 <= k < ops.len() ==> #[trigger] ops[k] == CigarOp::Del,
{
    if a.len() == 0 {
        lemma_only_insertions(ops, a, b, 0, 0);
    }
    if b.len() == 0 {
        lemma_only_deletions(ops, a, b, 0, 0);
    }
}

/// Every prefix of a sequence of bases is at distance zero from itself.
proof fn lemma_self_dist(a: Seq<u8>, i: nat)
    requires
        valid_a(a),
        i <= a.len(),
    ensures
        dist(a, a, i, i) == 0,
    decreases i,
{
    if i > 0 {
        lemma_self_dist(a, (i - 1) as nat);
        assert(is_base(a[i - 1]));
        assert(compatible(a[i - 1], a[i - 1]));
        assert(sub_cost(a, a, i - 1, i - 1) == 0);
        lemma_dist_bounds(a, a, (i - 1) as nat, i);
        lemma_dist_bounds(a, a, i, (i - 1) as nat);
    }
}

/// A script of cost zero holds matches only.
proof fn lemma_zero_cost_matches(ops: Seq<CigarOp>)
    requires
        ops_cost(ops) == 0,
    ensures
        forall|k: int| 0 <= k < ops.len() ==> #[trigger] ops[k] == CigarOp::Match,
    decreases ops.len(),
{
    if ops.len() > 0 {
        lemma_cost_nonneg(ops.drop_first());
        lemma_zero_cost_matches(ops.drop_first());
        assert forall|k: int| 0 <= k < ops.len() implies #[trigger] ops[k] == CigarOp::Match by {
            if k > 0 {
                assert(ops[k] == ops.drop_first()[k - 1]);
            }
        }
    }
}

proof fn lemma_cost_nonneg(ops: Seq<CigarOp>)
    ensures
        ops_cost(ops) >= 0,
    decreases ops.len(),
{
    if ops.len() > 0 {
        lemma_cost_nonneg(ops.drop_first());
    }
}

/// Each run's operation occurs in the expansion.
proof fn lemma_run_occurs(elems: Seq<CigarElem>, k: int)
    requires
        0 <= k < elems.len(),
        forall|q: int| 0 <= q < elems.len() ==> (#[trigger] elems[q]).cnt > 0,
    ensures
        exists|t: int| 0 <= t < expand(elems).len() && expand(elems)[t] == elems[k].op,
    decreases elems.len(),
{
    let p = expand(elems.drop_last());
    let r = repeat(elems.last().op, elems.last().cnt as nat);
    assert(expand(elems) == p + r);
    if k < elems.len() - 1 {
        assert(elems.drop_last()[k] == elems[k]);
        lemma_run_occurs(elems.drop_last(), k);
        let t = choose|t: int| 0 <= t < p.len() && p[t] == elems[k].op;
        assert((p + r)[t] == p[t]);
    } else {
        let c = elems.last().cnt as nat;
        assert(r == repeat(elems.last().op, (c - 1) as nat).push(elems.last().op));
        lemma_repeat_len(elems.last().op, (c - 1) as nat);
        assert((p + r)[p.len() + r.len() - 1] == r[r.len() - 1]);
    }
}

/// Aligning a sequence of bases with itself costs nothing, and an optimal
/// alignment with maximal runs is a single run of matches (or nothing, for
/// the empty sequence).
pub proof fn lemma_equal_sequences(a: Seq<u8>, c: Cigar)
    requires
        valid_a(a),
        is_optimal_alignment(c@, a, a),
        c.runs_ok(),
    ensures
        edit_distance(a, a) == 0,
        forall|k: int| 0 <= k < c@.len() ==> #[trigger] c@[k] == CigarOp::Match,
        c.ops@.len() <= 1,
{
    lemma_self_dist(a, a.len());
    lemma_zero_cost_matches(c@);
    if c.ops@.len() > 1 {
        assert(differs_next(c.ops@, 0));
        lemma_run_occurs(c.ops@, 0);
        lemma_run_occurs(c.ops@, 1);
        let t0 = choose|t: int| 0 <= t < c@.len() && c@[t] == c.ops@[0].op;
        let t1 = choose|t: int| 0 <= t < c@.len() && c@[t] == c.ops@[1].op;
        assert(c@[t0] == CigarOp::Match && c@[t1] == CigarOp::Match);
    }
}

/// The cost of a run-length encoding: the total length of its runs of
/// substitutions, insertions and deletions.
pub open spec fn runs_cost(elems: Seq<CigarElem>) -> int
    decreases elems.len(),
{
    if elems.len() == 0 {
        0
    } else {
        runs_cost(elems.drop_last()) + (if elems.last().op == CigarOp::Match {
            0
        } else {
            elems.last().cnt as int
        })
    }
}

proof fn lemma_cost_concat(s1: Seq<CigarOp>, s2: Seq<CigarOp>)
    ensures
        ops_cost(s1 + s2) == ops_cost(s1) + ops_cost(s2),
    decreases s1.len(),
{
    if s1.len() == 0 {
        assert(s1 + s2 =~= s2);
    } else {
        assert((s1 + s2).drop_first() =~= s1.drop_first() + s2);
        assert((s1 + s2)[0] == s1[0]);
        lemma_cost_concat(s1.drop_first(), s2);
    }
}

proof fn lemma_cost_repeat(op: CigarOp, n: nat)
    ensures
        ops_cost(repeat(op, n)) == (if op == CigarOp::Match {
            0
        } else {
            n as int
        }),
    decreases n,
{
    if n > 0 {
        lemma_cost_repeat(op, (n - 1) as nat);
        lemma_cost_concat(repeat(op, (n - 1) as nat), seq![op]);
        assert(repeat(op, n) == repeat(op, (n - 1) as nat) + seq![op]);
        assert(seq![op].drop_first() =~= Seq::<CigarOp>::empty());
        assert(ops_cost(Seq::<CigarOp>::empty()) == 0);
        assert(ops_cost(seq![op]) == op_cost(op) + ops_cost(seq![op].drop_first()));
    } else {
        assert(repeat(op, 0) =~= Seq::<CigarOp>::empty());
    }
}

/// The cost of the operations of a run-length encoding is the total length
/// of its runs other than matches.
pub proof fn lemma_runs_cost(elems: Seq<CigarElem>)
    ensures
        ops_cost(expand(elems)) == runs_cost(elems),
    decreases elems.len(),
{
    if elems.len() > 0 {
        lemma_runs_cost(elems.drop_last());
        lemma_cost_concat(
            expand(elems.drop_last()),
            repeat(elems.last().op, elems.last().cnt as nat),
        );
        lemma_cost_repeat(elems.last().op, elems.last().cnt as nat);
    }
}

/// The runs of substitutions, insertions and deletions of an optimal
/// alignment add up to the edit distance.
pub proof fn lemma_cigar_cost(c: Cigar, a: Seq<u8>, b: Seq<u8>)
    requires
        is_optimal_alignment(c@, a, b),
    ensures
        runs_cost(c.ops@) == edit_distance(a, b),
{
    lemma_runs_cost(c.ops@);
}

/// With one sequence empty the distance is the length of the other.
pub proof fn lemma_empty_cost(a: Seq<u8>, b: Seq<u8>)
    requires
        a.len() == 0 || b.len() == 0,
    ensures
        edit_distance(a, b) == a.len() + b.len(),
{
}

/// A sequence of bases is at distance zero from itself.
pub proof fn lemma_self_distance(a: Seq<u8>)
    requires
        valid_a(a),
    ensures
        edit_distance(a, a) == 0,
{
    lemma_self_dist(a, a.len());
}

} // verus!
