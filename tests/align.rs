use astarpa2::aligners::Aligner;
use astarpa2::cigar::{Cigar, CigarOp};
use astarpa2::blocks::Block;
use astarpa2::domain::{AstarPa2, Domain};
use astarpa2::heuristic::GapHeuristic;

fn aligner(trace: bool) -> AstarPa2 {
    let mut p = AstarPa2::new();
    p.trace = trace;
    p
}

fn align(a: &[u8], b: &[u8]) -> (u64, Cigar) {
    let (cost, cigar) = aligner(true).align(a, b);
    (cost, cigar.expect("trace was asked"))
}

/// Quadratic reference distance.
fn reference(a: &[u8], b: &[u8]) -> u64 {
    let mut prev: Vec<u64> = (0..=b.len() as u64).collect();
    for i in 1..=a.len() {
        let mut cur = vec![i as u64; b.len() + 1];
        for j in 1..=b.len() {
            let sub = if a[i - 1].eq_ignore_ascii_case(&b[j - 1]) { 0 } else { 1 };
            cur[j] = (prev[j - 1] + sub).min(prev[j] + 1).min(cur[j - 1] + 1);
        }
        prev = cur;
    }
    prev[b.len()]
}

/// Applies an edit script to `a`, taking inserted and substituted bases from `b`.
fn apply(cigar: &Cigar, a: &[u8], b: &[u8]) -> (Vec<u8>, u64) {
    let (mut i, mut j) = (0, 0);
    let mut out = Vec::new();
    let mut cost = 0;
    for e in &cigar.ops {
        for _ in 0..e.cnt {
            match e.op {
                CigarOp::Match => {
                    assert_eq!(a[i], b[j]);
                    out.push(a[i]);
                    i += 1;
                    j += 1;
                }
                CigarOp::Sub => {
                    assert_ne!(a[i], b[j]);
                    out.push(b[j]);
                    i += 1;
                    j += 1;
                    cost += 1;
                }
                CigarOp::Ins => {
                    out.push(b[j]);
                    j += 1;
                    cost += 1;
                }
                CigarOp::Del => {
                    i += 1;
                    cost += 1;
                }
            }
        }
    }
    assert_eq!(i, a.len());
    (out, cost)
}

/// A small deterministic generator for test inputs.
struct Lcg(u64);

impl Lcg {
    fn next(&mut self, n: u64) -> u64 {
        self.0 = self.0.wrapping_mul(6364136223846793005).wrapping_add(1442695040888963407);
        (self.0 >> 33) % n
    }
}

fn random_seq(rng: &mut Lcg, n: usize) -> Vec<u8> {
    (0..n).map(|_| b"ACGT"[rng.next(4) as usize]).collect()
}

fn mutate(rng: &mut Lcg, a: &[u8], k: usize) -> Vec<u8> {
    let mut b = a.to_vec();
    for _ in 0..k {
        match if b.is_empty() { 1 } else { rng.next(3) } {
            0 => {
                let i = rng.next(b.len() as u64) as usize;
                b[i] = b"ACGT"[rng.next(4) as usize];
            }
            1 => {
                let i = rng.next(b.len() as u64 + 1) as usize;
                b.insert(i, b"ACGT"[rng.next(4) as usize]);
            }
            _ => {
                let i = rng.next(b.len() as u64) as usize;
                b.remove(i);
            }
        }
    }
    b
}

#[test]
fn equal_sequences() {
    let (cost, cigar) = align(b"ACGT", b"ACGT");
    assert_eq!(cost, 0);
    assert_eq!(cigar.to_string(), "4=");
}

#[test]
fn one_substitution() {
    let (cost, cigar) = align(b"ACGT", b"AGGT");
    assert_eq!(cost, 1);
    assert_eq!(cigar.to_string(), "1=1X2=");
}

#[test]
fn one_deletion() {
    let (cost, cigar) = align(b"ACGT", b"ACT");
    assert_eq!(cost, 1);
    assert_eq!(cigar.to_string(), "2=1D1=");
}

#[test]
fn insertion_in_a_run() {
    // The trace prefers the diagonal from the end, so the insertion lands
    // as late in the run as possible when read backwards: after two bases.
    let (cost, cigar) = align(b"AAAAA", b"AATAAA");
    assert_eq!(cost, 1);
    let s = cigar.to_string();
    assert!(s == "2=1I3=" || s == "3=1I2=");
    assert_eq!(s, "2=1I3=");
}

#[test]
fn two_substitutions_in_one_word() {
    let a = vec![b'A'; 64];
    let mut b = a.clone();
    b[10] = b'C';
    b[40] = b'C';
    let (cost, cigar) = align(&a, &b);
    assert_eq!(cost, 2);
    assert_eq!(cigar.to_string(), "10=1X29=1X23=");
}

#[test]
fn empty_a() {
    let (cost, cigar) = align(b"", b"ACG");
    assert_eq!(cost, 3);
    assert_eq!(cigar.to_string(), "3I");
}

#[test]
fn empty_b() {
    let (cost, cigar) = align(b"ACGTA", b"");
    assert_eq!(cost, 5);
    assert_eq!(cigar.to_string(), "5D");
}

#[test]
fn both_empty() {
    let (cost, cigar) = align(b"", b"");
    assert_eq!(cost, 0);
    assert_eq!(cigar.to_string(), "");
}

#[test]
fn equal_long_sequences_single_run() {
    let mut rng = Lcg(7);
    let a = random_seq(&mut rng, 300);
    let (cost, cigar) = align(&a, &a);
    assert_eq!(cost, 0);
    assert_eq!(cigar.ops.len(), 1);
    assert_eq!(cigar.to_string(), "300=");
}

#[test]
fn lower_case_matches_upper_case() {
    let (cost, _) = align(b"acgt", b"ACGT");
    assert_eq!(cost, 0);
}

#[test]
fn ambiguity_codes_in_b() {
    // N matches anything, Y is C or T, R is A or G.
    assert_eq!(align(b"ACGT", b"NNNN").0, 0);
    assert_eq!(align(b"CT", b"YY").0, 0);
    assert_eq!(align(b"AG", b"RR").0, 0);
    assert_eq!(align(b"AG", b"YY").0, 2);
}

#[test]
fn tail_rows_add_no_matches() {
    // Lengths that are not multiples of the word size.
    let mut rng = Lcg(11);
    for n in [1usize, 63, 65, 100, 127, 129] {
        let a = random_seq(&mut rng, n);
        let b = mutate(&mut rng, &a, n / 10 + 1);
        let (cost, _) = align(&a, &b);
        assert_eq!(cost, reference(&a, &b));
    }
}

#[test]
fn cost_matches_reference_for_error_rates() {
    let mut rng = Lcg(31415);
    for n in [0usize, 10, 100, 500] {
        for e in [0usize, 1, 10, 50, 100] {
            let a = random_seq(&mut rng, n);
            let b = mutate(&mut rng, &a, n * e / 100);
            let (cost, cigar) = align(&a, &b);
            assert_eq!(cost, reference(&a, &b));
            let (applied, cigar_cost) = apply(&cigar, &a, &b);
            assert_eq!(applied, b);
            assert_eq!(cigar_cost, cost);
        }
    }
}

#[test]
fn cost_only_matches_trace() {
    let mut rng = Lcg(5);
    let a = random_seq(&mut rng, 200);
    let b = mutate(&mut rng, &a, 30);
    let (c1, none) = aligner(false).align(&a, &b);
    assert!(none.is_none());
    assert_eq!(c1, align(&a, &b).0);
}

#[test]
fn domains_do_not_change_cost() {
    let mut rng = Lcg(99);
    for n in [0usize, 1, 70, 150, 300] {
        let a = random_seq(&mut rng, n);
        let b = mutate(&mut rng, &a, n / 7 + 1);
        let mut costs = Vec::new();
        for domain in [Domain::Full, Domain::GapStart, Domain::GapGap, Domain::Astar] {
            let mut p = aligner(true);
            p.domain = domain;
            let (cost, cigar) = p.align(&a, &b);
            let (applied, cigar_cost) = apply(&cigar.unwrap(), &a, &b);
            assert_eq!(applied, b);
            assert_eq!(cigar_cost, cost);
            costs.push(cost);
        }
        assert!(costs.iter().all(|&c| c == reference(&a, &b)));
    }
}

#[test]
fn sparse_scan_does_not_change_cost() {
    let mut rng = Lcg(21);
    for n in [50usize, 200, 600] {
        let a = random_seq(&mut rng, n);
        let b = mutate(&mut rng, &a, n / 10);
        let mut costs = Vec::new();
        for sparse_h in [false, true] {
            for prune in [false, true] {
                for block_width in [1usize, 64, 256] {
                    let mut p = aligner(false);
                    p.domain = Domain::Astar;
                    p.sparse_h = sparse_h;
                    p.prune = prune;
                    p.block_width = block_width;
                    costs.push(p.align(&a, &b).0);
                }
            }
        }
        assert!(costs.iter().all(|&c| c == reference(&a, &b)));
    }
}

#[test]
fn fixed_range_dense_and_sparse_agree() {
    // Values of a column that rise away from row 5.
    let vals: Vec<u64> = vec![5, 4, 3, 2, 1, 0, 1, 2, 3, 4, 5];
    let mut h = GapHeuristic::new(10, 10);
    for sparse_h in [false, true] {
        let mut p = aligner(false);
        p.domain = Domain::Astar;
        p.sparse_h = sparse_h;
        // n = m = 10, column 5: the gap to the end is |(10 - j) - 5|.
        assert_eq!(p.fixed_j_range(&mut h, &vals, 10, 10, 5, Some(2)), Some((4, 6)));
        assert_eq!(p.fixed_j_range(&mut h, &vals, 10, 10, 5, Some(0)), Some((5, 5)));
        assert_eq!(p.fixed_j_range(&mut h, &vals, 10, 10, 0, Some(0)), None);
        assert_eq!(p.fixed_j_range(&mut h, &vals, 10, 10, 5, None), None);
    }
}

#[test]
fn fixed_range_only_in_astar_domain() {
    let vals: Vec<u64> = vec![5, 4, 3, 2, 1, 0, 1, 2, 3, 4, 5];
    let mut h = GapHeuristic::new(10, 10);
    for domain in [Domain::Full, Domain::GapStart, Domain::GapGap] {
        let mut p = aligner(false);
        p.domain = domain;
        assert_eq!(p.fixed_j_range(&mut h, &vals, 10, 10, 5, Some(2)), None);
    }
}

#[test]
fn astar_range_extends_from_fixed_end() {
    let mut h = GapHeuristic::new(100, 100);
    for sparse_h in [false, true] {
        let mut p = aligner(false);
        p.domain = Domain::Astar;
        p.sparse_h = sparse_h;
        // From (10, 12) with value 5 and bound 9, over 4 columns: row j of
        // column 14 costs at least 5 + (j - 12) - 4 + |j - 14|, which is at
        // most 9 up to row 17.
        let r = p.j_range_astar(&mut h, 100, 100, 10, 14, 9, (8, 12), 5, None);
        assert_eq!(r.0, 8);
        assert!(r.1 >= 16);
        assert_eq!(r.1, 17);
        // An earlier range is kept.
        let r = p.j_range_astar(&mut h, 100, 100, 10, 14, 9, (8, 12), 5, Some((3, 40)));
        assert_eq!(r, (3, 40));
    }
}

#[test]
fn bound_below_gap_cost_is_refused() {
    let p = aligner(true);
    assert!(p.align_for_bounded_dist(b"ACGTACGT", b"AC", 5, true, &mut Vec::new(), &mut GapHeuristic::new(8, 2)).is_none());
    assert!(p.align_for_bounded_dist(b"ACGTACGT", b"AC", 6, true, &mut Vec::new(), &mut GapHeuristic::new(8, 2)).is_some());
}

#[test]
fn bounded_value_exact_within_bound() {
    let mut rng = Lcg(3);
    let a = random_seq(&mut rng, 400);
    let b = mutate(&mut rng, &a, 40);
    let d = reference(&a, &b);
    for domain in [Domain::GapStart, Domain::GapGap, Domain::Astar] {
        let mut p = aligner(true);
        p.domain = domain;
        // Under the distance the search may give up, or give a value that
        // is too large, never one too small.
        if let Some((v, cigar)) = p.align_for_bounded_dist(&a, &b, d / 2, true, &mut Vec::new(), &mut GapHeuristic::new(a.len(), b.len())) {
            assert!(v >= d);
            assert!(cigar.is_none());
        }
        // At the distance it is exact, with an alignment.
        let (v, cigar) = p.align_for_bounded_dist(&a, &b, d, true, &mut Vec::new(), &mut GapHeuristic::new(a.len(), b.len())).unwrap();
        assert_eq!(v, d);
        assert!(cigar.is_some());
    }
}

#[test]
fn reused_blocks_give_the_same_values() {
    let mut rng = Lcg(17);
    let a = random_seq(&mut rng, 700);
    let b = mutate(&mut rng, &a, 60);
    let d = reference(&a, &b);
    for domain in [Domain::Full, Domain::GapStart, Domain::GapGap, Domain::Astar] {
        let mut p = aligner(true);
        p.domain = domain;
        p.block_width = 64;
        let mut store: Vec<Block> = Vec::new();
        let mut s = 0u64;
        loop {
            let before: Vec<(usize, usize)> = store.iter().map(|blk| (blk.lo, blk.pv.len())).collect();
            let kept = p.align_for_bounded_dist(&a, &b, s, true, &mut store, &mut GapHeuristic::new(a.len(), b.len()));
            // The stored ranges never shrink.
            for (k, blk) in store.iter().enumerate().take(before.len()) {
                assert!(blk.lo <= before[k].0 && blk.pv.len() >= before[k].1);
            }
            let fresh = p.align_for_bounded_dist(&a, &b, s, true, &mut Vec::new(), &mut GapHeuristic::new(a.len(), b.len()));
            // A fresh store checks the fixed range on every block, and may
            // give up where the kept one goes on; values agree otherwise.
            if let (Some(k), Some(f)) = (&kept, &fresh) {
                assert_eq!(k.0, f.0);
            }
            if let Some((v, c)) = kept {
                if v <= s {
                    assert_eq!(v, d);
                    let (applied, cost) = apply(&c.unwrap(), &a, &b);
                    assert_eq!(applied, b);
                    assert_eq!(cost, d);
                    break;
                }
            }
            s = (2 * s).max(1);
        }
    }
}

#[test]
fn j_range_formulas() {
    let mut p = aligner(false);
    p.domain = Domain::Full;
    assert_eq!(p.j_range(100, 120, 10, Some(30)), (0, 120));
    assert_eq!(p.j_range(100, 120, 10, Some(3)), (0, 120));
    p.domain = Domain::GapGap;
    assert_eq!(p.j_range(100, 120, 10, None), (0, 120));
    // A bound below the gap cost leaves the gap-gap range empty.
    let r = p.j_range(100, 120, 10, Some(19));
    assert!(r.0 > r.1);
    p.domain = Domain::GapStart;
    // Any bound works for the gap-start range.
    assert_eq!(p.j_range(100, 120, 10, Some(3)), (7, 13));
    p.domain = Domain::GapStart;
    assert_eq!(p.j_range(100, 120, 10, Some(30)), (0, 40));
    assert_eq!(p.j_range(100, 120, 100, Some(30)), (70, 120));
    p.domain = Domain::GapGap;
    // d = 20, extra = (30 - 20) / 2 = 5.
    assert_eq!(p.j_range(100, 120, 10, Some(30)), (5, 35));
    // d = -20: the band reaches 20 + 5 rows up and 5 rows down.
    assert_eq!(p.j_range(120, 100, 10, Some(30)), (0, 15));
    assert_eq!(p.j_range(120, 100, 60, Some(30)), (35, 65));
    // A bound of at least n + m covers everything.
    assert_eq!(p.j_range(120, 100, 60, Some(220)), (0, 100));
}

#[test]
fn repeated_pattern_with_mutations() {
    let a: Vec<u8> = b"ACGTACGT".repeat(128);
    let mut rng = Lcg(8);
    let b = mutate(&mut rng, &a, a.len() / 100);
    let (cost, cigar) = align(&a, &b);
    assert_eq!(cost, reference(&a, &b));
    let (applied, _) = apply(&cigar, &a, &b);
    assert_eq!(applied, b);
}

#[test]
fn exponential_search_finds_distance() {
    let mut p = aligner(false);
    assert_eq!(p.cost_exponential_search(b"ACGTACGT", b"TTTT"), 6);
    assert_eq!(p.cost_for_bounded_dist(b"ACGT", b"AGGT", 0), Some(1));
    assert!(Aligner::align_for_bounded_dist(&mut p, b"ACGT", b"AGGT", 0).is_none());
    let (c, cigar) = Aligner::align_for_bounded_dist(&mut p, b"ACGT", b"AGGT", 1).unwrap();
    assert_eq!(c, 1);
    assert_eq!(cigar.to_string(), "1=1X2=");
}

#[test]
fn longer_pair_with_few_errors() {
    let mut rng = Lcg(2024);
    let a = random_seq(&mut rng, 4000);
    let b = mutate(&mut rng, &a, 200);
    let (cost, cigar) = align(&a, &b);
    let (applied, cigar_cost) = apply(&cigar, &a, &b);
    assert_eq!(applied, b);
    assert_eq!(cigar_cost, cost);
    assert!(cost <= 200);
}
