use astarpa2::kernel::{compute_block, compute_block_simd};

/// The naive recurrence run row by row over one word.
fn naive(ph: u64, mh: u64, pv: u64, mv: u64, eq: u64) -> (u64, u64, u64, u64) {
    let mut h: i64 = ph as i64 - mh as i64;
    let (mut np, mut nm) = (0u64, 0u64);
    for k in 0..64 {
        let v: i64 = if pv >> k & 1 == 1 { 1 } else if mv >> k & 1 == 1 { -1 } else { 0 };
        let e = eq >> k & 1 == 1;
        let rise = (if e { 0 } else { 1 }).min(v + 1).min(h + 1);
        let nv = rise - h;
        h = rise - v;
        if nv == 1 {
            np |= 1 << k;
        } else if nv == -1 {
            nm |= 1 << k;
        }
    }
    let (oph, omh) = if h == 1 { (1, 0) } else if h == -1 { (0, 1) } else { (0, 0) };
    (oph, omh, np, nm)
}

struct Lcg(u64);

impl Lcg {
    fn next(&mut self) -> u64 {
        self.0 = self.0.wrapping_mul(6364136223846793005).wrapping_add(1442695040888963407);
        self.0 ^ (self.0 >> 29)
    }
}

#[test]
fn kernel_equals_naive_column_update() {
    let mut rng = Lcg(1);
    for t in 0..2000 {
        let x = rng.next();
        let pv = x & rng.next();
        let mv = !x & rng.next();
        let eq = rng.next();
        let (ph, mh) = [(1u64, 0u64), (0, 0), (0, 1)][t % 3];
        let (mut a, mut b, mut p, mut m) = (ph, mh, pv, mv);
        compute_block(&mut a, &mut b, &mut p, &mut m, eq);
        assert_eq!((a, b, p, m), naive(ph, mh, pv, mv, eq));
        assert_eq!(p & m, 0);
    }
}

#[test]
fn kernel_on_first_column() {
    // Column 0 has all `+1` differences. With every row matching, column 1
    // is `D(1, 0) = 1` and `D(1, j) = j - 1` below: a `-1` difference in the
    // first row, `+1` in the others, and `D(1, 64) - D(0, 64) = -1` leaving
    // the bottom.
    let (mut ph, mut mh, mut pv, mut mv) = (1u64, 0u64, u64::MAX, 0u64);
    compute_block(&mut ph, &mut mh, &mut pv, &mut mv, u64::MAX);
    assert_eq!((ph, mh), (0, 1));
    assert_eq!(mv, 1);
    assert_eq!(pv, u64::MAX << 1);
}

#[test]
fn simd_kernel_matches_each_lane() {
    let mut rng = Lcg(2);
    for _ in 0..200 {
        let mut ph = [1u64, 0, 0, 1];
        let mut mh = [0u64, 1, 0, 0];
        let x = [rng.next(), rng.next(), rng.next(), rng.next()];
        let mut pv = [0u64; 4];
        let mut mv = [0u64; 4];
        let mut eq = [0u64; 4];
        for l in 0..4 {
            pv[l] = x[l] & rng.next();
            mv[l] = !x[l] & rng.next();
            eq[l] = rng.next();
        }
        let expected: Vec<_> = (0..4).map(|l| naive(ph[l], mh[l], pv[l], mv[l], eq[l])).collect();
        compute_block_simd(&mut ph, &mut mh, &mut pv, &mut mv, eq);
        for l in 0..4 {
            assert_eq!((ph[l], mh[l], pv[l], mv[l]), expected[l]);
        }
    }
}
