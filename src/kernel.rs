//! The bit-parallel column kernel: one 64-row word of the edit-distance
//! matrix advanced by one column, with vertical differences packed in two
//! bit masks.
use vstd::prelude::*;

verus! {

/// Number of rows packed in one word.
pub const W: usize = 64;

/// Bit `k` of `x`.
pub open spec fn bit(x: u64, k: u64) -> bool {
    (x >> k) & 1u64 == 1u64
}

/// The difference encoded at row `k` by a plus mask `p` and a minus mask `m`.
pub open spec fn delta(p: u64, m: u64, k: u64) -> int {
    if bit(p, k) {
        1
    } else if bit(m, k) {
        -1
    } else {
        0
    }
}

/// The difference encoded by two single-bit carries.
pub open spec fn carry_value(ph: u64, mh: u64) -> int {
    ph as int - mh as int
}

/// A carry pair holds at most one set bit value, each in `{0, 1}`.
pub open spec fn carry_ok(ph: u64, mh: u64) -> bool {
    ph <= 1 && mh <= 1 && !(ph == 1 && mh == 1)
}

pub open spec fn min3(x: int, y: int, z: int) -> int {
    if x <= y && x <= z {
        x
    } else if y <= z {
        y
    } else {
        z
    }
}

/// One cell of the unit-cost recurrence in difference form: with `v` the
/// vertical difference in the previous column, `h` the horizontal difference
/// entering from the row above and `eq` whether the characters match, the
/// new cell value relative to its diagonal predecessor.
pub open spec fn cell_rise(v: int, h: int, eq: bool) -> int {
    min3(if eq { 0 } else { 1 }, v + 1, h + 1)
}

/// The vertical difference that a cell leaves in the new column.
pub open spec fn cell_v(v: int, h: int, eq: bool) -> int {
    cell_rise(v, h, eq) - h
}

/// The horizontal difference that a cell passes to the row below.
pub open spec fn cell_h(v: int, h: int, eq: bool) -> int {
    cell_rise(v, h, eq) - v
}

/// The horizontal difference entering row `k` of a word when the naive
/// recurrence is run top-down from the carry `h0`.
pub open spec fn h_at(p: u64, m: u64, eq: u64, h0: int, k: nat) -> int
    decreases k,
{
    if k == 0 {
        h0
    } else {
        let j = (k - 1) as nat;
        cell_h(delta(p, m, j as u64), h_at(p, m, eq, h0, j), bit(eq, j as u64))
    }
}

pub proof fn lemma_bit_ops(x: u64, y: u64, k: u64)
    requires
        k < 64,
    ensures
        bit(x | y, k) == (bit(x, k) || bit(y, k)),
        bit(x & y, k) == (bit(x, k) && bit(y, k)),
        bit(x ^ y, k) == (bit(x, k) != bit(y, k)),
        bit(!x, k) == !bit(x, k),
{
    assert(((x | y) >> k) & 1u64 == 1u64 <==> ((x >> k) & 1u64 == 1u64 || (y >> k) & 1u64 == 1u64))
        by (bit_vector)
        requires
            k < 64,
    ;
    assert(((x & y) >> k) & 1u64 == 1u64 <==> ((x >> k) & 1u64 == 1u64 && (y >> k) & 1u64 == 1u64))
        by (bit_vector)
        requires
            k < 64,
    ;
    assert(((x ^ y) >> k) & 1u64 == 1u64 <==> ((x >> k) & 1u64 == 1u64) != ((y >> k) & 1u64
        == 1u64)) by (bit_vector)
        requires
            k < 64,
    ;
    assert(((!x) >> k) & 1u64 == 1u64 <==> !((x >> k) & 1u64 == 1u64)) by (bit_vector)
        requires
            k < 64,
    ;
}

proof fn lemma_shift_in(x: u64, b: u64, k: u64)
    requires
        k < 64,
        b <= 1,
    ensures
        k == 0 ==> bit((x << 1u64) | b, k) == (b == 1),
        k > 0 ==> bit((x << 1u64) | b, k) == bit(x, (k - 1) as u64),
{
    assert(k == 0 ==> ((((x << 1u64) | b) >> k) & 1u64 == 1u64 <==> b == 1)) by (bit_vector)
        requires
            b <= 1,
    ;
    assert(k > 0 ==> ((((x << 1u64) | b) >> k) & 1u64 == 1u64 <==> (x >> ((k - 1) as u64)) & 1u64
        == 1u64)) by (bit_vector)
        requires
            k < 64,
            b <= 1,
    ;
}

proof fn lemma_top_bit(x: u64)
    ensures
        x >> 63u64 <= 1,
        (x >> 63u64 == 1) == bit(x, 63),
{
    assert(x >> 63u64 <= 1 && ((x >> 63u64 == 1) <==> (x >> 63u64) & 1u64 == 1u64)) by (bit_vector);
}

proof fn lemma_small_bits(b: u64, k: u64)
    requires
        b <= 1,
        k < 64,
    ensures
        bit(b, k) == (k == 0 && b == 1),
{
    assert(((b >> k) & 1u64 == 1u64) <==> (k == 0 && b == 1)) by (bit_vector)
        requires
            b <= 1,
            k < 64,
    ;
}

/// The carries of `a + b`: bit `k` of `(a + b) ^ a ^ b` is the carry into
/// position `k`, which follows the ripple-carry rule.
proof fn lemma_carry(a: u64, b: u64, k: u64)
    requires
        k < 63,
    ensures
        !bit(a.wrapping_add(b) ^ a ^ b, 0),
        bit(a.wrapping_add(b) ^ a ^ b, (k + 1) as u64) == ((bit(a, k) && bit(b, k)) || (bit(
            a.wrapping_add(b) ^ a ^ b,
            k,
        ) && (bit(a, k) || bit(b, k)))),
{
    let s = a.wrapping_add(b);
    assert(s == wadd(a, b)) by (bit_vector)
        requires
            s == a.wrapping_add(b),
    ;
    assert(((wadd(a, b) ^ a ^ b) >> 0u64) & 1u64 != 1u64) by (bit_vector);
    assert((((wadd(a, b) ^ a ^ b) >> ((k + 1) as u64)) & 1u64 == 1u64) <==> ((((a >> k) & 1u64
        == 1u64) && ((b >> k) & 1u64 == 1u64)) || ((((wadd(a, b) ^ a ^ b) >> k) & 1u64 == 1u64)
        && (((a >> k) & 1u64 == 1u64) || ((b >> k) & 1u64 == 1u64))))) by (bit_vector)
        requires
            k < 63,
    ;
}

pub open spec fn wadd(a: u64, b: u64) -> u64 {
    (a + b) as u64
}

/// The carries of the one addition in the kernel, as a mask.
pub open spec fn carries(p: u64, eq: u64, mh0: u64) -> u64 {
    let a = (eq | mh0) & p;
    a.wrapping_add(p) ^ a ^ p
}

proof fn lemma_no_overlap(p: u64, m: u64, k: u64)
    requires
        p & m == 0,
        k < 64,
    ensures
        !(bit(p, k) && bit(m, k)),
{
    lemma_bit_ops(p, m, k);
    lemma_small_bits(0, k);
}

/// The carry into row `k` of the addition is set exactly when the naive
/// recurrence brings a horizontal difference of `-1` into that row.
proof fn lemma_carry_scan(p: u64, m: u64, eq: u64, ph0: u64, mh0: u64, k: nat)
    requires
        1 <= k <= 63,
        p & m == 0,
        carry_ok(ph0, mh0),
    ensures
        bit(carries(p, eq, mh0), k as u64) == (h_at(p, m, eq, carry_value(ph0, mh0), k) == -1),
        -1 <= h_at(p, m, eq, carry_value(ph0, mh0), k) <= 1,
    decreases k,
{
    let h0 = carry_value(ph0, mh0);
    let a = (eq | mh0) & p;
    let j = (k - 1) as nat;
    let ju = j as u64;
    lemma_carry(a, p, ju);
    lemma_bit_ops(eq, mh0, ju);
    lemma_bit_ops(eq | mh0, p, ju);
    lemma_small_bits(mh0, ju);
    lemma_no_overlap(p, m, ju);
    if j == 0 {
        assert(h_at(p, m, eq, h0, 0) == h0);
    } else {
        lemma_carry_scan(p, m, eq, ph0, mh0, j);
    }
}

/// Row `k` of the kernel: the pre-shift horizontal masks carry the
/// difference that leaves row `k`.
proof fn lemma_kernel_row(p: u64, m: u64, eq: u64, ph0: u64, mh0: u64, k: u64)
    requires
        k < 64,
        p & m == 0,
        carry_ok(ph0, mh0),
    ensures
        ({
            let eqh = eq | mh0;
            let a = eqh & p;
            let xh = (a.wrapping_add(p) ^ p) | eqh;
            let ph = m | !(xh | p);
            let mh = p & xh;
            let h = h_at(p, m, eq, carry_value(ph0, mh0), k as nat);
            &&& -1 <= h <= 1
            &&& h_at(p, m, eq, carry_value(ph0, mh0), (k + 1) as nat) == (if bit(ph, k) {
                1int
            } else if bit(mh, k) {
                -1int
            } else {
                0int
            })
            &&& !(bit(ph, k) && bit(mh, k))
        }),
{
    let h0 = carry_value(ph0, mh0);
    let eqh = eq | mh0;
    let a = eqh & p;
    let s = a.wrapping_add(p);
    let c = s ^ a ^ p;
    let xh = (s ^ p) | eqh;
    let ph = m | !(xh | p);
    let mh = p & xh;
    lemma_bit_ops(eq, mh0, k);
    lemma_bit_ops(eqh, p, k);
    lemma_bit_ops(s, a, k);
    lemma_bit_ops(s ^ a, p, k);
    lemma_bit_ops(s, p, k);
    lemma_bit_ops(s ^ p, eqh, k);
    lemma_bit_ops(xh, p, k);
    lemma_bit_ops(xh | p, p, k);
    lemma_bit_ops(m, !(xh | p), k);
    lemma_bit_ops(p, xh, k);
    lemma_small_bits(mh0, k);
    lemma_no_overlap(p, m, k);
    let h = h_at(p, m, eq, h0, k as nat);
    if k == 0 {
        lemma_carry(a, p, 0);
        assert(h_at(p, m, eq, h0, 0) == h0);
        assert(!bit(c, 0));
    } else {
        lemma_carry_scan(p, m, eq, ph0, mh0, k as nat);
        assert(bit(c, k) == (h == -1));
    }
    assert(-1 <= h <= 1);
    assert(bit(xh, k) == (bit(eq, k) || h == -1));
    assert(h_at(p, m, eq, h0, (k + 1) as nat) == cell_h(
        delta(p, m, k),
        h_at(p, m, eq, h0, k as nat),
        bit(eq, k),
    ));
    assert(bit(ph, k) == (bit(m, k) || !(bit(xh, k) || bit(p, k))));
    assert(bit(mh, k) == (bit(p, k) && bit(xh, k)));
    assert(!(bit(ph, k) && bit(mh, k)));
    assert(h_at(p, m, eq, h0, (k + 1) as nat) == (if bit(ph, k) {
        1int
    } else if bit(mh, k) {
        -1int
    } else {
        0int
    }));
}

/// Advances one word of the matrix by one column.
///
/// `pv` and `mv` hold the vertical differences of the previous column in
/// this word (`+1` and `-1` rows), `eq` marks the rows whose character of `b`
/// matches the column's character of `a`, and `ph0`, `mh0` the horizontal
/// difference entering the word from above. On return `pv`, `mv` hold the
/// vertical differences of the new column and `ph0`, `mh0` the horizontal
/// difference leaving the word at its bottom, exactly as the naive cell
/// recurrence run row by row gives them.
pub fn compute_block(ph0: &mut u64, mh0: &mut u64, pv: &mut u64, mv: &mut u64, eq: u64)
    requires
        carry_ok(*old(ph0), *old(mh0)),
        *old(pv) & *old(mv) == 0,
    ensures
        carry_ok(*final(ph0), *final(mh0)),
        *final(pv) & *final(mv) == 0,
        forall|k: u64|
            k < 64 ==> #[trigger] delta(*final(pv), *final(mv), k) == cell_v(
                delta(*old(pv), *old(mv), k),
                h_at(*old(pv), *old(mv), eq, carry_value(*old(ph0), *old(mh0)), k as nat),
                bit(eq, k),
            ),
        carry_value(*final(ph0), *final(mh0)) == h_at(
            *old(pv),
            *old(mv),
            eq,
            carry_value(*old(ph0), *old(mh0)),
            64,
        ),
{
    let p = *pv;
    let m = *mv;
    let h_in = *ph0;
    let m_in = *mh0;
    let xv = eq | m;
    let eqh = eq | m_in;
    // The addition carries along runs of `+1` rows: this is what lets a
    // `-1` horizontal difference travel down the whole word at once.
    let a = eqh & p;
    let s = a.wrapping_add(p);
    let xh = (s ^ p) | eqh;
    let ph = m | !(xh | p);
    let mh = p & xh;
    let ph_out = ph >> 63u64;
    let mh_out = mh >> 63u64;
    let phs = (ph << 1u64) | h_in;
    let mhs = (mh << 1u64) | m_in;
    let new_p = mhs | !(xv | phs);
    let new_m = phs & xv;
    proof {
        let h0 = carry_value(h_in, m_in);
        assert(new_p & new_m == 0) by (bit_vector)
            requires
                p & m == 0,
                h_in <= 1,
                m_in <= 1,
                !(h_in == 1 && m_in == 1),
                xh == (s ^ p) | eqh,
                ph == m | !(xh | p),
                mh == p & xh,
                phs == (ph << 1u64) | h_in,
                mhs == (mh << 1u64) | m_in,
                new_p == mhs | !(xv | phs),
                new_m == phs & xv,
        ;
        assert forall|k: u64| k < 64 implies #[trigger] delta(new_p, new_m, k) == cell_v(
            delta(p, m, k),
            h_at(p, m, eq, h0, k as nat),
            bit(eq, k),
        ) by {
            lemma_bit_ops(mhs, !(xv | phs), k);
            lemma_bit_ops(xv, phs, k);
            lemma_bit_ops(xv | phs, phs, k);
            lemma_bit_ops(phs, xv, k);
            lemma_bit_ops(eq, m, k);
            lemma_no_overlap(p, m, k);
            lemma_shift_in(ph, h_in, k);
            lemma_shift_in(mh, m_in, k);
            lemma_small_bits(h_in, k);
            lemma_small_bits(m_in, k);
            if k > 0 {
                lemma_kernel_row(p, m, eq, h_in, m_in, (k - 1) as u64);
            } else {
                assert(h_at(p, m, eq, h0, 0) == h0);
            }
        }
        lemma_kernel_row(p, m, eq, h_in, m_in, 63);
        lemma_top_bit(ph);
        lemma_top_bit(mh);
    }
    *pv = new_p;
    *mv = new_m;
    *ph0 = ph_out;
    *mh0 = mh_out;
}

/// `compute_block` on `L` words at once, one per lane: lane `l` of the
/// arguments is one word, as for `compute_block`.
pub fn compute_block_simd<const L: usize>(
    ph0: &mut [u64; L],
    mh0: &mut [u64; L],
    pv: &mut [u64; L],
    mv: &mut [u64; L],
    eq: [u64; L],
)
    requires
        forall|l: int| 0 <= l < L ==> carry_ok(#[trigger] old(ph0)[l], old(mh0)[l]),
        forall|l: int| 0 <= l < L ==> #[trigger] old(pv)[l] & old(mv)[l] == 0,
    ensures
        forall|l: int| 0 <= l < L ==> carry_ok(#[trigger] final(ph0)[l], final(mh0)[l]),
        forall|l: int| 0 <= l < L ==> #[trigger] final(pv)[l] & final(mv)[l] == 0,
        forall|l: int, k: u64|
            0 <= l < L && k < 64 ==> #[trigger] delta(final(pv)[l], final(mv)[l], k) == cell_v(
                delta(old(pv)[l], old(mv)[l], k),
                h_at(old(pv)[l], old(mv)[l], eq[l], carry_value(old(ph0)[l], old(mh0)[l]), k as nat),
                bit(eq[l], k),
            ),
        forall|l: int|
            0 <= l < L ==> #[trigger] carry_value(final(ph0)[l], final(mh0)[l]) == h_at(
                old(pv)[l],
                old(mv)[l],
                eq[l],
                carry_value(old(ph0)[l], old(mh0)[l]),
                64,
            ),
{
    for l in 0..L
        invariant
            forall|q: int| l <= q < L ==> #[trigger] ph0[q] == old(ph0)[q],
            forall|q: int| l <= q < L ==> #[trigger] mh0[q] == old(mh0)[q],
            forall|q: int| l <= q < L ==> #[trigger] pv[q] == old(pv)[q],
            forall|q: int| l <= q < L ==> #[trigger] mv[q] == old(mv)[q],
            forall|q: int| 0 <= q < L ==> carry_ok(#[trigger] old(ph0)[q], old(mh0)[q]),
            forall|q: int| 0 <= q < L ==> #[trigger] old(pv)[q] & old(mv)[q] == 0,
            forall|q: int| 0 <= q < l ==> carry_ok(#[trigger] ph0[q], mh0[q]),
            forall|q: int| 0 <= q < l ==> #[trigger] pv[q] & mv[q] == 0,
            forall|q: int, k: u64|
                0 <= q < l && k < 64 ==> #[trigger] delta(pv[q], mv[q], k) == cell_v(
                    delta(old(pv)[q], old(mv)[q], k),
                    h_at(old(pv)[q], old(mv)[q], eq[q], carry_value(old(ph0)[q], old(mh0)[q]), k as nat),
                    bit(eq[q], k),
                ),
            forall|q: int|
                0 <= q < l ==> #[trigger] carry_value(ph0[q], mh0[q]) == h_at(
                    old(pv)[q],
                    old(mv)[q],
                    eq[q],
                    carry_value(old(ph0)[q], old(mh0)[q]),
                    64,
                ),
    {
        let mut h = ph0[l];
        let mut m = mh0[l];
        let mut p = pv[l];
        let mut n = mv[l];
        compute_block(&mut h, &mut m, &mut p, &mut n, eq[l]);
        ph0[l] = h;
        mh0[l] = m;
        pv[l] = p;
        mv[l] = n;
    }
}

} // verus!
