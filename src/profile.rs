//! Profiles of `b`: for each 64-row word of `b` and each base, the mask of
//! rows whose character matches that base.
use vstd::prelude::*;
use crate::kernel::{bit, lemma_bit_ops};
use crate::model::{base_code, compatible, covers, is_b_char, is_base, valid_a, valid_b};

verus! {

/// A base of `a` compressed to its rank in `0..4`.
#[derive(Clone, Copy, PartialEq, Eq, Debug)]
pub struct CC(pub u8);

/// The profile that stores, for each word of `b`, one mask per base.
#[derive(Clone, Copy, Debug)]
pub struct ScatterProfile;

/// Whether row `j` of the scatter profile `pb` is set for base rank `c`.
pub open spec fn row_bit(pb: Seq<[u64; 4]>, j: int, c: int) -> bool {
    bit(pb[j / 64][c], (j % 64) as u64)
}

/// Number of words that cover `n` rows.
pub open spec fn num_words(n: int) -> int {
    (n + 63) / 64
}

/// `pa`, `pb` are the scatter profile of `a` and `b`: each base of `a` is
/// its rank, and row `j` of `pb` is set for rank `c` exactly when `b[j]` is
/// compatible with `c`. Rows past the end of `b` are set for every rank.
pub open spec fn is_scatter_profile(
    a: Seq<u8>,
    b: Seq<u8>,
    pa: Seq<CC>,
    pb: Seq<[u64; 4]>,
) -> bool {
    &&& pa.len() == a.len()
    &&& forall|i: int| 0 <= i < a.len() ==> (#[trigger] pa[i]).0 == base_code(a[i])
    &&& pb.len() == num_words(b.len() as int)
    &&& forall|j: int, c: int|
        0 <= j < pb.len() * 64 && 0 <= c < 4 ==> #[trigger] row_bit(pb, j, c) == (if j < b.len() {
            covers(b[j], c)
        } else {
            true
        })
}

fn get_char(c: u8) -> (r: u8)
    requires
        is_base(c),
    ensures
        r == base_code(c),
{
    if c == 97 || c == 65 {
        0
    } else if c == 99 || c == 67 {
        1
    } else if c == 116 || c == 84 {
        2
    } else {
        3
    }
}

fn get_mask(c: u8) -> (r: [u64; 4])
    requires
        is_b_char(c),
    ensures
        forall|x: int| 0 <= x < 4 ==> #[trigger] r[x] == (if covers(c, x) { 1u64 } else { 0u64 }),
{
    if c == 97 || c == 65 {
        [1, 0, 0, 0]
    } else if c == 99 || c == 67 {
        [0, 1, 0, 0]
    } else if c == 116 || c == 84 {
        [0, 0, 1, 0]
    } else if c == 103 || c == 71 {
        [0, 0, 0, 1]
    } else if c == 110 || c == 78 || c == 42 {
        [1, 1, 1, 1]
    } else if c == 121 || c == 89 {
        [0, 1, 1, 0]
    } else {
        [1, 0, 0, 1]
    }
}

proof fn lemma_or_shift(x: u64, mb: u64, s: u64, t: u64)
    requires
        mb <= 1,
        s < 64,
        t < 64,
    ensures
        bit(x | (mb << s), t) == (bit(x, t) || (t == s && mb == 1)),
{
    assert((((x | (mb << s)) >> t) & 1u64 == 1u64) <==> (((x >> t) & 1u64 == 1u64) || (t == s
        && mb == 1))) by (bit_vector)
        requires
            mb <= 1,
            s < 64,
            t < 64,
    ;
}

proof fn lemma_zero_bits(t: u64)
    requires
        t < 64,
    ensures
        !bit(0, t),
{
    assert(((0u64 >> t) & 1u64) != 1u64) by (bit_vector);
}

/// Sets row `j` of `pb` to the mask `mask`, one bit per base rank.
fn or_row(pb: &mut Vec<[u64; 4]>, j: usize, mask: [u64; 4])
    requires
        j / 64 < old(pb).len(),
        forall|x: int| 0 <= x < 4 ==> #[trigger] mask[x] <= 1,
    ensures
        final(pb).len() == old(pb).len(),
        forall|jj: int, c: int|
            0 <= jj < old(pb).len() * 64 && 0 <= c < 4 ==> #[trigger] row_bit(final(pb)@, jj, c)
                == (row_bit(old(pb)@, jj, c) || (jj == j && mask[c] == 1)),
{
    let w = j / 64;
    let s = (j % 64) as u64;
    let old_word = pb[w];
    let new_word = [
        old_word[0] | (mask[0] << s),
        old_word[1] | (mask[1] << s),
        old_word[2] | (mask[2] << s),
        old_word[3] | (mask[3] << s),
    ];
    pb.set(w, new_word);
    proof {
        assert forall|jj: int, c: int|
            0 <= jj < old(pb).len() * 64 && 0 <= c < 4 implies #[trigger] row_bit(pb@, jj, c) == (
            row_bit(old(pb)@, jj, c) || (jj == j && mask[c] == 1)) by {
            if jj / 64 == w as int {
                lemma_or_shift(old_word[c], mask[c], s, (jj % 64) as u64);
                assert(new_word[c] == old_word[c] | (mask[c] << s));
            }
        }
    }
}

impl ScatterProfile {
    /// Builds the profile of `a` and `b`: `a` as base ranks, `b` as one
    /// mask per base and word, with the rows past the end of `b` matching
    /// every base.
    pub fn build(a: &[u8], b: &[u8]) -> (r: (Vec<CC>, Vec<[u64; 4]>))
        requires
            valid_a(a@),
            valid_b(b@),
            b.len() + 64 <= usize::MAX,
        ensures
            is_scatter_profile(a@, b@, r.0@, r.1@),
    {
        let mut pa: Vec<CC> = Vec::new();
        for i in 0..a.len()
            invariant
                valid_a(a@),
                pa.len() == i,
                forall|ii: int| 0 <= ii < i ==> (#[trigger] pa@[ii]).0 == base_code(a@[ii]),
        {
            pa.push(CC(get_char(a[i])));
        }
        let n = b.len();
        let nw = (n + 63) / 64;
        let mut pb: Vec<[u64; 4]> = Vec::new();
        for w in 0..nw
            invariant
                pb.len() == w,
                forall|ww: int, c: int|
                    0 <= ww < w && 0 <= c < 4 ==> #[trigger] pb@[ww][c] == 0u64,
        {
            pb.push([0u64, 0u64, 0u64, 0u64]);
        }
        proof {
            assert forall|jj: int, c: int|
                0 <= jj < pb.len() * 64 && 0 <= c < 4 implies !#[trigger] row_bit(pb@, jj, c) by {
                assert(pb@[jj / 64][c] == 0u64);
                lemma_zero_bits((jj % 64) as u64);
            }
        }
        for j in 0..n
            invariant
                valid_b(b@),
                n == b.len(),
                nw == num_words(n as int),
                pb.len() == nw,
                forall|jj: int, c: int|
                    0 <= jj < nw * 64 && 0 <= c < 4 ==> #[trigger] row_bit(pb@, jj, c) == (jj < j
                        && covers(b@[jj], c)),
        {
            let mask = get_mask(b[j]);
            or_row(&mut pb, j, mask);
        }
        let end = nw * 64;
        for j in n..end
            invariant
                n == b.len(),
                nw == num_words(n as int),
                end == nw * 64,
                pb.len() == nw,
                forall|jj: int, c: int|
                    0 <= jj < nw * 64 && 0 <= c < 4 ==> #[trigger] row_bit(pb@, jj, c) == (if jj
                        < n {
                        covers(b@[jj], c)
                    } else {
                        jj < j
                    }),
        {
            or_row(&mut pb, j, [1u64, 1u64, 1u64, 1u64]);
        }
        (pa, pb)
    }

    /// The mask of rows of the word `cb` that match the base `ca`.
    pub fn eq(ca: &CC, cb: &[u64; 4]) -> (r: u64)
        requires
            ca.0 < 4,
        ensures
            r == cb[ca.0 as int],
    {
        cb[ca.0 as usize]
    }

    /// Whether row `j` of the profile `b` matches the base `a[i]`.
    pub fn is_match(a: &[CC], b: &[[u64; 4]], i: usize, j: usize) -> (r: bool)
        requires
            i < a.len(),
            j / 64 < b.len(),
            a@[i as int].0 < 4,
        ensures
            r == row_bit(b@, j as int, a@[i as int].0 as int),
    {
        let s = (j % 64) as u64;
        ((Self::eq(&a[i], &b[j / 64]) >> s) & 1) == 1
    }
}

/// The rank of an upper case base in the alphabet `A, C, G, T`.
pub open spec fn rank(c: u8) -> u64 {
    if c == 65 {
        0
    } else if c == 67 {
        1
    } else if c == 71 {
        2
    } else {
        3
    }
}

/// `c` is one of the upper case bases `A, C, G, T`.
pub open spec fn is_upper_base(c: u8) -> bool {
    c == 65 || c == 67 || c == 71 || c == 84
}

pub open spec fn upper_bases(s: Seq<u8>) -> bool {
    forall|i: int| 0 <= i < s.len() ==> is_upper_base(#[trigger] s[i])
}

/// The two bits of a base, each spread over a whole word.
#[derive(Clone, Copy, Debug)]
pub struct Bits(pub u64, pub u64);

/// The profile that stores, for each word of `b`, the two negated bits of
/// each base, so that a match of all bits is two xors and an and.
#[derive(Clone, Copy, Debug)]
pub struct BitProfile;

/// All ones where `x` is set, else zero.
pub open spec fn spread(x: bool) -> u64 {
    if x {
        u64::MAX
    } else {
        0
    }
}

/// `pa`, `pb` are the bit profile of `a` and `b`: each base of `a` as its two
/// rank bits spread over words, and row `j` of `pb` holding the negated rank
/// bits of `b[j]`; rows past the end of `b` hold zeros.
pub open spec fn is_bit_profile(a: Seq<u8>, b: Seq<u8>, pa: Seq<Bits>, pb: Seq<Bits>) -> bool {
    &&& pa.len() == a.len()
    &&& forall|i: int|
        0 <= i < a.len() ==> (#[trigger] pa[i]).0 == spread(rank(a[i]) & 1 == 1) && pa[i].1
            == spread((rank(a[i]) >> 1u64) & 1 == 1)
    &&& pb.len() == num_words(b.len() as int)
    &&& forall|j: int|
        0 <= j < pb.len() * 64 ==> (#[trigger] bit(pb[j / 64].0, (j % 64) as u64)) == (j < b.len()
            && rank(b[j]) & 1 == 0)
    &&& forall|j: int|
        0 <= j < pb.len() * 64 ==> (#[trigger] bit(pb[j / 64].1, (j % 64) as u64)) == (j < b.len()
            && (rank(b[j]) >> 1u64) & 1 == 0)
}

fn base_rank(c: u8) -> (r: u64)
    requires
        is_upper_base(c),
    ensures
        r == rank(c),
        r < 4,
{
    if c == 65 {
        0
    } else if c == 67 {
        1
    } else if c == 71 {
        2
    } else {
        3
    }
}

impl BitProfile {
    /// Builds the bit profile of `a` and `b`.
    pub fn build(a: &[u8], b: &[u8]) -> (r: (Vec<Bits>, Vec<Bits>))
        requires
            upper_bases(a@),
            upper_bases(b@),
            b.len() + 64 <= usize::MAX,
        ensures
            is_bit_profile(a@, b@, r.0@, r.1@),
    {
        let mut pa: Vec<Bits> = Vec::new();
        for i in 0..a.len()
            invariant
                upper_bases(a@),
                pa.len() == i,
                forall|ii: int|
                    0 <= ii < i ==> (#[trigger] pa@[ii]).0 == spread(rank(a@[ii]) & 1 == 1)
                        && pa@[ii].1 == spread((rank(a@[ii]) >> 1u64) & 1 == 1),
        {
            let c = base_rank(a[i]);
            let b0 = (0u64).wrapping_sub(c & 1);
            let b1 = (0u64).wrapping_sub((c >> 1) & 1);
            proof {
                assert(b0 == spread(c & 1 == 1) && b1 == spread((c >> 1u64) & 1 == 1)) by (bit_vector)
                    requires
                        b0 == (0u64).wrapping_sub(c & 1),
                        b1 == (0u64).wrapping_sub((c >> 1u64) & 1),
                        c < 4,
                ;
            }
            pa.push(Bits(b0, b1));
        }
        let n = b.len();
        let nw = (n + 63) / 64;
        let mut pb: Vec<Bits> = Vec::new();
        for w in 0..nw
            invariant
                pb.len() == w,
                forall|ww: int| 0 <= ww < w ==> (#[trigger] pb@[ww]).0 == 0u64 && pb@[ww].1 == 0u64,
        {
            pb.push(Bits(0, 0));
        }
        proof {
            assert forall|jj: int| 0 <= jj < nw * 64 implies !(#[trigger] bit(
                pb@[jj / 64].0,
                (jj % 64) as u64,
            )) by {
                lemma_zero_bits((jj % 64) as u64);
            }
            assert forall|jj: int| 0 <= jj < nw * 64 implies !(#[trigger] bit(
                pb@[jj / 64].1,
                (jj % 64) as u64,
            )) by {
                lemma_zero_bits((jj % 64) as u64);
            }
        }
        for j in 0..n
            invariant
                upper_bases(b@),
                n == b.len(),
                nw == num_words(n as int),
                pb.len() == nw,
                forall|jj: int|
                    0 <= jj < nw * 64 ==> (#[trigger] bit(pb@[jj / 64].0, (jj % 64) as u64)) == (jj
                        < j && rank(b@[jj]) & 1 == 0),
                forall|jj: int|
                    0 <= jj < nw * 64 ==> (#[trigger] bit(pb@[jj / 64].1, (jj % 64) as u64)) == (jj
                        < j && (rank(b@[jj]) >> 1u64) & 1 == 0),
        {
            let c = base_rank(b[j]);
            let w = j / 64;
            let s = (j % 64) as u64;
            let old_word = pb[w];
            let m0 = (c & 1) ^ 1;
            let m1 = ((c >> 1) & 1) ^ 1;
            proof {
                assert(m0 <= 1 && m1 <= 1 && (m0 == 1 <==> c & 1 == 0) && (m1 == 1 <==> (c >> 1u64)
                    & 1 == 0)) by (bit_vector)
                    requires
                        m0 == (c & 1) ^ 1,
                        m1 == ((c >> 1u64) & 1) ^ 1,
                ;
            }
            let new_word = Bits(old_word.0 | (m0 << s), old_word.1 | (m1 << s));
            pb.set(w, new_word);
            proof {
                assert forall|jj: int| 0 <= jj < nw * 64 implies (#[trigger] bit(
                    pb@[jj / 64].0,
                    (jj % 64) as u64,
                )) == (jj < j + 1 && rank(b@[jj]) & 1 == 0) by {
                    if jj / 64 == w as int {
                        lemma_or_shift(old_word.0, m0, s, (jj % 64) as u64);
                    }
                }
                assert forall|jj: int| 0 <= jj < nw * 64 implies (#[trigger] bit(
                    pb@[jj / 64].1,
                    (jj % 64) as u64,
                )) == (jj < j + 1 && (rank(b@[jj]) >> 1u64) & 1 == 0) by {
                    if jj / 64 == w as int {
                        lemma_or_shift(old_word.1, m1, s, (jj % 64) as u64);
                    }
                }
            }
        }
        (pa, pb)
    }

    /// The mask of rows of the word `cb` whose base equals `ca`: a row
    /// matches when both bits agree, and the profile stores `b`'s bits
    /// negated, so agreement is an xor.
    pub fn eq(ca: &Bits, cb: &Bits) -> (r: u64)
        ensures
            r == (ca.0 ^ cb.0) & (ca.1 ^ cb.1),
    {
        (ca.0 ^ cb.0) & (ca.1 ^ cb.1)
    }

    /// Whether row `j` of the profile `b` matches the base `a[i]`.
    pub fn is_match(a: &[Bits], b: &[Bits], i: usize, j: usize) -> (r: bool)
        requires
            i < a.len(),
            j / 64 < b.len(),
        ensures
            r == bit(Self::eq_spec(a@[i as int], b@[(j / 64) as int]), (j % 64) as u64),
    {
        let s = (j % 64) as u64;
        ((Self::eq(&a[i], &b[j / 64]) >> s) & 1) == 1
    }

    pub open spec fn eq_spec(ca: Bits, cb: Bits) -> u64 {
        (ca.0 ^ cb.0) & (ca.1 ^ cb.1)
    }

    /// `eq` on `L` lanes at once.
    pub fn eq_simd<const L: usize>(ca: (&[u64; L], &[u64; L]), cb: (&[u64; L], &[u64; L])) -> (r: [u64; L])
        ensures
            forall|l: int| 0 <= l < L ==> #[trigger] r[l] == (ca.0[l] ^ cb.0[l]) & (ca.1[l] ^ cb.1[l]),
    {
        let mut r = [0u64; L];
        for l in 0..L
            invariant
                forall|q: int| 0 <= q < l ==> #[trigger] r[q] == (ca.0[q] ^ cb.0[q]) & (ca.1[q] ^ cb.1[q]),
        {
            r[l] = (ca.0[l] ^ cb.0[l]) & (ca.1[l] ^ cb.1[l]);
        }
        r
    }
}

/// Building a bit profile and reading it back gives, at every valid pair of
/// positions, exactly whether the two bases are equal.
pub proof fn lemma_bit_profile_matches(
    a: Seq<u8>,
    b: Seq<u8>,
    pa: Seq<Bits>,
    pb: Seq<Bits>,
    i: int,
    j: int,
)
    requires
        upper_bases(a),
        upper_bases(b),
        is_bit_profile(a, b, pa, pb),
        0 <= i < a.len(),
        0 <= j < b.len(),
    ensures
        bit(BitProfile::eq_spec(pa[i], pb[j / 64]), (j % 64) as u64) == (a[i] == b[j]),
{
    let t = (j % 64) as u64;
    let x = pa[i];
    let y = pb[j / 64];
    let ra = rank(a[i]);
    let rb = rank(b[j]);
    assert(bit(y.0, t) == (rb & 1 == 0));
    assert(bit(y.1, t) == ((rb >> 1u64) & 1 == 0));
    lemma_bit_ops(x.0 ^ y.0, x.1 ^ y.1, t);
    lemma_bit_ops(x.0, y.0, t);
    lemma_bit_ops(x.1, y.1, t);
    assert(bit(spread(true), t) && !bit(spread(false), t)) by {
        assert(((u64::MAX >> t) & 1u64 == 1u64) && ((0u64 >> t) & 1u64 != 1u64)) by (bit_vector)
            requires
                t < 64,
        ;
    }
    assert(ra < 4 && rb < 4);
    assert((ra & 1 == rb & 1 && (ra >> 1u64) & 1 == (rb >> 1u64) & 1) <==> ra == rb) by (bit_vector)
        requires
            ra < 4,
            rb < 4,
    ;
    assert(bit(x.0, t) == (ra & 1 == 1));
    assert(bit(x.1, t) == ((ra >> 1u64) & 1 == 1));
    assert((ra == rb) == (a[i] == b[j]));
    assert((((ra & 1 == 1) != (rb & 1 == 0)) == (ra & 1 == rb & 1)) && (((ra >> 1u64) & 1 == 1)
        != ((rb >> 1u64) & 1 == 0)) == ((ra >> 1u64) & 1 == (rb >> 1u64) & 1)) by (bit_vector);
}

/// Building a scatter profile and reading it back gives, at every valid
/// pair of positions, exactly whether the two characters match.
pub proof fn lemma_scatter_profile_matches(
    a: Seq<u8>,
    b: Seq<u8>,
    pa: Seq<CC>,
    pb: Seq<[u64; 4]>,
    i: int,
    j: int,
)
    requires
        valid_a(a),
        is_scatter_profile(a, b, pa, pb),
        0 <= i < a.len(),
        0 <= j < b.len(),
    ensures
        pa[i].0 < 4,
        row_bit(pb, j, pa[i].0 as int) == compatible(a[i], b[j]),
{
    assert(is_base(a[i]));
    assert(pa[i].0 == base_code(a[i]));
    assert(j < pb.len() * 64);
    assert(row_bit(pb, j, pa[i].0 as int) == covers(b[j], pa[i].0 as int));
}

/// Between two bases, compatibility is equality up to case.
pub proof fn lemma_bases_compatible(x: u8, y: u8)
    requires
        is_base(x),
        is_base(y),
    ensures
        compatible(x, y) <==> base_code(x) == base_code(y),
        x == y ==> compatible(x, y),
{
}

/// A profile of `b`: `a` compressed per character, and `b` packed per word,
/// so that one call gives the mask of the rows of a word that match a
/// character of `a`.
pub trait Profile: Sized {
    type A;
    type B;

    /// The sequences the profile takes.
    spec fn accepts(a: Seq<u8>, b: Seq<u8>) -> bool;

    /// `pa`, `pb` are the profile of `a` and `b`.
    spec fn is_profile(a: Seq<u8>, b: Seq<u8>, pa: Seq<Self::A>, pb: Seq<Self::B>) -> bool;

    /// Whether a character of `a` and one of `b` match.
    spec fn chars_match(ca: u8, cb: u8) -> bool;

    /// A compressed character that `eq` takes.
    spec fn a_ok(ca: Self::A) -> bool;

    /// The mask of the rows of word `cb` that match `ca`.
    spec fn eq_mask(ca: Self::A, cb: Self::B) -> u64;

    fn build(a: &[u8], b: &[u8]) -> (r: (Vec<Self::A>, Vec<Self::B>))
        requires
            Self::accepts(a@, b@),
            b.len() + 64 <= usize::MAX,
        ensures
            Self::is_profile(a@, b@, r.0@, r.1@),
    ;

    fn eq(ca: &Self::A, cb: &Self::B) -> (r: u64)
        requires
            Self::a_ok(*ca),
        ensures
            r == Self::eq_mask(*ca, *cb),
    ;

    fn is_match(a: &[Self::A], b: &[Self::B], i: usize, j: usize) -> (r: bool)
        requires
            i < a.len(),
            j / 64 < b.len(),
            Self::a_ok(a@[i as int]),
        ensures
            r == bit(Self::eq_mask(a@[i as int], b@[(j / 64) as int]), (j % 64) as u64),
    ;

    /// Reading a profile back gives, at every valid pair of positions,
    /// whether the two characters match.
    proof fn lemma_profile_matches(
        a: Seq<u8>,
        b: Seq<u8>,
        pa: Seq<Self::A>,
        pb: Seq<Self::B>,
        i: int,
        j: int,
    )
        requires
            Self::accepts(a, b),
            Self::is_profile(a, b, pa, pb),
            0 <= i < a.len(),
            0 <= j < b.len(),
        ensures
            Self::a_ok(pa[i]),
            bit(Self::eq_mask(pa[i], pb[j / 64]), (j % 64) as u64) == Self::chars_match(a[i], b[j]),
    ;
}

impl Profile for ScatterProfile {
    type A = CC;
    type B = [u64; 4];

    open spec fn accepts(a: Seq<u8>, b: Seq<u8>) -> bool {
        valid_a(a) && valid_b(b)
    }

    open spec fn is_profile(a: Seq<u8>, b: Seq<u8>, pa: Seq<CC>, pb: Seq<[u64; 4]>) -> bool {
        is_scatter_profile(a, b, pa, pb)
    }

    open spec fn chars_match(ca: u8, cb: u8) -> bool {
        compatible(ca, cb)
    }

    open spec fn a_ok(ca: CC) -> bool {
        ca.0 < 4
    }

    open spec fn eq_mask(ca: CC, cb: [u64; 4]) -> u64 {
        cb[ca.0 as int]
    }

    fn build(a: &[u8], b: &[u8]) -> (r: (Vec<CC>, Vec<[u64; 4]>)) {
        ScatterProfile::build(a, b)
    }

    fn eq(ca: &CC, cb: &[u64; 4]) -> (r: u64) {
        ScatterProfile::eq(ca, cb)
    }

    fn is_match(a: &[CC], b: &[[u64; 4]], i: usize, j: usize) -> (r: bool) {
        ScatterProfile::is_match(a, b, i, j)
    }

    proof fn lemma_profile_matches(
        a: Seq<u8>,
        b: Seq<u8>,
        pa: Seq<CC>,
        pb: Seq<[u64; 4]>,
        i: int,
        j: int,
    ) {
        lemma_scatter_profile_matches(a, b, pa, pb, i, j);
    }
}

impl Profile for BitProfile {
    type A = Bits;
    type B = Bits;

    open spec fn accepts(a: Seq<u8>, b: Seq<u8>) -> bool {
        upper_bases(a) && upper_bases(b)
    }

    open spec fn is_profile(a: Seq<u8>, b: Seq<u8>, pa: Seq<Bits>, pb: Seq<Bits>) -> bool {
        is_bit_profile(a, b, pa, pb)
    }

    open spec fn chars_match(ca: u8, cb: u8) -> bool {
        ca == cb
    }

    open spec fn a_ok(ca: Bits) -> bool {
        true
    }

    open spec fn eq_mask(ca: Bits, cb: Bits) -> u64 {
        (ca.0 ^ cb.0) & (ca.1 ^ cb.1)
    }

    fn build(a: &[u8], b: &[u8]) -> (r: (Vec<Bits>, Vec<Bits>)) {
        BitProfile::build(a, b)
    }

    fn eq(ca: &Bits, cb: &Bits) -> (r: u64) {
        BitProfile::eq(ca, cb)
    }

    fn is_match(a: &[Bits], b: &[Bits], i: usize, j: usize) -> (r: bool) {
        BitProfile::is_match(a, b, i, j)
    }

    proof fn lemma_profile_matches(
        a: Seq<u8>,
        b: Seq<u8>,
        pa: Seq<Bits>,
        pb: Seq<Bits>,
        i: int,
        j: int,
    ) {
        lemma_bit_profile_matches(a, b, pa, pb, i, j);
    }
}

} // verus!
