//! Small helpers: the one-edit neighbourhood of a packed k-mer, and turning
//! sequences into text.
use vstd::prelude::*;
use vstd::utf8::*;

verus! {

/// The k-mers at one edit from a given k-mer, by kind of edit.
#[derive(Debug, PartialEq, Eq)]
pub struct Mutations {
    pub deletions: Vec<usize>,
    pub substitutions: Vec<usize>,
    pub insertions: Vec<usize>,
}

/// Which positions may hold an inserted or deleted base.
#[derive(Clone, Copy, Debug)]
pub struct MutationConfig {
    pub insert_at_start: bool,
    pub insert_at_end: bool,
    pub delete_at_start: bool,
    pub delete_at_end: bool,
}

impl Default for MutationConfig {
    fn default() -> (r: Self)
        ensures
            r.insert_at_start && r.insert_at_end && r.delete_at_start && r.delete_at_end,
    {
        MutationConfig {
            insert_at_start: true,
            insert_at_end: true,
            delete_at_start: true,
            delete_at_end: true,
        }
    }
}

/// `kmer` with base `i` (two bits each, lowest first) replaced by `s`.
pub open spec fn substitution(kmer: usize, i: usize, s: usize) -> usize {
    (((kmer as u64) & !(3u64 << (2 * i) as u64)) | ((s as u64) << (2 * i) as u64)) as usize
}

/// The bases of a k-mer below position `i`.
pub open spec fn low_mask(i: usize) -> u64 {
    ((1u64 << (2 * i) as u64) - 1) as u64
}

/// `kmer` with `s` inserted before base `i`.
pub open spec fn insertion(kmer: usize, i: usize, s: usize) -> usize {
    (((kmer as u64) & low_mask(i)) | ((s as u64) << (2 * i) as u64) | (((kmer as u64) & !low_mask(
        i,
    )) << 2u64)) as usize
}

/// `kmer` with base `i` removed.
pub open spec fn deletion(kmer: usize, i: usize) -> usize {
    (((kmer as u64) & low_mask(i)) | (((kmer as u64) & (!low_mask(i) << 2u64)) >> 2u64)) as usize
}

/// Every substitution at positions `0..k`, four per position in order.
pub open spec fn all_substitutions(kmer: usize, k: usize) -> Seq<usize> {
    Seq::new((4 * k) as nat, |t: int| substitution(kmer, (t / 4) as usize, (t % 4) as usize))
}

/// Every insertion before the `cnt` positions from `lo`, four per position
/// in order.
pub open spec fn all_insertions(kmer: usize, lo: int, cnt: int) -> Seq<usize> {
    Seq::new((4 * cnt) as nat, |t: int| insertion(kmer, (lo + t / 4) as usize, (t % 4) as usize))
}

/// Every deletion at the `cnt` positions from `lo`, in order.
pub open spec fn all_deletions(kmer: usize, lo: int, cnt: int) -> Seq<usize> {
    Seq::new(cnt as nat, |t: int| deletion(kmer, (lo + t) as usize))
}

/// `v` is strictly increasing.
pub open spec fn strictly_sorted(v: Seq<usize>) -> bool {
    forall|x: int, y: int| 0 <= x < y < v.len() ==> v[x] < v[y]
}

/// `r` holds the values of `v` once each, in increasing order.
pub open spec fn sorted_set_of(r: Seq<usize>, v: Seq<usize>) -> bool {
    strictly_sorted(r) && r.to_set() == v.to_set()
}

/// Inserts `x` into the strictly increasing `v` unless it is there.
fn insert_sorted(v: &mut Vec<usize>, x: usize)
    requires
        strictly_sorted(old(v)@),
    ensures
        strictly_sorted(final(v)@),
        final(v)@.to_set() == old(v)@.to_set().insert(x),
{
    let mut p: usize = 0;
    while p < v.len() && v[p] < x
        invariant
            p <= v.len(),
            forall|q: int| 0 <= q < p ==> v@[q] < x,
        decreases v.len() - p,
    {
        p = p + 1;
    }
    if p < v.len() && v[p] == x {
        proof {
            assert(v@.to_set().contains(x));
            assert(v@.to_set().insert(x) =~= v@.to_set());
        }
        return;
    }
    let ghost before = v@;
    v.insert(p, x);
    proof {
        assert(v@ =~= before.subrange(0, p as int).push(x) + before.subrange(p as int, before.len() as int));
        assert forall|y: usize| v@.to_set().contains(y) <==> before.to_set().insert(x).contains(y) by {
            if v@.to_set().contains(y) {
                let q = choose|q: int| 0 <= q < v@.len() && v@[q] == y;
                if q < p {
                    assert(before[q] == y);
                } else if q > p {
                    assert(before[q - 1] == y);
                }
            }
            if before.to_set().contains(y) {
                let q = choose|q: int| 0 <= q < before.len() && before[q] == y;
                if q < p {
                    assert(v@[q] == y);
                } else {
                    assert(v@[q + 1] == y);
                }
            }
            if y == x {
                assert(v@[p as int] == x);
            }
        }
        assert(v@.to_set() =~= before.to_set().insert(x));
    }
}

/// The distinct values of `v` in increasing order.
fn sorted_dedup(v: &Vec<usize>) -> (r: Vec<usize>)
    ensures
        sorted_set_of(r@, v@),
{
    let mut r: Vec<usize> = Vec::new();
    for t in 0..v.len()
        invariant
            strictly_sorted(r@),
            r@.to_set() == v@.subrange(0, t as int).to_set(),
    {
        insert_sorted(&mut r, v[t]);
        proof {
            assert(v@.subrange(0, t + 1) =~= v@.subrange(0, t as int).push(v@[t as int]));
            lemma_push_to_set(v@.subrange(0, t as int), v@[t as int]);
        }
    }
    proof {
        assert(v@.subrange(0, v@.len() as int) =~= v@);
    }
    r
}

proof fn lemma_push_to_set(s: Seq<usize>, x: usize)
    ensures
        s.push(x).to_set() == s.to_set().insert(x),
{
    assert forall|y: usize| s.push(x).to_set().contains(y) <==> s.to_set().insert(x).contains(y) by {
        if s.push(x).to_set().contains(y) {
            let q = choose|q: int| 0 <= q < s.push(x).len() && s.push(x)[q] == y;
            if q < s.len() {
                assert(s[q] == y);
            }
        }
        if s.to_set().contains(y) {
            let q = choose|q: int| 0 <= q < s.len() && s[q] == y;
            assert(s.push(x)[q] == y);
        }
        if y == x {
            assert(s.push(x)[s.len() as int] == x);
        }
    }
    assert(s.push(x).to_set() =~= s.to_set().insert(x));
}

/// Drops `x` from `v`, keeping the order of the rest.
fn remove_value(v: &Vec<usize>, x: usize) -> (r: Vec<usize>)
    requires
        strictly_sorted(v@),
    ensures
        strictly_sorted(r@),
        r@.to_set() == v@.to_set().remove(x),
{
    let mut r: Vec<usize> = Vec::new();
    for t in 0..v.len()
        invariant
            strictly_sorted(v@),
            strictly_sorted(r@),
            forall|q: int, u: int| 0 <= q < r.len() && t <= u < v.len() ==> r@[q] < v@[u],
            r@.to_set() == v@.subrange(0, t as int).to_set().remove(x),
    {
        let ghost before = r@;
        proof {
            assert(v@.subrange(0, t + 1) =~= v@.subrange(0, t as int).push(v@[t as int]));
            lemma_push_to_set(v@.subrange(0, t as int), v@[t as int]);
        }
        if v[t] != x {
            r.push(v[t]);
            proof {
                lemma_push_to_set(before, v@[t as int]);
                assert forall|q1: int, q2: int| 0 <= q1 < q2 < r.len() implies r@[q1] < r@[q2] by {
                    if q2 == r.len() - 1 {
                        assert(before[q1] < v@[t as int]);
                    }
                }
                assert(r@.to_set() =~= v@.subrange(0, t + 1).to_set().remove(x));
            }
        } else {
            proof {
                assert(r@.to_set() =~= v@.subrange(0, t + 1).to_set().remove(x));
            }
        }
    }
    proof {
        assert(v@.subrange(0, v@.len() as int) =~= v@);
    }
    r
}

/// The k-mers at one substitution, insertion or deletion from `kmer`, a
/// k-mer of `k` bases packed two bits per base with the first base lowest.
///
/// Without `dedup` each list holds every edit in order of position and then
/// of inserted base: substitutions at `0..k`, insertions before positions
/// `0..=k` and deletions at `0..k`, where the config may exclude the first
/// and the last position. With `dedup` each list is sorted with repeats
/// removed, and the substitutions no longer hold `kmer` itself.
pub fn mutations(k: usize, kmer: usize, config: MutationConfig, dedup: bool) -> (r: Mutations)
    requires
        k <= 31,
    ensures
        ({
            let ins_lo: int = if config.insert_at_start { 0 } else { 1 };
            let ins_end: int = if config.insert_at_end { k + 1 } else { k as int };
            let del_lo: int = if config.delete_at_start { 0 } else { 1 };
            let del_end: int = if config.delete_at_end { k as int } else { k - 1 };
            let ins_cnt: int = if ins_end > ins_lo { ins_end - ins_lo } else { 0 };
            let del_cnt: int = if del_end > del_lo { del_end - del_lo } else { 0 };
            if dedup {
                &&& sorted_set_of(r.deletions@, all_deletions(kmer, del_lo, del_cnt))
                &&& sorted_set_of(r.insertions@, all_insertions(kmer, ins_lo, ins_cnt))
                &&& strictly_sorted(r.substitutions@)
                &&& r.substitutions@.to_set() == all_substitutions(kmer, k).to_set().remove(kmer)
            } else {
                &&& r.deletions@ == all_deletions(kmer, del_lo, del_cnt)
                &&& r.insertions@ == all_insertions(kmer, ins_lo, ins_cnt)
                &&& r.substitutions@ == all_substitutions(kmer, k)
            }
        }),
{
    let km = kmer as u64;
    let mut deletions: Vec<usize> = Vec::new();
    let mut substitutions: Vec<usize> = Vec::new();
    let mut insertions: Vec<usize> = Vec::new();
    let mut i: usize = 0;
    while i < k
        invariant
            i <= k <= 31,
            km == kmer as u64,
            substitutions@ == all_substitutions(kmer, i),
        decreases k - i,
    {
        let mask = !(3u64 << ((2 * i) as u64));
        let mut s: usize = 0;
        while s < 4
            invariant
                i < k <= 31,
                s <= 4,
                mask == !(3u64 << (2 * i) as u64),
                km == kmer as u64,
                substitutions@ == all_substitutions(kmer, i) + Seq::new(
                    s as nat,
                    |t: int| substitution(kmer, i, t as usize),
                ),
            decreases 4 - s,
        {
            substitutions.push(((km & mask) | ((s as u64) << ((2 * i) as u64))) as usize);
            s = s + 1;
        }
        proof {
            assert(substitutions@ =~= all_substitutions(kmer, (i + 1) as usize));
        }
        i = i + 1;
    }
    let ins_lo: usize = if config.insert_at_start { 0 } else { 1 };
    let ins_end: usize = if config.insert_at_end { k + 1 } else { k };
    let mut i: usize = ins_lo;
    while i < ins_end
        invariant
            ins_lo <= i,
            i <= ins_end || i == ins_lo,
            ins_end <= k + 1,
            k <= 31,
            km == kmer as u64,
            insertions@ == all_insertions(kmer, ins_lo as int, i - ins_lo),
        decreases ins_end - i,
    {
        proof {
            assert(1u64 << (2 * i) as u64 >= 1) by (bit_vector)
                requires
                    2 * i <= 62,
            ;
        }
        let mask = (1u64 << ((2 * i) as u64)) - 1;
        let mut s: usize = 0;
        while s < 4
            invariant
                ins_lo <= i < ins_end,
                ins_end <= k + 1,
                k <= 31,
                s <= 4,
                mask == low_mask(i),
                km == kmer as u64,
                insertions@ == all_insertions(kmer, ins_lo as int, i - ins_lo) + Seq::new(
                    s as nat,
                    |t: int| insertion(kmer, i, t as usize),
                ),
            decreases 4 - s,
        {
            insertions.push(((km & mask) | ((s as u64) << ((2 * i) as u64)) | ((km & !mask) << 2u64)) as usize);
            s = s + 1;
        }
        proof {
            assert(insertions@ =~= all_insertions(kmer, ins_lo as int, i + 1 - ins_lo));
        }
        i = i + 1;
    }
    let del_lo: usize = if config.delete_at_start { 0 } else { 1 };
    let del_end: usize = if config.delete_at_end {
        k
    } else if k > 0 {
        k - 1
    } else {
        0
    };
    let mut i: usize = del_lo;
    while i < del_end
        invariant
            del_lo <= i,
            i <= del_end || i == del_lo,
            del_end <= k <= 31,
            km == kmer as u64,
            deletions@ == all_deletions(kmer, del_lo as int, i - del_lo),
        decreases del_end - i,
    {
        proof {
            assert(1u64 << (2 * i) as u64 >= 1) by (bit_vector)
                requires
                    2 * i <= 62,
            ;
        }
        let mask = (1u64 << ((2 * i) as u64)) - 1;
        deletions.push(((km & mask) | ((km & (!mask << 2u64)) >> 2u64)) as usize);
        proof {
            assert(deletions@ =~= all_deletions(kmer, del_lo as int, i + 1 - del_lo));
        }
        i = i + 1;
    }
    if dedup {
        let deletions = sorted_dedup(&deletions);
        let substitutions = sorted_dedup(&substitutions);
        let insertions = sorted_dedup(&insertions);
        let substitutions = remove_value(&substitutions, kmer);
        Mutations { deletions, substitutions, insertions }
    } else {
        Mutations { deletions, substitutions, insertions }
    }
}

/// The characters of an ASCII byte sequence.
pub open spec fn ascii_text(s: Seq<u8>) -> Seq<char> {
    s.map_values(|c: u8| c as char)
}

/// ASCII bytes are valid UTF-8, one character each.
pub proof fn lemma_ascii_utf8(s: Seq<u8>)
    requires
        forall|i: int| 0 <= i < s.len() ==> s[i] < 128,
    ensures
        valid_utf8(s),
        decode_utf8(s) == ascii_text(s),
    decreases s.len(),
{
    if s.len() > 0 {
        let rest = s.drop_first();
        lemma_ascii_utf8(rest);
        assert(is_leading_byte_width_1(s[0]));
        assert(length_of_first_scalar(s) == 1);
        assert(pop_first_scalar(s) =~= rest);
        assert(valid_first_scalar(s));
        let b0 = s[0];
        assert(b0 < 128 ==> b0 & 0x7Fu8 == b0) by (bit_vector);
        assert(decode_first_scalar(s) == s[0] as u32);
        assert((s[0] as u32) as char == s[0] as char);
        assert(ascii_text(s) =~= seq![s[0] as char] + ascii_text(rest));
    }
}

/// Relies on `String::from_utf8`: valid UTF-8 bytes give the string they
/// encode, so the `unwrap` never fails.
#[verifier::external_body]
pub(crate) fn utf8_string(v: Vec<u8>) -> (r: String)
    requires
        valid_utf8(v@),
    ensures
        r@ == decode_utf8(v@),
{
    String::from_utf8(v).unwrap()
}

/// The text that a UTF-8 byte sequence encodes.
pub fn to_string(seq: &[u8]) -> (r: String)
    requires
        valid_utf8(seq@),
    ensures
        r@ == decode_utf8(seq@),
{
    let mut v: Vec<u8> = Vec::new();
    for i in 0..seq.len()
        invariant
            v@ == seq@.subrange(0, i as int),
    {
        v.push(seq[i]);
        proof {
            assert(v@ =~= seq@.subrange(0, i + 1));
        }
    }
    proof {
        assert(v@ =~= seq@);
    }
    utf8_string(v)
}

} // verus!
