//! A map from positions to values for data that is dense around the main
//! diagonal: each diagonal is cut into blocks that are allocated on first
//! use.
use vstd::prelude::*;
use crate::aligners::Pos;

verus! {

/// The outcome of inserting a value where it is smaller than the present
/// one.
#[derive(PartialEq, Eq, Structural, Clone, Copy, Debug)]
pub enum InsertIfSmallerResult {
    New,
    Smaller,
    Larger,
}

/// The largest coordinate a diagonal map holds.
pub const MAX_COORD: i32 = 1048576;

/// A map over positions of a grid, as a drop-in for a hash map.
pub trait DiagonalMapTrait<V>: Sized {
    /// The map is well formed.
    spec fn wf(&self) -> bool;

    /// `pos` lies in the grid that the map was made for.
    spec fn holds(&self, pos: Pos) -> bool;

    /// The value stored at `pos`, if any.
    spec fn value_at(&self, pos: Pos) -> Option<V>;

    /// A map for the grid from `(0, 0)` to `target`.
    fn new(target: Pos) -> (r: Self)
        requires
            0 <= target.0 <= MAX_COORD,
            0 <= target.1 <= MAX_COORD,
        ensures
            r.wf(),
            forall|pos: Pos|
                0 <= pos.0 <= target.0 && 0 <= pos.1 <= target.1 ==> #[trigger] r.holds(pos),
    ;

    /// Stores `v` at `pos`.
    fn insert(&mut self, pos: Pos, v: V)
        requires
            old(self).wf(),
            old(self).holds(pos),
        ensures
            final(self).wf(),
            final(self).value_at(pos) == Some(v),
            forall|q: Pos| #[trigger] final(self).holds(q) == old(self).holds(q),
            forall|q: Pos|
                #[trigger] final(self).value_at(q) == old(self).value_at(q) || q == pos
                    || !old(self).holds(q) || old(self).value_at(q) is None,
    ;

    /// The value at `pos`, making room for it first; a new slot holds the
    /// default value.
    fn get(&mut self, pos: Pos) -> (r: V)
        requires
            old(self).wf(),
            old(self).holds(pos),
        ensures
            final(self).wf(),
            final(self).value_at(pos) == Some(r),
            old(self).value_at(pos) is Some ==> old(self).value_at(pos) == Some(r),
            forall|q: Pos| #[trigger] final(self).holds(q) == old(self).holds(q),
            forall|q: Pos|
                #[trigger] final(self).value_at(q) == old(self).value_at(q) || !old(self).holds(q)
                    || old(self).value_at(q) is None,
    ;
}

/// A map for 2D data that is dense around the diagonal.
pub struct DiagonalMap<V> {
    above: Vec<Vec<V>>,
    below: Vec<Vec<V>>,
    /// For each diagonal, the number of blocks of about `sqrt(n)` cells.
    num_blocks: i32,
    lg_block_size: usize,
}

/// Where a position is stored: on or above the diagonal, or below it; the
/// block index and the offset in the block.
#[derive(Debug)]
enum DIndex {
    Above(i32, i32),
    Below(i32, i32),
}

spec fn idx_view(idx: DIndex) -> (bool, int, int) {
    match idx {
        DIndex::Above(b, o) => (true, b as int, o as int),
        DIndex::Below(b, o) => (false, b as int, o as int),
    }
}

proof fn lemma_block_size(lg: usize)
    requires
        8 <= lg <= 20,
    ensures
        256 <= (1i32 << (lg as u32)) <= 1048576,
{
    let l = lg as u32;
    assert(8 <= l <= 20 ==> 256 <= (1i32 << l) <= 1048576) by (bit_vector);
}

/// Splitting `nb * d + q` with `q < nb` gives back `d` and `q`.
proof fn lemma_blocks_split(nb: int, d1: int, q1: int, d2: int, q2: int)
    requires
        0 <= q1 < nb,
        0 <= q2 < nb,
        0 <= d1,
        0 <= d2,
        nb * d1 + q1 == nb * d2 + q2,
    ensures
        d1 == d2,
        q1 == q2,
{
    if d1 < d2 {
        assert(nb * d1 + nb <= nb * d2) by (nonlinear_arith)
            requires
                d1 < d2,
                nb > 0,
        ;
    } else if d2 < d1 {
        assert(nb * d2 + nb <= nb * d1) by (nonlinear_arith)
            requires
                d2 < d1,
                nb > 0,
        ;
    }
}

/// `n` empty blocks.
fn empty_blocks<V>(n: usize) -> (r: Vec<Vec<V>>)
    ensures
        r@.len() == n,
        forall|k: int| 0 <= k < n ==> (#[trigger] r@[k])@.len() == 0,
{
    let mut r: Vec<Vec<V>> = Vec::new();
    for k in 0..n
        invariant
            r@.len() == k,
            forall|q: int| 0 <= q < k ==> (#[trigger] r@[q])@.len() == 0,
    {
        r.push(Vec::new());
    }
    r
}

/// A block of `n` default values.
fn filled_block<V: Default + Copy>(n: usize) -> (r: Vec<V>)
    ensures
        r@.len() == n,
{
    let mut r: Vec<V> = Vec::new();
    for k in 0..n
        invariant
            r@.len() == k,
    {
        r.push(V::default());
    }
    r
}

/// Appends empty blocks to `vs` up to length `n`.
fn resize_blocks<V>(vs: &mut Vec<Vec<V>>, n: usize)
    requires
        old(vs)@.len() < n,
    ensures
        final(vs)@.len() == n,
        forall|k: int| 0 <= k < old(vs)@.len() ==> #[trigger] final(vs)@[k] == old(vs)@[k],
        forall|k: int| old(vs)@.len() <= k < n ==> (#[trigger] final(vs)@[k])@.len() == 0,
{
    let start = vs.len();
    for k in start..n
        invariant
            vs@.len() == k,
            forall|q: int| 0 <= q < old(vs)@.len() ==> #[trigger] vs@[q] == old(vs)@[q],
            forall|q: int| old(vs)@.len() <= q < k ==> (#[trigger] vs@[q])@.len() == 0,
            start == old(vs)@.len(),
    {
        vs.push(Vec::new());
    }
}

impl<V: Default + Clone + Copy> DiagonalMap<V> {
    /// The number of cells in a block.
    pub closed spec fn block_size(&self) -> int {
        (1i32 << (self.lg_block_size as u32)) as int
    }

    /// The slot of `pos`: whether on or above the diagonal, the block, the
    /// offset in the block.
    pub closed spec fn index_spec(&self, pos: Pos) -> (bool, int, int) {
        let i = pos.0 as int;
        let j = pos.1 as int;
        if i >= j {
            (true, self.num_blocks * (i - j) + j / self.block_size(), j % self.block_size())
        } else {
            (false, self.num_blocks * (j - i - 1) + i / self.block_size(), i % self.block_size())
        }
    }

    pub closed spec fn slot_of(&self, idx: (bool, int, int)) -> Option<V> {
        let vs = if idx.0 {
            self.above@
        } else {
            self.below@
        };
        if 0 <= idx.1 < vs.len() && 0 <= idx.2 < vs[idx.1]@.len() {
            Some(vs[idx.1]@[idx.2])
        } else {
            None
        }
    }

    proof fn lemma_index_injective(&self, p: Pos, q: Pos)
        requires
            self.wf(),
            self.holds(p),
            self.holds(q),
            p != q,
        ensures
            self.index_spec(p) != self.index_spec(q),
    {
        lemma_block_size(self.lg_block_size);
        let bs = self.block_size();
        let nb = self.num_blocks as int;
        let (pi, pj) = (p.0 as int, p.1 as int);
        let (qi, qj) = (q.0 as int, q.1 as int);
        if self.index_spec(p) == self.index_spec(q) {
            assert(pj == bs * (pj / bs) + pj % bs) by (nonlinear_arith)
                requires
                    bs > 0,
            ;
            assert(qj == bs * (qj / bs) + qj % bs) by (nonlinear_arith)
                requires
                    bs > 0,
            ;
            assert(pi == bs * (pi / bs) + pi % bs) by (nonlinear_arith)
                requires
                    bs > 0,
            ;
            assert(qi == bs * (qi / bs) + qi % bs) by (nonlinear_arith)
                requires
                    bs > 0,
            ;
            if pi >= pj {
                lemma_blocks_split(nb, pi - pj, pj / bs, qi - qj, qj / bs);
            } else {
                lemma_blocks_split(nb, pj - pi - 1, pi / bs, qj - qi - 1, qi / bs);
            }
        }
    }

    #[inline]
    fn index_of(&self, pos: &Pos) -> (r: DIndex)
        requires
            self.wf(),
            self.holds(*pos),
        ensures
            idx_view(r) == self.index_spec(*pos),
            0 <= idx_view(r).1,
            0 <= idx_view(r).2 < self.block_size(),
    {
        proof {
            lemma_block_size(self.lg_block_size);
        }
        let i = pos.0;
        let j = pos.1;
        let bs: i32 = 1i32 << (self.lg_block_size as u32);
        proof {
            let nb = self.num_blocks as int;
            if i >= j {
                assert(0 <= nb * (i - j) <= 2047 * 1048576) by (nonlinear_arith)
                    requires
                        0 <= nb <= 2047,
                        0 <= i - j <= 1048576,
                ;
            } else {
                assert(0 <= nb * (j - i - 1) <= 2047 * 1048576) by (nonlinear_arith)
                    requires
                        0 <= nb <= 2047,
                        0 <= j - i - 1 <= 1048576,
                ;
            }
        }
        if i >= j {
            DIndex::Above(self.num_blocks * (i - j) + j / bs, j % bs)
        } else {
            DIndex::Below(self.num_blocks * (j - i - 1) + i / bs, i % bs)
        }
    }

    /// Makes sure the slot of `idx` exists, allocating its block if needed.
    #[inline]
    fn grow(&mut self, idx: &DIndex)
        requires
            old(self).wf(),
            0 <= idx_view(*idx).1,
            0 <= idx_view(*idx).2 < old(self).block_size(),
        ensures
            final(self).wf(),
            final(self).num_blocks == old(self).num_blocks,
            final(self).lg_block_size == old(self).lg_block_size,
            final(self).slot_of(idx_view(*idx)) is Some,
            forall|k: (bool, int, int)|
                #[trigger] final(self).slot_of(k) == old(self).slot_of(k) || old(self).slot_of(k) is None,
    {
        proof {
            lemma_block_size(self.lg_block_size);
        }
        let bs: usize = (1i32 << (self.lg_block_size as u32)) as usize;
        match *idx {
            DIndex::Above(i, j) => {
                let i = i as usize;
                if self.above.len() <= i {
                    resize_blocks(&mut self.above, i + 1);
                }
                if self.above[i].len() <= j as usize {
                    let block = filled_block(bs);
                    self.above.set(i, block);
                }
            },
            DIndex::Below(i, j) => {
                let i = i as usize;
                if self.below.len() <= i {
                    resize_blocks(&mut self.below, i + 1);
                }
                if self.below[i].len() <= j as usize {
                    let block = filled_block(bs);
                    self.below.set(i, block);
                }
            },
        }
    }

    #[inline]
    fn write_entry(&mut self, idx: &DIndex, v: V)
        requires
            old(self).wf(),
            old(self).slot_of(idx_view(*idx)) is Some,
        ensures
            final(self).wf(),
            final(self).num_blocks == old(self).num_blocks,
            final(self).lg_block_size == old(self).lg_block_size,
            final(self).slot_of(idx_view(*idx)) == Some(v),
            forall|k: (bool, int, int)|
                k != idx_view(*idx) ==> #[trigger] final(self).slot_of(k) == old(self).slot_of(k),
    {
        match *idx {
            DIndex::Above(i, j) => {
                self.above[i as usize][j as usize] = v;
            },
            DIndex::Below(i, j) => {
                self.below[i as usize][j as usize] = v;
            },
        }
    }
}

impl<V: Default + Clone + Copy> DiagonalMapTrait<V> for DiagonalMap<V> {
    closed spec fn wf(&self) -> bool {
        &&& 8 <= self.lg_block_size <= 20
        &&& 1 <= self.num_blocks <= 2047
        &&& forall|k: int|
            0 <= k < self.above@.len() ==> (#[trigger] self.above@[k])@.len() == 0
                || self.above@[k]@.len() == self.block_size()
        &&& forall|k: int|
            0 <= k < self.below@.len() ==> (#[trigger] self.below@[k])@.len() == 0
                || self.below@[k]@.len() == self.block_size()
    }

    closed spec fn holds(&self, pos: Pos) -> bool {
        &&& 0 <= pos.0 <= MAX_COORD
        &&& 0 <= pos.1 <= MAX_COORD
        &&& (pos.0 as int) / self.block_size() < self.num_blocks
        &&& (pos.1 as int) / self.block_size() < self.num_blocks
    }

    closed spec fn value_at(&self, pos: Pos) -> Option<V> {
        self.slot_of(self.index_spec(pos))
    }

    fn new(target: Pos) -> (r: Self) {
        // The block size is at least 256 cells, and at least the square root
        // of the larger side.
        let mut lg_block_size: usize = 8;
        let mut block_size: i32 = 256;
        let n = if target.0 >= target.1 {
            target.0
        } else {
            target.1
        };
        proof {
            assert(256i32 == 1i32 << 8u32) by (bit_vector);
            assert(256 * 256 <= 1048576) by (nonlinear_arith);
        }
        while block_size * block_size < n
            invariant
                8 <= lg_block_size <= 10,
                block_size == 1i32 << (lg_block_size as u32),
                256 <= block_size <= 1024,
                block_size * block_size <= 1048576,
                0 <= n <= MAX_COORD,
            decreases 1024 - block_size,
        {
            proof {
                let l = lg_block_size as u32;
                assert(block_size < 1024) by (nonlinear_arith)
                    requires
                        block_size * block_size < n,
                        n <= 1048576,
                        256 <= block_size,
                ;
                assert(8 <= l <= 10 && block_size == (1i32 << l) && block_size < 1024 ==> l < 10
                    && block_size <= 512 && block_size * 2 == (1i32 << (l + 1))) by (bit_vector);
                assert((block_size * 2) * (block_size * 2) <= 1048576) by (nonlinear_arith)
                    requires
                        0 <= block_size <= 512,
                ;
            }
            block_size = block_size * 2;
            lg_block_size = lg_block_size + 1;
        }
        let num_blocks = n / block_size + 1;
        proof {
            assert(num_blocks <= 1025) by (nonlinear_arith)
                requires
                    num_blocks == n / block_size + 1,
                    256 <= block_size <= 1024,
                    block_size * block_size >= n,
                    0 <= n,
            ;
        }
        let r = DiagonalMap {
            above: empty_blocks(0),
            below: empty_blocks(0),
            num_blocks,
            lg_block_size,
        };
        proof {
            assert forall|pos: Pos|
                0 <= pos.0 <= target.0 && 0 <= pos.1 <= target.1 implies #[trigger] r.holds(pos) by {
                assert(r.block_size() == block_size);
                assert(pos.0 / block_size <= n / block_size) by (nonlinear_arith)
                    requires
                        0 <= pos.0 <= n,
                        block_size > 0,
                ;
                assert(pos.1 / block_size <= n / block_size) by (nonlinear_arith)
                    requires
                        0 <= pos.1 <= n,
                        block_size > 0,
                ;
            }
        }
        r
    }

    fn insert(&mut self, pos: Pos, v: V) {
        let idx = self.index_of(&pos);
        self.grow(&idx);
        self.write_entry(&idx, v);
        proof {
            assert forall|q: Pos|
                #[trigger] self.value_at(q) == old(self).value_at(q) || q == pos || !old(self).holds(q)
                    || old(self).value_at(q) is None by {
                if q != pos && old(self).holds(q) {
                    old(self).lemma_index_injective(pos, q);
                }
            }
        }
    }

    fn get(&mut self, pos: Pos) -> (r: V) {
        let idx = self.index_of(&pos);
        self.grow(&idx);
        match idx {
            DIndex::Above(i, j) => self.above[i as usize][j as usize],
            DIndex::Below(i, j) => self.below[i as usize][j as usize],
        }
    }
}

} // verus!
