//! An append-only sequence whose elements live in fixed-capacity blocks.
//!
//! Element `i` sits in block `i / N`, slot `i % N`, where `N` is the block
//! capacity chosen at construction. A block is allocated with room for exactly
//! `N` elements and is never grown past that, so its storage is never moved:
//! growth only ever allocates a new block.

use vstd::prelude::*;

pub mod laws;

verus! {

use vstd::arithmetic::div_mod::{lemma_fundamental_div_mod, lemma_fundamental_div_mod_converse};

/// Block capacity used by `AppendVec::new`.
pub const DEFAULT_BLOCK_CAPACITY: usize = 32;

/// An append-only sequence stored in individually allocated blocks of a
/// fixed capacity.
#[derive(Debug)]
pub struct AppendVec<T> {
    blocks: Vec<Vec<T>>,
    length: usize,
    block_capacity: usize,
}

impl<T> View for AppendVec<T> {
    type V = Seq<T>;

    /// The logical sequence of elements, in insertion order.
    closed spec fn view(&self) -> Seq<T> {
        Seq::new(
            self.length as nat,
            |i: int| self.blocks@[i / self.block_capacity as int]@[i % self.block_capacity as int],
        )
    }
}

/// For `0 <= r < n`, index `q * n + r` lives in block `q`, slot `r`.
proof fn lemma_location_of(q: int, r: int, n: int)
    requires
        n > 0,
        0 <= r < n,
    ensures
        (q * n + r) / n == q,
        (q * n + r) % n == r,
{
    lemma_fundamental_div_mod_converse(q * n + r, n, q, r);
}

/// An index below the element count lies in an existing block, and in the
/// last block only below that block's fill.
proof fn lemma_in_range(i: int, n: int, nblocks: int, last_len: int)
    requires
        n > 0,
        nblocks > 0,
        0 < last_len <= n,
        0 <= i < (nblocks - 1) * n + last_len,
    ensures
        0 <= i / n < nblocks,
        0 <= i % n < n,
        i / n == nblocks - 1 ==> i % n < last_len,
{
    lemma_fundamental_div_mod(i, n);
    let q = i / n;
    let r = i % n;
    assert(0 <= r < n) by {
        vstd::arithmetic::div_mod::lemma_mod_pos_bound(i, n);
    }
    assert(0 <= q) by {
        vstd::arithmetic::div_mod::lemma_div_pos_is_pos(i, n);
    }
    assert(q < nblocks) by (nonlinear_arith)
        requires
            i == n * q + r,
            0 <= r < n,
            i < (nblocks - 1) * n + last_len,
            last_len <= n,
            n > 0,
    ;
    assert(q == nblocks - 1 ==> r < last_len) by (nonlinear_arith)
        requires
            i == n * q + r,
            i < (nblocks - 1) * n + last_len,
    ;
}

impl<T> AppendVec<T> {
    /// The capacity of every block.
    pub closed spec fn spec_block_capacity(&self) -> nat {
        self.block_capacity as nat
    }

    /// The number of allocated blocks.
    pub closed spec fn spec_block_count(&self) -> nat {
        self.blocks@.len()
    }

    /// Every block but the last is full, the last holds at least one and at
    /// most `block_capacity` elements, and no block is kept without elements.
    pub closed spec fn well_formed(&self) -> bool {
        &&& self.block_capacity > 0
        &&& (self.blocks@.len() == 0 <==> self.length == 0)
        &&& forall|b: int|
            0 <= b < self.blocks@.len() - 1 ==> #[trigger] self.blocks@[b]@.len()
                == self.block_capacity
        &&& self.blocks@.len() > 0 ==> {
            let last = self.blocks@.len() - 1;
            &&& 0 < self.blocks@[last]@.len() <= self.block_capacity
            &&& self.length == last * self.block_capacity + self.blocks@[last]@.len()
        }
    }

    /// The blocks have room for every element, and the last block is never
    /// left without one: `(count - 1) * N < len <= count * N`.
    pub proof fn lemma_block_count_bounds(&self)
        requires
            self.well_formed(),
        ensures
            self@.len() <= self.spec_block_count() * self.spec_block_capacity(),
            self.spec_block_count() > 0 ==> self@.len() > (self.spec_block_count() - 1)
                * self.spec_block_capacity(),
    {
        let nb = self.blocks@.len() as int;
        let n = self.block_capacity as int;
        let len = self.length as int;
        if nb > 0 {
            let last_len = self.blocks@[nb - 1]@.len() as int;
            assert(len <= nb * n && len > (nb - 1) * n) by (nonlinear_arith)
                requires
                    len == (nb - 1) * n + last_len,
                    0 < last_len <= n,
            ;
        }
    }

    /// An empty sequence whose blocks hold `block_capacity` elements each.
    pub fn with_block_capacity(block_capacity: usize) -> (r: Self)
        requires
            block_capacity > 0,
        ensures
            r.well_formed(),
            r@ == Seq::<T>::empty(),
            r.spec_block_capacity() == block_capacity,
            r.spec_block_count() == 0,
    {
        let r = AppendVec { blocks: Vec::new(), length: 0, block_capacity };
        assert(r@ =~= Seq::<T>::empty());
        r
    }

    /// An empty sequence with the default block capacity.
    pub fn new() -> (r: Self)
        ensures
            r.well_formed(),
            r@ == Seq::<T>::empty(),
            r.spec_block_capacity() == DEFAULT_BLOCK_CAPACITY,
            r.spec_block_count() == 0,
    {
        Self::with_block_capacity(DEFAULT_BLOCK_CAPACITY)
    }

    /// The number of elements.
    pub fn len(&self) -> (r: usize)
        requires
            self.well_formed(),
        ensures
            r == self@.len(),
    {
        self.length
    }

    /// The number of allocated blocks.
    pub fn block_count(&self) -> (r: usize)
        requires
            self.well_formed(),
        ensures
            r == self.spec_block_count(),
    {
        self.blocks.len()
    }

    /// The last element, or `None` when the sequence is empty.
    pub fn last(&self) -> (r: Option<&T>)
        requires
            self.well_formed(),
        ensures
            self@.len() > 0 ==> r == Some(&self@.last()),
            self@.len() == 0 ==> r == None::<&T>,
    {
        if self.length == 0 {
            None
        } else {
            self.get(self.length - 1)
        }
    }

    /// Appends `value` at index `len()`. A new block is allocated only when
    /// the length is a multiple of the block capacity; no existing block or
    /// element is touched.
    pub fn push(&mut self, value: T)
        requires
            old(self).well_formed(),
            old(self)@.len() < usize::MAX,
        ensures
            final(self).well_formed(),
            final(self)@ == old(self)@.push(value),
            final(self).spec_block_capacity() == old(self).spec_block_capacity(),
            old(self)@.len() % old(self).spec_block_capacity() == 0 ==> final(self).spec_block_count() == old(self).spec_block_count() + 1,
            old(self)@.len() % old(self).spec_block_capacity() != 0 ==> final(self).spec_block_count() == old(self).spec_block_count(),
    {
        let n = self.block_capacity;
        let ghost old_view = self@;
        let ghost nb = self.blocks@.len() as int;
        let ghost old_blocks = self.blocks@;
        let ghost len = self.length as int;
        if self.length % n == 0 {
            proof {
                if nb > 0 {
                    let last_len = old_blocks[nb - 1]@.len() as int;
                    if last_len < n {
                        lemma_location_of(nb - 1, last_len, n as int);
                    }
                    assert(len == nb * n) by (nonlinear_arith)
                        requires
                            len == (nb - 1) * n + last_len,
                            last_len == n,
                    ;
                } else {
                    assert(len == nb * n) by (nonlinear_arith)
                        requires
                            len == 0,
                            nb == 0,
                    ;
                }
                lemma_location_of(nb, 0, n as int);
            }
            let mut block = Vec::with_capacity(n);
            block.push(value);
            self.blocks.push(block);
            self.length = self.length + 1;
            proof {
                assert forall|b: int| 0 <= b < nb implies #[trigger] self.blocks@[b]@.len()
                    == n by {
                    assert(self.blocks@[b] == old_blocks[b]);
                }
                assert forall|i: int| 0 <= i < len implies #[trigger] self@[i] == old_view[i] by {
                    let last_len = old_blocks[nb - 1]@.len() as int;
                    lemma_in_range(i, n as int, nb, last_len);
                }
                assert(self@ =~= old_view.push(value));
                assert(self.blocks@.len() == nb + 1);
                assert(self.blocks@[nb]@.len() == 1);
                assert(self.well_formed());
            }
        } else {
            assert(nb > 0) by {
                if nb == 0 {
                    lemma_location_of(0, 0, n as int);
                    assert(len == 0);
                }
            }
            let ghost last_len = old_blocks[nb - 1]@.len() as int;
            proof {
                if last_len == n {
                    lemma_location_of(nb, 0, n as int);
                    assert(len == nb * n) by (nonlinear_arith)
                        requires
                            len == (nb - 1) * n + last_len,
                            last_len == n,
                    ;
                }
                lemma_location_of(nb - 1, last_len, n as int);
            }
            match self.blocks.pop() {
                Some(mut block) => {
                    block.push(value);
                    self.blocks.push(block);
                },
                None => {},
            }
            self.length = self.length + 1;
            proof {
                assert forall|i: int| 0 <= i < len implies #[trigger] self@[i] == old_view[i] by {
                    lemma_in_range(i, n as int, nb, last_len);
                }
                assert(self@ =~= old_view.push(value));
                assert(self.blocks@.len() == nb);
                assert(self.blocks@[nb - 1]@.len() == last_len + 1);
                assert forall|b: int| 0 <= b < nb - 1 implies #[trigger] self.blocks@[b]@.len()
                    == n by {
                    assert(self.blocks@[b] == old_blocks[b]);
                }
                assert(self.length == (nb - 1) * n + (last_len + 1));
                assert(self.well_formed());
            }
        }
    }

    /// Removes and returns the last element, or returns `None` when the
    /// sequence is empty. The last block is released when the removed element
    /// was its only one, that is when the removed index is a multiple of the
    /// block capacity.
    pub fn pop(&mut self) -> (r: Option<T>)
        requires
            old(self).well_formed(),
        ensures
            final(self).well_formed(),
            final(self).spec_block_capacity() == old(self).spec_block_capacity(),
            old(self)@.len() == 0 ==> r == None::<T> && final(self)@ == old(self)@
                && final(self).spec_block_count() == old(self).spec_block_count(),
            old(self)@.len() > 0 ==> r == Some(old(self)@.last()) && final(self)@
                == old(self)@.drop_last(),
            old(self)@.len() > 0 && (old(self)@.len() - 1) % (old(self).spec_block_capacity() as int) == 0 ==> final(self).spec_block_count() == old(self).spec_block_count() - 1,
            old(self)@.len() > 0 && (old(self)@.len() - 1) % (old(self).spec_block_capacity() as int) != 0 ==> final(self).spec_block_count() == old(self).spec_block_count(),
    {
        let ghost n = self.block_capacity as int;
        let ghost old_view = self@;
        let ghost nb = self.blocks@.len() as int;
        let ghost old_blocks = self.blocks@;
        let ghost len = self.length as int;
        match self.blocks.pop() {
            None => None,
            Some(mut block) => {
                let ghost last_len = old_blocks[nb - 1]@.len() as int;
                proof {
                    lemma_location_of(nb - 1, last_len - 1, n);
                }
                let v = block.pop();
                if block.len() > 0 {
                    self.blocks.push(block);
                }
                self.length = self.length - 1;
                proof {
                    assert forall|i: int| 0 <= i < len - 1 implies #[trigger] self@[i]
                        == old_view[i] by {
                        lemma_in_range(i, n, nb, last_len);
                        if i / n == nb - 1 {
                            assert(i % n < last_len - 1) by {
                                lemma_fundamental_div_mod(i, n);
                            }
                        }
                    }
                    assert(self@ =~= old_view.drop_last());
                    if last_len == 1 {
                        if nb > 1 {
                            assert(old_blocks[nb - 2]@.len() == n);
                            assert(self.length == (nb - 2) * n + n) by (nonlinear_arith)
                                requires
                                    len == (nb - 1) * n + last_len,
                                    self.length == len - 1,
                                    last_len == 1,
                            ;
                        } else {
                            assert(self.length == 0) by (nonlinear_arith)
                                requires
                                    len == (nb - 1) * n + last_len,
                                    self.length == len - 1,
                                    last_len == 1,
                                    nb == 1,
                            ;
                        }
                    } else {
                        assert(self.blocks@.len() == nb);
                        assert forall|b: int| 0 <= b < nb - 1 implies #[trigger] self.blocks@[b]@.len()
                            == n by {
                            assert(self.blocks@[b] == old_blocks[b]);
                        }
                    }
                }
                v
            },
        }
    }

    /// The element at index `i`, or `None` when `i` is not below the length.
    pub fn get(&self, i: usize) -> (r: Option<&T>)
        requires
            self.well_formed(),
        ensures
            i < self@.len() ==> r == Some(&self@[i as int]),
            i >= self@.len() ==> r == None::<&T>,
    {
        if i < self.length {
            let n = self.block_capacity;
            proof {
                let nb = self.blocks@.len() as int;
                lemma_in_range(i as int, n as int, nb, self.blocks@[nb - 1]@.len() as int);
            }
            Some(&self.blocks[i / n][i % n])
        } else {
            None
        }
    }

    /// References to every element, in index order.
    pub fn inner(&self) -> (r: Vec<&T>)
        requires
            self.well_formed(),
        ensures
            r@.len() == self@.len(),
            forall|i: int| 0 <= i < self@.len() ==> #[trigger] r@[i] == &self@[i],
    {
        let mut r: Vec<&T> = Vec::with_capacity(self.length);
        let mut i: usize = 0;
        while i < self.length
            invariant
                self.well_formed(),
                i <= self@.len(),
                r@.len() == i,
                forall|k: int| 0 <= k < i ==> #[trigger] r@[k] == &self@[k],
            decreases self@.len() - i,
        {
            match self.get(i) {
                Some(x) => r.push(x),
                None => {},
            }
            i = i + 1;
        }
        r
    }
}

impl<T: Clone> Clone for AppendVec<T> {
    /// A new sequence with fresh blocks of the same capacity, holding a clone
    /// of each element at the same index.
    fn clone(&self) -> (r: Self)
        ensures
            self.well_formed() ==> {
                &&& r.well_formed()
                &&& r@.len() == self@.len()
                &&& r.spec_block_capacity() == self.spec_block_capacity()
                &&& r.spec_block_count() == self.spec_block_count()
                &&& forall|i: int| 0 <= i < self@.len() ==> cloned(#[trigger] self@[i], r@[i])
            },
    {
        let n = self.block_capacity;
        let mut blocks: Vec<Vec<T>> = Vec::with_capacity(self.blocks.len());
        let mut b: usize = 0;
        while b < self.blocks.len()
            invariant
                b <= self.blocks@.len(),
                blocks@.len() == b,
                forall|k: int|
                    0 <= k < b ==> #[trigger] blocks@[k]@.len() == self.blocks@[k]@.len(),
                forall|k: int, j: int|
                    0 <= k < b && 0 <= j < self.blocks@[k]@.len() ==> cloned(
                        #[trigger] self.blocks@[k]@[j],
                        blocks@[k]@[j],
                    ),
            decreases self.blocks@.len() - b,
        {
            let src = &self.blocks[b];
            let mut block: Vec<T> = Vec::with_capacity(n);
            let mut j: usize = 0;
            while j < src.len()
                invariant
                    j <= src@.len(),
                    block@.len() == j,
                    forall|m: int| 0 <= m < j ==> cloned(#[trigger] src@[m], block@[m]),
                decreases src@.len() - j,
            {
                block.push(src[j].clone());
                j = j + 1;
            }
            blocks.push(block);
            b = b + 1;
        }
        let r = AppendVec { blocks, length: self.length, block_capacity: n };
        proof {
            if self.well_formed() {
                let nb = self.blocks@.len() as int;
                if nb > 0 {
                    let last_len = self.blocks@[nb - 1]@.len() as int;
                    assert forall|i: int| 0 <= i < self@.len() implies cloned(
                        #[trigger] self@[i],
                        r@[i],
                    ) by {
                        lemma_in_range(i, n as int, nb, last_len);
                    }
                }
            }
        }
        r
    }
}

} // verus!
