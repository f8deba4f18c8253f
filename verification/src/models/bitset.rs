use vstd::prelude::*;

use vstd::std_specs::bits::axiom_u64_leading_zeros;
use vstd::std_specs::bits::axiom_u64_trailing_zeros;
use vstd::std_specs::bits::u64_leading_zeros;
use vstd::std_specs::bits::u64_trailing_zeros;

use crate::enums::order_book_errors::OrderBookError;

verus! {

/// A dense bit array over the logical indices `0..=nbits`, backed by 64-bit
/// words. Words are ordered so that lower logical indices occupy the
/// later-scanned words; only the numeric index is externally visible. Word
/// scans use the count-trailing-zeros / count-leading-zeros intrinsics, so a
/// search is O(words) worst case and O(1) when the searched end is
/// populated.
pub struct Bitset {
    pub bits: Vec<u64>,
    pub nbits: usize,
}

impl Bitset {
    /// Number of 64-bit words backing the array.
    pub open spec fn nblocks(self) -> int {
        self.bits@.len() as int
    }

    /// The word holding logical index `idx`.
    pub open spec fn block_of(self, idx: int) -> int {
        self.nblocks() - 1 - idx / 64
    }

    /// Whether logical index `idx` can be stored: it must not exceed the
    /// declared capacity and its word must exist.
    pub open spec fn spec_in_range(self, idx: int) -> bool {
        &&& 0 <= idx <= self.nbits
        &&& idx / 64 < self.nblocks()
    }

    /// Whether logical index `idx` is set.
    pub open spec fn spec_is_set(self, idx: int) -> bool {
        &&& self.spec_in_range(idx)
        &&& ((self.bits@[self.block_of(idx)] >> ((idx % 64) as u64)) & 1u64) == 1u64
    }

    /// Structural well-formedness: the word count matches the capacity, the
    /// capacity leaves room for index arithmetic, and every physical bit
    /// beyond the capacity is clear.
    pub open spec fn wf(self) -> bool {
        &&& self.nbits + 63 <= usize::MAX
        &&& self.bits@.len() == (self.nbits + 63) / 64
        &&& forall|bi: int, off: int|
            0 <= bi < self.nblocks() && 0 <= off < 64 && (self.nblocks() - 1 - bi) * 64 + off
                > self.nbits ==> ((#[trigger] (self.bits@[bi] >> (off as u64))) & 1u64) == 0u64
    }

    /// A bitset of capacity `nbits` with every bit clear.
    pub fn new(nbits: usize) -> (r: Self)
        requires
            nbits + 63 <= usize::MAX,
        ensures
            r.wf(),
            r.nbits == nbits,
            forall|j: int| !r.spec_is_set(j),
    {
        let nblocks = (nbits + 63) / 64;
        let mut bits: Vec<u64> = Vec::new();
        let mut i: usize = 0;
        while i < nblocks
            invariant
                i <= nblocks,
                bits@.len() == i,
                forall|bi: int| 0 <= bi < i ==> bits@[bi] == 0u64,
            decreases nblocks - i,
        {
            bits.push(0);
            i += 1;
        }
        let r = Bitset { bits, nbits };
        proof {
            assert forall|bi: int, off: int|
                0 <= bi < r.nblocks() && 0 <= off < 64 implies ((#[trigger] (r.bits@[bi] >> (off as u64)))
                & 1u64) == 0u64 by {
                lemma_zero_bit(off as u64);
            }
        }
        r
    }

    /// Sets logical index `idx`. Fails, leaving the bitset unchanged, when
    /// `idx` cannot be stored; every other index keeps its value.
    pub fn set(&mut self, idx: usize) -> (r: Result<(), OrderBookError>)
        requires
            old(self).wf(),
        ensures
            final(self).wf(),
            final(self).nbits == old(self).nbits,
            r is Err <==> !old(self).spec_in_range(idx as int),
            r is Err ==> *final(self) == *old(self) && r == Err::<(), OrderBookError>(
                OrderBookError::BitsetIndexOutOfRange(old(self).nbits),
            ),
            r is Ok ==> forall|j: int|
                #![trigger final(self).spec_is_set(j)]
                final(self).spec_is_set(j) == (old(self).spec_is_set(j) || j == idx as int),
    {
        if idx > self.nbits || idx / 64 >= self.bits.len() {
            return Err(OrderBookError::BitsetIndexOutOfRange(self.nbits));
        }
        let block = self.bits.len() - idx / 64 - 1;
        let bit = (idx % 64) as u64;
        let ghost prev = *self;
        let b = self.bits[block];
        self.bits[block] = b | (1u64 << bit);
        proof {
            assert forall|j: int| #![trigger self.spec_is_set(j)]
                self.spec_is_set(j) == (prev.spec_is_set(j) || j == idx as int) by {
                lemma_set_effect(prev, *self, idx as int, block as int, j);
            }
            assert forall|bi: int, off: int|
                0 <= bi < self.nblocks() && 0 <= off < 64 && (self.nblocks() - 1 - bi) * 64 + off
                    > self.nbits implies ((#[trigger] (self.bits@[bi] >> (off as u64))) & 1u64) == 0u64 by {
                if bi == block as int {
                    lemma_bit_or(prev.bits@[bi], bit, off as u64);
                }
            }
        }
        Ok(())
    }

    /// Clears logical index `idx`. Fails, leaving the bitset unchanged, when
    /// `idx` cannot be stored; every other index keeps its value.
    pub fn clear(&mut self, idx: usize) -> (r: Result<(), OrderBookError>)
        requires
            old(self).wf(),
        ensures
            final(self).wf(),
            final(self).nbits == old(self).nbits,
            r is Err <==> !old(self).spec_in_range(idx as int),
            r is Err ==> *final(self) == *old(self) && r == Err::<(), OrderBookError>(
                OrderBookError::BitsetIndexOutOfRange(old(self).nbits),
            ),
            r is Ok ==> forall|j: int|
                #![trigger final(self).spec_is_set(j)]
                final(self).spec_is_set(j) == (old(self).spec_is_set(j) && j != idx as int),
    {
        if idx > self.nbits || idx / 64 >= self.bits.len() {
            return Err(OrderBookError::BitsetIndexOutOfRange(self.nbits));
        }
        let block = self.bits.len() - idx / 64 - 1;
        let bit = (idx % 64) as u64;
        let ghost prev = *self;
        let b = self.bits[block];
        self.bits[block] = b & !(1u64 << bit);
        proof {
            assert forall|j: int| #![trigger self.spec_is_set(j)]
                self.spec_is_set(j) == (prev.spec_is_set(j) && j != idx as int) by {
                lemma_clear_effect(prev, *self, idx as int, block as int, j);
            }
            assert forall|bi: int, off: int|
                0 <= bi < self.nblocks() && 0 <= off < 64 && (self.nblocks() - 1 - bi) * 64 + off
                    > self.nbits implies ((#[trigger] (self.bits@[bi] >> (off as u64))) & 1u64) == 0u64 by {
                if bi == block as int {
                    lemma_bit_and_not(prev.bits@[bi], bit, off as u64);
                }
            }
        }
        Ok(())
    }

    /// Whether logical index `idx` is set; an index that cannot be stored
    /// reads as clear.
    pub fn is_set(&self, idx: usize) -> (r: bool)
        requires
            self.wf(),
        ensures
            r == self.spec_is_set(idx as int),
    {
        if idx > self.nbits || idx / 64 >= self.bits.len() {
            return false;
        }
        let block = self.bits.len() - idx / 64 - 1;
        let bit = (idx % 64) as u64;
        ((self.bits[block] >> bit) & 1u64) == 1u64
    }

    /// The smallest set logical index, or `None` when every index is clear.
    pub fn find_first_set(&self) -> (r: Option<usize>)
        requires
            self.wf(),
        ensures
            match r {
                Some(i) => self.spec_is_set(i as int) && forall|j: int|
                    0 <= j < i ==> !self.spec_is_set(j),
                None => forall|j: int| !self.spec_is_set(j),
            },
    {
        let nblocks = self.bits.len();
        let mut bi = nblocks;
        while bi > 0
            invariant
                self.wf(),
                bi <= nblocks,
                nblocks == self.nblocks(),
                forall|j: int| 0 <= j < (nblocks - bi) * 64 ==> !self.spec_is_set(j),
            decreases bi,
        {
            bi -= 1;
            let b = self.bits[bi];
            if b != 0 {
                let tz = b.trailing_zeros() as usize;
                proof {
                    axiom_u64_trailing_zeros(b);
                }
                let base = (nblocks - 1 - bi) * 64;
                let idx = base + tz;
                proof {
                    assert(((b >> (tz as u64)) & 1u64) == 1u64);
                    assert(idx <= self.nbits) by {
                        if idx > self.nbits {
                            assert(((self.bits@[bi as int] >> (tz as u64)) & 1u64) == 0u64);
                        }
                    }
                    assert((idx as int) / 64 == nblocks - 1 - bi);
                    assert(self.block_of(idx as int) == bi as int);
                    assert((idx as int) % 64 == tz as int);
                    assert(self.spec_is_set(idx as int));
                    assert forall|j: int| 0 <= j < idx implies !self.spec_is_set(j) by {
                        if j >= base {
                            assert(j / 64 == nblocks - 1 - bi);
                            assert(0 <= j % 64 < u64_trailing_zeros(b));
                        }
                    }
                }
                return Some(idx);
            }
            proof {
                assert forall|j: int|
                    0 <= j < (nblocks - bi) * 64 implies !self.spec_is_set(j) by {
                    if j >= (nblocks - bi - 1) * 64 {
                        assert(j / 64 == nblocks - 1 - bi);
                        lemma_zero_bit((j % 64) as u64);
                    }
                }
            }
        }
        proof {
            assert forall|j: int| !self.spec_is_set(j) by {
                if self.spec_in_range(j) {
                    assert(j < (nblocks - 0) * 64);
                }
            }
        }
        None
    }

    /// The largest set logical index, or `None` when every index is clear.
    pub fn find_last_set(&self) -> (r: Option<usize>)
        requires
            self.wf(),
        ensures
            match r {
                Some(i) => self.spec_is_set(i as int) && forall|j: int|
                    j > i ==> !self.spec_is_set(j),
                None => forall|j: int| !self.spec_is_set(j),
            },
    {
        let nblocks = self.bits.len();
        let mut bi: usize = 0;
        while bi < nblocks
            invariant
                self.wf(),
                bi <= nblocks,
                nblocks == self.nblocks(),
                forall|j: int| j >= (nblocks - bi) * 64 ==> !self.spec_is_set(j),
            decreases nblocks - bi,
        {
            let b = self.bits[bi];
            if b != 0 {
                proof {
                    axiom_u64_leading_zeros(b);
                }
                let lz = b.leading_zeros() as usize;
                let top = 63 - lz;
                let base = (nblocks - 1 - bi) * 64;
                let idx = base + top;
                proof {
                    assert(((b >> ((63 - u64_leading_zeros(b)) as u64)) & 1u64) != 0u64);
                    assert(((b >> (top as u64)) & 1u64) == 1u64) by {
                        lemma_bit_is_one(b, (top as u64));
                    }
                    assert(idx <= self.nbits) by {
                        if idx > self.nbits {
                            assert(((self.bits@[bi as int] >> (top as u64)) & 1u64) == 0u64);
                        }
                    }
                    assert((idx as int) / 64 == nblocks - 1 - bi);
                    assert(self.block_of(idx as int) == bi as int);
                    assert((idx as int) % 64 == top as int);
                    assert(self.spec_is_set(idx as int));
                    assert forall|j: int| j > idx implies !self.spec_is_set(j) by {
                        if self.spec_in_range(j) {
                            if j < (nblocks - bi) * 64 {
                                assert(j / 64 == nblocks - 1 - bi);
                                assert(64 - u64_leading_zeros(b) <= j % 64 < 64);
                            }
                        }
                    }
                }
                return Some(idx);
            }
            bi += 1;
            proof {
                assert forall|j: int| j >= (nblocks - bi) * 64 implies !self.spec_is_set(j) by {
                    if self.spec_in_range(j) && j < (nblocks - bi + 1) * 64 {
                        assert(j / 64 == nblocks - bi);
                        lemma_zero_bit((j % 64) as u64);
                    }
                }
            }
        }
        proof {
            assert forall|j: int| !self.spec_is_set(j) by {
                if self.spec_in_range(j) {
                    assert(j >= 0);
                }
            }
        }
        None
    }
}

/// Bit `j` of the zero word is clear.
proof fn lemma_zero_bit(j: u64)
    ensures
        ((0u64 >> j) & 1u64) == 0u64,
{
    assert(((0u64 >> j) & 1u64) == 0u64) by (bit_vector);
}

/// A word with bit `j` not zero under the mask has bit `j` equal to one.
proof fn lemma_bit_is_one(b: u64, j: u64)
    requires
        ((b >> j) & 1u64) != 0u64,
    ensures
        ((b >> j) & 1u64) == 1u64,
{
    assert(((b >> j) & 1u64) != 0u64 ==> ((b >> j) & 1u64) == 1u64) by (bit_vector);
}

/// Setting bit `k` of a word leaves every other bit as it was and makes bit
/// `k` one.
proof fn lemma_bit_or(b: u64, k: u64, j: u64)
    requires
        k < 64,
        j < 64,
    ensures
        ((b | (1u64 << k)) >> j) & 1u64 == if j == k {
            1u64
        } else {
            (b >> j) & 1u64
        },
{
    assert(k < 64 && j < 64 ==> ((b | (1u64 << k)) >> j) & 1u64 == if j == k {
        1u64
    } else {
        (b >> j) & 1u64
    }) by (bit_vector);
}

/// Clearing bit `k` of a word leaves every other bit as it was and makes bit
/// `k` zero.
proof fn lemma_bit_and_not(b: u64, k: u64, j: u64)
    requires
        k < 64,
        j < 64,
    ensures
        ((b & !(1u64 << k)) >> j) & 1u64 == if j == k {
            0u64
        } else {
            (b >> j) & 1u64
        },
{
    assert(k < 64 && j < 64 ==> ((b & !(1u64 << k)) >> j) & 1u64 == if j == k {
        0u64
    } else {
        (b >> j) & 1u64
    }) by (bit_vector);
}

/// Pointwise effect of `set(idx)` on the logical index `j`.
proof fn lemma_set_effect(prev: Bitset, cur: Bitset, idx: int, block: int, j: int)
    requires
        prev.wf(),
        prev.spec_in_range(idx),
        block == prev.block_of(idx),
        cur.nbits == prev.nbits,
        cur.bits@.len() == prev.bits@.len(),
        cur.bits@ == prev.bits@.update(block, prev.bits@[block] | (1u64 << ((idx % 64) as u64))),
    ensures
        cur.spec_is_set(j) == (prev.spec_is_set(j) || j == idx),
{
    if prev.spec_in_range(j) {
        if j / 64 == idx / 64 {
            lemma_bit_or(prev.bits@[block], (idx % 64) as u64, (j % 64) as u64);
            assert(j == 64 * (j / 64) + j % 64);
            assert(idx == 64 * (idx / 64) + idx % 64);
        } else {
            assert(cur.block_of(j) != block);
        }
    }
}

/// Pointwise effect of `clear(idx)` on the logical index `j`.
proof fn lemma_clear_effect(prev: Bitset, cur: Bitset, idx: int, block: int, j: int)
    requires
        prev.wf(),
        prev.spec_in_range(idx),
        block == prev.block_of(idx),
        cur.nbits == prev.nbits,
        cur.bits@.len() == prev.bits@.len(),
        cur.bits@ == prev.bits@.update(block, prev.bits@[block] & !(1u64 << ((idx % 64) as u64))),
    ensures
        cur.spec_is_set(j) == (prev.spec_is_set(j) && j != idx),
{
    if prev.spec_in_range(j) {
        if j / 64 == idx / 64 {
            lemma_bit_and_not(prev.bits@[block], (idx % 64) as u64, (j % 64) as u64);
            assert(j == 64 * (j / 64) + j % 64);
            assert(idx == 64 * (idx / 64) + idx % 64);
        } else {
            assert(cur.block_of(j) != block);
        }
    }
}


/// When both ends are found, the smallest set index is no larger than the
/// largest: stated over the characterisations `find_first_set` and
/// `find_last_set` return.
pub proof fn lemma_first_set_le_last_set(bs: Bitset, f: usize, l: usize)
    requires
        bs.spec_is_set(f as int),
        forall|j: int| 0 <= j < f as int ==> !bs.spec_is_set(j),
        bs.spec_is_set(l as int),
        forall|j: int| j > l as int ==> !bs.spec_is_set(j),
    ensures
        f <= l,
{
    if f > l {
        assert(!bs.spec_is_set(f as int));
    }
}

/// When exactly one index is set, both scans name it.
pub proof fn lemma_single_bit_found_at_both_ends(bs: Bitset, i: usize, f: usize, l: usize)
    requires
        bs.spec_is_set(i as int),
        forall|j: int| j != i as int ==> !bs.spec_is_set(j),
        bs.spec_is_set(f as int),
        forall|j: int| 0 <= j < f as int ==> !bs.spec_is_set(j),
        bs.spec_is_set(l as int),
        forall|j: int| j > l as int ==> !bs.spec_is_set(j),
    ensures
        f == i,
        l == i,
{
}

} // verus!
