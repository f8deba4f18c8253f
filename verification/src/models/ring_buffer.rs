use vstd::prelude::*;

use crate::enums::order_book_errors::OrderBookError;

verus! {

/// A bounded FIFO of ledger indices with O(1) push and pop at both ends and
/// O(n) removal by value. The capacity is fixed at construction; pushes past
/// it fail with a typed error. Logical position `i` lives at physical slot
/// `(head + i) mod capacity` of `buf`; `buf` is raw storage, and stale slots
/// keep whatever value they last held.
#[derive(Clone, Debug)]
pub struct RingBuffer {
    pub buf: Vec<usize>,
    pub head: usize,
    pub len: usize,
}

impl View for RingBuffer {
    type V = Seq<usize>;

    /// The current contents, front to back.
    open spec fn view(&self) -> Seq<usize> {
        Seq::new(self.len as nat, |i: int| self.buf@[self.slot(i)])
    }
}

impl RingBuffer {
    /// Fixed capacity of the buffer.
    pub open spec fn capacity(self) -> int {
        self.buf@.len() as int
    }

    /// Physical slot of logical position `i`, wrapping once past the end.
    pub open spec fn slot(self, i: int) -> int {
        if self.head + i < self.capacity() {
            self.head + i
        } else {
            self.head + i - self.capacity()
        }
    }

    /// Structural well-formedness: the length never exceeds the capacity and
    /// the head points into the storage (or to 0 when there is none).
    pub open spec fn wf(self) -> bool {
        &&& self.buf@.len() <= usize::MAX
        &&& self.len <= self.buf@.len()
        &&& if self.buf@.len() == 0 {
            self.head == 0
        } else {
            self.head < self.buf@.len()
        }
    }

    /// An empty buffer whose capacity is `capacity` slots.
    pub fn new(capacity: usize) -> (r: Self)
        ensures
            r.wf(),
            r@ == Seq::<usize>::empty(),
            r.capacity() == capacity,
    {
        let mut buf: Vec<usize> = Vec::new();
        let mut i: usize = 0;
        while i < capacity
            invariant
                i <= capacity,
                buf@.len() == i,
            decreases capacity - i,
        {
            buf.push(0);
            i += 1;
        }
        let r = RingBuffer { buf, head: 0, len: 0 };
        assert(r@ =~= Seq::<usize>::empty());
        r
    }

    pub fn is_empty(&self) -> (r: bool)
        ensures
            r == (self@.len() == 0),
    {
        self.len == 0
    }

    pub fn is_full(&self) -> (r: bool)
        ensures
            r == (self@.len() == self.capacity()),
    {
        self.len == self.buf.len()
    }

    pub fn len(&self) -> (r: usize)
        ensures
            r == self@.len(),
    {
        self.len
    }

    /// Physical slot of logical position `i`, computed without overflow.
    fn slot_index(&self, i: usize) -> (r: usize)
        requires
            self.wf(),
            self.capacity() > 0,
            i < self.capacity(),
        ensures
            r == self.slot(i as int),
            r < self.capacity(),
    {
        let cap = self.buf.len();
        if i < cap - self.head {
            self.head + i
        } else {
            i - (cap - self.head)
        }
    }

    /// Appends `value` at the back; fails when the buffer is at capacity, in
    /// which case nothing changes.
    pub fn push_back(&mut self, value: usize) -> (r: Result<(), OrderBookError>)
        requires
            old(self).wf(),
        ensures
            final(self).wf(),
            final(self).capacity() == old(self).capacity(),
            r is Err <==> old(self)@.len() == old(self).capacity(),
            r is Err ==> *final(self) == *old(self) && r == Err::<(), OrderBookError>(
                OrderBookError::FullRingBuffer,
            ),
            r is Ok ==> final(self)@ == old(self)@.push(value),
    {
        if self.is_full() {
            return Err(OrderBookError::FullRingBuffer);
        }

        let idx = self.slot_index(self.len);
        self.buf[idx] = value;
        self.len += 1;

        assert(self@ =~= old(self)@.push(value));
        Ok(())
    }

    /// Prepends `value` at the front; fails when the buffer is at capacity,
    /// in which case nothing changes.
    pub fn push_front(&mut self, value: usize) -> (r: Result<(), OrderBookError>)
        requires
            old(self).wf(),
        ensures
            final(self).wf(),
            final(self).capacity() == old(self).capacity(),
            r is Err <==> old(self)@.len() == old(self).capacity(),
            r is Err ==> *final(self) == *old(self) && r == Err::<(), OrderBookError>(
                OrderBookError::FullRingBuffer,
            ),
            r is Ok ==> final(self)@ == old(self)@.insert(0, value),
    {
        if self.is_full() {
            return Err(OrderBookError::FullRingBuffer);
        }

        self.head = if self.head == 0 {
            self.buf.len() - 1
        } else {
            self.head - 1
        };
        let h = self.head;
        self.buf[h] = value;
        self.len += 1;

        assert(self@ =~= old(self)@.insert(0, value));
        Ok(())
    }

    /// Removes and returns the back element; fails when the buffer is empty,
    /// in which case nothing changes.
    pub fn pop_back(&mut self) -> (r: Result<usize, OrderBookError>)
        requires
            old(self).wf(),
        ensures
            final(self).wf(),
            final(self).capacity() == old(self).capacity(),
            r is Err <==> old(self)@.len() == 0,
            r is Err ==> *final(self) == *old(self) && r == Err::<usize, OrderBookError>(
                OrderBookError::EmptyRingBuffer,
            ),
            r is Ok ==> r == Ok::<usize, OrderBookError>(old(self)@.last()) && final(self)@ == old(
                self,
            )@.drop_last(),
    {
        if self.is_empty() {
            return Err(OrderBookError::EmptyRingBuffer);
        }

        let idx = self.slot_index(self.len - 1);
        let val = self.buf[idx];
        self.len -= 1;

        assert(self@ =~= old(self)@.drop_last());
        Ok(val)
    }

    /// Removes and returns the front element; fails when the buffer is
    /// empty, in which case nothing changes.
    pub fn pop_front(&mut self) -> (r: Result<usize, OrderBookError>)
        requires
            old(self).wf(),
        ensures
            final(self).wf(),
            final(self).capacity() == old(self).capacity(),
            r is Err <==> old(self)@.len() == 0,
            r is Err ==> *final(self) == *old(self) && r == Err::<usize, OrderBookError>(
                OrderBookError::EmptyRingBuffer,
            ),
            r is Ok ==> r == Ok::<usize, OrderBookError>(old(self)@.first()) && final(self)@ == old(
                self,
            )@.drop_first(),
    {
        if self.is_empty() {
            return Err(OrderBookError::EmptyRingBuffer);
        }

        let v = self.buf[self.head];
        self.head = if self.head + 1 == self.buf.len() {
            0
        } else {
            self.head + 1
        };
        self.len -= 1;

        assert(self@ =~= old(self)@.drop_first());
        Ok(v)
    }

    /// The element at logical position `index`, front to back.
    pub fn get(&self, index: usize) -> (r: usize)
        requires
            self.wf(),
            index < self@.len(),
        ensures
            r == self@[index as int],
    {
        let idx = self.slot_index(index);
        self.buf[idx]
    }

    /// The front element, or `None` when the buffer is empty.
    pub fn front(&self) -> (r: Option<usize>)
        requires
            self.wf(),
        ensures
            r == if self@.len() == 0 {
                Option::<usize>::None
            } else {
                Option::<usize>::Some(self@.first())
            },
    {
        if self.is_empty() {
            None
        } else {
            Some(self.buf[self.head])
        }
    }

    /// The current contents, front to back, as a fresh vector.
    pub fn iter(&self) -> (r: Vec<usize>)
        requires
            self.wf(),
        ensures
            r@ == self@,
    {
        let mut out: Vec<usize> = Vec::new();
        let mut i: usize = 0;
        while i < self.len
            invariant
                self.wf(),
                i <= self.len,
                out@ =~= self@.subrange(0, i as int),
            decreases self.len - i,
        {
            let idx = self.slot_index(i);
            out.push(self.buf[idx]);
            i += 1;
        }
        assert(out@ =~= self@);
        out
    }

    /// Whether `val` occurs at some logical position.
    pub open spec fn spec_contains(self, val: usize) -> bool {
        exists|i: int| 0 <= i < self@.len() && self@[i] == val
    }

    /// Removes the first occurrence of `val`, shifting the elements behind
    /// it one position toward the front; the relative order of the surviving
    /// elements is preserved. Returns whether `val` was found.
    #[verifier::loop_isolation(false)]
    pub fn remove_by_value(&mut self, val: usize) -> (r: bool)
        requires
            old(self).wf(),
        ensures
            final(self).wf(),
            final(self).capacity() == old(self).capacity(),
            r == old(self).spec_contains(val),
            r ==> exists|i: int|
                {
                    &&& 0 <= i < old(self)@.len()
                    &&& old(self)@[i] == val
                    &&& (forall|j: int| 0 <= j < i ==> old(self)@[j] != val)
                    &&& final(self)@ == old(self)@.remove(i)
                },
            !r ==> *final(self) == *old(self),
    {
        let ghost orig = *self;
        let mut i: usize = 0;
        while i < self.len
            invariant
                *self == orig,
                self.wf(),
                i <= self.len,
                forall|k: int| 0 <= k < i ==> self@[k] != val,
            decreases self.len - i,
        {
            let idx = self.slot_index(i);
            if self.buf[idx] == val {
                assert(orig@[i as int] == val);
                let mut j: usize = i;
                while j < self.len - 1
                    invariant
                        self.wf(),
                        self.head == orig.head,
                        self.len == orig.len,
                        self.capacity() == orig.capacity(),
                        self.capacity() > 0,
                        i <= j <= self.len - 1,
                        i < orig@.len(),
                        forall|k: int| 0 <= k < i ==> self@[k] == orig@[k],
                        forall|k: int| #![auto] i <= k < j ==> self@[k] == orig@[k + 1],
                        forall|k: int| j <= k < self.len ==> self@[k] == orig@[k],
                    decreases self.len - j,
                {
                    let from = self.slot_index(j + 1);
                    let to = self.slot_index(j);
                    let moved = self.buf[from];
                    let ghost prev = *self;
                    self.buf[to] = moved;
                    proof {
                        assert(self.slot(j as int) == to as int);
                        assert forall|k: int| 0 <= k < self.len && k != j as int implies self@[k]
                            == prev@[k] by {
                            assert(self.slot(k) != to as int);
                            assert(self@[k] == self.buf@[self.slot(k)]);
                            assert(prev@[k] == prev.buf@[prev.slot(k)]);
                        }
                        assert(self@[j as int] == prev@[j + 1]);
                        assert forall|k: int| i <= k <= j as int implies self@[k] == orig@[k
                            + 1] by {
                            if k < j as int {
                                assert(self@[k] == prev@[k]);
                                assert(prev@[k] == orig@[k + 1]);
                            } else {
                                assert(self@[j as int] == prev@[j + 1]);
                                assert(prev@[j + 1] == orig@[j + 1]);
                            }
                        }
                    }
                    j += 1;
                }
                let ghost before = *self;
                self.len -= 1;
                proof {
                    assert(self@.len() == orig@.len() - 1);
                    assert forall|k: int| 0 <= k < self@.len() implies self@[k] == before@[k] by {
                        assert(self@[k] == self.buf@[self.slot(k)]);
                        assert(before@[k] == before.buf@[before.slot(k)]);
                    }
                    assert forall|k: int| 0 <= k < self@.len() implies self@[k] == orig@.remove(
                        i as int,
                    )[k] by {
                        if k < i as int {
                            assert(before@[k] == orig@[k]);
                        } else {
                            assert(before@[k] == orig@[k + 1]);
                        }
                    }
                }
                assert(self@ =~= orig@.remove(i as int));
                assert(exists|k: int|
                    {
                        &&& 0 <= k < orig@.len()
                        &&& orig@[k] == val
                        &&& (forall|j: int| 0 <= j < k ==> orig@[j] != val)
                        &&& self@ == orig@.remove(k)
                    }) by {
                    assert({
                        &&& 0 <= (i as int) < orig@.len()
                        &&& orig@[i as int] == val
                        &&& (forall|j: int| 0 <= j < i as int ==> orig@[j] != val)
                        &&& self@ == orig@.remove(i as int)
                    });
                }
                return true;
            }
            i += 1;
        }
        assert(!orig.spec_contains(val));
        return false;
    }
}


/// First-in first-out: after a push at the back, the front — what
/// `pop_front` yields — is unchanged when the buffer held anything, and is
/// the pushed value otherwise; the pushed value itself sits last. Stated
/// over the contents sequences the contracts of `push_back` and `pop_front`
/// speak of.
pub proof fn lemma_push_back_pop_front_fifo(before: Seq<usize>, v: usize)
    ensures
        before.push(v).len() == before.len() + 1,
        before.len() > 0 ==> before.push(v).first() == before.first(),
        before.len() == 0 ==> before.push(v).first() == v,
        before.push(v).last() == v,
        forall|i: int| 0 <= i < before.len() ==> before.push(v)[i] == before[i],
{
}

/// A value pushed at the front leaves by `pop_front` before everything
/// already held and before anything pushed at the back afterwards.
pub proof fn lemma_push_front_leaves_first(before: Seq<usize>, v: usize, w: usize)
    ensures
        before.insert(0, v).first() == v,
        before.insert(0, v).push(w).first() == v,
        forall|i: int| 0 <= i < before.len() ==> before.insert(0, v)[i + 1] == before[i],
{
    assert(before.insert(0, v).push(w)[0] == before.insert(0, v)[0]);
}

/// Removal by value preserves the relative order of the survivors: the
/// entries in front of the removed position keep their places and the ones
/// behind it each move up by exactly one.
pub proof fn lemma_remove_preserves_order(s: Seq<usize>, j: int)
    requires
        0 <= j < s.len(),
    ensures
        s.remove(j).len() == s.len() - 1,
        forall|m: int| 0 <= m < j ==> s.remove(j)[m] == s[m],
        forall|m: int| j <= m < s.len() - 1 ==> s.remove(j)[m] == s[m + 1],
{
}

} // verus!
