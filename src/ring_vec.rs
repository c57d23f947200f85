//! A ring buffer whose power-of-two capacity is chosen at run time.
use vstd::prelude::*;
use crate::bits::{is_pow2, lemma_mask_distinct, lemma_wrap_step, lemma_wrapping_add};

verus! {

/// First-in, first-out queue of at most `capacity` values over free-running 32-bit counters.
pub struct RingVec<T> {
    head: u32,
    tail: u32,
    mask: u32,
    cap: u32,
    data: Vec<Option<T>>,
}

impl<T> RingVec<T> {
    pub closed spec fn slot(&self, k: int) -> int {
        (((self.tail + k) as u32) & self.mask) as int
    }

    pub closed spec fn count(&self) -> nat {
        if self.head >= self.tail {
            (self.head - self.tail) as nat
        } else {
            (self.head + 0x1_0000_0000 - self.tail) as nat
        }
    }

    /// The fixed capacity.
    pub closed spec fn capacity(&self) -> nat {
        self.cap as nat
    }

    pub closed spec fn wf(&self) -> bool {
        &&& is_pow2(self.cap)
        &&& self.cap <= 0x8000_0000
        &&& self.mask == self.cap - 1
        &&& self.data@.len() == self.cap
        &&& self.count() <= self.cap
        &&& forall|k: int| 0 <= k < self.count() ==> (#[trigger] self.data@[self.slot(k)]) is Some
    }

    /// Values held, from the front to the back.
    pub closed spec fn view(&self) -> Seq<T> {
        Seq::new(self.count(), |k: int| self.data@[self.slot(k)]->Some_0)
    }

    proof fn lemma_slot_bounds(&self, k: int)
        ensures
            0 <= self.slot(k) <= self.mask,
    {
        let t = (self.tail + k) as u32;
        let m = self.mask;
        assert(t & m <= m) by (bit_vector);
    }

    proof fn lemma_slots_distinct(&self, k: int, j: int)
        requires
            self.wf(),
            0 <= k < j < self.cap,
        ensures
            self.slot(k) != self.slot(j),
    {
        lemma_mask_distinct(self.tail, k as u32, j as u32, self.mask);
    }

    /// Empty queue holding at most `capacity` values; `capacity` must be a power of two that
    /// fits in 32 bits.
    pub fn new(capacity: usize) -> (r: Self)
        requires
            capacity <= 0x8000_0000,
            is_pow2(capacity as u32),
        ensures
            r.wf(),
            r.capacity() == capacity,
            r.view() == Seq::<T>::empty(),
    {
        let mut data: Vec<Option<T>> = Vec::with_capacity(capacity);
        let mut i: usize = 0;
        while i < capacity
            invariant
                i <= capacity,
                data@.len() == i,
            decreases capacity - i,
        {
            data.push(None);
            i = i + 1;
        }
        let r = RingVec {
            head: 0,
            tail: 0,
            mask: (capacity - 1) as u32,
            cap: capacity as u32,
            data,
        };
        assert(r.view() =~= Seq::<T>::empty());
        r
    }

    /// A queue never holds more than its capacity.
    pub proof fn lemma_len_bound(&self)
        requires
            self.wf(),
        ensures
            self.view().len() <= self.capacity(),
    {
    }

    /// Whether `capacity` values are held.
    pub fn is_full(&self) -> (r: bool)
        requires
            self.wf(),
        ensures
            r == (self.view().len() == self.capacity()),
            self.view().len() <= self.capacity(),
    {
        self.head.wrapping_sub(self.tail) == self.cap
    }

    /// Whether no value is held.
    pub fn is_empty(&self) -> (r: bool)
        requires
            self.wf(),
        ensures
            r == (self.view().len() == 0),
    {
        self.head == self.tail
    }

    /// Appends `value` at the back; the queue must not be full.
    pub fn push(&mut self, value: T)
        requires
            old(self).wf(),
            old(self).view().len() < old(self).capacity(),
        ensures
            final(self).wf(),
            final(self).capacity() == old(self).capacity(),
            final(self).view() == old(self).view().push(value),
    {
        let ghost before = self.view();
        let n = self.head.wrapping_sub(self.tail);
        let i = (self.head & self.mask) as usize;
        proof {
            let h = self.head;
            let t = self.tail;
            assert((t + n) as u32 == h) by (bit_vector)
                requires
                    n == (if h >= t { (h - t) as u32 } else { (h + 0x1_0000_0000u64 - t) as u32 }),
            ;
            self.lemma_slot_bounds(n as int);
        }
        self.data.set(i, Some(value));
        self.head = self.head.wrapping_add(1);
        proof {
            assert(self.count() == n + 1);
            assert(self.slot(n as int) == i);
            assert forall|k: int| 0 <= k <= n implies (#[trigger] self.data@[self.slot(k)]) is Some
                && self.view()[k] == before.push(value)[k] by {
                self.lemma_slot_bounds(k);
                if k < n {
                    old(self).lemma_slots_distinct(k, n as int);
                    assert(old(self).slot(k) == self.slot(k));
                }
            }
            assert(self.view() =~= before.push(value));
        }
    }

    /// Removes and returns the front value, or `None` when empty.
    pub fn pop(&mut self) -> (r: Option<T>)
        requires
            old(self).wf(),
        ensures
            final(self).wf(),
            final(self).capacity() == old(self).capacity(),
            old(self).view().len() == 0 ==> r is None && final(self).view() == old(self).view(),
            old(self).view().len() > 0 ==> r == Some(old(self).view()[0])
                && final(self).view() == old(self).view().drop_first(),
    {
        if self.is_empty() {
            return None;
        }
        let ghost before = self.view();
        let ghost n = self.count();
        let i = (self.tail & self.mask) as usize;
        proof {
            self.lemma_slot_bounds(0);
            assert((self.tail + 0) as u32 == self.tail);
        }
        let mut taken: Option<T> = None;
        std::mem::swap(&mut taken, &mut self.data[i]);
        self.tail = self.tail.wrapping_add(1);
        proof {
            lemma_wrapping_add(old(self).tail, 1);
            assert(self.count() == n - 1);
            assert forall|k: int| 0 <= k < n - 1 implies (#[trigger] self.data@[self.slot(k)]) is Some
                && self.view()[k] == before.drop_first()[k] by {
                lemma_wrap_step(old(self).tail, k as u32);
                assert(self.slot(k) == old(self).slot(k + 1));
                old(self).lemma_slot_bounds(k + 1);
                old(self).lemma_slots_distinct(0, k + 1);
            }
            assert(self.view() =~= before.drop_first());
        }
        taken
    }
}

} // verus!
