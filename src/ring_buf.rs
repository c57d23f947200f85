//! A fixed-capacity ring buffer over a power-of-two backing buffer.
//!
//! `head` and `tail` are free-running 32-bit counters that wrap on overflow; the slot of a
//! counter is found by masking it with `N - 1`. The buffer is full when the counters are `N`
//! apart and empty when they are equal, so no separate count is kept.
use vstd::prelude::*;
use crate::bits::{is_pow2, lemma_mask_distinct, lemma_wrap_step, lemma_wrapping_add};

verus! {

/// Ring buffer holding at most `N` values, `N` a power of two no larger than `2^31`.
pub struct RingBuf<T, const N: usize> {
    head: u32,
    tail: u32,
    data: Vec<Option<T>>,
}

/// The capacities a ring buffer can be built with.
pub open spec fn valid_ring_capacity(n: usize) -> bool {
    0 < n <= 0x8000_0000 && is_pow2(n as u32)
}

impl<T, const N: usize> RingBuf<T, N> {
    /// Mask that turns a counter into a slot of the backing buffer.
    pub open spec fn mask() -> u32 {
        (N - 1) as u32
    }

    /// Slot of the backing buffer that holds the `k`-th value from the front.
    pub closed spec fn slot(&self, k: int) -> int {
        (((self.tail + k) as u32) & Self::mask()) as int
    }

    /// Number of values held: the distance between the counters.
    pub closed spec fn count(&self) -> nat {
        if self.head >= self.tail {
            (self.head - self.tail) as nat
        } else {
            (self.head + 0x1_0000_0000 - self.tail) as nat
        }
    }

    pub closed spec fn wf(&self) -> bool {
        &&& valid_ring_capacity(N)
        &&& self.data@.len() == N
        &&& self.count() <= N
        &&& forall|k: int| 0 <= k < self.count() ==> (#[trigger] self.data@[self.slot(k)]) is Some
    }

    /// Values held, from the front (next to pop) to the back (last pushed).
    pub closed spec fn view(&self) -> Seq<T> {
        Seq::new(self.count(), |k: int| self.data@[self.slot(k)]->Some_0)
    }

    proof fn lemma_slot_bounds(&self, k: int)
        requires
            valid_ring_capacity(N),
        ensures
            0 <= self.slot(k) < N,
    {
        let t = (self.tail + k) as u32;
        let m = Self::mask();
        assert(t & m <= m) by (bit_vector);
    }

    proof fn lemma_slots_distinct(&self, k: int, j: int)
        requires
            valid_ring_capacity(N),
            0 <= k < j < N,
        ensures
            self.slot(k) != self.slot(j),
    {
        let m = Self::mask();
        assert(((m + 1) as u32) & m == 0);
        lemma_mask_distinct(self.tail, k as u32, j as u32, m);
    }

    /// Empty ring buffer whose counters both start at `start`.
    pub fn new_at(start: u32) -> (r: Self)
        requires
            valid_ring_capacity(N),
        ensures
            r.wf(),
            r.view() == Seq::<T>::empty(),
    {
        let mut data: Vec<Option<T>> = Vec::with_capacity(N);
        let mut i: usize = 0;
        while i < N
            invariant
                i <= N,
                data@.len() == i,
            decreases N - i,
        {
            data.push(None);
            i = i + 1;
        }
        let r = RingBuf { head: start, tail: start, data };
        assert(r.view() =~= Seq::<T>::empty());
        r
    }

    /// Empty ring buffer.
    pub fn new() -> (r: Self)
        requires
            valid_ring_capacity(N),
        ensures
            r.wf(),
            r.view() == Seq::<T>::empty(),
    {
        Self::new_at(0)
    }

    /// A ring buffer never holds more than `N` values.
    pub proof fn lemma_len_bound(&self)
        requires
            self.wf(),
        ensures
            self.view().len() <= N,
    {
    }

    /// Whether `N` values are held.
    pub fn is_full(&self) -> (r: bool)
        requires
            self.wf(),
        ensures
            r == (self.view().len() == N),
            self.view().len() <= N,
    {
        self.head.wrapping_sub(self.tail) == (N as u32)
    }

    /// Whether no value is held.
    pub fn is_empty(&self) -> (r: bool)
        requires
            self.wf(),
        ensures
            r == (self.view().len() == 0),
    {
        self.head == self.tail
    }

    /// The fixed capacity `N`.
    pub fn capacity(&self) -> (r: usize)
        ensures
            r == N,
    {
        N
    }

    /// Number of values held.
    pub fn len(&self) -> (r: usize)
        requires
            self.wf(),
        ensures
            r == self.view().len(),
            r <= N,
    {
        self.head.wrapping_sub(self.tail) as usize
    }

    /// Appends `value` at the back; the buffer must not be full.
    pub fn push_back(&mut self, value: T)
        requires
            old(self).wf(),
            old(self).view().len() < N,
        ensures
            final(self).wf(),
            final(self).view() == old(self).view().push(value),
    {
        let ghost before = self.view();
        let n = self.head.wrapping_sub(self.tail);
        let i = (self.head & ((N - 1) as u32)) as usize;
        proof {
            let h = self.head;
            let t = self.tail;
            assert((t + n) as u32 == h) by (bit_vector)
                requires
                    n == (if h >= t { (h - t) as u32 } else { (h + 0x1_0000_0000u64 - t) as u32 }),
            ;
            self.lemma_slot_bounds(n as int);
        }
        self.data.set(i, Some(value));
        self.head = self.head.wrapping_add(1);
        proof {
            assert(self.count() == n + 1);
            assert(self.slot(n as int) == i);
            assert forall|k: int| 0 <= k < n implies self.slot(k) != self.slot(n as int) by {
                self.lemma_slots_distinct(k, n as int);
            }
            assert forall|k: int| 0 <= k <= n implies (#[trigger] self.data@[self.slot(k)]) is Some
                && self.view()[k] == before.push(value)[k] by {
                self.lemma_slot_bounds(k);
                if k < n {
                    self.lemma_slots_distinct(k, n as int);
                    assert(old(self).slot(k) == self.slot(k));
                }
            }
            assert(self.view() =~= before.push(value));
        }
    }

    /// Removes and returns the front value, or `None` when empty.
    pub fn pop_front(&mut self) -> (r: Option<T>)
        requires
            old(self).wf(),
        ensures
            final(self).wf(),
            old(self).view().len() == 0 ==> r is None && final(self).view() == old(self).view(),
            old(self).view().len() > 0 ==> r == Some(old(self).view()[0])
                && final(self).view() == old(self).view().drop_first(),
    {
        if self.is_empty() {
            return None;
        }
        let ghost before = self.view();
        let ghost n = self.count();
        let i = (self.tail & ((N - 1) as u32)) as usize;
        proof {
            self.lemma_slot_bounds(0);
            assert((self.tail + 0) as u32 == self.tail);
        }
        let mut taken: Option<T> = None;
        std::mem::swap(&mut taken, &mut self.data[i]);
        self.tail = self.tail.wrapping_add(1);
        proof {
            lemma_wrapping_add(old(self).tail, 1);
            assert(self.count() == n - 1);
            assert forall|k: int| 0 <= k < n - 1 implies (#[trigger] self.data@[self.slot(k)]) is Some
                && self.view()[k] == before.drop_first()[k] by {
                lemma_wrap_step(old(self).tail, k as u32);
                assert(self.slot(k) == old(self).slot(k + 1));
                old(self).lemma_slot_bounds(k + 1);
                old(self).lemma_slots_distinct(0, k + 1);
            }
            assert(self.view() =~= before.drop_first());
        }
        taken
    }

    /// Reference to the `index`-th value from the front, or `None` past the back.
    pub fn get(&self, index: usize) -> (r: Option<&T>)
        requires
            self.wf(),
        ensures
            index < self.view().len() ==> r == Some(&self.view()[index as int]),
            index >= self.view().len() ==> r is None,
    {
        let n = self.head.wrapping_sub(self.tail);
        if index >= n as usize {
            return None;
        }
        let c = self.tail.wrapping_add(index as u32);
        let i = (c & ((N - 1) as u32)) as usize;
        proof {
            lemma_wrapping_add(self.tail, index as u32);
            self.lemma_slot_bounds(index as int);
        }
        match &self.data[i] {
            Some(v) => Some(v),
            None => None,
        }
    }
}

/// Contents after pushing the values of `s` one by one at the back of `v`.
pub open spec fn pushed_all<T>(v: Seq<T>, s: Seq<T>) -> Seq<T>
    decreases s.len(),
{
    if s.len() == 0 {
        v
    } else {
        pushed_all(v.push(s[0]), s.drop_first())
    }
}

/// Contents after popping `j` values from the front of `v`.
pub open spec fn popped_times<T>(v: Seq<T>, j: nat) -> Seq<T>
    decreases j,
{
    if j == 0 {
        v
    } else {
        popped_times(v.drop_first(), (j - 1) as nat)
    }
}

proof fn lemma_pushed_all<T>(v: Seq<T>, s: Seq<T>)
    ensures
        pushed_all(v, s) == v + s,
    decreases s.len(),
{
    if s.len() > 0 {
        lemma_pushed_all(v.push(s[0]), s.drop_first());
        assert(v.push(s[0]) + s.drop_first() =~= v + s);
    } else {
        assert(v + s =~= v);
    }
}

proof fn lemma_popped_times<T>(v: Seq<T>, j: nat)
    requires
        j <= v.len(),
    ensures
        popped_times(v, j) == v.skip(j as int),
    decreases j,
{
    if j > 0 {
        lemma_popped_times(v.drop_first(), (j - 1) as nat);
        assert(v.drop_first().skip(j - 1) =~= v.skip(j as int));
    } else {
        assert(v.skip(0) =~= v);
    }
}

/// A ring buffer is first in, first out: after the values of `s` are pushed into an empty
/// buffer, the `j`-th pop yields `s[j]`, and `s.len()` pops leave it empty.
pub proof fn lemma_fifo<T>(s: Seq<T>, j: int)
    requires
        0 <= j < s.len(),
    ensures
        popped_times(pushed_all(Seq::<T>::empty(), s), j as nat)[0] == s[j],
        popped_times(pushed_all(Seq::<T>::empty(), s), s.len()) == Seq::<T>::empty(),
{
    lemma_pushed_all(Seq::<T>::empty(), s);
    assert(Seq::<T>::empty() + s =~= s);
    lemma_popped_times(s, j as nat);
    lemma_popped_times(s, s.len());
    assert(s.skip(s.len() as int) =~= Seq::<T>::empty());
}

/// A ring buffer is never full and empty at once.
pub proof fn lemma_never_full_and_empty<T, const N: usize>(r: &RingBuf<T, N>)
    requires
        r.wf(),
    ensures
        !(r.view().len() == N && r.view().len() == 0),
{
}

} // verus!
