//! Generational handle table.
//!
//! A handle is a 32-bit word holding a slot index in its low bits and a generation in the rest,
//! stored inverted so that the all-zero word never resolves. Each slot stores a word packed the
//! same way, holding the slot's current generation and a caller-defined payload. A handle
//! resolves while its generation equals its slot's; invalidating a slot moves its generation on
//! by one unit, so every handle issued for it before stops resolving.
use vstd::prelude::*;
use crate::bits::is_pow2;
use crate::ring_buf::{RingBuf, valid_ring_capacity};

verus! {

/// Sizes a table can be built with: a power of two no larger than `2^30`.
pub open spec fn valid_table_size(n: u32) -> bool {
    is_pow2(n) && n <= 0x4000_0000
}

/// Packs a payload (or index) and a generation into an inverted word.
pub open spec fn pack(value: u32, generation: u32) -> u32 {
    !(value | generation)
}

/// Abstract state of a table of size `n`: one stored word per usable slot and the free indices,
/// in the order in which they will be handed out.
pub struct TableView {
    pub n: u32,
    pub stores: Seq<u32>,
    pub free: Seq<u32>,
}

impl TableView {
    pub open spec fn mask(self) -> u32 {
        (self.n - 1) as u32
    }

    /// Slot index (or payload) held in the low bits of a packed word.
    pub open spec fn index_of(self, h: u32) -> u32 {
        !h & self.mask()
    }

    /// Generation held in the high bits of a packed word.
    pub open spec fn generation_of(self, h: u32) -> u32 {
        !h & !self.mask()
    }

    pub open spec fn wf(self) -> bool {
        &&& valid_table_size(self.n)
        &&& self.stores.len() == self.n - 1
        &&& self.free.no_duplicates()
        &&& forall|k: int| 0 <= k < self.free.len() ==> #[trigger] self.free[k] < self.n - 1
    }

    /// Payload that `h` resolves to, if its generation matches its slot's.
    pub open spec fn lookup(self, h: u32) -> Option<u32> {
        let i = self.index_of(h) as int;
        if i < self.stores.len() && self.generation_of(self.stores[i]) == self.generation_of(h) {
            Some(self.index_of(self.stores[i]))
        } else {
            None
        }
    }

    /// Handle that the next allocation returns: the front free index with its slot's generation.
    pub open spec fn next_handle(self) -> u32 {
        let i = self.free[0];
        pack(i, self.generation_of(self.stores[i as int]))
    }

    pub open spec fn allocate(self) -> TableView {
        TableView { free: self.free.drop_first(), ..self }
    }

    pub open spec fn release(self, h: u32) -> TableView {
        TableView { free: self.free.push(self.index_of(h)), ..self }
    }

    pub open spec fn set(self, h: u32, value: u32) -> TableView {
        if self.lookup(h) is Some {
            TableView {
                stores: self.stores.update(
                    self.index_of(h) as int,
                    pack(value, self.generation_of(h)),
                ),
                ..self
            }
        } else {
            self
        }
    }

    /// Moves the generation of `h`'s slot on by one unit, keeping its payload.
    pub open spec fn invalidate(self, h: u32) -> TableView {
        let i = self.index_of(h) as int;
        if i < self.stores.len() {
            TableView { stores: self.stores.update(i, (self.stores[i] + self.n) as u32), ..self }
        } else {
            self
        }
    }
}

pub proof fn lemma_pack_unpack(v: u32, g: u32, m: u32)
    requires
        v <= m,
        g & m == 0,
        ((m + 1) as u32) & m == 0,
    ensures
        !pack(v, g) & m == v,
        !pack(v, g) & !m == g,
{
    assert(!(!(v | g)) & m == v && !(!(v | g)) & !m == g) by (bit_vector)
        requires
            v <= m,
            g & m == 0,
            ((m + 1) as u32) & m == 0,
    ;
}

pub proof fn lemma_generation_bits(h: u32, m: u32)
    ensures
        (!h & !m) & m == 0,
        !h & m <= m,
{
    assert((!h & !m) & m == 0 && !h & m <= m) by (bit_vector);
}

/// A word is determined by its index and generation.
pub proof fn lemma_pack_split(h: u32, m: u32)
    ensures
        pack(!h & m, !h & !m) == h,
{
    assert(!((!h & m) | (!h & !m)) == h) by (bit_vector);
}

/// Adding one generation unit to a stored word keeps its payload and changes its generation.
pub proof fn lemma_bump(s: u32, n: u32)
    requires
        valid_table_size(n),
    ensures
        !((s + n) as u32) & ((n - 1) as u32) == !s & ((n - 1) as u32),
        !((s + n) as u32) & !((n - 1) as u32) != !s & !((n - 1) as u32),
{
    assert(!((s + n) as u32) & ((n - 1) as u32) == !s & ((n - 1) as u32)
        && !((s + n) as u32) & !((n - 1) as u32) != !s & !((n - 1) as u32)) by (bit_vector)
        requires
            n != 0,
            n & ((n - 1) as u32) == 0,
            n <= 0x4000_0000u32,
    ;
}

/// Distinct values below `bound` number at most `bound`.
proof fn lemma_distinct_below(s: Seq<u32>, bound: int)
    requires
        s.no_duplicates(),
        bound >= 0,
        forall|k: int| 0 <= k < s.len() ==> #[trigger] s[k] < bound,
    ensures
        s.len() <= bound,
{
    let si = s.map_values(|x: u32| x as int);
    assert(si.no_duplicates()) by {
        assert forall|a: int, b: int| 0 <= a < si.len() && 0 <= b < si.len() && a != b implies si[a]
            != si[b] by {
            assert(s[a] != s[b]);
        }
    }
    si.unique_seq_to_set();
    assert(si.to_set().subset_of(vstd::set_lib::set_int_range(0, bound)));
    vstd::set_lib::lemma_int_range(0, bound);
    vstd::set_lib::lemma_len_subset(si.to_set(), vstd::set_lib::set_int_range(0, bound));
}

/// Table of `N - 1` slots addressed by generation-checked handles. The largest index is kept
/// back so that the all-zero handle never resolves.
pub struct RawTable<const N: usize> {
    storage: Vec<u32>,
    free_ids: RingBuf<u32, N>,
}

impl<const N: usize> View for RawTable<N> {
    type V = TableView;

    closed spec fn view(&self) -> TableView {
        TableView { n: N as u32, stores: self.storage@, free: self.free_ids.view() }
    }
}

impl<const N: usize> RawTable<N> {
    pub closed spec fn wf(&self) -> bool {
        &&& N <= 0x4000_0000
        &&& self@.wf()
        &&& self.free_ids.wf()
    }

    pub proof fn lemma_view_wf(&self)
        requires
            self.wf(),
        ensures
            self@.wf(),
            self@.n == N,
    {
    }

    /// Table whose slots all hold the zero word and whose free indices are `0..N-1` in order.
    pub fn new() -> (r: Self)
        requires
            N <= 0x4000_0000,
            valid_table_size(N as u32),
        ensures
            r.wf(),
            r@.n == N,
            r@.stores == Seq::new((N - 1) as nat, |_k: int| 0u32),
            r@.free == Seq::new((N - 1) as nat, |k: int| k as u32),
    {
        assert(valid_ring_capacity(N));
        let len = (N - 1) as u32;
        let mut storage: Vec<u32> = Vec::with_capacity(N - 1);
        let mut free_ids: RingBuf<u32, N> = RingBuf::new();
        let mut i: u32 = 0;
        while i < len
            invariant
                len == N - 1,
                i <= len,
                valid_ring_capacity(N),
                free_ids.wf(),
                storage@ == Seq::new(i as nat, |_k: int| 0u32),
                free_ids.view() == Seq::new(i as nat, |k: int| k as u32),
            decreases len - i,
        {
            storage.push(0);
            free_ids.push_back(i);
            i = i + 1;
            assert(storage@ =~= Seq::new(i as nat, |_k: int| 0u32));
            assert(free_ids.view() =~= Seq::new(i as nat, |k: int| k as u32));
        }
        let r = RawTable { storage, free_ids };
        assert(r@.free.no_duplicates());
        r
    }

    /// Hands out a handle for the front free index, carrying its slot's current generation.
    /// The free list must not be empty.
    pub fn allocate_handle(&mut self) -> (r: u32)
        requires
            old(self).wf(),
            old(self)@.free.len() > 0,
        ensures
            final(self).wf(),
            r == old(self)@.next_handle(),
            final(self)@ == old(self)@.allocate(),
            final(self)@.lookup(r) is Some,
            final(self)@.index_of(r) == old(self)@.free[0],
    {
        let mask = (N - 1) as u32;
        let index = self.free_ids.pop_front().unwrap();
        let ghost m = self@.mask();
        proof {
            assert(old(self)@.free.contains(index));
            assert(mask == m);
        }
        let store = self.storage[index as usize];
        let generation = !store & !mask;
        let r = !(index | generation);
        proof {
            lemma_generation_bits(store, m);
            lemma_pack_unpack(index, generation, m);
            assert(self@.free =~= old(self)@.free.drop_first());
            assert(self@.free.no_duplicates());
            assert forall|k: int| 0 <= k < self@.free.len() implies #[trigger] self@.free[k] < self@.n
                - 1 by {
                assert(self@.free[k] == old(self)@.free[k + 1]);
            }
        }
        r
    }

    /// Like `allocate_handle`, but returns `None` when no index is free.
    pub fn try_allocate_handle(&mut self) -> (r: Option<u32>)
        requires
            old(self).wf(),
        ensures
            final(self).wf(),
            old(self)@.free.len() == 0 ==> r is None && final(self)@ == old(self)@,
            old(self)@.free.len() > 0 ==> r == Some(old(self)@.next_handle()) && final(self)@
                == old(self)@.allocate(),
    {
        if self.free_ids.is_empty() {
            None
        } else {
            Some(self.allocate_handle())
        }
    }

    /// Number of indices that can still be handed out.
    pub fn free_count(&self) -> (r: usize)
        requires
            self.wf(),
        ensures
            r == self@.free.len(),
    {
        self.free_ids.len()
    }

    /// Returns the index of `handle` to the back of the free list. The slot keeps its
    /// generation: call `invalidate` first so that `handle` stops resolving.
    pub fn release_handle(&mut self, handle: u32)
        requires
            old(self).wf(),
            old(self)@.index_of(handle) < N - 1,
            !old(self)@.free.contains(old(self)@.index_of(handle)),
        ensures
            final(self).wf(),
            final(self)@ == old(self)@.release(handle),
    {
        let index = !handle & ((N - 1) as u32);
        proof {
            let s = old(self)@.free.push(index);
            assert forall|a: int, b: int| 0 <= a < s.len() && 0 <= b < s.len() && a != b implies s[a]
                != s[b] by {
                if a == s.len() - 1 {
                    assert(old(self)@.free[b] == s[b]);
                } else if b == s.len() - 1 {
                    assert(old(self)@.free[a] == s[a]);
                }
            }
            assert(s.no_duplicates());
            lemma_distinct_below(s, N - 1);
        }
        self.free_ids.push_back(index);
        proof {
            assert(self@.free =~= old(self)@.free.push(index));
            let s = self@.free;
            assert forall|a: int, b: int| 0 <= a < s.len() && 0 <= b < s.len() && a != b implies s[a]
                != s[b] by {
                if a == s.len() - 1 {
                    assert(old(self)@.free[b] == s[b]);
                } else if b == s.len() - 1 {
                    assert(old(self)@.free[a] == s[a]);
                }
            }
        }
    }

    /// Payload stored for `handle`, or `None` if its generation does not match its slot's.
    pub fn get(&self, handle: u32) -> (r: Option<u32>)
        requires
            self.wf(),
        ensures
            r == self@.lookup(handle),
    {
        let mask = (N - 1) as u32;
        let index = (!handle & mask) as usize;
        if index < self.storage.len() {
            let store = self.storage[index];
            if !store & !mask == !handle & !mask {
                return Some(!store & mask);
            }
        }
        None
    }

    /// Stores `new_value` as the payload of `handle`'s slot if `handle` resolves; returns
    /// whether it did.
    pub fn set(&mut self, handle: u32, new_value: u32) -> (r: bool)
        requires
            old(self).wf(),
            new_value < N,
        ensures
            final(self).wf(),
            r == old(self)@.lookup(handle) is Some,
            final(self)@ == old(self)@.set(handle, new_value),
            r ==> final(self)@.lookup(handle) == Some(new_value),
    {
        let mask = (N - 1) as u32;
        let index = (!handle & mask) as usize;
        if index < self.storage.len() {
            let store = self.storage[index];
            let store_generation = !store & !mask;
            if store_generation == !handle & !mask {
                self.storage.set(index, !(new_value | store_generation));
                proof {
                    lemma_generation_bits(store, mask);
                    lemma_pack_unpack(new_value, store_generation, mask);
                }
                return true;
            }
        }
        false
    }

    /// Moves the generation of `handle`'s slot on by one unit, whether or not `handle` itself
    /// still resolves. Every handle that resolved through that slot stops resolving.
    pub fn invalidate(&mut self, handle: u32)
        requires
            old(self).wf(),
        ensures
            final(self).wf(),
            final(self)@ == old(self)@.invalidate(handle),
            forall|g: u32|
                #![trigger final(self)@.lookup(g)]
                old(self)@.index_of(g) == old(self)@.index_of(handle) && old(self)@.lookup(g) is Some
                    ==> final(self)@.lookup(g) is None,
    {
        let index = (!handle & ((N - 1) as u32)) as usize;
        if index < self.storage.len() {
            let store = self.storage[index];
            self.storage.set(index, store.wrapping_add(N as u32));
            proof {
                crate::bits::lemma_wrapping_add(store, N as u32);
                lemma_bump(store, N as u32);
            }
        }
    }
}

/// The free indices left after an allocation are the earlier ones but the front one.
pub proof fn lemma_allocate_free(t: TableView, x: u32)
    requires
        t.wf(),
        t.free.len() > 0,
    ensures
        t.allocate().free.contains(x) <==> (t.free.contains(x) && x != t.free[0]),
{
    let f = t.allocate().free;
    if f.contains(x) {
        let k = choose|k: int| 0 <= k < f.len() && f[k] == x;
        assert(t.free[k + 1] == x);
    }
    if t.free.contains(x) && x != t.free[0] {
        let k = choose|k: int| 0 <= k < t.free.len() && t.free[k] == x;
        assert(f[k - 1] == x);
    }
}

/// A handle resolves as soon as it has been handed out.
pub proof fn lemma_allocated_resolves(t: TableView)
    requires
        t.wf(),
        t.free.len() > 0,
    ensures
        t.allocate().lookup(t.next_handle()) is Some,
        t.index_of(t.next_handle()) == t.free[0],
{
    let i = t.free[0];
    let store = t.stores[i as int];
    lemma_generation_bits(store, t.mask());
    lemma_pack_unpack(i, t.generation_of(store), t.mask());
}

/// Once a slot is invalidated, no handle that resolved through it resolves any more, and a
/// `set` through such a handle changes nothing.
pub proof fn lemma_invalidated_misses(t: TableView, h: u32, g: u32, value: u32)
    requires
        t.wf(),
        t.index_of(g) == t.index_of(h),
        t.lookup(g) is Some,
    ensures
        t.invalidate(h).lookup(g) is None,
        t.invalidate(h).set(g, value) == t.invalidate(h),
{
    lemma_bump(t.stores[t.index_of(h) as int], t.n);
}

/// A live handle, one that resolves and whose index is not free, is never handed out again.
pub proof fn lemma_next_handle_is_fresh(t: TableView, g: u32)
    requires
        t.wf(),
        t.free.len() > 0,
        t.lookup(g) is Some,
        !t.free.contains(t.index_of(g)),
    ensures
        t.next_handle() != g,
{
    lemma_allocated_resolves(t);
    assert(t.free.contains(t.free[0]));
}

/// Invalidating a live handle, releasing it and allocating again never hands the same handle
/// back, and the old handle keeps missing.
pub proof fn lemma_reissue_after_release(t: TableView, h: u32)
    requires
        t.wf(),
        t.lookup(h) is Some,
        !t.free.contains(t.index_of(h)),
    ensures
        t.invalidate(h).release(h).wf(),
        t.invalidate(h).release(h).free.len() > 0,
        t.invalidate(h).release(h).next_handle() != h,
        t.invalidate(h).release(h).allocate().lookup(h) is None,
{
    let u = t.invalidate(h).release(h);
    let i = t.index_of(h);
    lemma_bump(t.stores[i as int], t.n);
    assert(u.free.no_duplicates()) by {
        assert forall|a: int, b: int| 0 <= a < u.free.len() && 0 <= b < u.free.len() && a != b
            implies u.free[a] != u.free[b] by {
            if a == u.free.len() - 1 {
                assert(t.free[b] == u.free[b]);
            } else if b == u.free.len() - 1 {
                assert(t.free[a] == u.free[a]);
            }
        }
    }
    lemma_allocated_resolves(u);
    if u.free[0] == i {
        lemma_generation_bits(u.stores[i as int], u.mask());
        lemma_pack_unpack(i, u.generation_of(u.stores[i as int]), u.mask());
    }
}

} // verus!
