//! A growable array whose whole reservation is made when it is built.
//!
//! `new` reserves room for `mapping` elements up front; growth never moves the elements, it only
//! raises the committed capacity, in steps of at least a sixteenth of the reservation. Running
//! past the reservation is a capacity error that callers rule out.
use vstd::prelude::*;

verus! {

/// Largest reservation, in elements.
pub const MAX_ELEMENTS: usize = usize::MAX / 2;

/// Abstract state: the elements, the committed capacity and the reservation.
pub struct VecView<T> {
    pub items: Seq<T>,
    pub cap: nat,
    pub map: nat,
}

impl<T> VecView<T> {
    pub open spec fn wf(self) -> bool {
        0 < self.map <= MAX_ELEMENTS && self.items.len() <= self.cap <= self.map
    }

    /// Capacity after asking for room for `additional` more elements: unchanged when it
    /// suffices, else raised by the larger of `additional` and a sixteenth of the reservation,
    /// but never past the reservation.
    pub open spec fn grown_cap(self, additional: nat) -> nat {
        if additional <= self.cap - self.items.len() {
            self.cap
        } else {
            let step = if additional > self.map / 16 { additional } else { self.map / 16 };
            if self.cap + step > self.map {
                self.map
            } else {
                self.cap + step
            }
        }
    }

    pub open spec fn reserve(self, additional: nat) -> VecView<T> {
        VecView { cap: self.grown_cap(additional), ..self }
    }

    pub open spec fn push(self, x: T) -> VecView<T> {
        VecView { items: self.items.push(x), cap: self.grown_cap(1), ..self }
    }

    pub open spec fn pop(self) -> VecView<T> {
        if self.items.len() == 0 {
            self
        } else {
            VecView { items: self.items.drop_last(), ..self }
        }
    }

    pub open spec fn insert(self, index: int, x: T) -> VecView<T> {
        VecView { items: self.items.insert(index, x), cap: self.grown_cap(1), ..self }
    }
}

/// Vector of at most `mapping` elements whose storage is reserved at construction.
pub struct VirtualVec<T> {
    map: usize,
    cap: usize,
    items: Vec<T>,
}

impl<T> View for VirtualVec<T> {
    type V = VecView<T>;

    closed spec fn view(&self) -> VecView<T> {
        VecView { items: self.items@, cap: self.cap as nat, map: self.map as nat }
    }
}

impl<T> VirtualVec<T> {
    pub closed spec fn wf(&self) -> bool {
        self@.wf()
    }

    /// A well-formed vector holds no more than its committed capacity, which is within its
    /// reservation.
    pub proof fn lemma_bounds(&self)
        requires
            self.wf(),
        ensures
            self@.wf(),
            self@.items.len() <= self@.cap <= self@.map,
    {
    }

    /// Empty vector with room reserved for `map` elements and nothing committed. Failing to
    /// reserve the room is fatal, as any allocation failure is.
    pub fn new(map: usize) -> (r: Self)
        requires
            0 < map <= MAX_ELEMENTS,
        ensures
            r.wf(),
            r@ == (VecView::<T> { items: Seq::empty(), cap: 0, map: map as nat }),
    {
        VirtualVec { map, cap: 0, items: Vec::with_capacity(map) }
    }

    pub fn is_empty(&self) -> (r: bool)
        ensures
            r == (self@.items.len() == 0),
    {
        self.items.len() == 0
    }

    pub fn len(&self) -> (r: usize)
        ensures
            r == self@.items.len(),
    {
        self.items.len()
    }

    /// Committed capacity.
    pub fn capacity(&self) -> (r: usize)
        ensures
            r == self@.cap,
    {
        self.cap
    }

    /// Size of the reservation, in elements.
    pub fn mapping(&self) -> (r: usize)
        ensures
            r == self@.map,
    {
        self.map
    }

    /// Drops the elements from `len` on; the capacity stays.
    pub fn truncate(&mut self, len: usize)
        requires
            old(self).wf(),
        ensures
            final(self).wf(),
            final(self)@ == (VecView {
                items: if len < old(self)@.items.len() {
                    old(self)@.items.take(len as int)
                } else {
                    old(self)@.items
                },
                ..old(self)@
            }),
    {
        if len < self.items.len() {
            self.items.truncate(len);
        }
    }

    /// Drops every element; the capacity stays.
    pub fn clear(&mut self)
        requires
            old(self).wf(),
        ensures
            final(self).wf(),
            final(self)@ == (VecView { items: Seq::<T>::empty(), ..old(self)@ }),
    {
        self.items.clear();
    }

    fn capacity_sufficient_for(&self, additional: usize) -> (r: bool)
        requires
            self.wf(),
        ensures
            r == (additional <= self@.cap - self@.items.len()),
    {
        additional <= self.cap - self.items.len()
    }

    fn grow(&mut self, additional: usize)
        requires
            old(self).wf(),
            old(self)@.items.len() + additional <= old(self)@.map,
            additional > old(self)@.cap - old(self)@.items.len(),
        ensures
            final(self).wf(),
            final(self)@ == old(self)@.reserve(additional as nat),
    {
        let growth_amount = self.map / 16;
        let step = if additional > growth_amount {
            additional
        } else {
            growth_amount
        };
        let new_capacity = if self.cap + step > self.map {
            self.map
        } else {
            self.cap + step
        };
        self.cap = new_capacity;
    }

    /// Commits room for at least `additional` more elements. Existing elements stay where they
    /// are. The reservation must have room for them.
    pub fn reserve(&mut self, additional: usize)
        requires
            old(self).wf(),
            old(self)@.items.len() + additional <= old(self)@.map,
        ensures
            final(self).wf(),
            final(self)@ == old(self)@.reserve(additional as nat),
            final(self)@.items.len() + additional <= final(self)@.cap,
    {
        if self.capacity_sufficient_for(additional) {
            return;
        }
        self.grow(additional);
    }

    /// Appends `element`; the reservation must not be full.
    pub fn push(&mut self, element: T)
        requires
            old(self).wf(),
            old(self)@.items.len() < old(self)@.map,
        ensures
            final(self).wf(),
            final(self)@ == old(self)@.push(element),
    {
        self.reserve(1);
        self.items.push(element);
    }

    /// Removes and returns the last element, or `None` when empty.
    pub fn pop(&mut self) -> (r: Option<T>)
        requires
            old(self).wf(),
        ensures
            final(self).wf(),
            final(self)@ == old(self)@.pop(),
            r == (if old(self)@.items.len() == 0 {
                None
            } else {
                Some(old(self)@.items.last())
            }),
    {
        self.items.pop()
    }

    /// Inserts `element` at `index`, shifting the tail up by one.
    pub fn insert(&mut self, index: usize, element: T)
        requires
            old(self).wf(),
            index <= old(self)@.items.len(),
            old(self)@.items.len() < old(self)@.map,
        ensures
            final(self).wf(),
            final(self)@ == old(self)@.insert(index as int, element),
    {
        self.reserve(1);
        self.items.insert(index, element);
    }

    /// Removes and returns the element at `index`, shifting the tail down by one.
    pub fn remove(&mut self, index: usize) -> (r: T)
        requires
            old(self).wf(),
            index < old(self)@.items.len(),
        ensures
            final(self).wf(),
            r == old(self)@.items[index as int],
            final(self)@ == (VecView { items: old(self)@.items.remove(index as int), ..old(self)@ }),
    {
        self.items.remove(index)
    }

    /// Removes and returns the element at `index`, moving the last element into its place.
    pub fn swap_remove(&mut self, index: usize) -> (r: T)
        requires
            old(self).wf(),
            index < old(self)@.items.len(),
        ensures
            final(self).wf(),
            r == old(self)@.items[index as int],
            final(self)@ == (VecView {
                items: old(self)@.items.update(index as int, old(self)@.items.last()).drop_last(),
                ..old(self)@
            }),
    {
        let r = self.items.swap_remove(index);
        proof {
            assert(self@.items =~= old(self)@.items.update(index as int, old(self)@.items.last()).drop_last());
        }
        r
    }

    /// The element at `index`.
    pub fn get(&self, index: usize) -> (r: &T)
        requires
            index < self@.items.len(),
        ensures
            *r == self@.items[index as int],
    {
        &self.items[index]
    }

    /// Puts `value` at `index` and returns the element that was there.
    pub fn replace(&mut self, index: usize, value: T) -> (r: T)
        requires
            old(self).wf(),
            index < old(self)@.items.len(),
        ensures
            final(self).wf(),
            r == old(self)@.items[index as int],
            final(self)@ == (VecView { items: old(self)@.items.update(index as int, value), ..old(self)@ }),
    {
        let mut v = value;
        std::mem::swap(&mut v, &mut self.items[index]);
        v
    }

    /// The elements as a mutable slice; what is written through it becomes the elements.
    pub fn as_mut_slice(&mut self) -> (r: &mut [T])
        requires
            old(self).wf(),
        ensures
            r@ == old(self)@.items,
            final(self)@ == (VecView { items: final(r)@, ..old(self)@ }),
    {
        self.items.as_mut_slice()
    }

    /// The elements as a slice.
    pub fn as_slice(&self) -> (r: &[T])
        ensures
            r@ == self@.items,
    {
        self.items.as_slice()
    }
}

/// A call that only adds: `push` or `reserve`.
pub enum GrowStep<T> {
    Push(T),
    Reserve(nat),
}

/// State after applying `steps` in order.
pub open spec fn apply_steps<T>(v: VecView<T>, steps: Seq<GrowStep<T>>) -> VecView<T>
    decreases steps.len(),
{
    if steps.len() == 0 {
        v
    } else {
        let next = match steps[0] {
            GrowStep::Push(x) => v.push(x),
            GrowStep::Reserve(n) => v.reserve(n),
        };
        apply_steps(next, steps.drop_first())
    }
}

/// Pushes and reserves never move an element: after any run of them, element `i` is still
/// element `i`, the reservation is the same, and the capacity has not shrunk.
pub proof fn lemma_growth_keeps_elements<T>(v: VecView<T>, steps: Seq<GrowStep<T>>, i: int)
    requires
        v.wf(),
        0 <= i < v.items.len(),
    ensures
        apply_steps(v, steps).items.len() >= v.items.len(),
        apply_steps(v, steps).items[i] == v.items[i],
        apply_steps(v, steps).map == v.map,
        apply_steps(v, steps).cap >= v.cap,
{
    lemma_steps_monotone(v, steps, i);
}

proof fn lemma_steps_monotone<T>(v: VecView<T>, steps: Seq<GrowStep<T>>, i: int)
    requires
        v.cap <= v.map,
        0 <= i < v.items.len(),
    ensures
        apply_steps(v, steps).items.len() >= v.items.len(),
        apply_steps(v, steps).items[i] == v.items[i],
        apply_steps(v, steps).map == v.map,
        apply_steps(v, steps).cap >= v.cap,
    decreases steps.len(),
{
    if steps.len() > 0 {
        let next = match steps[0] {
            GrowStep::Push(x) => v.push(x),
            GrowStep::Reserve(n) => v.reserve(n),
        };
        lemma_steps_monotone(next, steps.drop_first(), i);
    }
}

/// State after `n` rounds of pushing `x` and popping it again.
pub open spec fn push_pop_rounds<T>(v: VecView<T>, x: T, n: nat) -> VecView<T>
    decreases n,
{
    if n == 0 {
        v
    } else {
        push_pop_rounds(v.push(x).pop(), x, (n - 1) as nat)
    }
}

/// On an empty vector, any number of push-then-pop rounds leaves it empty, and the capacity
/// after them is the capacity after the first push: a vector with capacity keeps it unchanged.
pub proof fn lemma_push_pop_rounds<T>(v: VecView<T>, x: T, n: nat)
    requires
        v.wf(),
        v.items.len() == 0,
    ensures
        push_pop_rounds(v, x, n).items.len() == 0,
        n > 0 ==> push_pop_rounds(v, x, n).cap == v.grown_cap(1),
        v.cap > 0 ==> push_pop_rounds(v, x, n).cap == v.cap,
    decreases n,
{
    if n > 0 {
        let w = v.push(x).pop();
        assert(w.items =~= Seq::<T>::empty());
        lemma_push_pop_rounds(w, x, (n - 1) as nat);
    }
}

} // verus!
