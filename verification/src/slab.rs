//! A growing, typed slab allocator.
//!
//! The allocator preallocates a pool of slots and hands them out as counted
//! handles. Handles to one slot share it: a duplicate observes every
//! mutation. A slot returns to the pool when its last handle is freed, and
//! the pool doubles when an allocation finds it full.

use core::marker::PhantomData;
use vstd::prelude::*;
use vstd::set_lib::lemma_int_range;
use vstd::set_lib::lemma_len_subset;
use vstd::set_lib::set_int_range;

verus! {

/// A counted handle to one slab slot. Copies made with
/// [`SlabAllocator::dup`] share the slot and see the same value; the slot
/// is reclaimed when the last handle is passed to
/// [`SlabAllocator::free`].
pub struct SlabBox<T> {
    slot: usize,
    marker: PhantomData<T>,
}

impl<T> SlabBox<T> {
    /// The slot this handle names.
    pub closed spec fn spec_slot(&self) -> nat {
        self.slot as nat
    }

    /// Read access to the slot's value.
    pub fn borrow<'a>(&self, allocator: &'a SlabAllocator<T>) -> (r: &'a T)
        requires
            allocator.wf(),
            allocator.box_valid(self),
        ensures
            *r == allocator.box_value(self),
    {
        match &allocator.slots[self.slot] {
            Some(v) => v,
            None => unreached(),
        }
    }

    /// Mutable access to the slot's value; every handle sharing the slot
    /// observes the mutation.
    pub fn borrow_mut<'a>(&self, allocator: &'a mut SlabAllocator<T>) -> (r: &'a mut T)
        requires
            old(allocator).wf(),
            old(allocator).box_valid(self),
        ensures
            *r == old(allocator).box_value(self),
            final(allocator).wf(),
            final(allocator).box_valid(self),
            final(allocator).box_value(self) == *final(r),
            final(allocator).box_refs(self) == old(allocator).box_refs(self),
            final(allocator).spec_alloc() == old(allocator).spec_alloc(),
            final(allocator).spec_capacity() == old(allocator).spec_capacity(),
            forall|b2: SlabBox<T>|
                #![auto]
                b2.spec_slot() != self.spec_slot() ==> final(allocator).box_valid(&b2) == old(
                    allocator,
                ).box_valid(&b2) && (old(allocator).box_valid(&b2) ==> final(allocator).box_value(&b2)
                    == old(allocator).box_value(&b2)) && final(allocator).box_refs(&b2) == old(
                    allocator,
                ).box_refs(&b2),
    {
        match &mut allocator.slots[self.slot] {
            Some(v) => v,
            None => unreached(),
        }
    }
}

/// A pool of typed slots, handed out as counted handles and reclaimed by
/// explicit frees.
pub struct SlabAllocator<T> {
    slots: Vec<Option<T>>,
    refs: Vec<usize>,
    free: Vec<usize>,
    outstanding: usize,
}

impl<T> SlabAllocator<T> {
    /// How many slots are outstanding.
    pub closed spec fn spec_alloc(&self) -> nat {
        self.outstanding as nat
    }

    /// How many slots the pool holds in all.
    pub closed spec fn spec_capacity(&self) -> nat {
        self.slots@.len()
    }

    /// Whether `b` names a live slot of this allocator.
    pub closed spec fn box_valid(&self, b: &SlabBox<T>) -> bool {
        b.spec_slot() < self.slots@.len() && self.refs@[b.spec_slot() as int] > 0
    }

    /// The value in the slot `b` names.
    pub closed spec fn box_value(&self, b: &SlabBox<T>) -> T {
        self.slots@[b.spec_slot() as int].unwrap()
    }

    /// How many handles share the slot `b` names.
    pub closed spec fn box_refs(&self, b: &SlabBox<T>) -> nat {
        if b.spec_slot() < self.refs@.len() {
            self.refs@[b.spec_slot() as int] as nat
        } else {
            0
        }
    }

    /// Structural invariant: a slot is occupied exactly while handles
    /// reference it; the free list names each unreferenced slot once; and
    /// the outstanding count and the free list partition the pool.
    pub closed spec fn wf(&self) -> bool {
        &&& self.slots@.len() == self.refs@.len()
        &&& self.outstanding + self.free@.len() == self.slots@.len()
        &&& forall|i: int|
            0 <= i < self.slots@.len() ==> ((#[trigger] self.slots@[i]) is Some <==> self.refs@[i]
                > 0)
        &&& forall|j: int|
            0 <= j < self.free@.len() ==> (#[trigger] self.free@[j]) < self.slots@.len()
                && self.refs@[self.free@[j] as int] == 0
        &&& forall|j1: int, j2: int|
            0 <= j1 < j2 < self.free@.len() ==> self.free@[j1] != self.free@[j2]
    }

    /// Preallocates `initial_size` slots, none of them outstanding.
    pub fn new(initial_size: usize) -> (r: SlabAllocator<T>)
        ensures
            r.wf(),
            r.spec_alloc() == 0,
            r.spec_capacity() == initial_size,
    {
        let mut r = SlabAllocator {
            slots: Vec::new(),
            refs: Vec::new(),
            free: Vec::new(),
            outstanding: 0,
        };
        r.expand(initial_size);
        r
    }

    /// Adds `new_items` unoccupied slots to the pool.
    fn expand(&mut self, new_items: usize)
        requires
            old(self).wf(),
            old(self).slots@.len() + new_items <= usize::MAX,
        ensures
            final(self).wf(),
            final(self).spec_alloc() == old(self).spec_alloc(),
            final(self).spec_capacity() == old(self).spec_capacity() + new_items,
            forall|i: int|
                0 <= i < old(self).slots@.len() ==> final(self).slots@[i] == old(self).slots@[i]
                    && final(self).refs@[i] == old(self).refs@[i],
    {
        let ghost pre = *self;
        let mut k: usize = 0;
        let base = self.slots.len();
        while k < new_items
            invariant
                k <= new_items,
                base == pre.slots@.len(),
                base + new_items <= usize::MAX,
                self.outstanding == pre.outstanding,
                self.slots@.len() == base + k,
                self.refs@.len() == base + k,
                self.free@.len() == pre.free@.len() + k,
                forall|i: int|
                    0 <= i < base ==> (#[trigger] self.slots@[i]) == pre.slots@[i],
                forall|i: int| 0 <= i < base ==> (#[trigger] self.refs@[i]) == pre.refs@[i],
                forall|i: int| base <= i < base + k ==> (#[trigger] self.slots@[i]) is None,
                forall|i: int| base <= i < base + k ==> (#[trigger] self.refs@[i]) == 0,
                forall|j: int|
                    0 <= j < pre.free@.len() ==> #[trigger] self.free@[j] == pre.free@[j],
                forall|j: int|
                    pre.free@.len() <= j < self.free@.len() ==> #[trigger] self.free@[j] == base + (
                    j - pre.free@.len()),
                pre.wf(),
            decreases new_items - k,
        {
            self.slots.push(None);
            self.refs.push(0);
            self.free.push(base + k);
            k = k + 1;
        }
        proof {
            assert forall|j1: int, j2: int|
                0 <= j1 < j2 < self.free@.len() implies self.free@[j1] != self.free@[j2] by {
                if j1 < pre.free@.len() && j2 >= pre.free@.len() {
                    assert(pre.free@[j1] < base);
                }
            }
            assert forall|i: int|
                0 <= i < self.slots@.len() implies ((#[trigger] self.slots@[i]) is Some
                <==> self.refs@[i] > 0) by {
                if i < base {
                    assert(self.slots@[i] == pre.slots@[i] && self.refs@[i] == pre.refs@[i]);
                }
            }
        }
    }

    /// The free list cannot fill the whole pool while some slot is live.
    proof fn lemma_free_not_full(&self, slot: int)
        requires
            self.wf(),
            0 <= slot < self.slots@.len(),
            self.refs@[slot] > 0,
        ensures
            self.free@.len() < self.slots@.len(),
            self.outstanding >= 1,
    {
        let cap = self.slots@.len() as int;
        let s = self.free@.map_values(|x: usize| x as int);
        assert(s.no_duplicates());
        s.unique_seq_to_set();
        let range = set_int_range(0, cap).remove(slot);
        lemma_int_range(0, cap);
        assert forall|x: int| s.to_set().contains(x) implies range.contains(x) by {
            let j = choose|j: int| 0 <= j < s.len() && s[j] == x;
            assert(self.free@[j] as int == x);
        }
        lemma_len_subset(s.to_set(), range);
        assert(set_int_range(0, cap).contains(slot));
        assert(range.len() == cap - 1);
        assert(s.len() == self.free@.len());
    }

    /// Places `value` in a free slot and hands back the one counted handle
    /// to it. When no slot is free the pool doubles first; a pool of no
    /// slots at all cannot grow that way and is a caller error.
    pub fn allocate(&mut self, value: T) -> (b: SlabBox<T>)
        requires
            old(self).wf(),
            0 < old(self).spec_capacity() <= usize::MAX / 2,
        ensures
            final(self).wf(),
            final(self).box_valid(&b),
            final(self).box_value(&b) == value,
            final(self).box_refs(&b) == 1,
            final(self).spec_alloc() == old(self).spec_alloc() + 1,
            final(self).spec_capacity() == (if old(self).spec_alloc() == old(self).spec_capacity() {
                2 * old(self).spec_capacity()
            } else {
                old(self).spec_capacity()
            }),
            forall|b2: SlabBox<T>|
                #![auto]
                old(self).box_valid(&b2) ==> final(self).box_valid(&b2) && final(self).box_value(
                    &b2,
                ) == old(self).box_value(&b2) && final(self).box_refs(&b2) == old(self).box_refs(
                    &b2,
                ) && b2.spec_slot() != b.spec_slot(),
    {
        let ghost pre = *self;
        if self.free.len() == 0 {
            let capacity = self.slots.len();
            self.expand(capacity * 2 - capacity);
        }
        proof {
            if pre.free@.len() > 0 {
                assert(self.free@.len() > 0);
            }
        }
        let slot = match self.free.pop() {
            Some(s) => s,
            None => unreached(),
        };
        self.slots[slot] = Some(value);
        self.refs[slot] = 1;
        self.outstanding = self.outstanding + 1;
        proof {
            assert forall|j1: int, j2: int|
                0 <= j1 < j2 < self.free@.len() implies self.free@[j1] != self.free@[j2] by {}
            assert forall|j: int|
                0 <= j < self.free@.len() implies (#[trigger] self.free@[j]) < self.slots@.len()
                    && self.refs@[self.free@[j] as int] == 0 by {
                assert(self.free@[j] != slot);
            }
        }
        SlabBox { slot, marker: PhantomData }
    }

    /// A second counted handle to the slot `b` names; both observe the
    /// same value.
    pub fn dup(&mut self, b: &SlabBox<T>) -> (b2: SlabBox<T>)
        requires
            old(self).wf(),
            old(self).box_valid(b),
            old(self).box_refs(b) < usize::MAX,
        ensures
            final(self).wf(),
            b2.spec_slot() == b.spec_slot(),
            final(self).box_valid(b),
            final(self).box_value(b) == old(self).box_value(b),
            final(self).box_refs(b) == old(self).box_refs(b) + 1,
            final(self).spec_alloc() == old(self).spec_alloc(),
            final(self).spec_capacity() == old(self).spec_capacity(),
            forall|b3: SlabBox<T>|
                #![auto]
                b3.spec_slot() != b.spec_slot() ==> final(self).box_valid(&b3) == old(
                    self,
                ).box_valid(&b3) && (old(self).box_valid(&b3) ==> final(self).box_value(&b3) == old(
                    self,
                ).box_value(&b3)) && final(self).box_refs(&b3) == old(self).box_refs(&b3),
    {
        let slot = b.slot;
        let r = self.refs[slot];
        self.refs[slot] = r + 1;
        proof {
            assert forall|j: int|
                0 <= j < self.free@.len() implies (#[trigger] self.free@[j]) < self.slots@.len()
                    && self.refs@[self.free@[j] as int] == 0 by {
                assert(self.free@[j] != slot);
            }
        }
        SlabBox { slot, marker: PhantomData }
    }

    /// Gives one handle back. The slot stays live while other handles
    /// still share it; on the last handle the value is dropped and the
    /// slot returns to the pool.
    pub fn free(&mut self, b: SlabBox<T>)
        requires
            old(self).wf(),
            old(self).box_valid(&b),
        ensures
            final(self).wf(),
            final(self).spec_capacity() == old(self).spec_capacity(),
            final(self).box_refs(&b) == old(self).box_refs(&b) - 1,
            old(self).box_refs(&b) == 1 ==> !final(self).box_valid(&b) && final(self).spec_alloc()
                == old(self).spec_alloc() - 1,
            old(self).box_refs(&b) > 1 ==> final(self).box_valid(&b) && final(self).box_value(&b)
                == old(self).box_value(&b) && final(self).spec_alloc() == old(self).spec_alloc(),
            forall|b2: SlabBox<T>|
                #![auto]
                b2.spec_slot() != b.spec_slot() ==> final(self).box_valid(&b2) == old(
                    self,
                ).box_valid(&b2) && (old(self).box_valid(&b2) ==> final(self).box_value(&b2) == old(
                    self,
                ).box_value(&b2)) && final(self).box_refs(&b2) == old(self).box_refs(&b2),
    {
        let ghost pre = *self;
        let slot = b.slot;
        let r = self.refs[slot];
        if r == 1 {
            proof {
                self.lemma_free_not_full(slot as int);
            }
            self.slots[slot] = None;
            self.refs[slot] = 0;
            self.free.push(slot);
            self.outstanding = self.outstanding - 1;
            proof {
                assert forall|j1: int, j2: int|
                    0 <= j1 < j2 < self.free@.len() implies self.free@[j1] != self.free@[j2] by {
                    if j2 == self.free@.len() - 1 {
                        assert(pre.refs@[pre.free@[j1] as int] == 0);
                    }
                }
            }
        } else {
            self.refs[slot] = r - 1;
            proof {
                assert forall|j: int|
                    0 <= j < self.free@.len() implies (#[trigger] self.free@[j])
                        < self.slots@.len() && self.refs@[self.free@[j] as int] == 0 by {
                    assert(self.free@[j] != slot);
                }
            }
        }
    }

    /// The outstanding slot count and the total capacity.
    pub fn stats(&self) -> (r: (usize, usize))
        requires
            self.wf(),
        ensures
            r.0 == self.spec_alloc(),
            r.1 == self.spec_capacity(),
    {
        (self.outstanding, self.slots.len())
    }
}

} // verus!
