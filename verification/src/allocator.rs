//! The allocator: a region partitioned into equal slots, with the free slots
//! chained through their own first words.
//!
//! The region stays with the caller. It is handed to the allocator as a byte
//! slice together with the address of its first byte, and again to every
//! operation that follows a link or stores one. Between calls the caller may
//! write to the slots it holds, and must leave the first word of every free
//! slot alone.

use crate::model::{descending_slots, region_ok, SlabModel};
use crate::word::{read_word, word_at, write_word, LINK_SIZE};
use vstd::prelude::*;

verus! {

/// Describes one partitioned region.
pub struct Slab {
    /// Address of the first byte of the region.
    start: usize,
    /// Address of the first free slot, 0 when none is free.
    freelist: usize,
    /// Size of every slot in bytes.
    object_size: usize,
    /// Total number of slots.
    capacity: usize,
    /// Number of slots on the free list.
    free_count: usize,
    /// The free list as it is threaded through the region, head first.
    free: Ghost<Seq<usize>>,
}

/// Hands out and takes back the slots of one [`Slab`].
pub struct SlabAllocator {
    slab: Slab,
}

impl View for Slab {
    type V = SlabModel;

    closed spec fn view(&self) -> SlabModel {
        SlabModel {
            base: self.start,
            object_size: self.object_size,
            capacity: self.capacity,
            free: self.free@,
        }
    }
}

impl Slab {
    /// The record describes a valid state, and its counters agree with the
    /// free list.
    #[verifier::type_invariant]
    closed spec fn consistent(&self) -> bool {
        &&& self@.valid()
        &&& self.free_count == self.free@.len()
        &&& self.freelist == self@.head()
    }
}

impl View for SlabAllocator {
    type V = SlabModel;

    closed spec fn view(&self) -> SlabModel {
        self.slab@
    }
}

impl SlabAllocator {
    /// The allocator is in a valid state and `mem`, the contents of its
    /// region, holds its free list.
    pub open spec fn wf(&self, mem: Seq<u8>) -> bool {
        self@.valid() && self@.threaded(mem)
    }

    /// Partitions the first `buffer_size` bytes of `buffer`, which lie at
    /// address `base`, into as many slots of `object_size` bytes as fit, and
    /// chains all of them into the free list.
    ///
    /// Only the first word of each slot is written. A region shorter than
    /// one slot gives an allocator without slots.
    pub fn new(
        buffer: &mut [u8],
        base: usize,
        buffer_size: usize,
        object_size: usize,
    ) -> (allocator: Self)
        requires
            region_ok(base, buffer_size, object_size),
            buffer_size <= old(buffer)@.len(),
        ensures
            allocator@ == SlabModel::fresh(base, buffer_size, object_size),
            allocator@.capacity == buffer_size / object_size,
            allocator@.free.len() == allocator@.capacity,
            allocator.wf(final(buffer)@),
            final(buffer)@.len() == old(buffer)@.len(),
            forall|j: int|
                0 <= j < old(buffer)@.len() && !allocator@.in_link_word(j) ==> final(buffer)@[j]
                    == old(buffer)@[j],
    {
        let mut freelist: usize = 0;
        let mut offset: usize = 0;
        let mut count: usize = 0;
        let ghost mut model = SlabModel {
            base,
            object_size,
            capacity: 0,
            free: descending_slots(base, object_size, 0),
        };
        while buffer_size - offset >= object_size
            invariant
                region_ok(base, buffer_size, object_size),
                buffer_size <= buffer@.len(),
                buffer@.len() == old(buffer)@.len(),
                offset <= buffer_size,
                offset == count * object_size,
                model == (SlabModel {
                    base,
                    object_size,
                    capacity: count,
                    free: descending_slots(base, object_size, count as nat),
                }),
                model.valid(),
                model.threaded(buffer@),
                freelist == model.head(),
                forall|j: int|
                    0 <= j < buffer@.len() && !model.in_link_word(j) ==> buffer@[j] == old(
                        buffer,
                    )@[j],
            decreases buffer_size - offset,
        {
            let ghost before = buffer@;
            write_word(buffer, offset, freelist as u64);
            let ghost next = SlabModel {
                base,
                object_size,
                capacity: (count + 1) as usize,
                free: descending_slots(base, object_size, (count + 1) as nat),
            };
            proof {
                lemma_stride(count as int, object_size as int);
                lemma_next_slot(model, next, before, buffer@);
                lemma_link_bytes(offset as int, object_size as int, count as int);
                assert(next.capacity * object_size == offset + object_size);
                assert forall|j: int| model.in_link_word(j) || offset <= j < offset
                    + LINK_SIZE implies next.in_link_word(j) by {}
            }
            freelist = base + offset;
            offset += object_size;
            count += 1;
            proof {
                model = next;
            }
        }
        proof {
            vstd::arithmetic::div_mod::lemma_fundamental_div_mod_converse(
                buffer_size as int,
                object_size as int,
                count as int,
                buffer_size - offset,
            );
        }
        SlabAllocator {
            slab: Slab {
                start: base,
                freelist,
                object_size,
                capacity: count,
                free_count: count,
                free: Ghost(descending_slots(base, object_size, count as nat)),
            },
        }
    }

    /// Number of slots that are free right now.
    ///
    /// The answer is read off the state and the state is left alone, so
    /// asking again before the next `allocate` or `dealloc` gives the same
    /// number.
    pub fn free_objects(&self) -> (n: usize)
        ensures
            n == self@.free.len(),
            n <= self@.capacity,
    {
        proof {
            use_type_invariant(&self.slab);
        }
        self.slab.free_count
    }

    /// Total number of slots, free or handed out. It is fixed when the
    /// allocator is made.
    pub fn capacity(&self) -> (n: usize)
        ensures
            n == self@.capacity,
    {
        self.slab.capacity
    }

    /// Hands out the slot at the head of the free list, or `None` when no
    /// slot is free, which leaves the allocator as it was.
    ///
    /// The region is only read, and of the list only its head: the link
    /// stored there becomes the new head. What the slot holds is left as it
    /// is.
    pub fn allocate(&mut self, buffer: &[u8]) -> (slot: Option<usize>)
        requires
            old(self).wf(buffer@),
        ensures
            slot == old(self)@.first_free(),
            final(self)@ == old(self)@.take(),
            final(self).wf(buffer@),
            slot matches Some(p) ==> final(self)@.is_allocated(p),
    {
        proof {
            use_type_invariant(&self.slab);
            self@.lemma_take_valid();
            self@.lemma_take(buffer@);
        }
        if self.slab.freelist == 0 {
            return None;
        }
        let obj = self.slab.freelist;
        proof {
            self@.lemma_slot_index(obj);
        }
        let next = read_word(buffer, obj - self.slab.start) as usize;
        self.slab = Slab {
            start: self.slab.start,
            freelist: next,
            object_size: self.slab.object_size,
            capacity: self.slab.capacity,
            free_count: self.slab.free_count - 1,
            free: Ghost(self.slab.free@.drop_first()),
        };
        Some(obj)
    }

    /// Takes `ptr` back: it becomes the head of the free list.
    ///
    /// `ptr` must be a slot that this allocator has handed out and that has
    /// not been returned since; nothing is tested at run time. The old head
    /// is stored in the first word of the slot, over what the caller kept
    /// there, and no other byte is written.
    pub fn dealloc(&mut self, buffer: &mut [u8], ptr: usize)
        requires
            old(self).wf(old(buffer)@),
            old(self)@.is_allocated(ptr),
        ensures
            final(self)@ == old(self)@.give(ptr),
            final(self).wf(final(buffer)@),
            final(buffer)@.len() == old(buffer)@.len(),
            word_at(final(buffer)@, ptr - old(self)@.base) == old(self)@.head(),
            forall|j: int|
                0 <= j < old(buffer)@.len() && !(ptr - old(self)@.base <= j < ptr - old(
                    self,
                )@.base + LINK_SIZE) ==> final(buffer)@[j] == old(buffer)@[j],
    {
        proof {
            use_type_invariant(&self.slab);
            self@.lemma_slot_index(ptr);
            self@.lemma_free_list_bounded();
        }
        let ghost before = buffer@;
        let ghost given = self@.give(ptr);
        write_word(buffer, ptr - self.slab.start, self.slab.freelist as u64);
        proof {
            self@.lemma_give_valid(ptr);
            self@.lemma_give(ptr, before, buffer@);
        }
        self.slab = Slab {
            start: self.slab.start,
            freelist: ptr,
            object_size: self.slab.object_size,
            capacity: self.slab.capacity,
            free_count: self.slab.free_count + 1,
            free: Ghost(given.free),
        };
    }
}

/// Storing the old head in the first word of the slot behind the last one
/// threads the free list of the region with that slot added.
proof fn lemma_next_slot(m: SlabModel, next: SlabModel, before: Seq<u8>, after: Seq<u8>)
    requires
        m.valid(),
        m.free == descending_slots(m.base, m.object_size, m.capacity as nat),
        m.threaded(before),
        m.base != 0,
        m.base + m.capacity * m.object_size + m.object_size <= usize::MAX,
        m.capacity * m.object_size + m.object_size <= before.len(),
        next == (SlabModel {
            capacity: (m.capacity + 1) as usize,
            free: descending_slots(m.base, m.object_size, (m.capacity + 1) as nat),
            ..m
        }),
        after.len() == before.len(),
        word_at(after, m.capacity * m.object_size) == m.head(),
        forall|j: int|
            0 <= j < before.len() && !(m.capacity * m.object_size <= j < m.capacity
                * m.object_size + LINK_SIZE) ==> after[j] == before[j],
    ensures
        next.valid(),
        next.threaded(after),
        next.head() == m.base + m.capacity * m.object_size,
{
    let c = m.capacity as int;
    let size = m.object_size as int;
    lemma_stride(c, size);
    let top = (m.base + c * size) as usize;
    let widened = SlabModel { capacity: (c + 1) as usize, ..m };
    assert(widened.valid()) by {
        assert forall|i: int| 0 <= i < m.free.len() implies widened.is_slot(
            #[trigger] m.free[i],
        ) by {
            assert(m.is_slot(m.free[i]));
        }
    }
    assert(widened.threaded(before)) by {
        assert forall|i: int| 0 <= i < m.free.len() implies word_at(
            before,
            widened.free[i] - widened.base,
        ) == #[trigger] widened.link(i) by {
            assert(widened.link(i) == m.link(i));
        }
    }
    assert(widened.is_allocated(top)) by {
        if m.free.contains(top) {
            let i = choose|i: int| 0 <= i < m.free.len() && m.free[i] == top;
            assert(m.is_slot(m.free[i]));
        }
    }
    assert(widened.give(top).free =~= next.free) by {
        assert forall|i: int| 0 <= i < next.free.len() implies widened.give(top).free[i]
            == next.free[i] by {
            if i > 0 {
                assert(c + 1 - 1 - i == c - 1 - (i - 1));
            } else {
                assert(c + 1 - 1 - i == c);
            }
        }
    }
    widened.lemma_give_valid(top);
    widened.lemma_give(top, before, after);
}

/// What one more stride of `size` bytes adds to `count` strides.
proof fn lemma_stride(count: int, size: int)
    by (nonlinear_arith)
    requires
        count >= 0,
        size > 0,
    ensures
        (count + 1) * size == count * size + size,
        count <= count * size,
        (count * size) % size == 0,
{
}

/// The first word of the slot with index `count` lies inside that slot, at
/// positions below `LINK_SIZE` from its start.
proof fn lemma_link_bytes(offset: int, object_size: int, count: int)
    requires
        object_size >= LINK_SIZE,
        count >= 0,
        offset == count * object_size,
    ensures
        forall|j: int|
            offset <= j < offset + LINK_SIZE ==> j < offset + object_size && #[trigger] (j
                % object_size) < LINK_SIZE,
{
    assert forall|j: int| offset <= j < offset + LINK_SIZE implies j < offset + object_size
        && #[trigger] (j % object_size) < LINK_SIZE by {
        vstd::arithmetic::div_mod::lemma_fundamental_div_mod_converse(
            j,
            object_size,
            count,
            j - offset,
        );
    }
}

} // verus!
