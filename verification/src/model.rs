//! The mathematical model of a slab: where its slots lie, which of them are
//! free and in what order, and how the free list is threaded through memory.

use crate::word::{word_at, LINK_SIZE};
use vstd::prelude::*;
use vstd::set_lib::{lemma_int_range, lemma_len_subset, set_int_range};

verus! {

/// The abstract state of an allocator.
///
/// `free` lists the addresses of the free slots in the order in which they
/// will be handed out: `free[0]` is the head of the free list.
pub struct SlabModel {
    /// Address of the first byte of the region.
    pub base: usize,
    /// Size of every slot in bytes.
    pub object_size: usize,
    /// Total number of slots.
    pub capacity: usize,
    /// Addresses of the free slots, head of the list first.
    pub free: Seq<usize>,
}

/// The slot addresses `base + (n - 1) * object_size` down to `base`: the
/// order in which a freshly partitioned region of `n` slots hands them out.
pub open spec fn descending_slots(base: usize, object_size: usize, n: nat) -> Seq<usize> {
    Seq::new(n, |i: int| (base + (n - 1 - i) * object_size) as usize)
}

/// What a caller must guarantee of a region before it is partitioned: a slot
/// can hold a link, the region lies inside the address space, and a region
/// that holds at least one slot does not start at the null address.
pub open spec fn region_ok(base: usize, region_size: usize, object_size: usize) -> bool {
    &&& object_size >= LINK_SIZE
    &&& base + region_size <= usize::MAX
    &&& region_size >= object_size ==> base != 0
}

impl SlabModel {
    /// The state right after a region of `region_size` bytes at `base` has
    /// been partitioned into slots of `object_size` bytes: every slot is free.
    pub open spec fn fresh(base: usize, region_size: usize, object_size: usize) -> SlabModel {
        SlabModel {
            base,
            object_size,
            capacity: region_size / object_size,
            free: descending_slots(base, object_size, (region_size / object_size) as nat),
        }
    }

    /// Address of the slot with index `k`.
    pub open spec fn slot_addr(self, k: int) -> int {
        self.base + k * self.object_size
    }

    /// Index of the slot that starts at `addr`.
    pub open spec fn slot_index(self, addr: int) -> int {
        (addr - self.base) / (self.object_size as int)
    }

    /// `addr` is the address of one of the slots: it lies inside the
    /// partitioned part of the region, a whole number of slots from `base`.
    pub open spec fn is_slot(self, addr: usize) -> bool {
        &&& self.base <= addr < self.base + self.capacity * self.object_size
        &&& (addr - self.base) % (self.object_size as int) == 0
    }

    /// `addr` is on the free list.
    pub open spec fn is_free(self, addr: usize) -> bool {
        self.free.contains(addr)
    }

    /// `addr` is a slot that is currently handed out.
    pub open spec fn is_allocated(self, addr: usize) -> bool {
        self.is_slot(addr) && !self.free.contains(addr)
    }

    /// The invariant of the model: slots can hold a link and lie inside the
    /// address space, no slot has the null address, and the free list holds
    /// slot addresses only, each at most once.
    pub open spec fn valid(self) -> bool {
        &&& self.object_size >= LINK_SIZE
        &&& self.base + self.capacity * self.object_size <= usize::MAX
        &&& self.capacity > 0 ==> self.base != 0
        &&& self.free.len() <= self.capacity
        &&& self.free.no_duplicates()
        &&& forall|i: int| 0 <= i < self.free.len() ==> self.is_slot(#[trigger] self.free[i])
    }

    /// Address of the head of the free list, or 0 when no slot is free.
    pub open spec fn head(self) -> usize {
        if self.free.len() > 0 {
            self.free[0]
        } else {
            0
        }
    }

    /// The link that the `i`-th free slot holds: the address of the free slot
    /// after it, or 0 at the end of the list.
    pub open spec fn link(self, i: int) -> usize {
        if i + 1 < self.free.len() {
            self.free[i + 1]
        } else {
            0
        }
    }

    /// The slots fit into `mem`, and the first word of every free slot holds
    /// its link. `mem[0]` is the byte at address `base`.
    pub open spec fn threaded(self, mem: Seq<u8>) -> bool {
        &&& self.capacity * self.object_size <= mem.len()
        &&& forall|i: int|
            0 <= i < self.free.len() ==> word_at(mem, self.free[i] - self.base)
                == #[trigger] self.link(i)
    }

    /// `j` indexes a byte of the first word of one of the slots, free or not.
    pub open spec fn in_link_word(self, j: int) -> bool {
        &&& 0 <= j < self.capacity * self.object_size
        &&& j % (self.object_size as int) < LINK_SIZE
    }

    /// `j` indexes a byte of the first word of a free slot: a byte that holds
    /// part of a link.
    pub open spec fn in_free_link(self, j: int) -> bool {
        exists|i: int|
            0 <= i < self.free.len() && (#[trigger] self.free[i]) - self.base <= j
                < self.free[i] - self.base + LINK_SIZE
    }

    /// The slot that the next allocation hands out, if there is one.
    pub open spec fn first_free(self) -> Option<usize> {
        if self.free.len() > 0 {
            Some(self.free[0])
        } else {
            None
        }
    }

    /// The state after an allocation: the head has left the free list. An
    /// exhausted allocator stays as it is.
    pub open spec fn take(self) -> SlabModel {
        if self.free.len() > 0 {
            SlabModel { free: self.free.drop_first(), ..self }
        } else {
            self
        }
    }

    /// The state after `ptr` has been returned: it is the new head.
    pub open spec fn give(self, ptr: usize) -> SlabModel {
        SlabModel { free: seq![ptr] + self.free, ..self }
    }

    /// The state after `n` allocations in a row.
    pub open spec fn take_n(self, n: nat) -> SlabModel
        decreases n,
    {
        if n == 0 {
            self
        } else {
            self.take().take_n((n - 1) as nat)
        }
    }

    /// A slot address is `base` plus its index times the slot size, and the
    /// index is below the capacity.
    pub proof fn lemma_slot_index(self, addr: usize)
        requires
            self.object_size > 0,
            self.is_slot(addr),
        ensures
            0 <= self.slot_index(addr as int) < self.capacity,
            addr == self.slot_addr(self.slot_index(addr as int)),
            addr + self.object_size <= self.base + self.capacity * self.object_size,
    {
        lemma_multiple_bounds(addr - self.base, self.object_size as int, self.capacity as int);
    }

    /// Each index below the capacity names a slot.
    pub proof fn lemma_slot_addr(self, k: int)
        requires
            self.object_size > 0,
            self.base + self.capacity * self.object_size <= usize::MAX,
            0 <= k < self.capacity,
        ensures
            self.base <= self.slot_addr(k),
            self.slot_addr(k) + self.object_size <= self.base + self.capacity * self.object_size,
            self.is_slot(self.slot_addr(k) as usize),
            self.slot_index(self.slot_addr(k)) == k,
    {
        lemma_multiple_parts(k, self.object_size as int, self.capacity as int);
    }

    /// Two different slots do not overlap.
    pub proof fn lemma_slots_apart(self, a: usize, b: usize)
        requires
            self.object_size > 0,
            self.is_slot(a),
            self.is_slot(b),
            a != b,
        ensures
            a + self.object_size <= b || b + self.object_size <= a,
    {
        self.lemma_slot_index(a);
        self.lemma_slot_index(b);
        lemma_multiples_apart(
            self.slot_index(a as int),
            self.slot_index(b as int),
            self.object_size as int,
        );
    }

    /// A list of distinct slot addresses is no longer than the capacity, and
    /// shorter when some slot is missing from it.
    pub proof fn lemma_free_list_bounded(self)
        requires
            self.object_size > 0,
            self.free.no_duplicates(),
            forall|i: int| 0 <= i < self.free.len() ==> self.is_slot(#[trigger] self.free[i]),
        ensures
            self.free.len() <= self.capacity,
            forall|p: usize| self.is_allocated(p) ==> self.free.len() < self.capacity,
    {
        let indices = Seq::new(self.free.len(), |i: int| self.slot_index(self.free[i] as int));
        let all = set_int_range(0, self.capacity as int);
        lemma_int_range(0, self.capacity as int);
        assert forall|i: int, j: int|
            0 <= i < indices.len() && 0 <= j < indices.len() && i != j implies indices[i]
            != indices[j] by {
            self.lemma_slot_index(self.free[i]);
            self.lemma_slot_index(self.free[j]);
        }
        indices.unique_seq_to_set();
        assert forall|k: int| indices.to_set().contains(k) implies all.contains(k) by {
            let i = choose|i: int| 0 <= i < indices.len() && indices[i] == k;
            self.lemma_slot_index(self.free[i]);
        }
        lemma_len_subset(indices.to_set(), all);
        assert forall|p: usize| self.is_allocated(p) implies self.free.len() < self.capacity by {
            self.lemma_slot_index(p);
            let kp = self.slot_index(p as int);
            assert forall|k: int| indices.to_set().contains(k) implies all.remove(kp).contains(
                k,
            ) by {
                let i = choose|i: int| 0 <= i < indices.len() && indices[i] == k;
                self.lemma_slot_index(self.free[i]);
                assert(self.free.contains(self.free[i]));
            }
            lemma_len_subset(indices.to_set(), all.remove(kp));
        }
    }

    /// An allocation keeps the state valid, and the slot that left the free
    /// list is handed out afterwards.
    pub proof fn lemma_take_valid(self)
        requires
            self.valid(),
        ensures
            self.take().valid(),
            self.first_free() matches Some(p) ==> self.is_slot(p) && self.take().is_allocated(p),
    {
        if self.free.len() > 0 {
            let rest = self.take();
            assert forall|i: int| 0 <= i < rest.free.len() implies rest.is_slot(
                #[trigger] rest.free[i],
            ) by {
                assert(rest.free[i] == self.free[i + 1]);
            }
            assert(!rest.free.contains(self.free[0])) by {
                if rest.free.contains(self.free[0]) {
                    let i = choose|i: int| 0 <= i < rest.free.len() && rest.free[i] == self.free[0];
                    assert(self.free[i + 1] == self.free[0]);
                }
            }
        }
    }

    /// Returning a handed-out slot keeps the state valid, and the slot is
    /// free afterwards.
    pub proof fn lemma_give_valid(self, ptr: usize)
        requires
            self.valid(),
            self.is_allocated(ptr),
        ensures
            self.give(ptr).valid(),
            self.give(ptr).is_free(ptr),
    {
        let given = self.give(ptr);
        self.lemma_free_list_bounded();
        assert(given.free[0] == ptr);
        assert forall|i: int| 0 <= i < given.free.len() implies given.is_slot(
            #[trigger] given.free[i],
        ) by {
            if i > 0 {
                assert(given.free[i] == self.free[i - 1]);
            }
        }
    }

    /// An allocation leaves the free list threaded through the memory, and
    /// the link that the departing slot held names the new head.
    pub proof fn lemma_take(self, mem: Seq<u8>)
        requires
            self.valid(),
            self.threaded(mem),
        ensures
            self.take().threaded(mem),
            self.first_free() matches Some(p) ==> word_at(mem, p - self.base)
                == self.take().head(),
    {
        if self.free.len() > 0 {
            let rest = self.take();
            assert forall|i: int| 0 <= i < rest.free.len() implies word_at(
                mem,
                rest.free[i] - rest.base,
            ) == #[trigger] rest.link(i) by {
                assert(rest.free[i] == self.free[i + 1]);
                assert(rest.link(i) == self.link(i + 1));
            }
            assert(word_at(mem, self.free[0] - self.base) == self.link(0));
        }
    }

    /// Storing the old head in the first word of a handed-out slot `ptr`,
    /// and nothing else, threads the free list with `ptr` in front through
    /// the memory.
    pub proof fn lemma_give(self, ptr: usize, before: Seq<u8>, after: Seq<u8>)
        requires
            self.valid(),
            self.threaded(before),
            self.is_allocated(ptr),
            after.len() == before.len(),
            word_at(after, ptr - self.base) == self.head(),
            forall|j: int|
                0 <= j < before.len() && !(ptr - self.base <= j < ptr - self.base + LINK_SIZE)
                    ==> after[j] == before[j],
        ensures
            self.give(ptr).threaded(after),
            self.give(ptr).head() == ptr,
    {
        let given = self.give(ptr);
        assert forall|i: int| 0 <= i < given.free.len() implies word_at(
            after,
            given.free[i] - given.base,
        ) == #[trigger] given.link(i) by {
            if i > 0 {
                let a = self.free[i - 1];
                assert(given.free[i] == a);
                assert(self.free.contains(a));
                self.lemma_slots_apart(a, ptr);
                self.lemma_slot_index(a);
                assert(word_at(after, a - self.base) == word_at(before, a - self.base));
                assert(given.link(i) == self.link(i - 1));
            }
        }
    }

    /// The free list stays threaded through the memory as long as the first
    /// word of every free slot keeps its bytes.
    pub proof fn lemma_frame(self, before: Seq<u8>, after: Seq<u8>)
        requires
            self.valid(),
            self.threaded(before),
            after.len() == before.len(),
            forall|j: int| 0 <= j < before.len() && self.in_free_link(j) ==> after[j] == before[j],
        ensures
            self.threaded(after),
    {
        assert forall|i: int| 0 <= i < self.free.len() implies word_at(
            after,
            self.free[i] - self.base,
        ) == #[trigger] self.link(i) by {
            let at = self.free[i] - self.base;
            self.lemma_slot_index(self.free[i]);
            assert forall|j: int| at <= j < at + LINK_SIZE implies after[j] == before[j] by {
                assert(self.in_free_link(j));
            }
            assert(word_at(after, at) == word_at(before, at));
        }
    }

    /// The bytes of a handed-out slot are the caller's: whatever is written
    /// to them, the free list stays threaded through the memory.
    pub proof fn lemma_write_to_allocated_slot(
        self,
        ptr: usize,
        before: Seq<u8>,
        after: Seq<u8>,
    )
        requires
            self.valid(),
            self.threaded(before),
            self.is_allocated(ptr),
            after.len() == before.len(),
            forall|j: int|
                0 <= j < before.len() && !(ptr - self.base <= j < ptr - self.base
                    + self.object_size) ==> after[j] == before[j],
        ensures
            self.threaded(after),
    {
        assert forall|j: int| 0 <= j < before.len() && self.in_free_link(j) implies after[j]
            == before[j] by {
            let i = choose|i: int|
                0 <= i < self.free.len() && (#[trigger] self.free[i]) - self.base <= j
                    < self.free[i] - self.base + LINK_SIZE;
            assert(self.free.contains(self.free[i]));
            self.lemma_slots_apart(self.free[i], ptr);
        }
        self.lemma_frame(before, after);
    }
}

/// A multiple of `d` below `n * d` is `d` times a number below `n`.
proof fn lemma_multiple_bounds(x: int, d: int, n: int)
    by (nonlinear_arith)
    requires
        d > 0,
        0 <= x < n * d,
        x % d == 0,
    ensures
        0 <= x / d < n,
        x == (x / d) * d,
        x + d <= n * d,
{
}

/// For `0 <= k < n`, the multiple `k * d` leaves room for `d` more below
/// `n * d`, and dividing it by `d` gives `k` back.
proof fn lemma_multiple_parts(k: int, d: int, n: int)
    by (nonlinear_arith)
    requires
        d > 0,
        0 <= k < n,
    ensures
        0 <= k * d,
        k * d + d <= n * d,
        (k * d) % d == 0,
        (k * d) / d == k,
{
}

/// Different multiples of `d` are at least `d` apart.
proof fn lemma_multiples_apart(i: int, j: int, d: int)
    by (nonlinear_arith)
    requires
        d > 0,
        i != j,
    ensures
        i * d + d <= j * d || j * d + d <= i * d,
{
}

} // verus!
