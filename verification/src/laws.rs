//! Laws that hold across operations, stated over the model in which the
//! operations themselves are specified.

use crate::model::{region_ok, SlabModel};
use vstd::prelude::*;

verus! {

/// A freshly partitioned region is in a valid state, holds as many slots as
/// fit whole into it, and every one of them is free.
pub proof fn lemma_fresh_region(base: usize, region_size: usize, object_size: usize)
    requires
        region_ok(base, region_size, object_size),
    ensures
        ({
            let m = SlabModel::fresh(base, region_size, object_size);
            &&& m.valid()
            &&& m.capacity == region_size / object_size
            &&& m.free.len() == m.capacity
            &&& forall|a: usize| #[trigger] m.is_slot(a) ==> m.is_free(a)
        }),
{
    let m = SlabModel::fresh(base, region_size, object_size);
    let n = m.capacity as int;
    vstd::arithmetic::div_mod::lemma_fundamental_div_mod(region_size as int, object_size as int);
    vstd::arithmetic::mul::lemma_mul_is_commutative(n, object_size as int);
    assert(n * object_size <= region_size);
    assert(n > 0 ==> region_size >= object_size) by {
        if region_size < object_size {
            vstd::arithmetic::div_mod::lemma_basic_div(region_size as int, object_size as int);
        }
    }
    assert forall|i: int| 0 <= i < n implies m.free[i] == m.slot_addr(n - 1 - i) && m.is_slot(
        #[trigger] m.free[i],
    ) && m.slot_index(m.free[i] as int) == n - 1 - i by {
        m.lemma_slot_addr(n - 1 - i);
    }
    assert forall|i: int, j: int| 0 <= i < n && 0 <= j < n && i != j implies m.free[i]
        != m.free[j] by {
        assert(m.slot_index(m.free[i] as int) != m.slot_index(m.free[j] as int));
    }
    assert forall|a: usize| #[trigger] m.is_slot(a) implies m.is_free(a) by {
        m.lemma_slot_index(a);
        let i = n - 1 - m.slot_index(a as int);
        assert(m.free[i] == a);
    }
}

/// A region shorter than one slot has no slots, and allocation from it
/// reports exhaustion.
pub proof fn lemma_short_region(base: usize, region_size: usize, object_size: usize)
    requires
        region_ok(base, region_size, object_size),
        region_size < object_size,
    ensures
        ({
            let m = SlabModel::fresh(base, region_size, object_size);
            &&& m.capacity == 0
            &&& m.free.len() == 0
            &&& m.first_free() is None
            &&& m.take() == m
        }),
{
    vstd::arithmetic::div_mod::lemma_basic_div(region_size as int, object_size as int);
}

/// After `n` allocations in a row the first `n` entries of the free list are
/// gone, or all of them when there were fewer; nothing else has changed.
pub proof fn lemma_take_n(m: SlabModel, n: nat)
    ensures
        n <= m.free.len() ==> m.take_n(n) == (SlabModel { free: m.free.skip(n as int), ..m }),
        n >= m.free.len() ==> m.take_n(n) == (SlabModel { free: Seq::empty(), ..m }),
    decreases n,
{
    if n == 0 {
        assert(m.free.skip(0) =~= m.free);
        if m.free.len() == 0 {
            assert(m.free =~= Seq::empty());
        }
    } else {
        lemma_take_n(m.take(), (n - 1) as nat);
        if m.free.len() > 0 {
            if n <= m.free.len() {
                assert(m.free.drop_first().skip(n - 1) =~= m.free.skip(n as int));
            }
        } else {
            assert(m.free =~= Seq::empty());
        }
    }
}

/// As long as slots are free, allocations in a row hand out slots of the
/// allocator that differ from one another: the `i`-th and the `j`-th
/// allocation never return the same address, and what the earlier one
/// returned is still handed out when the later one is made.
pub proof fn lemma_allocations_distinct(m: SlabModel, i: nat, j: nat)
    requires
        m.valid(),
        i < j < m.free.len(),
    ensures
        m.take_n(i).first_free() matches Some(p) && m.take_n(j).first_free() matches Some(q)
            && p != q && m.is_slot(p) && m.is_slot(q) && m.take_n(j).is_allocated(p),
{
    lemma_take_n(m, i);
    lemma_take_n(m, j);
    let rest = m.free.skip(j as int);
    assert(m.free.skip(i as int)[0] == m.free[i as int]);
    assert(rest[0] == m.free[j as int]);
    assert(!rest.contains(m.free[i as int])) by {
        if rest.contains(m.free[i as int]) {
            let k = choose|k: int| 0 <= k < rest.len() && rest[k] == m.free[i as int];
            assert(m.free[k + j] == m.free[i as int]);
        }
    }
}

/// Each allocation that finds a free slot lowers the number of free slots by
/// one and keeps the state valid, and once as many slots have been handed
/// out as were free, every further allocation reports exhaustion and changes
/// nothing.
pub proof fn lemma_exhaustion(m: SlabModel, n: nat)
    requires
        m.valid(),
    ensures
        m.take_n(n).valid(),
        n <= m.free.len() ==> m.take_n(n).free.len() == m.free.len() - n,
        n >= m.free.len() ==> m.take_n(n).first_free() is None && m.take_n(n).take() == m.take_n(
            n,
        ),
    decreases n,
{
    lemma_take_n(m, n);
    if n > 0 {
        m.lemma_take_valid();
        lemma_exhaustion(m.take(), (n - 1) as nat);
    }
}

/// Allocating a slot and returning it restores the allocator's state, so the
/// next allocation finds as many free slots as the first one did and hands
/// out a slot of the same allocator.
pub proof fn lemma_allocate_then_return(m: SlabModel)
    requires
        m.valid(),
        m.free.len() > 0,
    ensures
        ({
            let p = m.free[0];
            let back = m.take().give(p);
            &&& m.first_free() == Some(p)
            &&& m.take().valid()
            &&& m.take().is_allocated(p)
            &&& back == m
            &&& back.take().free.len() == m.take().free.len()
            &&& back.first_free() matches Some(q) && m.is_slot(q)
        }),
{
    m.lemma_take_valid();
    assert(m.take().give(m.free[0]).free =~= m.free);
}

/// A returned slot is the next one to be handed out again, and handing it out
/// leaves the allocator as it was before the slot came back.
pub proof fn lemma_return_then_allocate(m: SlabModel, ptr: usize)
    requires
        m.valid(),
        m.is_allocated(ptr),
    ensures
        m.give(ptr).valid(),
        m.give(ptr).free.len() == m.free.len() + 1,
        m.give(ptr).first_free() == Some(ptr),
        m.give(ptr).take() == m,
{
    m.lemma_give_valid(ptr);
    assert(m.give(ptr).free.drop_first() =~= m.free);
}

} // verus!
