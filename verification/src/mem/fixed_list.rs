use vstd::prelude::*;
use crate::error::KError;
use crate::mem::fixed_allocator;
use crate::mem::fixed_allocator::{FixedAllocator, FixedHeap};

verus! {

/// An item together with the slot of the boot heap that it occupies.
pub struct ListNode<T> {
    pub address: u64,
    pub value: T,
}

/// A list whose nodes live in one region of the boot heap.
pub struct FixedList<T> {
    pub allocator: FixedAllocator,
    pub nodes: Vec<ListNode<T>>,
}

/// The heap once the slot at `address` has been handed out.
pub open spec fn slot_taken(a: FixedAllocator, before: FixedHeap, after: FixedHeap, address: u64) -> bool {
    exists|start: int| {
        &&& 0 <= start && start + 1 <= a.total_slots()
        &&& #[trigger] fixed_allocator::run_free(before.bitmap@, a.hdr(), start, 1)
        &&& forall|s: int| 0 <= s < start ==> !#[trigger] fixed_allocator::run_free(before.bitmap@, a.hdr(), s, 1)
        &&& address == before.base + fixed_allocator::region_start(a.region) + start * a.slot_size
        &&& fixed_allocator::slots_changed(before.bitmap@, after.bitmap@, a.hdr(), start, 1, true)
    }
}

impl<T> FixedList<T> {
    pub open spec fn well_formed(self, heap: FixedHeap) -> bool {
        &&& self.allocator.well_formed()
        &&& heap.well_formed()
        &&& heap.base + 233472 <= u64::MAX
        &&& forall|i: int| 0 <= i < self.nodes@.len() ==> self.owns(heap, (#[trigger] self.nodes@[i]).address)
    }

    /// The address is that of a slot in the list's region, and is no address of the time before the
    /// kernel moved.
    pub open spec fn owns(self, heap: FixedHeap, address: u64) -> bool {
        &&& heap.base + fixed_allocator::region_start(self.allocator.region) <= address
        &&& !(heap.old_base <= address < heap.old_base + 233472) || heap.old_base == heap.base
        &&& self.allocator.slot_of(heap, address) + 1 <= self.allocator.total_slots()
    }

    pub fn new(allocator: FixedAllocator) -> (r: FixedList<T>)
        ensures
            r.allocator == allocator,
            r.nodes@.len() == 0,
    {
        FixedList { allocator, nodes: Vec::new() }
    }

    pub fn get_nodes(&self) -> (r: usize)
        ensures
            r == self.nodes@.len(),
    {
        self.nodes.len()
    }

    /// Appends an item, if the region has a slot for it.
    pub fn add_node(&mut self, heap: &mut FixedHeap, value: T) -> (r: Result<(), KError>)
        requires
            old(self).well_formed(*old(heap)),
            old(heap).old_base == old(heap).base || old(heap).old_base + 233472 <= old(heap).base
                || old(heap).base + 233472 <= old(heap).old_base,
        ensures
            final(self).allocator == old(self).allocator,
            final(heap).base == old(heap).base,
            final(heap).old_base == old(heap).old_base,
            final(self).well_formed(*final(heap)),
            match r {
                Ok(_) => {
                    &&& final(self).nodes@.len() == old(self).nodes@.len() + 1
                    &&& final(self).nodes@.drop_last() == old(self).nodes@
                    &&& final(self).nodes@.last().value == value
                    &&& slot_taken(old(self).allocator, *old(heap), *final(heap), final(self).nodes@.last().address)
                },
                Err(e) => {
                    &&& e == KError::OutOfMemory
                    &&& final(self).nodes@ == old(self).nodes@
                    &&& final(heap).bitmap@ == old(heap).bitmap@
                    &&& old(self).allocator.no_room(old(heap).bitmap@, 1)
                },
            },
    {
        let a: FixedAllocator = self.allocator;
        let ghost h0 = *heap;
        proof {
            assert(a.slot_size % a.slot_size == 0 && a.slot_size as int / a.slot_size as int == 1)
                by (nonlinear_arith)
                requires a.slot_size > 0;
        }
        let got: Result<u64, KError> = a.alloc_slots(heap, a.slot_size);
        match got {
            Err(e) => Err(e),
            Ok(address) => {
                proof {
                    let start = choose|start: int| {
                        &&& 0 <= start && start + 1 <= a.total_slots()
                        &&& #[trigger] fixed_allocator::run_free(h0.bitmap@, a.hdr(), start, 1)
                        &&& forall|s: int| 0 <= s < start
                            ==> !#[trigger] fixed_allocator::run_free(h0.bitmap@, a.hdr(), s, 1)
                        &&& address == h0.base + fixed_allocator::region_start(a.region) + start * a.slot_size
                        &&& fixed_allocator::slots_changed(h0.bitmap@, heap.bitmap@, a.hdr(), start, 1, true)
                    };
                    lemma_slot_address(a, *heap, start, address);
                }
                self.nodes.push(ListNode { address, value });
                assert(self.nodes@.drop_last() =~= old(self).nodes@);
                Ok(())
            },
        }
    }

    /// Takes the node at `i` out; its slot stays in use until it is given back.
    pub fn take_node(&mut self, i: usize) -> (r: ListNode<T>)
        requires
            i < old(self).nodes@.len(),
        ensures
            r == old(self).nodes@[i as int],
            final(self).nodes@ == old(self).nodes@.remove(i as int),
            final(self).allocator == old(self).allocator,
    {
        self.nodes.remove(i)
    }

    /// Gives the slot of a node back and keeps the item.
    pub fn free_node(&self, heap: &mut FixedHeap, node: ListNode<T>) -> (value: T)
        requires
            self.well_formed(*old(heap)),
            self.owns(*old(heap), node.address),
        ensures
            value == node.value,
            self.well_formed(*final(heap)),
            final(heap).base == old(heap).base,
            final(heap).old_base == old(heap).old_base,
            fixed_allocator::slots_changed(
                old(heap).bitmap@, final(heap).bitmap@, self.allocator.hdr(),
                self.allocator.slot_of(*old(heap), node.address), 1, false),
    {
        let a: FixedAllocator = self.allocator;
        proof {
            assert(a.slot_size % a.slot_size == 0 && a.slot_size as int / a.slot_size as int == 1)
                by (nonlinear_arith)
                requires a.slot_size > 0;
        }
        a.dealloc_slots(heap, node.address, a.slot_size);
        node.value
    }

    /// Removes the item at `i` and gives its slot back.
    pub fn remove_node(&mut self, heap: &mut FixedHeap, i: usize) -> (value: T)
        requires
            old(self).well_formed(*old(heap)),
            i < old(self).nodes@.len(),
        ensures
            value == old(self).nodes@[i as int].value,
            final(self).nodes@ == old(self).nodes@.remove(i as int),
            final(self).allocator == old(self).allocator,
            final(self).well_formed(*final(heap)),
            final(heap).base == old(heap).base,
            final(heap).old_base == old(heap).old_base,
            fixed_allocator::slots_changed(
                old(heap).bitmap@, final(heap).bitmap@, old(self).allocator.hdr(),
                old(self).allocator.slot_of(*old(heap), old(self).nodes@[i as int].address), 1, false),
    {
        let ghost n0 = self.nodes@;
        let node: ListNode<T> = self.nodes.remove(i);
        proof {
            assert(self.owns(*heap, n0[i as int].address));
            assert forall|k: int| 0 <= k < self.nodes@.len() implies self.owns(
                *heap, (#[trigger] self.nodes@[k]).address) by {
                let k0 = if k < i { k } else { k + 1 };
                assert(self.nodes@[k] == n0[k0]);
            }
        }
        self.free_node(heap, node)
    }

    /// Takes the oldest node out, as a queue does; its slot stays in use until it is given back.
    pub fn pop_node(&mut self) -> (r: Option<ListNode<T>>)
        ensures
            final(self).allocator == old(self).allocator,
            match r {
                Some(n) => old(self).nodes@.len() > 0 && n == old(self).nodes@[0]
                    && final(self).nodes@ == old(self).nodes@.remove(0),
                None => old(self).nodes@.len() == 0 && final(self).nodes@ == old(self).nodes@,
            },
    {
        if self.nodes.len() == 0 {
            return None;
        }
        Some(self.nodes.remove(0))
    }

    /// Puts a node that was taken out back at the end.
    pub fn push_node(&mut self, node: ListNode<T>)
        ensures
            final(self).allocator == old(self).allocator,
            final(self).nodes@ == old(self).nodes@.push(node),
    {
        self.nodes.push(node);
    }
}

proof fn lemma_slot_address(a: FixedAllocator, heap: FixedHeap, start: int, address: u64)
    requires
        a.well_formed(),
        heap.well_formed(),
        heap.base + 233472 <= u64::MAX,
        heap.old_base == heap.base || heap.old_base + 233472 <= heap.base || heap.base + 233472 <= heap.old_base,
        0 <= start,
        start + 1 <= a.total_slots(),
        address == heap.base + fixed_allocator::region_start(a.region) + start * a.slot_size,
    ensures
        heap.base + fixed_allocator::region_start(a.region) <= address,
        !(heap.old_base <= address < heap.old_base + 233472) || heap.old_base == heap.base,
        a.slot_of(heap, address) == start,
{
    let s = a.slot_size as int;
    let size = fixed_allocator::region_size(a.region);
    assert(0 <= start * s && start * s < size) by (nonlinear_arith)
        requires 0 <= start, s >= 8, start + 1 <= size / s, size >= 0;
    assert(s * start / s == start) by {
        vstd::arithmetic::div_mod::lemma_div_multiples_vanish(start, s);
    }
    assert(start * s == s * start) by (nonlinear_arith);
}

} // verus!
