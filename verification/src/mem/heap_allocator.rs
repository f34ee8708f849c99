use vstd::prelude::*;
use crate::util;
use crate::util::{align_up, PAGE_SIZE};
use crate::mem::block::VIRTUAL;
use crate::mem::manager;
use crate::mem::manager::{Memory, MemoryManager};

verus! {

/// Size of the header that a free region holds.
pub const NODE_SIZE: u64 = 16;
/// Alignment of that header.
pub const NODE_ALIGN: u64 = 8;

/// A free region of the heap.
#[derive(Clone, Copy, Debug, PartialEq, Eq, Structural)]
pub struct ListNode {
    pub addr: u64,
    pub size: u64,
}

/// The kernel's heap: a list of free regions, the newest first.
pub struct LinkedListAllocator {
    pub regions: Vec<ListNode>,
    pub backing_memory: u64,
}

/// What the heap holds.
#[verifier::ext_equal]
pub struct Heap {
    pub regions: Seq<ListNode>,
    pub backing: u64,
}

impl View for LinkedListAllocator {
    type V = Heap;

    open spec fn view(&self) -> Heap {
        Heap { regions: self.regions@, backing: self.backing_memory }
    }
}

/// The region can hold `size` bytes at an aligned address.
pub open spec fn fits(n: ListNode, size: int, align: int) -> bool {
    n.size >= size + (util::align_up_spec(n.addr as int, align) - n.addr)
}

/// The first region from `i` on that fits.
pub open spec fn first_fit(s: Seq<ListNode>, i: int, size: int, align: int) -> Option<int>
    decreases s.len() - i,
{
    if i < 0 || i >= s.len() {
        None
    } else if fits(s[i], size, align) {
        Some(i)
    } else {
        first_fit(s, i + 1, size, align)
    }
}

/// Where the block handed out from a region starts.
pub open spec fn block_start(n: ListNode, align: int) -> int {
    util::align_up_spec(n.addr as int, align)
}

/// Where what is left of the region starts.
pub open spec fn rest_start(n: ListNode, size: int, align: int) -> int {
    util::align_up_spec(block_start(n, align) + size, 8)
}

pub open spec fn rest_size(n: ListNode, size: int, align: int) -> int {
    n.size - (rest_start(n, size, align) - n.addr)
}

impl Heap {
    /// The heap once a block has been cut out of region `i`: what is left of the region goes to the
    /// front of the list, if a header fits into it.
    pub open spec fn used(self, i: int, size: u64, align: int) -> Heap {
        let n = self.regions[i];
        let rest = self.regions.remove(i);
        Heap {
            regions: if rest_size(n, size as int, align) >= 16 {
                seq![ListNode {
                    addr: rest_start(n, size as int, align) as u64,
                    size: rest_size(n, size as int, align) as u64,
                }] + rest
            } else {
                rest
            },
            backing: if self.backing >= size { (self.backing - size) as u64 } else { 0 },
        }
    }

    /// The region can be split without reaching past its end.
    pub open spec fn splittable(self, i: int, size: int, align: int) -> bool {
        rest_size(self.regions[i], size, align) >= 0
    }

    pub open spec fn added(self, addr: u64, size: u64) -> Heap {
        Heap { regions: seq![ListNode { addr, size }] + self.regions, ..self }
    }

    /// The region a request is served from without asking for more memory.
    pub open spec fn choice(self, size: u64, align: int) -> Option<int> {
        if self.backing >= size { first_fit(self.regions, 0, size as int, align) } else { None }
    }

    pub open spec fn grown(self, addr: u64, size: u64) -> Heap {
        Heap { backing: (self.backing + size) as u64, ..self.added(addr, size) }
    }
}

/// Addresses can be aligned without leaving the address space.
pub open spec fn regions_sound(s: Seq<ListNode>, align: int) -> bool {
    forall|i: int| 0 <= i < s.len() ==> util::align_up_spec((#[trigger] s[i]).addr as int, align) <= u64::MAX
}

proof fn lemma_first_fit(s: Seq<ListNode>, i: int, size: int, align: int)
    requires
        0 <= i,
    ensures
        match first_fit(s, i, size, align) {
            Some(k) => i <= k < s.len() && fits(s[k], size, align)
                && forall|j: int| i <= j < k ==> !fits(#[trigger] s[j], size, align),
            None => forall|j: int| i <= j < s.len() ==> !fits(#[trigger] s[j], size, align),
        },
    decreases s.len() - i,
{
    if i < s.len() {
        lemma_first_fit(s, i + 1, size, align);
    }
}

impl LinkedListAllocator {
    /// An empty heap.
    pub fn new() -> (r: LinkedListAllocator)
        ensures
            r.regions@.len() == 0,
            r.backing_memory == 0,
    {
        LinkedListAllocator { regions: Vec::new(), backing_memory: 0 }
    }

    /// Finds the first region that can hold the block.
    fn find_fit(&self, size: u64, align: u64) -> (r: Option<usize>)
        requires
            align > 0,
            regions_sound(self.regions@, align as int),
        ensures
            match r {
                Some(k) => first_fit(self.regions@, 0, size as int, align as int) == Some(k as int)
                    && k < self.regions@.len(),
                None => first_fit(self.regions@, 0, size as int, align as int) is None,
            },
    {
        let mut i: usize = 0;
        while i < self.regions.len()
            invariant
                i <= self.regions@.len(),
                align > 0,
                regions_sound(self.regions@, align as int),
                first_fit(self.regions@, 0, size as int, align as int)
                    == first_fit(self.regions@, i as int, size as int, align as int),
            decreases self.regions@.len() - i,
        {
            let n: ListNode = self.regions[i];
            assert(util::align_up_spec(self.regions@[i as int].addr as int, align as int) <= u64::MAX);
            let padding: u64 = align_up(n.addr, align) - n.addr;
            if n.size >= size && n.size - size >= padding {
                return Some(i);
            }
            i = i + 1;
        }
        None
    }

    fn add_free_region(&mut self, addr: u64, size: u64)
        ensures
            final(self)@ == old(self)@.added(addr, size),
    {
        self.regions.insert(0, ListNode { addr, size });
        assert(self.regions@ =~= seq![ListNode { addr, size }] + old(self).regions@);
    }

    /// Cuts a block out of region `i`.
    fn use_list_node(&mut self, i: usize, size: u64, align: u64) -> (r: u64)
        requires
            i < old(self).regions@.len(),
            align > 0,
            block_start(old(self).regions@[i as int], align as int) <= u64::MAX,
            rest_start(old(self).regions@[i as int], size as int, align as int) <= u64::MAX,
            old(self)@.splittable(i as int, size as int, align as int),
        ensures
            final(self)@ == old(self)@.used(i as int, size, align as int),
            r == block_start(old(self).regions@[i as int], align as int),
    {
        let n: ListNode = self.regions.remove(i);
        let start: u64 = align_up(n.addr, align);
        let next: u64 = align_up(start + size, NODE_ALIGN);
        let remaining: u64 = n.size - (next - n.addr);
        self.backing_memory = if self.backing_memory >= size { self.backing_memory - size } else { 0 };
        if remaining >= NODE_SIZE {
            self.add_free_region(next, remaining);
        }
        start
    }
}

pub open spec fn at_least(a: u64, b: u64) -> u64 {
    if a >= b { a } else { b }
}

/// The outcome of a request for heap memory, and the memory manager after it: a free region serves
/// it, or else fresh pages are asked for and the search is repeated.
pub open spec fn heap_allocated(h: Heap, m: Memory, size: u64, align: u64) -> (Heap, Memory, Option<u64>) {
    let size = at_least(size, NODE_SIZE);
    let align = at_least(align, NODE_ALIGN) as int;
    match h.choice(size, align) {
        Some(i) => (h.used(i, size, align), m, Some(block_start(h.regions[i], align) as u64)),
        None => {
            let more = util::align_up_spec(size as int, 4096) as u64;
            let (m1, r) = m.allocated(more, 4096, VIRTUAL);
            match r {
                Err(_) => (h, m1, None),
                Ok(addr) => {
                    let h1 = h.grown(addr, more);
                    match first_fit(h1.regions, 0, size as int, align) {
                        Some(i) => (h1.used(i, size, align), m1, Some(block_start(h1.regions[i], align) as u64)),
                        None => (h1, m1, None),
                    }
                },
            }
        },
    }
}

/// The block can be cut out of the region it is served from.
pub open spec fn heap_request_sound(h: Heap, m: Memory, size: u64, align: u64) -> bool {
    let size = at_least(size, NODE_SIZE);
    let align = at_least(align, NODE_ALIGN) as int;
    let more = util::align_up_spec(size as int, 4096);
    &&& more <= u64::MAX
    &&& regions_sound(h.regions, align)
    &&& match h.choice(size, align) {
        Some(i) => h.splittable(i, size as int, align) && rest_start(h.regions[i], size as int, align) <= u64::MAX,
        None => m.allocated(more as u64, 4096, VIRTUAL).1 matches Ok(addr) ==> {
            let h1 = h.grown(addr, more as u64);
            &&& h.backing + more <= u64::MAX
            &&& regions_sound(h1.regions, align)
            &&& first_fit(h1.regions, 0, size as int, align) matches Some(i) ==>
                h1.splittable(i, size as int, align) && rest_start(h1.regions[i], size as int, align) <= u64::MAX
        },
    }
}

/// Hands out heap memory; nothing if no more can be had.
pub fn heap_alloc_impl(heap: &mut LinkedListAllocator, mm: &mut MemoryManager, size: u64, align: u64) -> (r: Option<u64>)
    requires
        old(mm).well_formed(),
        old(mm).is_init,
        heap_request_sound(old(heap)@, old(mm)@, size, align),
    ensures
        (final(heap)@, final(mm)@, r) == heap_allocated(old(heap)@, old(mm)@, size, align),
        final(mm).well_formed(),
{
    let size: u64 = if size >= NODE_SIZE { size } else { NODE_SIZE };
    let align: u64 = if align >= NODE_ALIGN { align } else { NODE_ALIGN };
    if heap.backing_memory >= size {
        if let Some(i) = heap.find_fit(size, align) {
            assert(util::align_up_spec(heap.regions@[i as int].addr as int, align as int) <= u64::MAX);
            return Some(heap.use_list_node(i, size, align));
        }
    }
    let more: u64 = align_up(size, PAGE_SIZE);
    proof {
        assert(manager::has_flag(VIRTUAL, VIRTUAL) && !manager::has_flag(VIRTUAL, crate::mem::block::USER)) by {
            assert(1u8 & 1u8 != 0 && 1u8 & 2u8 == 0) by (bit_vector);
        }
    }
    match mm.allocate_memory(more, PAGE_SIZE, VIRTUAL) {
        Err(_) => None,
        Ok(addr) => {
            heap.add_free_region(addr, more);
            heap.backing_memory = heap.backing_memory + more;
            match heap.find_fit(size, align) {
                Some(i) => {
                    assert(util::align_up_spec(heap.regions@[i as int].addr as int, align as int) <= u64::MAX);
                    Some(heap.use_list_node(i, size, align))
                },
                None => None,
            }
        },
    }
}

/// Takes heap memory back: it becomes the first free region.
pub fn heap_dealloc_impl(heap: &mut LinkedListAllocator, addr: u64, size: u64)
    requires
        old(heap).backing_memory + at_least(size, NODE_SIZE) <= u64::MAX,
    ensures
        final(heap)@ == old(heap)@.grown(addr, at_least(size, NODE_SIZE)),
{
    let size: u64 = if size >= NODE_SIZE { size } else { NODE_SIZE };
    heap.add_free_region(addr, size);
    heap.backing_memory = heap.backing_memory + size;
}

/// A block cut out of a region lies inside the region, aligned, and apart from what is left of it.
pub proof fn law_block_inside_region(n: ListNode, size: int, align: int)
    requires
        align > 0,
        0 <= size,
        rest_size(n, size, align) >= 0,
    ensures
        n.addr <= block_start(n, align),
        block_start(n, align) % align == 0,
        block_start(n, align) + size <= rest_start(n, size, align),
        rest_start(n, size, align) + rest_size(n, size, align) == n.addr + n.size,
{
    let a = n.addr as int;
    vstd::arithmetic::div_mod::lemma_mod_bound(a, align);
    if a % align != 0 {
        vstd::arithmetic::div_mod::lemma_fundamental_div_mod(a, align);
        let q = a / align;
        assert(a + (align - a % align) == align * (q + 1) + 0) by (nonlinear_arith)
            requires a == align * q + a % align;
        vstd::arithmetic::div_mod::lemma_mod_multiples_vanish(q + 1, 0, align);
        vstd::arithmetic::div_mod::lemma_small_mod(0, align as nat);
    }
}

/// A request that a free region served comes from the first region that fits it.
pub proof fn law_first_fit(h: Heap, size: u64, align: int, i: int)
    requires
        h.choice(size, align) == Some(i),
    ensures
        0 <= i < h.regions.len(),
        fits(h.regions[i], size as int, align),
        forall|j: int| 0 <= j < i ==> !fits(#[trigger] h.regions[j], size as int, align),
{
    lemma_first_fit(h.regions, 0, size as int, align);
}

} // verus!
