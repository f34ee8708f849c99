use vstd::prelude::*;
use crate::error::KError;
use crate::loader::module::{RemapEntry, RemapType};
use crate::mem::block;
use crate::mem::fixed_allocator;
use crate::mem::fixed_allocator::Regions;
use crate::mem::frame_allocator;
use crate::mem::frame_allocator::{Frames, MemType, MemoryDesc};
use crate::mem::manager;
use crate::mem::heap_allocator;
use crate::mem::heap_allocator::{Heap, ListNode};
use crate::mem::manager::Memory;
use crate::mem::pool_allocator;
use crate::mem::pool_allocator::Pools;
use crate::mem::virtual_allocator;
use crate::mem::virtual_allocator::{PageOp, Space};
use crate::util;

verus! {

/// A size takes as many whole pages as hold it, and not one more.
pub proof fn law_pages_needed(size: int)
    requires
        0 < size,
    ensures
        ({
            let p = util::ceil_div_spec(size, 4096);
            0 < p && 4096 * (p - 1) < size <= 4096 * p
        }),
{
}

/// Rounding leads to the nearest multiple on its side.
pub proof fn law_rounding(n: int, a: int)
    requires
        0 <= n,
        0 < a,
    ensures
        util::align_down_spec(n, a) % a == 0,
        util::align_up_spec(n, a) % a == 0,
        n - a < util::align_down_spec(n, a) <= n <= util::align_up_spec(n, a) < n + a,
{
    vstd::arithmetic::div_mod::lemma_fundamental_div_mod(n, a);
    let q = n / a;
    let r = n % a;
    assert(0 <= r < a) by (nonlinear_arith)
        requires
            r == n % a,
            0 < a,
    ;
    assert(n - r == q * a + 0 && n + (a - r) == (q + 1) * a + 0) by (nonlinear_arith)
        requires
            n == a * q + r,
    ;
    vstd::arithmetic::div_mod::lemma_fundamental_div_mod_converse(n - r, a, q, 0);
    vstd::arithmetic::div_mod::lemma_fundamental_div_mod_converse(n + (a - r), a, q + 1, 0);
}

/// Physical pages are handed out from the beginning of a free block that has enough of them within the
/// limits, the smallest such block; as many bytes less are available then.
pub proof fn law_frames_handed_out(f: Frames, size: u64, align: u64)
    requires
        f.allocated(size, align).1 is Ok,
    ensures
        ({
            let (g, r) = f.allocated(size, align);
            let start = r->Ok_0;
            let pages = util::ceil_div_spec(size as int, 4096);
            &&& size < f.avl && align <= 4096
            &&& f.low <= start && start + 4096 * pages <= f.high + 1
            &&& exists|i: int| 0 <= i < f.free.len() && (#[trigger] f.free[i]).start_phy_address == start
                && f.free[i].num_pages >= pages
                && forall|j: int| 0 <= j < f.free.len() && (#[trigger] f.free[j]).num_pages >= pages
                    && f.free[j].start_phy_address >= f.low
                    && f.free[j].start_phy_address + 4096 * pages <= f.high + 1
                    ==> f.free[i].num_pages <= f.free[j].num_pages
            &&& g.alloc == f.alloc.push(block::phys_block(start as int, pages))
            &&& g.avl == (f.avl - 4096 * pages) as u64
            &&& g.total == f.total && g.low == f.low && g.high == f.high
        }),
{
    let pages = util::ceil_div_spec(size as int, 4096);
    frame_allocator::law_best_fit(f.free, f.free.len(), pages, f.low, f.high);
    let i = f.choice(pages)->0;
    assert(f.free[i].start_phy_address == f.allocated(size, align).1->Ok_0);
    assert forall|j: int| 0 <= j < f.free.len() && (#[trigger] f.free[j]).num_pages >= pages
        && f.free[j].start_phy_address >= f.low && f.free[j].start_phy_address + 4096 * pages <= f.high + 1
        implies f.free[i].num_pages <= f.free[j].num_pages by {
        assert(frame_allocator::serves(f.free[j], pages, f.low, f.high));
    }
}

/// Physical pages are refused for a want of memory, of a block that is large enough within the limits or of
/// room in the books, or because they are to be aligned to more than a page.
pub proof fn law_frames_refused(f: Frames, size: u64, align: u64)
    ensures
        ({
            let (g, r) = f.allocated(size, align);
            let pages = util::ceil_div_spec(size as int, 4096);
            r matches Err(e) ==> {
                ||| e == KError::OutOfMemory && size >= f.avl && g == f
                ||| e == KError::InvalidArgument && align > 4096 && g == f
                ||| e == KError::OutOfMemory && g == f && forall|j: int|
                    0 <= j < f.free.len() ==> !((#[trigger] f.free[j]).num_pages >= pages
                        && f.free[j].start_phy_address >= f.low
                        && f.free[j].start_phy_address + 4096 * pages <= f.high + 1)
                ||| e == KError::OutOfMemory && g.alloc == f.alloc && f.node_limit <= g.free.len() + f.alloc.len()
            }
        }),
{
    let pages = util::ceil_div_spec(size as int, 4096);
    frame_allocator::law_best_fit(f.free, f.free.len(), pages, f.low, f.high);
    if f.choice(pages) is None {
        assert forall|j: int| 0 <= j < f.free.len() implies !((#[trigger] f.free[j]).num_pages >= pages
            && f.free[j].start_phy_address >= f.low && f.free[j].start_phy_address + 4096 * pages <= f.high + 1) by {
            assert(!frame_allocator::serves(f.free[j], pages, f.low, f.high));
        }
    }
}

/// Pages are taken back only as they were handed out.
pub proof fn law_frames_taken_back(f: Frames, addr: u64, size: u64, align: u64)
    ensures
        ({
            let (g, r) = f.deallocated(addr, size, align);
            let pages = util::ceil_div_spec(size as int, 4096);
            let there = exists|k: int| 0 <= k < f.alloc.len() && (#[trigger] f.alloc[k]).start_phy_address == addr
                && f.alloc[k].num_pages == pages;
            &&& r is Ok <==> there && align <= 4096
            &&& r is Err ==> g == f && r == Err::<(), KError>(KError::InvalidArgument)
            &&& r is Ok ==> g.avl == (f.avl + 4096 * pages) as u64 && g.alloc.len() == f.alloc.len() - 1
        }),
{
    let pages = util::ceil_div_spec(size as int, 4096);
    lemma_exact(f.alloc, 0, addr, pages);
    if let Some(k) = frame_allocator::find_exact(f.alloc, 0, addr, pages) {
        assert(f.alloc[k].start_phy_address == addr);
    }
}

proof fn lemma_exact(s: Seq<block::PageDescriptor>, i: int, addr: u64, pages: int)
    requires
        0 <= i,
    ensures
        match frame_allocator::find_exact(s, i, addr, pages) {
            Some(k) => i <= k < s.len() && s[k].start_phy_address == addr && s[k].num_pages == pages,
            None => forall|k: int| i <= k < s.len() ==> !((#[trigger] s[k]).start_phy_address == addr
                && s[k].num_pages == pages),
        },
    decreases s.len() - i,
{
    if i < s.len() {
        lemma_exact(s, i + 1, addr, pages);
    }
}

/// The block of an entry of the memory map. The first page of memory is never used.
pub open spec fn entry_block(d: MemoryDesc) -> block::PageDescriptor {
    if d.val.base_address == 0 {
        block::phys_block(4096, (d.val.size - 4096) / 4096)
    } else {
        block::phys_block(d.val.base_address as int, d.val.size as int / 4096)
    }
}

/// What the memory map says at the start: free memory is free, memory in use and memory that is mapped to
/// itself is handed out, and what the boot loader left is kept apart.
pub proof fn law_memory_at_start(map: Seq<MemoryDesc>, n: nat, i: int)
    requires
        frame_allocator::map_sound(map),
        0 <= i < n <= map.len(),
        map[i].val.base_address == 0 ==> map[i].val.size > 4096,
    ensures
        ({
            let b = frame_allocator::boot_memory(map, n);
            let e = entry_block(map[i]);
            &&& map[i].mem_type is Free ==> b.free.contains(e)
            &&& map[i].mem_type is Allocated ==> b.alloc.contains(e)
            &&& map[i].mem_type is Identity ==> b.alloc.contains(e)
            &&& map[i].mem_type is BootloaderData ==> b.boot.contains(e)
        }),
    decreases n,
{
    let b = frame_allocator::boot_memory(map, n);
    let a = frame_allocator::boot_memory(map, (n - 1) as nat);
    let e = entry_block(map[i]);
    assert(map[i].val.size % 4096 == 0);
    assert(map[n - 1].val.size % 4096 == 0);
    if i < n - 1 {
        law_memory_at_start(map, (n - 1) as nat, i);
        lemma_grown(a.free, b.free, e);
        lemma_grown(a.alloc, b.alloc, e);
        lemma_grown(a.boot, b.boot, e);
    } else {
        match map[i].mem_type {
            MemType::Free => {
                assert(b.free[b.free.len() - 1] == e);
            },
            MemType::Allocated => {
                assert(b.alloc[b.alloc.len() - 1] == e);
            },
            MemType::Identity => {
                assert(b.alloc[b.alloc.len() - 1] == e);
            },
            MemType::BootloaderData => {
                assert(b.boot[b.boot.len() - 1] == e);
            },
        }
    }
}

proof fn lemma_grown(s: Seq<block::PageDescriptor>, t: Seq<block::PageDescriptor>, e: block::PageDescriptor)
    requires
        t == s || t == s.push(t.last()),
    ensures
        s.contains(e) ==> t.contains(e),
{
    if s.contains(e) {
        let k = choose|k: int| 0 <= k < s.len() && s[k] == e;
        assert(t[k] == e);
    }
}

/// What the flags of a request for memory mean: bit 0 that it is for address space, bit 1 that it is for
/// a user, bit 2 that no physical memory goes with it.
pub proof fn law_memory_flags(m: Memory, flags: u8)
    ensures
        m.is_virtual(flags) <==> m.is_init && flags % 2 == 1,
        manager::has_flag(flags, crate::mem::block::USER) <==> (flags / 2) % 2 == 1,
        manager::has_flag(flags, crate::mem::block::NO_ALLOC) <==> (flags / 4) % 2 == 1,
{
    assert((flags & 1 != 0) == (flags % 2 == 1)) by (bit_vector);
    assert((flags & 2 != 0) == ((flags / 2) % 2 == 1)) by (bit_vector);
    assert((flags & 4 != 0) == ((flags / 4) % 2 == 1)) by (bit_vector);
}

/// Before the address spaces are set up, memory is physical: nothing is mapped, and every address leads to
/// itself.
pub proof fn law_memory_before_start(m: Memory, phys: u64, virt: u64, size: u64, align: u64, flags: u8)
    requires
        !m.is_init,
    ensures
        m.mapped(phys, virt, size, flags) == (m, Ok::<(), KError>(())),
        m.unmapped(virt, size) == (m, Ok::<(), KError>(())),
        m.phys_at(virt, true) == Some(virt),
        m.phys_at(virt, false) == Some(virt),
        m.allocated(size, align, flags).1 == m.phys.allocated(size, align).1,
        m.allocated(size, align, flags).0.phys == m.phys.allocated(size, align).0,
        m.deallocated(virt, size, align, flags).1 == m.phys.deallocated(virt, size, align).1,
{
}

/// Pages that the kernel maps while a process runs can be found by the kernel, and the process is
/// told to map the same.
pub proof fn law_kernel_pages_shared(m: Memory, phys: u64, virt: u64, size: u64, flags: u8, at: int)
    requires
        m.spaces_formed(),
        m.mapped(phys, virt, size, flags).0.spaces_formed(),
        m.is_init,
        m.process is Some,
        (flags / 2) % 2 == 0,
        m.mapped(phys, virt, size, flags).1 is Ok,
        0 <= at < size,
        virt + util::align_up_spec(size as int, 4096) <= u64::MAX,
    ensures
        ({
            let r = m.mapped(phys, virt, size, flags).0;
            &&& r.phys_at((virt + at) as u64, false) == Some((phys + at) as u64)
            &&& r.kernel == m.kernel.mapped(phys, virt, size, flags, true).0
            &&& r.process == Some(m.process->0.mapped(phys, virt, size, flags, false).0)
            &&& m.process->0.mapped(phys, virt, size, flags, false).1 is Ok
        }),
{
    law_memory_flags(m, flags);
    virtual_allocator::law_map_then_look_up(m.kernel, phys, virt, size, flags, true, at);
}

/// An address is canonical if its upper 17 bits are alike: the lower 48 stay, and the highest of them
/// is repeated above.
pub proof fn law_canonical(a: u64)
    ensures
        manager::canonical(a) % 0x1_0000_0000_0000 == a % 0x1_0000_0000_0000,
        manager::canonical(a) / 0x8000_0000_0000 == 0 || manager::canonical(a) / 0x8000_0000_0000 == 0x1ffff,
{
}

/// The block has the pages from the address on, and none of it is mapped.
pub open spec fn open_for(d: block::PageDescriptor, virt: int, len: int) -> bool {
    !d.is_mapped && d.start_virt_address <= virt && virt + len <= d.start_virt_address + 4096 * d.num_pages
}

proof fn lemma_open_block(s: Seq<block::PageDescriptor>, i: int, virt: int, len: int)
    requires
        0 <= i,
    ensures
        match virtual_allocator::find_holder(s, i, virt, len, true) {
            Some(k) => i <= k < s.len() && open_for(s[k], virt, len),
            None => forall|k: int| i <= k < s.len() ==> !open_for(#[trigger] s[k], virt, len),
        },
    decreases s.len() - i,
{
    if i < s.len() {
        lemma_open_block(s, i + 1, virt, len);
    }
}

/// Whole pages are mapped to whole pages, in address space that has been handed out and is not mapped yet; the
/// machine is told, unless it is not to be. What the kernel maps is no process's business: a process only tells the
/// machine.
pub proof fn law_pages_mapped(v: Space, phys: u64, virt: u64, size: u64, flags: u8, skip: bool)
    requires
        size + 4095 <= u64::MAX,
    ensures
        ({
            let (w, r) = v.mapped(phys, virt, size, flags, skip);
            let whole = util::align_up_spec(size as int, 4096);
            let op = PageOp::MapPages { virt_addr: virt, phys_addr: phys, size: whole as u64, flags };
            let own = v.proc_id == 0 || (flags / 2) % 2 == 1;
            let aligned = phys % 4096 == 0 && virt % 4096 == 0;
            &&& r is Ok <==> aligned && (own ==> exists|k: int| 0 <= k < v.alloc.len()
                && open_for(#[trigger] v.alloc[k], virt as int, whole))
            &&& r is Err ==> w == v && r == Err::<(), KError>(KError::InvalidArgument)
            &&& r is Ok ==> w.ops == (if own && skip { v.ops } else { v.ops.push(op) })
            &&& r is Ok ==> w.free == v.free && w.avl == v.avl
            &&& r is Ok && !own ==> w.alloc == v.alloc
            &&& r is Ok && own ==> w.alloc.last().is_mapped && w.alloc.last().start_virt_address == virt
                && w.alloc.last().start_phy_address == phys && 4096 * w.alloc.last().num_pages == whole
                && w.alloc.last().flags == flags
        }),
{
    let whole = util::align_up_spec(size as int, 4096);
    law_rounding(size as int, 4096);
    assert((flags & 2 != 0) == ((flags / 2) % 2 == 1)) by (bit_vector);
    lemma_open_block(v.alloc, 0, virt as int, whole);
    if let Some(k) = virtual_allocator::find_holder(v.alloc, 0, virt as int, whole, true) {
        assert(open_for(v.alloc[k], virt as int, whole));
    }
}

/// A block of a heap and what is left behind it share the region without a gap of more than the alignment of
/// eight, and without overlap.
pub proof fn law_heap_region_split(n: ListNode, size: int, align: int)
    requires
        0 < align,
        0 <= size,
    ensures
        heap_allocator::block_start(n, align) >= n.addr,
        heap_allocator::block_start(n, align) % align == 0,
        heap_allocator::block_start(n, align) < n.addr + align,
        heap_allocator::rest_start(n, size, align) % 8 == 0,
        heap_allocator::block_start(n, align) + size <= heap_allocator::rest_start(n, size, align),
        heap_allocator::rest_start(n, size, align) < heap_allocator::block_start(n, align) + size + 8,
        heap_allocator::rest_start(n, size, align) + heap_allocator::rest_size(n, size, align) == n.addr + n.size,
{
    law_rounding(n.addr as int, align);
    law_rounding(heap_allocator::block_start(n, align) + size, 8);
}

/// A heap gives sixteen bytes at least, aligned to eight at least. It takes them from the first region that has room,
/// and gets whole pages more where none has.
pub proof fn law_heap_serves(h: Heap, m: Memory, size: u64, align: u64, i: int)
    requires
        0 <= i < h.regions.len(),
        size >= 16,
        align >= 8,
        h.backing >= size,
        heap_allocator::fits(h.regions[i], size as int, align as int),
        forall|j: int| 0 <= j < i ==> !heap_allocator::fits(#[trigger] h.regions[j], size as int, align as int),
        heap_allocator::block_start(h.regions[i], align as int) <= u64::MAX,
    ensures
        ({
            let (g, m1, r) = heap_allocator::heap_allocated(h, m, size, align);
            &&& m1 == m
            &&& r is Some && r->0 == heap_allocator::block_start(h.regions[i], align as int)
            &&& g.backing == h.backing - size
        }),
        forall|s: u64, a: u64| s < 16 ==> #[trigger] heap_allocator::heap_allocated(h, m, s, a)
            == heap_allocator::heap_allocated(h, m, 16, a),
        forall|s: u64, a: u64| a < 8 ==> #[trigger] heap_allocator::heap_allocated(h, m, s, a)
            == heap_allocator::heap_allocated(h, m, s, 8),
{
    lemma_first_fit(h.regions, 0, size as int, align as int, i);
}

proof fn lemma_first_fit(s: Seq<ListNode>, j: int, size: int, align: int, i: int)
    requires
        0 <= j <= i < s.len(),
        heap_allocator::fits(s[i], size, align),
        forall|k: int| j <= k < i ==> !heap_allocator::fits(#[trigger] s[k], size, align),
    ensures
        heap_allocator::first_fit(s, j, size, align) == Some(i),
    decreases i - j,
{
    if j < i {
        assert(!heap_allocator::fits(s[j], size, align));
        lemma_first_fit(s, j + 1, size, align, i);
    }
}

/// The blocks that a pool cuts from new memory lie one behind the other.
pub proof fn law_pool_blocks(base: u64, n: nat, size: u64, k: int)
    requires
        0 <= k < n,
        base + n * size <= u64::MAX,
    ensures
        pool_allocator::pushed(Seq::empty(), base, n, size).len() == n,
        pool_allocator::pushed(Seq::empty(), base, n, size)[k] == base + k * size,
    decreases n,
{
    let m = (n - 1) as nat;
    assert(m * size <= n * size && k * size <= m * size && 0 <= k * size) by (nonlinear_arith)
        requires
            0 <= k <= m,
            m + 1 == n,
            0 <= size,
    ;
    lemma_pushed_len(base, n, size);
    lemma_pushed_len(base, m, size);
    if k < n - 1 {
        law_pool_blocks(base, m, size, k);
    }
}

proof fn lemma_pushed_len(base: u64, n: nat, size: u64)
    ensures
        pool_allocator::pushed(Seq::empty(), base, n, size).len() == n,
    decreases n,
{
    if n > 0 {
        lemma_pushed_len(base, (n - 1) as nat, size);
    }
}

/// A pool hands out the block that it has, the last first; only an empty one asks for memory, eight kilobytes, and
/// cuts it up.
pub proof fn law_pool_serves(p: Pools, m: Memory, size: u64, i: int)
    requires
        pool_allocator::find_pool(p.pools, 0, size) == Some(i),
        0 <= i < p.pools.len(),
        0 < size,
    ensures
        ({
            let (q, m1, r) = pool_allocator::block_allocated(p, m, size);
            let free = p.pools[i].free;
            &&& free.len() > 0 ==> m1 == m && r == Ok::<u64, KError>(free.last()) && q.pools[i].free == free.drop_last()
            &&& free.len() == 0 ==> m1 == m.allocated(8192, 4096, 1).0
            &&& free.len() == 0 && m.allocated(8192, 4096, 1).1 is Err ==> r == m.allocated(8192, 4096, 1).1
            &&& free.len() == 0 && m.allocated(8192, 4096, 1).1 is Ok && size <= 8192 ==> r is Ok
                && q.pools[i].free.len() == 8192u64 / size - 1
            &&& q.pools[i].block_size == p.pools[i].block_size
            &&& forall|j: int| 0 <= j < p.pools.len() && j != i ==> #[trigger] q.pools[j] == p.pools[j]
        }),
{
    if p.pools[i].free.len() == 0 {
        if let Ok(base) = m.allocated(8192, 4096, 1).1 {
            let n = (8192u64 / size) as nat;
            lemma_pushed_len(base, n, size);
            if size <= 8192 {
                assert(8192u64 / size >= 1) by (nonlinear_arith)
                    requires
                        0 < size <= 8192,
                ;
            }
        }
    }
}

/// The five regions for fixed slots lie one behind the other and fill the memory set aside for them, and so do the
/// parts of the bitmap, with one bit for each slot of eight bytes.
pub proof fn law_fixed_regions(r: Regions)
    ensures
        fixed_allocator::region_start(Regions::Region0) == 0,
        fixed_allocator::region_start(Regions::Region1)
            == fixed_allocator::region_start(Regions::Region0) + fixed_allocator::region_size(Regions::Region0),
        fixed_allocator::region_start(Regions::Region2)
            == fixed_allocator::region_start(Regions::Region1) + fixed_allocator::region_size(Regions::Region1),
        fixed_allocator::region_start(Regions::Region3)
            == fixed_allocator::region_start(Regions::Region2) + fixed_allocator::region_size(Regions::Region2),
        fixed_allocator::region_start(Regions::Region4)
            == fixed_allocator::region_start(Regions::Region3) + fixed_allocator::region_size(Regions::Region3),
        fixed_allocator::region_start(Regions::Region4) + fixed_allocator::region_size(Regions::Region4) == 229376,
        64 * fixed_allocator::bitmap_start(r) == fixed_allocator::region_start(r),
        0 < fixed_allocator::region_size(r) && fixed_allocator::region_size(r) % 4096 == 0,
{
}

proof fn lemma_op_kept(s: Seq<PageOp>, x: PageOp, e: PageOp)
    ensures
        s.contains(e) ==> s.push(x).contains(e),
        s.push(x).contains(x),
{
    if s.contains(e) {
        let k = choose|k: int| 0 <= k < s.len() && s[k] == e;
        assert(s.push(x)[k] == e);
    }
    assert(s.push(x)[s.len() as int] == x);
}

/// What is to stay where it is when the kernel gets its address space is mapped to itself.
pub proof fn law_mapped_to_itself(k: Space, items: Seq<RemapEntry>, n: nat, i: int)
    requires
        k.proc_id == 0,
        0 <= i < n <= items.len(),
        manager::identity_mapped(k, items, n) is Some,
        items[i].map_type is IdentityMapped,
    ensures
        manager::identity_mapped(k, items, n)->0.proc_id == 0,
        manager::identity_mapped(k, items, n)->0.ops.contains(PageOp::MapPages {
            virt_addr: items[i].value.base_address,
            phys_addr: items[i].value.base_address,
            size: items[i].value.size,
            flags: items[i].flags,
        }),
    decreases n,
{
    lemma_identity_space(k, items, (n - 1) as nat);
    lemma_identity_space(k, items, n);
    let a = manager::identity_mapped(k, items, (n - 1) as nat)->0;
    let b = manager::identity_mapped(k, items, n)->0;
    let e = PageOp::MapPages {
        virt_addr: items[i].value.base_address,
        phys_addr: items[i].value.base_address,
        size: items[i].value.size,
        flags: items[i].flags,
    };
    if i < n - 1 {
        law_mapped_to_itself(k, items, (n - 1) as nat, i);
    }
    if items[n - 1].map_type is IdentityMapped {
        lemma_op_kept(a.ops, b.ops.last(), e);
    }
}

proof fn lemma_identity_space(k: Space, items: Seq<RemapEntry>, n: nat)
    requires
        k.proc_id == 0,
        n <= items.len(),
    ensures
        manager::identity_mapped(k, items, n) matches Some(s) ==> s.proc_id == 0 && (n > 0
            ==> (manager::identity_mapped(k, items, (n - 1) as nat) matches Some(a) && (s.ops == a.ops
            || s.ops == a.ops.push(s.ops.last())))),
    decreases n,
{
    if n > 0 {
        lemma_identity_space(k, items, (n - 1) as nat);
    }
}

/// How many of the first `n` are to be moved.
pub open spec fn moved_count(items: Seq<RemapEntry>, n: nat) -> nat
    decreases n,
{
    if n == 0 { 0 } else { moved_count(items, (n - 1) as nat) + if items[n - 1].map_type is OffsetMapped { 1nat } else { 0 } }
}

/// What is to be moved when the kernel gets its address space is told where it has gone, each in its turn, and is
/// mapped there.
pub proof fn law_mapped_elsewhere(k: Space, items: Seq<RemapEntry>, n: nat, i: int)
    requires
        k.proc_id == 0,
        0 <= i < n <= items.len(),
        manager::offset_mapped(k, items, n) is Some,
        items[i].map_type is OffsetMapped,
    ensures
        ({
            let (s, moved) = manager::offset_mapped(k, items, n)->0;
            let j = moved_count(items, i as nat) as int;
            &&& moved.len() == moved_count(items, n)
            &&& j < moved.len() && items[i].map_type == RemapType::OffsetMapped(moved[j].0)
            &&& s.ops.contains(PageOp::MapPages {
                virt_addr: moved[j].1,
                phys_addr: items[i].value.base_address,
                size: items[i].value.size,
                flags: items[i].flags,
            })
        }),
    decreases n,
{
    let m = (n - 1) as nat;
    lemma_offset_space(k, items, n);
    lemma_offset_space(k, items, m);
    let (a, before) = manager::offset_mapped(k, items, m)->0;
    let (b, moved) = manager::offset_mapped(k, items, n)->0;
    let j = moved_count(items, i as nat) as int;
    if i < n - 1 {
        law_mapped_elsewhere(k, items, m, i);
        let e = PageOp::MapPages {
            virt_addr: before[j].1,
            phys_addr: items[i].value.base_address,
            size: items[i].value.size,
            flags: items[i].flags,
        };
        if items[n - 1].map_type is OffsetMapped {
            lemma_op_kept(a.ops, b.ops.last(), e);
        }
    } else {
        lemma_op_kept(a.ops, b.ops.last(), b.ops.last());
    }
}

proof fn lemma_offset_space(k: Space, items: Seq<RemapEntry>, n: nat)
    requires
        k.proc_id == 0,
        n <= items.len(),
    ensures
        manager::offset_mapped(k, items, n) matches Some((s, moved)) ==> s.proc_id == 0
            && moved.len() == moved_count(items, n) && (n > 0
            ==> manager::offset_mapped(k, items, (n - 1) as nat) is Some && {
            let a = manager::offset_mapped(k, items, (n - 1) as nat)->0;
            &&& items[n - 1].map_type is OffsetMapped ==> s.ops == a.0.ops.push(s.ops.last())
                && moved == a.1.push(moved.last())
            &&& !(items[n - 1].map_type is OffsetMapped) ==> s.ops == a.0.ops && moved == a.1
        }),
    decreases n,
{
    if n > 0 {
        lemma_offset_space(k, items, (n - 1) as nat);
    }
}

} // verus!
