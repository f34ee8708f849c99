use vstd::prelude::*;
use crate::error::KError;
use crate::util;
use crate::util::{ceil_div, PAGE_SIZE};
use crate::mem::block;
use crate::mem::block::PageDescriptor;
use crate::mem::frame_allocator;
use crate::mem::frame_allocator::{MemType, MemoryDesc};

verus! {

/// A simple allocator of physical memory: it has no limits on addresses, joins a freed block with
/// one neighbour only, and does not keep count of what is available.
pub struct PhysMemConBlk {
    pub total_memory: u64,
    pub avl_memory: u64,
    pub free_block_list: Vec<PageDescriptor>,
    pub alloc_block_list: Vec<PageDescriptor>,
    /// How many blocks the two lists can describe together.
    pub node_limit: usize,
}

/// The smallest of the first `n` blocks with enough pages; of equals the first.
pub open spec fn smallest_fit(s: Seq<PageDescriptor>, n: nat, pages: int) -> Option<int> {
    frame_allocator::best_fit(s, n, pages, 0, u64::MAX)
}

/// The free list with the pages at `addr` given back: joined to the first block that borders on
/// them, else as a block of their own.
pub open spec fn freed(s: Seq<PageDescriptor>, addr: int, pages: int) -> Seq<PageDescriptor> {
    match frame_allocator::find_border(s, 0, addr, pages) {
        Some(i) => s.update(i, frame_allocator::joined(s[i], addr, pages)),
        None => s.push(block::phys_block(addr, pages)),
    }
}

impl PhysMemConBlk {
    pub open spec fn in_space(self) -> bool {
        frame_allocator::in_space(self.free_block_list@) && frame_allocator::in_space(self.alloc_block_list@)
    }

    pub open spec fn room(self, free: int) -> bool {
        free + self.alloc_block_list@.len() < self.node_limit
    }

    fn find_best_fit(&mut self, pages: u64) -> (r: Result<u64, KError>)
        requires
            old(self).in_space(),
        ensures
            final(self).in_space(),
            final(self).total_memory == old(self).total_memory,
            final(self).avl_memory == old(self).avl_memory,
            final(self).node_limit == old(self).node_limit,
            ({
                let f = old(self).free_block_list@;
                let a = old(self).alloc_block_list@;
                match smallest_fit(f, f.len(), pages as int) {
                    None => {
                        &&& r == Err::<u64, KError>(KError::OutOfMemory)
                        &&& final(self).free_block_list@ == f
                        &&& final(self).alloc_block_list@ == a
                    },
                    Some(i) => {
                        let cut = frame_allocator::cut_front(f, i, pages as int);
                        &&& final(self).free_block_list@ == cut
                        &&& if old(self).room(cut.len() as int) {
                            &&& r == Ok::<u64, KError>(f[i].start_phy_address)
                            &&& final(self).alloc_block_list@
                                == a.push(block::phys_block(f[i].start_phy_address as int, pages as int))
                        } else {
                            &&& r == Err::<u64, KError>(KError::OutOfMemory)
                            &&& final(self).alloc_block_list@ == a
                        }
                    },
                }
            }),
    {
        let ghost f0 = self.free_block_list@;
        let mut best: Option<usize> = None;
        let mut i: usize = 0;
        while i < self.free_block_list.len()
            invariant
                i <= self.free_block_list@.len(),
                *self == *old(self),
                f0 == self.free_block_list@,
                self.in_space(),
                match best {
                    Some(b) => b < i && smallest_fit(f0, i as nat, pages as int) == Some(b as int),
                    None => smallest_fit(f0, i as nat, pages as int) is None,
                },
            decreases self.free_block_list@.len() - i,
        {
            let blk: PageDescriptor = self.free_block_list[i];
            assert(f0[i as int].phys_end() <= u64::MAX);
            if blk.num_pages >= pages {
                match best {
                    Some(b) => {
                        if blk.num_pages < self.free_block_list[b].num_pages {
                            best = Some(i);
                        }
                    },
                    None => { best = Some(i); },
                }
            }
            i = i + 1;
        }
        match best {
            None => Err(KError::OutOfMemory),
            Some(b) => {
                proof {
                    frame_allocator::law_best_fit(f0, f0.len(), pages as int, 0, u64::MAX);
                }
                let blk: PageDescriptor = self.free_block_list[b];
                assert(f0[b as int].phys_end() <= u64::MAX);
                let start: u64 = blk.start_phy_address;
                if blk.num_pages == pages {
                    let _ = self.free_block_list.remove(b);
                } else {
                    self.free_block_list.set(b, PageDescriptor {
                        num_pages: blk.num_pages - pages,
                        start_phy_address: start + 4096 * pages,
                        start_virt_address: blk.start_virt_address,
                        flags: blk.flags,
                        is_mapped: blk.is_mapped,
                    });
                }
                assert(self.free_block_list@ =~= frame_allocator::cut_front(f0, b as int, pages as int));
                assert forall|k: int| 0 <= k < self.free_block_list@.len() implies
                    (#[trigger] self.free_block_list@[k]).phys_end() <= u64::MAX by {
                    if blk.num_pages == pages {
                        assert(f0[if k < b { k } else { k + 1 }].phys_end() <= u64::MAX);
                    } else {
                        assert(f0[k].phys_end() <= u64::MAX);
                    }
                }
                let used: usize = self.free_block_list.len();
                if used >= self.node_limit || self.alloc_block_list.len() >= self.node_limit - used {
                    return Err(KError::OutOfMemory);
                }
                self.alloc_block_list.push(PageDescriptor {
                    num_pages: pages,
                    start_phy_address: start,
                    start_virt_address: 0,
                    flags: 0,
                    is_mapped: false,
                });
                Ok(start)
            },
        }
    }

    /// Hands out whole pages for `size` bytes.
    pub fn allocate_memory(&mut self, size: u64, align: u64) -> (r: Result<u64, KError>)
        requires
            old(self).in_space(),
        ensures
            final(self).in_space(),
            final(self).total_memory == old(self).total_memory,
            final(self).avl_memory == old(self).avl_memory,
            final(self).node_limit == old(self).node_limit,
            ({
                let pages = util::ceil_div_spec(size as int, 4096);
                let f = old(self).free_block_list@;
                let a = old(self).alloc_block_list@;
                let same = final(self).free_block_list@ == f && final(self).alloc_block_list@ == a;
                if size >= old(self).avl_memory {
                    r == Err::<u64, KError>(KError::OutOfMemory) && same
                } else if align > 4096 {
                    r == Err::<u64, KError>(KError::InvalidArgument) && same
                } else {
                    match smallest_fit(f, f.len(), pages) {
                        None => r == Err::<u64, KError>(KError::OutOfMemory) && same,
                        Some(i) => {
                            let cut = frame_allocator::cut_front(f, i, pages);
                            &&& final(self).free_block_list@ == cut
                            &&& if old(self).room(cut.len() as int) {
                                &&& r == Ok::<u64, KError>(f[i].start_phy_address)
                                &&& final(self).alloc_block_list@
                                    == a.push(block::phys_block(f[i].start_phy_address as int, pages))
                            } else {
                                &&& r == Err::<u64, KError>(KError::OutOfMemory)
                                &&& final(self).alloc_block_list@ == a
                            }
                        },
                    }
                }
            }),
    {
        if size >= self.avl_memory {
            return Err(KError::OutOfMemory);
        }
        if align > PAGE_SIZE {
            return Err(KError::InvalidArgument);
        }
        self.find_best_fit(ceil_div(size, PAGE_SIZE))
    }

    /// Takes handed-out pages back.
    pub fn deallocate_memory(&mut self, addr: u64, size: u64, align: u64) -> (r: Result<(), KError>)
        requires
            old(self).in_space(),
        ensures
            final(self).in_space(),
            final(self).total_memory == old(self).total_memory,
            final(self).avl_memory == old(self).avl_memory,
            final(self).node_limit == old(self).node_limit,
            ({
                let pages = util::ceil_div_spec(size as int, 4096);
                let f = old(self).free_block_list@;
                let a = old(self).alloc_block_list@;
                let found = frame_allocator::find_exact(a, 0, addr, pages);
                if align > 4096 || found is None {
                    &&& r == Err::<(), KError>(KError::InvalidArgument)
                    &&& final(self).free_block_list@ == f
                    &&& final(self).alloc_block_list@ == a
                } else {
                    &&& r is Ok
                    &&& final(self).alloc_block_list@ == a.remove(found->0)
                    &&& final(self).free_block_list@ == freed(f, addr as int, pages)
                }
            }),
    {
        if align > PAGE_SIZE {
            return Err(KError::InvalidArgument);
        }
        let pages: u64 = ceil_div(size, PAGE_SIZE);
        let ghost f = self.free_block_list@;
        let ghost a = self.alloc_block_list@;
        let mut k: usize = 0;
        while k < self.alloc_block_list.len()
            && !(self.alloc_block_list[k].start_phy_address == addr && self.alloc_block_list[k].num_pages == pages)
            invariant
                k <= self.alloc_block_list@.len(),
                *self == *old(self),
                a == self.alloc_block_list@,
                frame_allocator::find_exact(a, 0, addr, pages as int)
                    == frame_allocator::find_exact(a, k as int, addr, pages as int),
            decreases self.alloc_block_list@.len() - k,
        {
            k = k + 1;
        }
        if k >= self.alloc_block_list.len() {
            return Err(KError::InvalidArgument);
        }
        assert(frame_allocator::find_exact(a, k as int, addr, pages as int) == Some(k as int));
        assert(a[k as int].phys_end() <= u64::MAX);
        let _ = self.alloc_block_list.remove(k);
        assert forall|j: int| 0 <= j < self.alloc_block_list@.len() implies (#[trigger] self.alloc_block_list@[j]).phys_end()
            <= u64::MAX by {
            assert(a[if j < k { j } else { j + 1 }].phys_end() <= u64::MAX);
        }
        let mut i: usize = 0;
        while i < self.free_block_list.len()
            invariant
                i <= f.len(),
                frame_allocator::in_space(self.alloc_block_list@),
                f == self.free_block_list@,
                self.alloc_block_list@ == a.remove(k as int),
                frame_allocator::in_space(f),
                addr + 4096 * pages <= u64::MAX,
                f == old(self).free_block_list@,
                a == old(self).alloc_block_list@,
                pages == util::ceil_div_spec(size as int, 4096),
                align <= 4096,
                frame_allocator::find_exact(a, 0, addr, pages as int) == Some(k as int),
                self.total_memory == old(self).total_memory,
                self.avl_memory == old(self).avl_memory,
                self.node_limit == old(self).node_limit,
                frame_allocator::find_border(f, 0, addr as int, pages as int)
                    == frame_allocator::find_border(f, i as int, addr as int, pages as int),
            decreases f.len() - i,
        {
            let b: PageDescriptor = self.free_block_list[i];
            assert(f[i as int].phys_end() <= u64::MAX);
            if b.start_phy_address + 4096 * b.num_pages == addr {
                self.free_block_list.set(i, PageDescriptor {
                    num_pages: b.num_pages + pages,
                    start_phy_address: b.start_phy_address,
                    start_virt_address: b.start_virt_address,
                    flags: b.flags,
                    is_mapped: b.is_mapped,
                });
                return Ok(());
            } else if addr + 4096 * pages == b.start_phy_address {
                self.free_block_list.set(i, PageDescriptor {
                    num_pages: b.num_pages + pages,
                    start_phy_address: b.start_phy_address - 4096 * pages,
                    start_virt_address: b.start_virt_address,
                    flags: b.flags,
                    is_mapped: b.is_mapped,
                });
                return Ok(());
            }
            i = i + 1;
        }
        self.free_block_list.push(PageDescriptor {
            num_pages: pages,
            start_phy_address: addr,
            start_virt_address: 0,
            flags: 0,
            is_mapped: false,
        });
        Ok(())
    }
}

/// The free and the used blocks of the first `n` entries of the memory map.
pub open spec fn sorted_blocks(map: Seq<MemoryDesc>, n: nat) -> (Seq<PageDescriptor>, Seq<PageDescriptor>)
    decreases n,
{
    if n == 0 {
        (Seq::empty(), Seq::empty())
    } else {
        let (f, a) = sorted_blocks(map, (n - 1) as nat);
        let d = frame_allocator::desc_block(map[n - 1]);
        if map[n - 1].mem_type == MemType::Free { (f.push(d), a) } else { (f, a.push(d)) }
    }
}

/// Bytes in the first `n` entries of the memory map: the free ones, and all.
pub open spec fn bytes_in(map: Seq<MemoryDesc>, n: nat) -> (int, int)
    decreases n,
{
    if n == 0 {
        (0, 0)
    } else {
        let (f, t) = bytes_in(map, (n - 1) as nat);
        let d = map[n - 1];
        (if d.mem_type == MemType::Free { f + d.val.size } else { f }, t + d.val.size)
    }
}

proof fn lemma_bytes_grow(map: Seq<MemoryDesc>, i: nat, n: nat)
    requires
        i <= n,
    ensures
        0 <= bytes_in(map, i).0 <= bytes_in(map, i).1 <= bytes_in(map, n).1,
    decreases n,
{
    if i < n {
        lemma_bytes_grow(map, i, (n - 1) as nat);
    } else if n > 0 {
        lemma_bytes_grow(map, (n - 1) as nat, (n - 1) as nat);
    }
}

/// Sets the allocator up from the machine's memory map.
pub fn init(map: &Vec<MemoryDesc>, node_limit: usize) -> (r: PhysMemConBlk)
    requires
        bytes_in(map@, map@.len()).1 <= u64::MAX,
    ensures
        (r.free_block_list@, r.alloc_block_list@) == sorted_blocks(map@, map@.len()),
        (r.avl_memory as int, r.total_memory as int) == bytes_in(map@, map@.len()),
        r.node_limit == node_limit,
{
    let mut free: Vec<PageDescriptor> = Vec::new();
    let mut used: Vec<PageDescriptor> = Vec::new();
    let mut avl: u64 = 0;
    let mut total: u64 = 0;
    let mut i: usize = 0;
    while i < map.len()
        invariant
            i <= map@.len(),
            bytes_in(map@, map@.len()).1 <= u64::MAX,
            (free@, used@) == sorted_blocks(map@, i as nat),
            (avl as int, total as int) == bytes_in(map@, i as nat),
        decreases map@.len() - i,
    {
        proof {
            lemma_bytes_grow(map@, (i + 1) as nat, map@.len());
            lemma_bytes_grow(map@, i as nat, map@.len());
        }
        let d: MemoryDesc = map[i];
        let blk: PageDescriptor = PageDescriptor {
            num_pages: ceil_div(d.val.size, PAGE_SIZE),
            start_phy_address: d.val.base_address,
            start_virt_address: 0,
            flags: 0,
            is_mapped: false,
        };
        if d.mem_type == MemType::Free {
            free.push(blk);
            avl = avl + d.val.size;
        } else {
            used.push(blk);
        }
        total = total + d.val.size;
        i = i + 1;
    }
    PhysMemConBlk {
        total_memory: total,
        avl_memory: avl,
        free_block_list: free,
        alloc_block_list: used,
        node_limit,
    }
}

} // verus!
