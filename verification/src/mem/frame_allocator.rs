use vstd::prelude::*;
use crate::error::KError;
use crate::util;
use crate::util::{ceil_div, PAGE_SIZE};
use crate::mem::block;
use crate::mem::block::PageDescriptor;
use crate::loader::image::MemoryRegion;

verus! {

pub const ARCH_PHY_UPPER_LIMIT: u64 = 0xffff_ffff_ffff_ffff;
pub const ARCH_PHY_LOWER_LIMIT: u64 = 0;

/// The physical memory of the machine: which runs of pages are free, and which are handed out.
pub struct PhyMemConBlk {
    pub total_memory: u64,
    pub avl_memory: u64,
    pub hard_limit: u64,
    pub lower_limit: u64,
    pub free_block_list: Vec<PageDescriptor>,
    pub alloc_block_list: Vec<PageDescriptor>,
    /// How many blocks the two lists can describe together.
    pub node_limit: usize,
}

/// No page belongs to both blocks.
pub open spec fn apart(a: PageDescriptor, b: PageDescriptor) -> bool {
    a.num_pages == 0 || b.num_pages == 0 || a.phys_end() <= b.start_phy_address
        || b.phys_end() <= a.start_phy_address
}

pub open spec fn all_apart(s: Seq<PageDescriptor>) -> bool {
    forall|i: int, j: int| 0 <= i < j < s.len() ==> apart(#[trigger] s[i], #[trigger] s[j])
}

pub open spec fn lists_apart(s: Seq<PageDescriptor>, t: Seq<PageDescriptor>) -> bool {
    forall|i: int, j: int| 0 <= i < s.len() && 0 <= j < t.len() ==> apart(#[trigger] s[i], #[trigger] t[j])
}

pub open spec fn in_space(s: Seq<PageDescriptor>) -> bool {
    forall|i: int| 0 <= i < s.len() ==> (#[trigger] s[i]).phys_end() <= u64::MAX
}

/// The two lists describe distinct pages.
pub open spec fn sound(f: Seq<PageDescriptor>, a: Seq<PageDescriptor>) -> bool {
    all_apart(f) && all_apart(a) && lists_apart(f, a) && in_space(f) && in_space(a)
}

/// The block can serve a request for `pages` pages within the limits.
pub open spec fn serves(d: PageDescriptor, pages: int, low: u64, high: u64) -> bool {
    &&& d.num_pages >= pages
    &&& d.start_phy_address + 4096 * pages <= high + 1
    &&& d.start_phy_address >= low
}

/// The smallest of the first `n` blocks that can serve the request; of equals the first.
pub open spec fn best_fit(s: Seq<PageDescriptor>, n: nat, pages: int, low: u64, high: u64) -> Option<int>
    decreases n,
{
    if n == 0 {
        None
    } else {
        let i = n - 1;
        match best_fit(s, i as nat, pages, low, high) {
            None => if serves(s[i], pages, low, high) { Some(i) } else { None },
            Some(b) => if serves(s[i], pages, low, high) && s[i].num_pages < s[b].num_pages {
                Some(i)
            } else {
                Some(b)
            },
        }
    }
}

/// The chosen block serves the request, no other that does is smaller, and none before it is as
/// small; nothing is chosen only if no block serves the request.
pub proof fn law_best_fit(s: Seq<PageDescriptor>, n: nat, pages: int, low: u64, high: u64)
    requires
        n <= s.len(),
    ensures
        match best_fit(s, n, pages, low, high) {
            Some(b) => {
                &&& 0 <= b < n
                &&& serves(s[b], pages, low, high)
                &&& forall|j: int| 0 <= j < n && serves(#[trigger] s[j], pages, low, high)
                    ==> s[b].num_pages <= s[j].num_pages && (j < b ==> s[b].num_pages < s[j].num_pages)
            },
            None => forall|j: int| 0 <= j < n ==> !serves(#[trigger] s[j], pages, low, high),
        },
    decreases n,
{
    if n > 0 {
        law_best_fit(s, (n - 1) as nat, pages, low, high);
    }
}

/// The list once `pages` pages have been cut off the front of block `i`.
pub open spec fn cut_front(s: Seq<PageDescriptor>, i: int, pages: int) -> Seq<PageDescriptor> {
    if s[i].num_pages == pages {
        s.remove(i)
    } else {
        s.update(
            i,
            PageDescriptor {
                num_pages: (s[i].num_pages - pages) as u64,
                start_phy_address: (s[i].start_phy_address + 4096 * pages) as u64,
                ..s[i]
            },
        )
    }
}

/// The first block from `i` on that starts at `addr` and has `pages` pages.
pub open spec fn find_exact(s: Seq<PageDescriptor>, i: int, addr: u64, pages: int) -> Option<int>
    decreases s.len() - i,
{
    if i < 0 || i >= s.len() {
        None
    } else if s[i].start_phy_address == addr && s[i].num_pages == pages {
        Some(i)
    } else {
        find_exact(s, i + 1, addr, pages)
    }
}

/// The first block from `i` on that borders on the pages at `addr`.
pub open spec fn find_border(s: Seq<PageDescriptor>, i: int, addr: int, pages: int) -> Option<int>
    decreases s.len() - i,
{
    if i < 0 || i >= s.len() {
        None
    } else if s[i].phys_end() == addr || addr + 4096 * pages == s[i].start_phy_address {
        Some(i)
    } else {
        find_border(s, i + 1, addr, pages)
    }
}

/// The block joined with the pages at `addr` that border on it.
pub open spec fn joined(d: PageDescriptor, addr: int, pages: int) -> PageDescriptor {
    PageDescriptor {
        num_pages: (d.num_pages + pages) as u64,
        start_phy_address: (if d.phys_end() == addr {
            d.start_phy_address as int
        } else {
            d.start_phy_address - 4096 * pages
        }) as u64,
        ..d
    }
}

/// The free list with the pages at `addr` given back: joined to the first block that borders on
/// them, and that to the first block that then borders on it; a block of their own if there is none.
pub open spec fn given_back(s: Seq<PageDescriptor>, addr: int, pages: int) -> Seq<PageDescriptor> {
    match find_border(s, 0, addr, pages) {
        None => s.push(block::phys_block(addr, pages)),
        Some(i) => {
            let s1 = s.update(i, joined(s[i], addr, pages));
            match find_border(s1, 0, s1[i].start_phy_address as int, s1[i].num_pages as int) {
                None => s1,
                Some(j) => s1.update(
                    j,
                    PageDescriptor {
                        num_pages: (s1[j].num_pages + s1[i].num_pages) as u64,
                        start_phy_address: if s1[i].start_phy_address <= s1[j].start_phy_address {
                            s1[i].start_phy_address
                        } else {
                            s1[j].start_phy_address
                        },
                        ..s1[j]
                    },
                ).remove(i),
            }
        },
    }
}

/// What the allocator of physical memory holds.
#[verifier::ext_equal]
pub struct Frames {
    pub total: u64,
    pub avl: u64,
    pub high: u64,
    pub low: u64,
    pub free: Seq<PageDescriptor>,
    pub alloc: Seq<PageDescriptor>,
    pub node_limit: usize,
}

impl View for PhyMemConBlk {
    type V = Frames;

    open spec fn view(&self) -> Frames {
        Frames {
            total: self.total_memory,
            avl: self.avl_memory,
            high: self.hard_limit,
            low: self.lower_limit,
            free: self.free_block_list@,
            alloc: self.alloc_block_list@,
            node_limit: self.node_limit,
        }
    }
}

impl Frames {
    pub open spec fn choice(self, pages: int) -> Option<int> {
        best_fit(self.free, self.free.len(), pages, self.low, self.high)
    }

    /// The outcome of a request for memory. Where no node is left to record the new block, its pages
    /// are lost.
    pub open spec fn allocated(self, size: u64, align: u64) -> (Frames, Result<u64, KError>) {
        let pages = util::ceil_div_spec(size as int, 4096);
        if size >= self.avl {
            (self, Err(KError::OutOfMemory))
        } else if align > 4096 {
            (self, Err(KError::InvalidArgument))
        } else {
            match self.choice(pages) {
                None => (self, Err(KError::OutOfMemory)),
                Some(i) => {
                    let start = self.free[i].start_phy_address;
                    let cut = cut_front(self.free, i, pages);
                    if cut.len() + self.alloc.len() < self.node_limit {
                        (
                            Frames {
                                free: cut,
                                alloc: self.alloc.push(block::phys_block(start as int, pages)),
                                avl: (self.avl - 4096 * pages) as u64,
                                ..self
                            },
                            Ok(start),
                        )
                    } else {
                        (Frames { free: cut, ..self }, Err(KError::OutOfMemory))
                    }
                },
            }
        }
    }

    /// The outcome of giving memory back: it has to be a whole block that was handed out.
    pub open spec fn deallocated(self, addr: u64, size: u64, align: u64) -> (Frames, Result<(), KError>) {
        let pages = util::ceil_div_spec(size as int, 4096);
        match find_exact(self.alloc, 0, addr, pages) {
            Some(k) => if align <= 4096 {
                (
                    Frames {
                        alloc: self.alloc.remove(k),
                        free: given_back(self.free, addr as int, pages),
                        avl: (self.avl + 4096 * pages) as u64,
                        ..self
                    },
                    Ok(()),
                )
            } else {
                (self, Err(KError::InvalidArgument))
            },
            None => (self, Err(KError::InvalidArgument)),
        }
    }
}

impl PhyMemConBlk {
    /// No page is in two blocks, the counts fit, and all free pages are counted as available.
    pub open spec fn well_formed(self) -> bool {
        let f = self.free_block_list@;
        let a = self.alloc_block_list@;
        &&& sound(f, a)
        &&& self.avl_memory % 4096 == 0
        &&& 4096 * block::pages_in(f) <= self.avl_memory
        &&& self.avl_memory + 4096 * block::pages_in(a) <= u64::MAX
    }

    /// Every available byte is a byte of a free page.
    pub open spec fn balanced(self) -> bool {
        self.avl_memory == 4096 * block::pages_in(self.free_block_list@)
    }

    pub open spec fn choice(self, pages: int) -> Option<int> {
        self@.choice(pages)
    }

    /// Takes `pages` pages off the smallest free block that has them. If no node is left to record
    /// the new block, the pages are lost and the request fails.
    fn find_best_fit(&mut self, pages: u64) -> (r: Result<u64, KError>)
        requires
            old(self).well_formed(),
            pages <= 0xf_ffff_ffff_ffff,
        ensures
            final(self).total_memory == old(self).total_memory,
            final(self).avl_memory == old(self).avl_memory,
            final(self).hard_limit == old(self).hard_limit,
            final(self).lower_limit == old(self).lower_limit,
            final(self).node_limit == old(self).node_limit,
            match old(self).choice(pages as int) {
                None => {
                    &&& r == Err::<u64, KError>(KError::OutOfMemory)
                    &&& final(self).free_block_list@ == old(self).free_block_list@
                    &&& final(self).alloc_block_list@ == old(self).alloc_block_list@
                },
                Some(i) => {
                    let start = old(self).free_block_list@[i].start_phy_address;
                    let cut = cut_front(old(self).free_block_list@, i, pages as int);
                    &&& final(self).free_block_list@ == cut
                    &&& if cut.len() + old(self).alloc_block_list@.len() < old(self).node_limit {
                        &&& r == Ok::<u64, KError>(start)
                        &&& final(self).alloc_block_list@
                            == old(self).alloc_block_list@.push(block::phys_block(start as int, pages as int))
                    } else {
                        &&& r == Err::<u64, KError>(KError::OutOfMemory)
                        &&& final(self).alloc_block_list@ == old(self).alloc_block_list@
                    }
                },
            },
    {
        let ghost f0 = self.free_block_list@;
        let mut best: Option<usize> = None;
        let mut i: usize = 0;
        while i < self.free_block_list.len()
            invariant
                i <= self.free_block_list@.len(),
                *self == *old(self),
                f0 == self.free_block_list@,
                self.well_formed(),
                pages <= 0xf_ffff_ffff_ffff,
                match best {
                    Some(b) => b < i && best_fit(f0, i as nat, pages as int, self.lower_limit, self.hard_limit)
                        == Some(b as int),
                    None => best_fit(f0, i as nat, pages as int, self.lower_limit, self.hard_limit) is None,
                },
            decreases self.free_block_list@.len() - i,
        {
            let blk: PageDescriptor = self.free_block_list[i];
            assert(f0[i as int].phys_end() <= u64::MAX);
            if blk.num_pages >= pages && blk.start_phy_address >= self.lower_limit
                && (self.hard_limit == u64::MAX
                    || blk.start_phy_address + 4096 * pages <= self.hard_limit + 1) {
                match best {
                    Some(b) => {
                        if blk.num_pages < self.free_block_list[b].num_pages {
                            best = Some(i);
                        }
                    },
                    None => { best = Some(i); },
                }
            }
            i = i + 1;
        }
        match best {
            None => Err(KError::OutOfMemory),
            Some(b) => {
                proof {
                    law_best_fit(f0, f0.len(), pages as int, self.lower_limit, self.hard_limit);
                }
                let blk: PageDescriptor = self.free_block_list[b];
                assert(f0[b as int].phys_end() <= u64::MAX);
                let start: u64 = blk.start_phy_address;
                if blk.num_pages == pages {
                    let _ = self.free_block_list.remove(b);
                } else {
                    self.free_block_list.set(b, PageDescriptor {
                        num_pages: blk.num_pages - pages,
                        start_phy_address: start + 4096 * pages,
                        start_virt_address: blk.start_virt_address,
                        flags: blk.flags,
                        is_mapped: blk.is_mapped,
                    });
                }
                assert(self.free_block_list@ =~= cut_front(f0, b as int, pages as int));
                let used: usize = self.free_block_list.len();
                if used >= self.node_limit || self.alloc_block_list.len() >= self.node_limit - used {
                    return Err(KError::OutOfMemory);
                }
                self.alloc_block_list.push(PageDescriptor {
                    num_pages: pages,
                    start_phy_address: start,
                    start_virt_address: 0,
                    flags: 0,
                    is_mapped: false,
                });
                Ok(start)
            },
        }
    }

    /// Blocks below `lower_limit` are not handed out.
    pub fn configure_lower_limit(&mut self, lower_limit: u64)
        ensures
            *final(self) == (PhyMemConBlk { lower_limit, ..*old(self) }),
    {
        self.lower_limit = lower_limit;
    }

    /// Pages above `upper_limit` are not handed out.
    pub fn configure_upper_limit(&mut self, upper_limit: u64)
        ensures
            *final(self) == (PhyMemConBlk { hard_limit: upper_limit, ..*old(self) }),
    {
        self.hard_limit = upper_limit;
    }

    /// All pages may be handed out again.
    pub fn disable_limits(&mut self)
        ensures
            *final(self) == (PhyMemConBlk {
                hard_limit: ARCH_PHY_UPPER_LIMIT,
                lower_limit: ARCH_PHY_LOWER_LIMIT,
                ..*old(self)
            }),
    {
        self.hard_limit = ARCH_PHY_UPPER_LIMIT;
        self.lower_limit = ARCH_PHY_LOWER_LIMIT;
    }
}

proof fn lemma_cut_sound(f: Seq<PageDescriptor>, a: Seq<PageDescriptor>, i: int, pages: int)
    requires
        sound(f, a),
        0 <= i < f.len(),
        0 <= pages <= f[i].num_pages,
    ensures
        sound(cut_front(f, i, pages), a),
        sound(cut_front(f, i, pages), a.push(block::phys_block(f[i].start_phy_address as int, pages))),
        block::pages_in(cut_front(f, i, pages)) == block::pages_in(f) - pages,
{
    let c = cut_front(f, i, pages);
    let d = block::phys_block(f[i].start_phy_address as int, pages);
    let a1 = a.push(d);
    assert(f[i].phys_end() <= u64::MAX);
    if f[i].num_pages == pages {
        block::lemma_pages_remove(f, i);
        assert(forall|k: int| 0 <= k < c.len() ==> #[trigger] c[k] == (if k < i { f[k] } else { f[k + 1] }));
    } else {
        block::lemma_pages_update(f, i, c[i]);
        assert(forall|k: int| 0 <= k < c.len() && k != i ==> #[trigger] c[k] == f[k]);
    }
    assert(in_space(c));
    assert(all_apart(c));
    assert(lists_apart(c, a));
    assert forall|k: int, j: int| 0 <= k < c.len() && 0 <= j < a1.len() implies apart(
        #[trigger] c[k], #[trigger] a1[j]) by {
        if j < a.len() {
            assert(a1[j] == a[j]);
        } else {
            let k0 = if f[i].num_pages == pages && k >= i { k + 1 } else { k };
            if k0 != i {
                assert(apart(f[k0], f[i]) || apart(f[i], f[k0]));
            }
        }
    }
    assert forall|x: int, y: int| 0 <= x < y < a1.len() implies apart(#[trigger] a1[x], #[trigger] a1[y]) by {
        if y == a.len() {
            assert(apart(f[i], a[x]));
        }
    }
}

proof fn lemma_border_found(s: Seq<PageDescriptor>, i: int, addr: int, pages: int)
    requires
        0 <= i,
    ensures
        match find_border(s, i, addr, pages) {
            Some(k) => i <= k < s.len() && (s[k].phys_end() == addr || addr + 4096 * pages == s[k].start_phy_address),
            None => forall|k: int| i <= k < s.len() ==>
                (#[trigger] s[k]).phys_end() != addr && addr + 4096 * pages != s[k].start_phy_address,
        },
    decreases s.len() - i,
{
    if i < s.len() {
        lemma_border_found(s, i + 1, addr, pages);
    }
}

proof fn lemma_exact_found(s: Seq<PageDescriptor>, i: int, addr: u64, pages: int)
    requires
        0 <= i,
    ensures
        find_exact(s, i, addr, pages) matches Some(k) ==>
            i <= k < s.len() && s[k].start_phy_address == addr && s[k].num_pages == pages,
    decreases s.len() - i,
{
    if i < s.len() {
        lemma_exact_found(s, i + 1, addr, pages);
    }
}

/// Joining bordering pages to a block keeps the lists sound.
proof fn lemma_join_sound(f: Seq<PageDescriptor>, a: Seq<PageDescriptor>, i: int, addr: int, pages: int)
    requires
        sound(f, a),
        0 <= i < f.len(),
        0 <= addr,
        0 <= pages,
        addr + 4096 * pages <= u64::MAX,
        f[i].phys_end() == addr || addr + 4096 * pages == f[i].start_phy_address,
        lists_apart(f, seq![block::phys_block(addr, pages)]),
        lists_apart(a, seq![block::phys_block(addr, pages)]),
    ensures
        sound(f.update(i, joined(f[i], addr, pages)), a),
        block::pages_in(f.update(i, joined(f[i], addr, pages))) == block::pages_in(f) + pages,
{
    let d = block::phys_block(addr, pages);
    let one = seq![d];
    let g = joined(f[i], addr, pages);
    let s = f.update(i, g);
    assert(one[0] == d);
    assert(f[i].phys_end() <= u64::MAX);
    block::lemma_pages_update(f, i, g);
    assert(g.phys_end() <= u64::MAX);
    assert forall|k: int| 0 <= k < f.len() && k != i implies apart(#[trigger] f[k], g) && apart(g, f[k]) by {
        assert(apart(f[k], one[0]));
        assert(apart(f[i], f[k]) || apart(f[k], f[i]));
    }
    assert forall|k: int| 0 <= k < a.len() implies apart(g, #[trigger] a[k]) by {
        assert(apart(a[k], one[0]));
        assert(apart(f[i], a[k]));
    }
    assert(forall|k: int| 0 <= k < f.len() && k != i ==> #[trigger] s[k] == f[k]);
}

pub open spec fn merged(s: Seq<PageDescriptor>, i: int, j: int) -> PageDescriptor {
    PageDescriptor {
        num_pages: (s[j].num_pages + s[i].num_pages) as u64,
        start_phy_address: if s[i].start_phy_address <= s[j].start_phy_address {
            s[i].start_phy_address
        } else {
            s[j].start_phy_address
        },
        ..s[j]
    }
}

/// Merging two neighbouring blocks keeps the lists sound and the page count.
proof fn lemma_merge_sound(f: Seq<PageDescriptor>, a: Seq<PageDescriptor>, i: int, j: int)
    requires
        sound(f, a),
        0 <= i < f.len(),
        0 <= j < f.len(),
        f[j].phys_end() == f[i].start_phy_address || f[i].phys_end() == f[j].start_phy_address,
    ensures
        sound(f.update(j, merged(f, i, j)).remove(i), a),
        block::pages_in(f.update(j, merged(f, i, j)).remove(i)) == block::pages_in(f),
{
    let m = merged(f, i, j);
    let u = f.update(j, m);
    let s = u.remove(i);
    assert(f[i].phys_end() <= u64::MAX && f[j].phys_end() <= u64::MAX);
    assert(m.phys_end() <= u64::MAX);
    block::lemma_pages_update(f, j, m);
    block::lemma_pages_remove(u, i);
    assert forall|k: int| 0 <= k < f.len() && k != i && k != j implies apart(#[trigger] f[k], m) && apart(m, f[k]) by {
        assert(apart(f[i], f[k]) || apart(f[k], f[i]));
        assert(apart(f[j], f[k]) || apart(f[k], f[j]));
    }
    assert forall|k: int| 0 <= k < a.len() implies apart(m, #[trigger] a[k]) by {
        assert(apart(f[i], a[k]));
        assert(apart(f[j], a[k]));
    }
    assert(forall|k: int| 0 <= k < s.len() ==> #[trigger] s[k] == (if k < i { u[k] } else { u[k + 1] }));
    assert(forall|k: int| 0 <= k < u.len() && k != j ==> #[trigger] u[k] == f[k]);
    assert(in_space(s));
    assert(all_apart(s));
    assert(lists_apart(s, a));
}

/// Giving pages back keeps the lists sound and adds the pages to the free ones.
proof fn lemma_given_back_sound(f: Seq<PageDescriptor>, a: Seq<PageDescriptor>, addr: int, pages: int)
    requires
        sound(f, a),
        0 <= addr,
        0 <= pages,
        addr + 4096 * pages <= u64::MAX,
        lists_apart(f, seq![block::phys_block(addr, pages)]),
        lists_apart(a, seq![block::phys_block(addr, pages)]),
    ensures
        sound(given_back(f, addr, pages), a),
        block::pages_in(given_back(f, addr, pages)) == block::pages_in(f) + pages,
        given_back(f, addr, pages).len() <= f.len() + 1,
{
    let d = block::phys_block(addr, pages);
    lemma_border_found(f, 0, addr, pages);
    match find_border(f, 0, addr, pages) {
        None => {
            let s = f.push(d);
            let one = seq![d];
            block::lemma_pages_push(f, d);
            assert(one[0] == d);
            assert forall|x: int, y: int| 0 <= x < y < s.len() implies apart(#[trigger] s[x], #[trigger] s[y]) by {
                if y == f.len() {
                    assert(apart(f[x], one[0]));
                }
            }
            assert forall|x: int, y: int| 0 <= x < s.len() && 0 <= y < a.len() implies apart(
                #[trigger] s[x], #[trigger] a[y]) by {
                if x == f.len() {
                    assert(apart(a[y], one[0]));
                }
            }
        },
        Some(i) => {
            lemma_join_sound(f, a, i, addr, pages);
            let s1 = f.update(i, joined(f[i], addr, pages));
            lemma_border_found(s1, 0, s1[i].start_phy_address as int, s1[i].num_pages as int);
            match find_border(s1, 0, s1[i].start_phy_address as int, s1[i].num_pages as int) {
                None => {},
                Some(j) => {
                    lemma_merge_sound(s1, a, i, j);
                },
            }
        },
    }
}

impl PhyMemConBlk {
    /// Hands out whole pages for `size` bytes.
    pub fn allocate(&mut self, size: u64, align: u64) -> (r: Result<u64, KError>)
        requires
            old(self).well_formed(),
        ensures
            final(self).well_formed(),
            old(self).balanced() && r is Ok ==> final(self).balanced(),
            (final(self)@, r) == old(self)@.allocated(size, align),
    {
        if size >= self.avl_memory {
            return Err(KError::OutOfMemory);
        }
        if align > PAGE_SIZE {
            return Err(KError::InvalidArgument);
        }
        let ghost f = self.free_block_list@;
        let ghost a = self.alloc_block_list@;
        let num_pages: u64 = ceil_div(size, PAGE_SIZE);
        proof {
            law_best_fit(f, f.len(), num_pages as int, self.lower_limit, self.hard_limit);
            if let Some(i) = self.choice(num_pages as int) {
                lemma_cut_sound(f, a, i, num_pages as int);
                block::lemma_pages_push(a, block::phys_block(f[i].start_phy_address as int, num_pages as int));
            }
        }
        match self.find_best_fit(num_pages) {
            Err(e) => Err(e),
            Ok(addr) => {
                self.avl_memory = self.avl_memory - num_pages * PAGE_SIZE;
                Ok(addr)
            },
        }
    }

    /// Takes handed-out pages back.
    pub fn deallocate(&mut self, addr: u64, size: u64, align: u64) -> (r: Result<(), KError>)
        requires
            old(self).well_formed(),
        ensures
            final(self).well_formed(),
            old(self).balanced() ==> final(self).balanced(),
            (final(self)@, r) == old(self)@.deallocated(addr, size, align),
    {
        if align > PAGE_SIZE {
            return Err(KError::InvalidArgument);
        }
        let num_pages: u64 = ceil_div(size, PAGE_SIZE);
        let ghost f = self.free_block_list@;
        let ghost a = self.alloc_block_list@;
        let mut k: usize = 0;
        while k < self.alloc_block_list.len()
            && !(self.alloc_block_list[k].start_phy_address == addr && self.alloc_block_list[k].num_pages == num_pages)
            invariant
                k <= self.alloc_block_list@.len(),
                *self == *old(self),
                a == self.alloc_block_list@,
                find_exact(a, 0, addr, num_pages as int) == find_exact(a, k as int, addr, num_pages as int),
            decreases self.alloc_block_list@.len() - k,
        {
            k = k + 1;
        }
        if k >= self.alloc_block_list.len() {
            return Err(KError::InvalidArgument);
        }
        let ghost a1 = a.remove(k as int);
        proof {
            assert(find_exact(a, k as int, addr, num_pages as int) == Some(k as int));
            let d = block::phys_block(addr as int, num_pages as int);
            assert(a[k as int].phys_end() <= u64::MAX);
            block::lemma_pages_remove(a, k as int);
            block::lemma_pages_nonneg(a1);
            assert(forall|x: int| 0 <= x < a1.len() ==> #[trigger] a1[x] == (if x < k { a[x] } else { a[x + 1] }));
            assert(sound(f, a1));
            assert forall|x: int, y: int| 0 <= x < a1.len() && 0 <= y < seq![d].len() implies apart(
                #[trigger] a1[x], #[trigger] seq![d][y]) by {
                let x0 = if x < k { x } else { x + 1 };
                assert(apart(a[x0], a[k as int]) || apart(a[k as int], a[x0]));
            }
            assert forall|x: int, y: int| 0 <= x < f.len() && 0 <= y < seq![d].len() implies apart(
                #[trigger] f[x], #[trigger] seq![d][y]) by {
                assert(apart(f[x], a[k as int]));
            }
            lemma_given_back_sound(f, a1, addr as int, num_pages as int);
        }
        let _ = self.alloc_block_list.remove(k);
        give_back(&mut self.free_block_list, addr, num_pages);
        self.avl_memory = self.avl_memory + num_pages * PAGE_SIZE;
        Ok(())
    }
}

fn border_index(s: &Vec<PageDescriptor>, addr: u64, pages: u64) -> (r: Option<usize>)
    requires
        in_space(s@),
        addr + 4096 * pages <= u64::MAX,
    ensures
        match r {
            Some(k) => find_border(s@, 0, addr as int, pages as int) == Some(k as int) && k < s@.len(),
            None => find_border(s@, 0, addr as int, pages as int) is None,
        },
{
    let mut i: usize = 0;
    while i < s.len()
        invariant
            i <= s@.len(),
            in_space(s@),
            addr + 4096 * pages <= u64::MAX,
            find_border(s@, 0, addr as int, pages as int) == find_border(s@, i as int, addr as int, pages as int),
        decreases s@.len() - i,
    {
        assert(s@[i as int].phys_end() <= u64::MAX);
        let b: PageDescriptor = s[i];
        if b.start_phy_address + 4096 * b.num_pages == addr || addr + 4096 * pages == b.start_phy_address {
            return Some(i);
        }
        i = i + 1;
    }
    None
}

/// Puts pages back on a list of free blocks.
fn give_back(s: &mut Vec<PageDescriptor>, addr: u64, pages: u64)
    requires
        in_space(old(s)@),
        addr + 4096 * pages <= u64::MAX,
    ensures
        final(s)@ == given_back(old(s)@, addr as int, pages as int),
{
    let ghost s0 = s@;
    match border_index(s, addr, pages) {
        None => {
            s.push(PageDescriptor {
                num_pages: pages,
                start_phy_address: addr,
                start_virt_address: 0,
                flags: 0,
                is_mapped: false,
            });
        },
        Some(i) => {
            let b: PageDescriptor = s[i];
            assert(s0[i as int].phys_end() <= u64::MAX);
            proof {
                lemma_border_found(s0, 0, addr as int, pages as int);
            }
            let start: u64 = if b.start_phy_address + 4096 * b.num_pages == addr {
                b.start_phy_address
            } else {
                b.start_phy_address - 4096 * pages
            };
            let num: u64 = b.num_pages + pages;
            s.set(i, PageDescriptor {
                num_pages: num,
                start_phy_address: start,
                start_virt_address: b.start_virt_address,
                flags: b.flags,
                is_mapped: b.is_mapped,
            });
            let ghost s1 = s@;
            assert(s1 =~= s0.update(i as int, joined(s0[i as int], addr as int, pages as int)));
            assert(in_space(s1));
            if let Some(j) = border_index(s, start, num) {
                let c: PageDescriptor = s[j];
                proof {
                    lemma_border_found(s1, 0, start as int, num as int);
                    assert(s1[j as int].phys_end() <= u64::MAX);
                    assert(s1[i as int].phys_end() <= u64::MAX);
                }
                s.set(j, PageDescriptor {
                    num_pages: c.num_pages + num,
                    start_phy_address: if start <= c.start_phy_address { start } else { c.start_phy_address },
                    start_virt_address: c.start_virt_address,
                    flags: c.flags,
                    is_mapped: c.is_mapped,
                });
                let _ = s.remove(i);
            }
        },
    }
}

/// What a stretch of the machine's memory is used for at boot.
#[derive(Clone, Copy, Debug, PartialEq, Eq, Structural)]
pub enum MemType {
    Free,
    Allocated,
    /// In use, and to be found at the same address later.
    Identity,
    /// In use until the boot data has been consumed.
    BootloaderData,
}

/// One entry of the machine's memory map.
#[derive(Clone, Copy)]
pub struct MemoryDesc {
    pub val: MemoryRegion,
    pub mem_type: MemType,
}

/// The entry without page 0, which is never handed out; nothing if that leaves nothing.
pub open spec fn usable(d: MemoryDesc) -> Option<MemoryDesc> {
    if d.val.base_address != 0 {
        Some(d)
    } else if d.val.size > 4096 {
        Some(MemoryDesc {
            val: MemoryRegion { base_address: 4096, size: (d.val.size - 4096) as u64 },
            ..d
        })
    } else {
        None
    }
}

pub open spec fn desc_block(d: MemoryDesc) -> PageDescriptor {
    block::phys_block(d.val.base_address as int, util::ceil_div_spec(d.val.size as int, 4096))
}

/// What the memory map comes to.
pub struct BootMemory {
    pub free: Seq<PageDescriptor>,
    pub alloc: Seq<PageDescriptor>,
    pub boot: Seq<PageDescriptor>,
    pub identity: Seq<MemoryRegion>,
    pub avl: int,
    pub total: int,
}

/// The first `n` entries of the memory map, sorted by use.
pub open spec fn boot_memory(map: Seq<MemoryDesc>, n: nat) -> BootMemory
    decreases n,
{
    if n == 0 {
        BootMemory {
            free: Seq::empty(),
            alloc: Seq::empty(),
            boot: Seq::empty(),
            identity: Seq::empty(),
            avl: 0,
            total: 0,
        }
    } else {
        let b = boot_memory(map, (n - 1) as nat);
        match usable(map[n - 1]) {
            None => b,
            Some(d) => {
                let blk = desc_block(d);
                let total = b.total + d.val.size;
                match d.mem_type {
                    MemType::Free => BootMemory { free: b.free.push(blk), avl: b.avl + d.val.size, total, ..b },
                    MemType::Allocated => BootMemory { alloc: b.alloc.push(blk), total, ..b },
                    MemType::Identity => BootMemory {
                        alloc: b.alloc.push(blk),
                        identity: b.identity.push(d.val),
                        total,
                        ..b
                    },
                    MemType::BootloaderData => BootMemory { boot: b.boot.push(blk), total, ..b },
                }
            },
        }
    }
}

/// The entries are whole pages that no other entry holds, inside the address space.
pub open spec fn map_sound(map: Seq<MemoryDesc>) -> bool {
    &&& forall|i: int| 0 <= i < map.len() ==> {
        let d = #[trigger] map[i];
        d.val.size % 4096 == 0 && d.val.size > 0 && d.val.base_address + d.val.size <= u64::MAX
    }
    &&& forall|i: int, j: int| 0 <= i < j < map.len() ==> {
        let d = #[trigger] map[i];
        let e = #[trigger] map[j];
        d.val.base_address + d.val.size <= e.val.base_address || e.val.base_address + e.val.size <= d.val.base_address
    }
}

proof fn lemma_boot_bounds(map: Seq<MemoryDesc>, i: nat, n: nat)
    requires
        i <= n,
    ensures
        0 <= boot_memory(map, i).avl <= boot_memory(map, i).total <= boot_memory(map, n).total,
    decreases n,
{
    if i < n {
        lemma_boot_bounds(map, i, (n - 1) as nat);
    } else if n > 0 {
        lemma_boot_bounds(map, (n - 1) as nat, (n - 1) as nat);
    }
}

/// The blocks of a list are apart from what entry `k` describes.
spec fn apart_from_entry(s: Seq<PageDescriptor>, map: Seq<MemoryDesc>, k: int) -> bool {
    forall|i: int| 0 <= i < s.len() ==> {
        let d = #[trigger] s[i];
        &&& d.num_pages > 0
        &&& d.phys_end() <= u64::MAX
        &&& d.phys_end() <= map[k].val.base_address || map[k].val.base_address + map[k].val.size <= d.start_phy_address
    }
}

spec fn apart_from_rest(b: BootMemory, map: Seq<MemoryDesc>, n: int) -> bool {
    forall|k: int| n <= k < map.len() ==> #[trigger] apart_from_entry(b.free, map, k)
        && apart_from_entry(b.alloc, map, k) && apart_from_entry(b.boot, map, k)
}

spec fn boot_sound(b: BootMemory) -> bool {
    &&& sound(b.free, b.alloc)
    &&& sound(b.free, b.boot)
    &&& lists_apart(b.alloc, b.boot)
    &&& b.avl == 4096 * block::pages_in(b.free)
    &&& b.total == b.avl + 4096 * block::pages_in(b.alloc) + 4096 * block::pages_in(b.boot)
    &&& forall|i: int| 0 <= i < b.boot.len() ==> (#[trigger] b.boot[i]).num_pages > 0
}

proof fn lemma_push_apart(s: Seq<PageDescriptor>, t: Seq<PageDescriptor>, d: PageDescriptor)
    requires
        forall|i: int| 0 <= i < s.len() ==> apart(#[trigger] s[i], d),
        lists_apart(s, t),
    ensures
        lists_apart(s, t.push(d)),
        lists_apart(t.push(d), s),
{
    let u = t.push(d);
    assert forall|i: int, j: int| 0 <= i < s.len() && 0 <= j < u.len() implies apart(#[trigger] s[i], #[trigger] u[j]) by {
        if j == t.len() {
            assert(apart(s[i], d));
        }
    }
    assert forall|j: int, i: int| 0 <= i < s.len() && 0 <= j < u.len() implies apart(#[trigger] u[j], #[trigger] s[i]) by {
        assert(apart(s[i], u[j]));
    }
}

proof fn lemma_push_all_apart(s: Seq<PageDescriptor>, d: PageDescriptor)
    requires
        forall|i: int| 0 <= i < s.len() ==> apart(#[trigger] s[i], d),
        all_apart(s),
    ensures
        all_apart(s.push(d)),
{
    let u = s.push(d);
    assert forall|i: int, j: int| 0 <= i < j < u.len() implies apart(#[trigger] u[i], #[trigger] u[j]) by {
        if j == s.len() {
            assert(apart(s[i], d));
        }
    }
}

proof fn lemma_apart_sym(s: Seq<PageDescriptor>, t: Seq<PageDescriptor>)
    requires
        lists_apart(s, t),
    ensures
        lists_apart(t, s),
{
    assert forall|j: int, i: int| 0 <= i < s.len() && 0 <= j < t.len() implies apart(#[trigger] t[j], #[trigger] s[i]) by {
        assert(apart(s[i], t[j]));
    }
}

proof fn lemma_boot_sound(map: Seq<MemoryDesc>, n: nat)
    requires
        map_sound(map),
        n <= map.len(),
    ensures
        boot_sound(boot_memory(map, n)),
        apart_from_rest(boot_memory(map, n), map, n as int),
    decreases n,
{
    if n > 0 {
        lemma_boot_sound(map, (n - 1) as nat);
        let b = boot_memory(map, (n - 1) as nat);
        let r = boot_memory(map, n);
        let e = map[n - 1];
        assert(apart_from_entry(b.free, map, n - 1));
        if let Some(d) = usable(e) {
            let blk = desc_block(d);
            assert(d.val.size % 4096 == 0 && d.val.size > 0);
            assert(4096 * blk.num_pages == d.val.size);
            assert(blk.phys_end() == d.val.base_address + d.val.size);
            assert(e.val.base_address <= d.val.base_address);
            assert(d.val.base_address + d.val.size == e.val.base_address + e.val.size);
            assert forall|i: int| 0 <= i < b.free.len() implies apart(#[trigger] b.free[i], blk) by {}
            assert forall|i: int| 0 <= i < b.alloc.len() implies apart(#[trigger] b.alloc[i], blk) by {}
            assert forall|i: int| 0 <= i < b.boot.len() implies apart(#[trigger] b.boot[i], blk) by {}
            block::lemma_pages_push(b.free, blk);
            block::lemma_pages_push(b.alloc, blk);
            block::lemma_pages_push(b.boot, blk);
            lemma_push_all_apart(b.free, blk);
            lemma_push_all_apart(b.alloc, blk);
            lemma_push_all_apart(b.boot, blk);
            lemma_apart_sym(b.free, b.alloc);
            lemma_apart_sym(b.free, b.boot);
            lemma_apart_sym(b.alloc, b.boot);
            lemma_push_apart(b.free, b.alloc, blk);
            lemma_push_apart(b.free, b.boot, blk);
            lemma_push_apart(b.alloc, b.free, blk);
            lemma_push_apart(b.alloc, b.boot, blk);
            lemma_push_apart(b.boot, b.free, blk);
            lemma_push_apart(b.boot, b.alloc, blk);
            assert forall|k: int| n <= k < map.len() implies #[trigger] apart_from_entry(r.free, map, k)
                && apart_from_entry(r.alloc, map, k) && apart_from_entry(r.boot, map, k) by {
                assert(apart_from_entry(b.free, map, k));
                assert(map[n - 1].val.base_address + map[n - 1].val.size <= map[k].val.base_address
                    || map[k].val.base_address + map[k].val.size <= map[n - 1].val.base_address);
                if map[k].val.base_address + map[k].val.size <= map[n - 1].val.base_address {
                    assert(map[k].val.base_address + map[k].val.size <= blk.start_phy_address);
                }
            }
        } else {
            assert forall|k: int| n <= k < map.len() implies #[trigger] apart_from_entry(r.free, map, k)
                && apart_from_entry(r.alloc, map, k) && apart_from_entry(r.boot, map, k) by {
                assert(apart_from_entry(b.free, map, k));
            }
        }
    }
}

/// The allocator as the memory map sets it up, with what has to be remembered besides.
pub struct FrameInit {
    pub cb: PhyMemConBlk,
    /// Pages that become free once the boot data has been consumed.
    pub bootloader_regions: Vec<PageDescriptor>,
    /// Regions to be mapped at their own addresses.
    pub identity: Vec<MemoryRegion>,
}

fn usable_part(d: MemoryDesc) -> (r: Option<MemoryDesc>)
    ensures
        r == usable(d),
{
    if d.val.base_address != 0 {
        Some(d)
    } else if d.val.size > PAGE_SIZE {
        Some(MemoryDesc {
            val: MemoryRegion { base_address: PAGE_SIZE, size: d.val.size - PAGE_SIZE },
            mem_type: d.mem_type,
        })
    } else {
        None
    }
}

/// Sets the allocator up from the machine's memory map.
pub fn frame_allocator_init(map: &Vec<MemoryDesc>, node_limit: usize) -> (r: FrameInit)
    requires
        boot_memory(map@, map@.len()).total <= u64::MAX,
    ensures
        ({
            let b = boot_memory(map@, map@.len());
            &&& r.cb.free_block_list@ == b.free
            &&& r.cb.alloc_block_list@ == b.alloc
            &&& r.bootloader_regions@ == b.boot
            &&& r.identity@ == b.identity
            &&& r.cb.avl_memory == b.avl
            &&& r.cb.total_memory == b.total
        }),
        r.cb.hard_limit == ARCH_PHY_UPPER_LIMIT,
        r.cb.lower_limit == ARCH_PHY_LOWER_LIMIT,
        r.cb.node_limit == node_limit,
        map_sound(map@) ==> r.cb.well_formed() && r.cb.balanced() && r.cb.can_reclaim(r.bootloader_regions@),
{
    let mut free: Vec<PageDescriptor> = Vec::new();
    let mut alloc: Vec<PageDescriptor> = Vec::new();
    let mut boot: Vec<PageDescriptor> = Vec::new();
    let mut identity: Vec<MemoryRegion> = Vec::new();
    let mut avl: u64 = 0;
    let mut total: u64 = 0;
    let mut i: usize = 0;
    while i < map.len()
        invariant
            i <= map@.len(),
            boot_memory(map@, map@.len()).total <= u64::MAX,
            free@ == boot_memory(map@, i as nat).free,
            alloc@ == boot_memory(map@, i as nat).alloc,
            boot@ == boot_memory(map@, i as nat).boot,
            identity@ == boot_memory(map@, i as nat).identity,
            avl == boot_memory(map@, i as nat).avl,
            total == boot_memory(map@, i as nat).total,
        decreases map@.len() - i,
    {
        proof {
            lemma_boot_bounds(map@, (i + 1) as nat, map@.len());
            lemma_boot_bounds(map@, i as nat, map@.len());
        }
        if let Some(d) = usable_part(map[i]) {
            let blk: PageDescriptor = PageDescriptor {
                num_pages: ceil_div(d.val.size, PAGE_SIZE),
                start_phy_address: d.val.base_address,
                start_virt_address: 0,
                flags: 0,
                is_mapped: false,
            };
            assert(blk == desc_block(d));
            match d.mem_type {
                MemType::Free => {
                    free.push(blk);
                    avl = avl + d.val.size;
                },
                MemType::Allocated => {
                    alloc.push(blk);
                },
                MemType::Identity => {
                    alloc.push(blk);
                    identity.push(d.val);
                },
                MemType::BootloaderData => {
                    boot.push(blk);
                },
            }
            total = total + d.val.size;
        }
        i = i + 1;
    }
    proof {
        if map_sound(map@) {
            lemma_boot_sound(map@, map@.len());
            block::lemma_pages_nonneg(boot@);
            block::lemma_pages_nonneg(alloc@);
            assert(avl % 4096 == 0);
        }
    }
    FrameInit {
        cb: PhyMemConBlk {
            total_memory: total,
            avl_memory: avl,
            hard_limit: ARCH_PHY_UPPER_LIMIT,
            lower_limit: ARCH_PHY_LOWER_LIMIT,
            free_block_list: free,
            alloc_block_list: alloc,
            node_limit,
        },
        bootloader_regions: boot,
        identity,
    }
}

/// The free list with the first `n` of the given blocks given back one after the other.
pub open spec fn reclaimed(f: Seq<PageDescriptor>, regions: Seq<PageDescriptor>, n: nat) -> Seq<PageDescriptor>
    decreases n,
{
    if n == 0 {
        f
    } else {
        given_back(
            reclaimed(f, regions, (n - 1) as nat),
            regions[n - 1].start_phy_address as int,
            regions[n - 1].num_pages as int,
        )
    }
}

impl PhyMemConBlk {
    /// The regions are pages that the allocator does not know yet, and can be counted.
    pub open spec fn can_reclaim(self, regions: Seq<PageDescriptor>) -> bool {
        &&& sound(self.free_block_list@, regions)
        &&& lists_apart(self.alloc_block_list@, regions)
        &&& forall|i: int| 0 <= i < regions.len() ==> (#[trigger] regions[i]).num_pages > 0
        &&& self.avl_memory + 4096 * block::pages_in(self.alloc_block_list@) + 4096 * block::pages_in(regions)
            <= u64::MAX
    }

    /// Bytes that can still be handed out.
    pub fn get_available_memory(&self) -> (r: u64)
        ensures
            r == self.avl_memory,
    {
        self.avl_memory
    }
}

proof fn lemma_exact_last(s: Seq<PageDescriptor>, i: int, d: PageDescriptor)
    requires
        0 <= i <= s.len(),
        d.num_pages > 0,
        forall|k: int| 0 <= k < s.len() ==> apart(#[trigger] s[k], d),
    ensures
        find_exact(s.push(d), i, d.start_phy_address, d.num_pages as int) == Some(s.len() as int),
    decreases s.len() - i,
{
    let u = s.push(d);
    if i < s.len() {
        lemma_exact_last(s, i + 1, d);
        assert(apart(s[i], d));
        assert(u[i] == s[i]);
    } else {
        assert(u[i] == d);
    }
}

proof fn lemma_reclaim_step(cb: PhyMemConBlk, regions: Seq<PageDescriptor>)
    requires
        cb.well_formed(),
        cb.can_reclaim(regions),
        regions.len() > 0,
    ensures
        ({
            let d = regions[0];
            let a1 = cb.alloc_block_list@.push(block::phys_block(d.start_phy_address as int, d.num_pages as int));
            &&& sound(cb.free_block_list@, a1)
            &&& find_exact(a1, 0, d.start_phy_address, d.num_pages as int) == Some(cb.alloc_block_list@.len() as int)
            &&& a1.remove(cb.alloc_block_list@.len() as int) == cb.alloc_block_list@
            &&& cb.avl_memory + 4096 * block::pages_in(a1) <= u64::MAX
            &&& cb.avl_memory + 4096 * d.num_pages <= u64::MAX
            &&& util::ceil_div_spec(4096 * d.num_pages, 4096) == d.num_pages
            &&& d.phys_end() <= u64::MAX
            &&& block::pages_in(regions.drop_first()) == block::pages_in(regions) - d.num_pages
            &&& sound(given_back(cb.free_block_list@, d.start_phy_address as int, d.num_pages as int), regions.drop_first())
            &&& lists_apart(cb.alloc_block_list@, regions.drop_first())
        }),
{
    let d = regions[0];
    let f = cb.free_block_list@;
    let a = cb.alloc_block_list@;
    let blk = block::phys_block(d.start_phy_address as int, d.num_pages as int);
    let a1 = a.push(blk);
    let rest = regions.drop_first();
    assert(regions.remove(0) =~= rest);
    block::lemma_pages_remove(regions, 0);
    block::lemma_pages_push(a, blk);
    block::lemma_pages_nonneg(a);
    block::lemma_pages_nonneg(rest);
    assert(regions[0].phys_end() <= u64::MAX);
    assert forall|i: int| 0 <= i < f.len() implies apart(#[trigger] f[i], blk) by {
        assert(apart(f[i], regions[0]));
    }
    assert forall|i: int| 0 <= i < a.len() implies apart(#[trigger] a[i], blk) by {
        assert(apart(a[i], regions[0]));
    }
    lemma_push_all_apart(a, blk);
    lemma_push_apart(f, a, blk);
    lemma_exact_last(a, 0, blk);
    assert(a1.remove(a.len() as int) =~= a);
    assert(forall|k: int| 0 <= k < rest.len() ==> #[trigger] rest[k] == regions[k + 1]);
    assert(sound(f, rest));
    assert forall|x: int, y: int| 0 <= x < f.len() && 0 <= y < seq![blk].len() implies apart(
        #[trigger] f[x], #[trigger] seq![blk][y]) by {}
    assert forall|x: int, y: int| 0 <= x < rest.len() && 0 <= y < seq![blk].len() implies apart(
        #[trigger] rest[x], #[trigger] seq![blk][y]) by {
        assert(apart(regions[0], regions[x + 1]));
    }
    lemma_given_back_sound(f, rest, d.start_phy_address as int, d.num_pages as int);
}

/// Frees the pages that held boot data.
pub fn reclaim_pages(cb: &mut PhyMemConBlk, regions: &mut Vec<PageDescriptor>)
    requires
        old(cb).well_formed(),
        old(cb).can_reclaim(old(regions)@),
    ensures
        final(cb).well_formed(),
        old(cb).balanced() ==> final(cb).balanced(),
        final(regions)@.len() == 0,
        final(cb).free_block_list@ == reclaimed(old(cb).free_block_list@, old(regions)@, old(regions)@.len()),
        final(cb).alloc_block_list@ == old(cb).alloc_block_list@,
        final(cb).avl_memory == old(cb).avl_memory + 4096 * block::pages_in(old(regions)@),
        final(cb).total_memory == old(cb).total_memory,
        final(cb).hard_limit == old(cb).hard_limit,
        final(cb).lower_limit == old(cb).lower_limit,
        final(cb).node_limit == old(cb).node_limit,
{
    let ghost r0 = regions@;
    let ghost mut k: nat = 0;
    assert(r0.skip(0) =~= r0);
    while regions.len() > 0
        invariant
            k <= r0.len(),
            regions@ == r0.skip(k as int),
            cb.well_formed(),
            old(cb).balanced() ==> cb.balanced(),
            cb.can_reclaim(regions@),
            r0 == old(regions)@,
            cb.free_block_list@ == reclaimed(old(cb).free_block_list@, r0, k),
            cb.alloc_block_list@ == old(cb).alloc_block_list@,
            cb.avl_memory + 4096 * block::pages_in(regions@) == old(cb).avl_memory + 4096 * block::pages_in(r0),
            cb.total_memory == old(cb).total_memory,
            cb.hard_limit == old(cb).hard_limit,
            cb.lower_limit == old(cb).lower_limit,
            cb.node_limit == old(cb).node_limit,
        decreases regions@.len(),
    {
        let ghost before = regions@;
        proof {
            lemma_reclaim_step(*cb, regions@);
        }
        let d: PageDescriptor = regions.remove(0);
        assert(regions@ =~= before.drop_first());
        assert(before.drop_first() =~= r0.skip(k as int + 1));
        assert(d == r0[k as int]);
        cb.alloc_block_list.push(PageDescriptor {
            num_pages: d.num_pages,
            start_phy_address: d.start_phy_address,
            start_virt_address: 0,
            flags: 0,
            is_mapped: false,
        });
        let _ = cb.deallocate(d.start_phy_address, d.num_pages * PAGE_SIZE, PAGE_SIZE);
        proof {
            k = k + 1;
        }
    }
}

/// A block that is handed out lies wholly inside one free block, so none of its pages is in use.
pub proof fn law_allocated_was_free(cb: PhyMemConBlk, pages: int, page: int)
    requires
        cb.well_formed(),
        0 <= pages,
        cb.choice(pages) is Some,
        block::phys_block(cb.free_block_list@[cb.choice(pages)->0].start_phy_address as int, pages).holds_phys(page),
    ensures
        cb.free_block_list@[cb.choice(pages)->0].holds_phys(page),
        forall|k: int| 0 <= k < cb.alloc_block_list@.len() ==> !(#[trigger] cb.alloc_block_list@[k]).holds_phys(page),
        forall|k: int| 0 <= k < cb.free_block_list@.len() && k != cb.choice(pages)->0
            ==> !(#[trigger] cb.free_block_list@[k]).holds_phys(page),
{
    let f = cb.free_block_list@;
    let a = cb.alloc_block_list@;
    law_best_fit(f, f.len(), pages, cb.lower_limit, cb.hard_limit);
    let i = cb.choice(pages)->0;
    assert(f[i].phys_end() <= u64::MAX);
    assert forall|k: int| 0 <= k < a.len() implies !(#[trigger] a[k]).holds_phys(page) by {
        assert(apart(f[i], a[k]));
    }
    assert forall|k: int| 0 <= k < f.len() && k != i implies !(#[trigger] f[k]).holds_phys(page) by {
        assert(apart(f[i], f[k]) || apart(f[k], f[i]));
    }
}

/// A page is free after pages have been given back exactly if it was free or is one of them.
pub proof fn law_given_back_is_free(f: Seq<PageDescriptor>, addr: int, pages: int, page: int)
    requires
        in_space(f),
        0 <= addr,
        0 <= pages,
        addr + 4096 * pages <= u64::MAX,
    ensures
        (exists|k: int| 0 <= k < given_back(f, addr, pages).len()
            && (#[trigger] given_back(f, addr, pages)[k]).holds_phys(page))
            <==> ((exists|k: int| 0 <= k < f.len() && (#[trigger] f[k]).holds_phys(page))
                || addr <= page < addr + 4096 * pages),
{
    let g = given_back(f, addr, pages);
    lemma_border_found(f, 0, addr, pages);
    match find_border(f, 0, addr, pages) {
        None => {
            assert(g[f.len() as int] == block::phys_block(addr, pages));
            assert(forall|k: int| 0 <= k < f.len() ==> #[trigger] g[k] == f[k]);
            if exists|k: int| 0 <= k < f.len() && (#[trigger] f[k]).holds_phys(page) {
                let k = choose|k: int| 0 <= k < f.len() && (#[trigger] f[k]).holds_phys(page);
                assert(g[k].holds_phys(page));
            }
            if addr <= page < addr + 4096 * pages {
                assert(g[f.len() as int].holds_phys(page));
            }
        },
        Some(i) => {
            let s1 = f.update(i, joined(f[i], addr, pages));
            assert(f[i].phys_end() <= u64::MAX);
            assert(s1[i].phys_end() <= u64::MAX);
            assert(s1[i].holds_phys(page) <==> f[i].holds_phys(page) || addr <= page < addr + 4096 * pages);
            assert(forall|k: int| 0 <= k < f.len() && k != i ==> #[trigger] s1[k] == f[k]);
            assert((exists|k: int| 0 <= k < s1.len() && (#[trigger] s1[k]).holds_phys(page))
                <==> ((exists|k: int| 0 <= k < f.len() && (#[trigger] f[k]).holds_phys(page))
                    || addr <= page < addr + 4096 * pages)) by {
                if exists|k: int| 0 <= k < f.len() && (#[trigger] f[k]).holds_phys(page) {
                    let k = choose|k: int| 0 <= k < f.len() && (#[trigger] f[k]).holds_phys(page);
                    assert(s1[k].holds_phys(page));
                }
                if exists|k: int| 0 <= k < s1.len() && (#[trigger] s1[k]).holds_phys(page) {
                    let k = choose|k: int| 0 <= k < s1.len() && (#[trigger] s1[k]).holds_phys(page);
                    if k != i {
                        assert(f[k].holds_phys(page));
                    } else if !(addr <= page < addr + 4096 * pages) {
                        assert(f[i].holds_phys(page));
                    }
                }
            }
            lemma_border_found(s1, 0, s1[i].start_phy_address as int, s1[i].num_pages as int);
            match find_border(s1, 0, s1[i].start_phy_address as int, s1[i].num_pages as int) {
                None => {},
                Some(j) => {
                    let m = merged(s1, i, j);
                    let u = s1.update(j, m);
                    assert(g =~= u.remove(i));
                    if j != i {
                        assert(s1[j] == f[j]);
                        assert(f[j].phys_end() <= u64::MAX);
                    }
                    assert(m.holds_phys(page) <==> s1[i].holds_phys(page) || s1[j].holds_phys(page));
                    if exists|k: int| 0 <= k < s1.len() && (#[trigger] s1[k]).holds_phys(page) {
                        let k = choose|k: int| 0 <= k < s1.len() && (#[trigger] s1[k]).holds_phys(page);
                        let t = if k == i { j } else { k };
                        let p = if t < i { t } else { t - 1 };
                        if i != j {
                            assert(u[t].holds_phys(page));
                            assert(g[p] == u[t]);
                        } else {
                            assert(s1[i].num_pages == 0);
                            assert(k != i);
                            assert(g[p] == s1[k]);
                        }
                        assert(g[p].holds_phys(page));
                    }
                    if exists|k: int| 0 <= k < g.len() && (#[trigger] g[k]).holds_phys(page) {
                        let k = choose|k: int| 0 <= k < g.len() && (#[trigger] g[k]).holds_phys(page);
                        let t = if k < i { k } else { k + 1 };
                        assert(g[k] == u[t]);
                        if t == j {
                            assert(s1[i].holds_phys(page) || s1[j].holds_phys(page));
                        } else {
                            assert(s1[t].holds_phys(page));
                        }
                    }
                },
            }
        },
    }
}

proof fn lemma_exact_exists(s: Seq<PageDescriptor>, i: int, k: int)
    requires
        0 <= i <= k < s.len(),
    ensures
        find_exact(s, i, s[k].start_phy_address, s[k].num_pages as int) is Some,
    decreases k - i,
{
    if i < k {
        lemma_exact_exists(s, i + 1, k);
    }
}

proof fn lemma_cut_pages(f: Seq<PageDescriptor>, i: int, pages: int, page: int)
    requires
        in_space(f),
        0 <= i < f.len(),
        0 <= pages <= f[i].num_pages,
    ensures
        in_space(cut_front(f, i, pages)),
        (exists|k: int| 0 <= k < f.len() && (#[trigger] f[k]).holds_phys(page)) <==> (
            (exists|k: int| 0 <= k < cut_front(f, i, pages).len()
                && (#[trigger] cut_front(f, i, pages)[k]).holds_phys(page))
            || f[i].start_phy_address <= page < f[i].start_phy_address + 4096 * pages),
{
    let c = cut_front(f, i, pages);
    assert(f[i].phys_end() <= u64::MAX);
    if exists|k: int| 0 <= k < f.len() && (#[trigger] f[k]).holds_phys(page) {
        let k = choose|k: int| 0 <= k < f.len() && (#[trigger] f[k]).holds_phys(page);
        let p = if f[i].num_pages == pages && k > i { k - 1 } else { k };
        if k != i {
            assert(c[p] == f[k]);
            assert(c[p].holds_phys(page));
        } else if !(f[i].start_phy_address <= page < f[i].start_phy_address + 4096 * pages) {
            assert(c[i].holds_phys(page));
        }
    }
    if exists|k: int| 0 <= k < c.len() && (#[trigger] c[k]).holds_phys(page) {
        let k = choose|k: int| 0 <= k < c.len() && (#[trigger] c[k]).holds_phys(page);
        let t = if f[i].num_pages == pages && k >= i { k + 1 } else { k };
        assert(f[t].holds_phys(page));
    }
    if f[i].start_phy_address <= page < f[i].start_phy_address + 4096 * pages {
        assert(f[i].holds_phys(page));
    }
}

/// Pages that have been handed out can always be given back, and then exactly the same pages are
/// free as before.
pub proof fn law_allocate_then_deallocate(cb: PhyMemConBlk, pages: int, page: int)
    requires
        cb.well_formed(),
        0 <= pages,
        cb.choice(pages) is Some,
    ensures
        ({
            let f = cb.free_block_list@;
            let i = cb.choice(pages)->0;
            let start = f[i].start_phy_address;
            let back = given_back(cut_front(f, i, pages), start as int, pages);
            &&& find_exact(cb.alloc_block_list@.push(block::phys_block(start as int, pages)), 0, start, pages) is Some
            &&& block::pages_in(back) == block::pages_in(f)
            &&& (exists|k: int| 0 <= k < back.len() && (#[trigger] back[k]).holds_phys(page))
                <==> (exists|k: int| 0 <= k < f.len() && (#[trigger] f[k]).holds_phys(page))
        }),
{
    let f = cb.free_block_list@;
    let a = cb.alloc_block_list@;
    law_best_fit(f, f.len(), pages, cb.lower_limit, cb.hard_limit);
    let i = cb.choice(pages)->0;
    let start = f[i].start_phy_address;
    let blk = block::phys_block(start as int, pages);
    assert(f[i].phys_end() <= u64::MAX);
    let a1 = a.push(blk);
    assert(a1[a.len() as int] == blk);
    lemma_exact_exists(a1, 0, a.len() as int);
    lemma_cut_sound(f, a, i, pages);
    let c = cut_front(f, i, pages);
    assert forall|x: int, y: int| 0 <= x < c.len() && 0 <= y < seq![blk].len() implies apart(
        #[trigger] c[x], #[trigger] seq![blk][y]) by {
        assert(apart(c[x], a1[a.len() as int]));
    }
    assert forall|x: int, y: int| 0 <= x < a.len() && 0 <= y < seq![blk].len() implies apart(
        #[trigger] a[x], #[trigger] seq![blk][y]) by {
        assert(a1[x] == a[x]);
        assert(apart(a1[x], a1[a.len() as int]));
    }
    lemma_given_back_sound(c, a, start as int, pages);
    lemma_cut_pages(f, i, pages, page);
    law_given_back_is_free(c, start as int, pages, page);
}

/// No two blocks of a list border on each other, and none is empty.
pub open spec fn none_adjoin(s: Seq<PageDescriptor>) -> bool {
    &&& forall|i: int| 0 <= i < s.len() ==> (#[trigger] s[i]).num_pages > 0
    &&& forall|i: int, j: int| 0 <= i < s.len() && 0 <= j < s.len() ==> (#[trigger] s[i]).phys_end() != (
        #[trigger] s[j]).start_phy_address
}

proof fn lemma_no_border(s: Seq<PageDescriptor>, i: int, addr: int, pages: int)
    requires
        0 <= i,
        forall|k: int| i <= k < s.len() ==> (#[trigger] s[k]).phys_end() != addr && addr + 4096 * pages
            != s[k].start_phy_address,
    ensures
        find_border(s, i, addr, pages) is None,
    decreases s.len() - i,
{
    if i < s.len() {
        lemma_no_border(s, i + 1, addr, pages);
    }
}

proof fn lemma_only_border(s: Seq<PageDescriptor>, i: int, j: int, addr: int, pages: int)
    requires
        0 <= i <= j < s.len(),
        addr + 4096 * pages == s[j].start_phy_address,
        forall|k: int| i <= k < s.len() && k != j ==> (#[trigger] s[k]).phys_end() != addr && addr + 4096 * pages
            != s[k].start_phy_address,
    ensures
        find_border(s, i, addr, pages) == Some(j),
    decreases j - i,
{
    if i < j {
        assert(s[i].phys_end() != addr);
        lemma_only_border(s, i + 1, j, addr, pages);
    }
}

/// Pages that are cut off the front of a block and given back are joined to it again.
proof fn lemma_cut_and_given_back(f: Seq<PageDescriptor>, i: int, pages: int)
    requires
        all_apart(f),
        in_space(f),
        none_adjoin(f),
        0 <= i < f.len(),
        0 < pages <= f[i].num_pages,
    ensures
        ({
            let start = f[i].start_phy_address as int;
            let back = given_back(cut_front(f, i, pages), start, pages);
            &&& none_adjoin(back)
            &&& back == (if pages == f[i].num_pages { f.remove(i).push(block::phys_block(start, pages)) } else { f })
        }),
{
    let start = f[i].start_phy_address as int;
    let c = cut_front(f, i, pages);
    assert(f[i].phys_end() <= u64::MAX);
    assert forall|k: int| 0 <= k < f.len() && k != i implies (#[trigger] f[k]).phys_end() != start && start + 4096 * pages
        != f[k].start_phy_address by {
        assert(f[k].num_pages > 0);
        assert(f[k].phys_end() != f[i].start_phy_address);
        assert(f[i].phys_end() != f[k].start_phy_address);
        assert(apart(f[i], f[k]) || apart(f[k], f[i]));
    }
    if pages == f[i].num_pages {
        assert forall|k: int| 0 <= k < c.len() implies (#[trigger] c[k]).phys_end() != start && start + 4096 * pages
            != c[k].start_phy_address by {
            assert(c[k] == f[if k < i { k } else { k + 1 }]);
        }
        lemma_no_border(c, 0, start, pages);
        let b = c.push(block::phys_block(start, pages));
        assert(forall|k: int| 0 <= k < c.len() ==> #[trigger] b[k] == f[if k < i { k } else { k + 1 }]);
        assert(none_adjoin(b)) by {
            assert forall|x: int, y: int| 0 <= x < b.len() && 0 <= y < b.len() implies (#[trigger] b[x]).phys_end() != (
                #[trigger] b[y]).start_phy_address by {
                let p = if x == c.len() { i } else if x < i { x } else { x + 1 };
                let q = if y == c.len() { i } else if y < i { y } else { y + 1 };
                assert(f[p].phys_end() != f[q].start_phy_address);
            }
        }
    } else {
        assert forall|k: int| 0 <= k < c.len() && k != i implies (#[trigger] c[k]).phys_end() != start && start + 4096
            * pages != c[k].start_phy_address by {
            assert(c[k] == f[k]);
        }
        assert(c[i].phys_end() == f[i].phys_end());
        lemma_only_border(c, 0, i, start, pages);
        assert(joined(c[i], start, pages) == f[i]);
        assert(c.update(i, f[i]) =~= f);
        assert forall|k: int| 0 <= k < f.len() implies (#[trigger] f[k]).phys_end() != start && start + 4096
            * f[i].num_pages != f[k].start_phy_address by {
            assert(f[k].phys_end() != f[i].start_phy_address);
            assert(f[i].phys_end() != f[k].start_phy_address);
        }
        lemma_no_border(f, 0, start, f[i].num_pages as int);
    }
}

proof fn lemma_not_exact(s: Seq<PageDescriptor>, i: int, addr: u64, pages: int)
    requires
        0 <= i,
        0 < pages,
        addr + 4096 * pages <= u64::MAX,
        forall|k: int| i <= k < s.len() ==> apart(#[trigger] s[k], block::phys_block(addr as int, pages)),
    ensures
        find_exact(s, i, addr, pages) is None,
    decreases s.len() - i,
{
    if i < s.len() {
        assert(apart(s[i], block::phys_block(addr as int, pages)));
        lemma_not_exact(s, i + 1, addr, pages);
    }
}

proof fn lemma_last_exact(s: Seq<PageDescriptor>, i: int, addr: u64, pages: int)
    requires
        0 <= i <= s.len(),
        0 < pages,
        addr + 4096 * pages <= u64::MAX,
        forall|k: int| i <= k < s.len() ==> apart(#[trigger] s[k], block::phys_block(addr as int, pages)),
    ensures
        find_exact(s.push(block::phys_block(addr as int, pages)), i, addr, pages) == Some(s.len() as int),
    decreases s.len() - i,
{
    let t = s.push(block::phys_block(addr as int, pages));
    if i < s.len() {
        assert(t[i] == s[i]);
        assert(apart(s[i], block::phys_block(addr as int, pages)));
        lemma_last_exact(s, i + 1, addr, pages);
    } else {
        assert(t[i] == block::phys_block(addr as int, pages));
    }
}

/// Memory that has just been handed out can be given back. Then the same blocks are handed out, and
/// as much is available and the same pages are free as before; if no two free blocks bordered on each
/// other, none do again. To give it back once more is refused and changes nothing.
pub proof fn law_given_back_once(cb: PhyMemConBlk, size: u64, align: u64, page: int)
    requires
        cb.well_formed(),
        none_adjoin(cb.free_block_list@),
        size > 0,
        cb@.allocated(size, align).1 is Ok,
    ensures
        ({
            let m = cb@;
            let (m1, r) = m.allocated(size, align);
            let (m2, back) = m1.deallocated(r->Ok_0, size, align);
            &&& back is Ok
            &&& m2.alloc == m.alloc
            &&& m2.avl == m.avl
            &&& none_adjoin(m2.free)
            &&& (exists|k: int| 0 <= k < m2.free.len() && (#[trigger] m2.free[k]).holds_phys(page))
                <==> (exists|k: int| 0 <= k < m.free.len() && (#[trigger] m.free[k]).holds_phys(page))
            &&& m2.deallocated(r->Ok_0, size, align) == (m2, Err::<(), KError>(KError::InvalidArgument))
        }),
{
    let f = cb.free_block_list@;
    let a = cb.alloc_block_list@;
    let pages = util::ceil_div_spec(size as int, 4096);
    law_best_fit(f, f.len(), pages, cb.lower_limit, cb.hard_limit);
    let i = cb.choice(pages)->0;
    let start = f[i].start_phy_address;
    let blk = block::phys_block(start as int, pages);
    assert(0 < pages);
    assert(f[i].phys_end() <= u64::MAX);
    block::lemma_pages_at_least(f, i);
    assert forall|k: int| 0 <= k < a.len() implies apart(#[trigger] a[k], blk) by {
        assert(apart(f[i], a[k]));
    }
    lemma_last_exact(a, 0, start, pages);
    lemma_not_exact(a, 0, start, pages);
    assert(a.push(blk).remove(a.len() as int) =~= a);
    lemma_cut_and_given_back(f, i, pages);
    law_allocate_then_deallocate(cb, pages, page);
}

} // verus!
