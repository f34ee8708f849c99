use vstd::prelude::*;
use crate::error::KError;
use crate::util;
use crate::util::{align_up, ceil_div, PAGE_SIZE};
use crate::mem::block;
use crate::mem::block::{PageDescriptor, USER};

verus! {

/// First address of the kernel's half of the address space, in canonical form.
pub const KERNEL_HALF_OFFSET: u64 = 0xffff_8000_0000_0000;
/// The same address before sign extension.
pub const KERNEL_HALF_OFFSET_RAW: u64 = 0x0000_8000_0000_0000;
/// From here on the raw address space holds the page tables.
pub const PAGE_TABLE_RAW: u64 = 0x0000_ff80_0000_0000;

/// Which of several virtual addresses of one physical address is wanted.
#[derive(Clone, Copy, Debug, PartialEq, Eq, Structural)]
pub enum MapFetchType {
    /// The lowest.
    Any,
    /// The lowest in the kernel's half, if there is one there.
    Kernel,
}

/// A change of the page tables.
#[derive(Clone, Copy, Debug, PartialEq, Eq, Structural)]
pub enum PageOp {
    MapPages { virt_addr: u64, phys_addr: u64, size: u64, flags: u8 },
    UnmapPages { virt_addr: u64, size: u64 },
}

/// An address space: which runs of pages are free, and which are handed out and perhaps mapped.
pub struct VirtMemConBlk {
    pub total_memory: u64,
    pub avl_memory: u64,
    pub free_block_list: Vec<PageDescriptor>,
    pub alloc_block_list: Vec<PageDescriptor>,
    pub proc_id: u64,
    /// Changes of the page tables that are still to be made, oldest first.
    pub page_ops: Vec<PageOp>,
}

/// What an address space holds.
#[verifier::ext_equal]
pub struct Space {
    pub total: u64,
    pub avl: u64,
    pub free: Seq<PageDescriptor>,
    pub alloc: Seq<PageDescriptor>,
    pub proc_id: u64,
    pub ops: Seq<PageOp>,
}

impl View for VirtMemConBlk {
    type V = Space;

    open spec fn view(&self) -> Space {
        Space {
            total: self.total_memory,
            avl: self.avl_memory,
            free: self.free_block_list@,
            alloc: self.alloc_block_list@,
            proc_id: self.proc_id,
            ops: self.page_ops@,
        }
    }
}

pub open spec fn virt_block(start: int, pages: int, flags: u8) -> PageDescriptor {
    PageDescriptor {
        num_pages: pages as u64,
        start_phy_address: 0,
        start_virt_address: start as u64,
        flags,
        is_mapped: false,
    }
}

/// No page belongs to both blocks.
pub open spec fn apart(a: PageDescriptor, b: PageDescriptor) -> bool {
    a.num_pages == 0 || b.num_pages == 0 || a.virt_end() <= b.start_virt_address
        || b.virt_end() <= a.start_virt_address
}

pub open spec fn all_apart(s: Seq<PageDescriptor>) -> bool {
    forall|i: int, j: int| 0 <= i < j < s.len() ==> apart(#[trigger] s[i], #[trigger] s[j])
}

pub open spec fn lists_apart(s: Seq<PageDescriptor>, t: Seq<PageDescriptor>) -> bool {
    forall|i: int, j: int| 0 <= i < s.len() && 0 <= j < t.len() ==> apart(#[trigger] s[i], #[trigger] t[j])
}

/// The block starts on a page, lies inside the address space and in one of its halves; if it is
/// mapped, so do the pages behind it.
pub open spec fn placed(d: PageDescriptor) -> bool {
    &&& d.start_virt_address % 4096 == 0
    &&& d.virt_end() <= u64::MAX
    &&& d.virt_end() <= KERNEL_HALF_OFFSET || d.start_virt_address >= KERNEL_HALF_OFFSET
    &&& d.is_mapped ==> d.phys_end() <= u64::MAX
}

pub open spec fn all_placed(s: Seq<PageDescriptor>) -> bool {
    forall|i: int| 0 <= i < s.len() ==> placed(#[trigger] s[i])
}

pub open spec fn none_mapped(s: Seq<PageDescriptor>) -> bool {
    forall|i: int| 0 <= i < s.len() ==> !(#[trigger] s[i]).is_mapped
}

/// The two lists describe distinct pages, and none of the free ones is mapped.
pub open spec fn sound(f: Seq<PageDescriptor>, a: Seq<PageDescriptor>) -> bool {
    all_apart(f) && all_apart(a) && lists_apart(f, a) && all_placed(f) && all_placed(a) && none_mapped(f)
}

/// The block has the pages and lies in the wanted half.
pub open spec fn serves(d: PageDescriptor, pages: int, is_user: bool) -> bool {
    d.num_pages >= pages && (is_user <==> d.start_virt_address < KERNEL_HALF_OFFSET)
}

/// The smallest of the first `n` blocks that can serve the request; of equals the first.
pub open spec fn best_fit(s: Seq<PageDescriptor>, n: nat, pages: int, is_user: bool) -> Option<int>
    decreases n,
{
    if n == 0 {
        None
    } else {
        let i = n - 1;
        match best_fit(s, i as nat, pages, is_user) {
            None => if serves(s[i], pages, is_user) { Some(i) } else { None },
            Some(b) => if serves(s[i], pages, is_user) && s[i].num_pages < s[b].num_pages { Some(i) } else { Some(b) },
        }
    }
}

/// The chosen block lies in the wanted half and has the pages, no other such block is smaller, and
/// none before it is as small; nothing is chosen only if there is no such block.
pub proof fn law_best_fit(s: Seq<PageDescriptor>, n: nat, pages: int, is_user: bool)
    requires
        n <= s.len(),
    ensures
        match best_fit(s, n, pages, is_user) {
            Some(b) => {
                &&& 0 <= b < n
                &&& serves(s[b], pages, is_user)
                &&& forall|j: int| 0 <= j < n && serves(#[trigger] s[j], pages, is_user)
                    ==> s[b].num_pages <= s[j].num_pages && (j < b ==> s[b].num_pages < s[j].num_pages)
            },
            None => forall|j: int| 0 <= j < n ==> !serves(#[trigger] s[j], pages, is_user),
        },
    decreases n,
{
    if n > 0 {
        law_best_fit(s, (n - 1) as nat, pages, is_user);
    }
}

/// The list once `pages` pages have been cut off the front of block `i`.
pub open spec fn cut_front(s: Seq<PageDescriptor>, i: int, pages: int) -> Seq<PageDescriptor> {
    if s[i].num_pages == pages {
        s.remove(i)
    } else {
        s.update(
            i,
            PageDescriptor {
                num_pages: (s[i].num_pages - pages) as u64,
                start_virt_address: (s[i].start_virt_address + 4096 * pages) as u64,
                ..s[i]
            },
        )
    }
}

/// The block ends where the pages at `addr` begin, or begins where they end, and the border
/// between the two is not that of the kernel's half.
pub open spec fn borders(d: PageDescriptor, addr: int, pages: int) -> bool {
    ||| d.virt_end() == addr && addr != KERNEL_HALF_OFFSET
    ||| addr + 4096 * pages == d.start_virt_address && d.start_virt_address != KERNEL_HALF_OFFSET
}

/// The first block from `i` on that borders on the pages at `addr`.
pub open spec fn find_border(s: Seq<PageDescriptor>, i: int, addr: int, pages: int) -> Option<int>
    decreases s.len() - i,
{
    if i < 0 || i >= s.len() {
        None
    } else if borders(s[i], addr, pages) {
        Some(i)
    } else {
        find_border(s, i + 1, addr, pages)
    }
}

/// The block joined with the pages at `addr` that border on it.
pub open spec fn joined(d: PageDescriptor, addr: int, pages: int) -> PageDescriptor {
    PageDescriptor {
        num_pages: (d.num_pages + pages) as u64,
        start_virt_address: (if d.virt_end() == addr && addr != KERNEL_HALF_OFFSET {
            d.start_virt_address as int
        } else {
            d.start_virt_address - 4096 * pages
        }) as u64,
        ..d
    }
}

pub open spec fn merged(s: Seq<PageDescriptor>, i: int, j: int) -> PageDescriptor {
    PageDescriptor {
        num_pages: (s[j].num_pages + s[i].num_pages) as u64,
        start_virt_address: if s[i].start_virt_address <= s[j].start_virt_address {
            s[i].start_virt_address
        } else {
            s[j].start_virt_address
        },
        ..s[j]
    }
}

/// The free list with the pages at `addr` given back: joined to the first block that borders on
/// them, and that to the first block that then borders on it; a block of their own if there is none.
pub open spec fn given_back(s: Seq<PageDescriptor>, addr: int, pages: int) -> Seq<PageDescriptor> {
    match find_border(s, 0, addr, pages) {
        None => s.push(virt_block(addr, pages, 0)),
        Some(i) => {
            let s1 = s.update(i, joined(s[i], addr, pages));
            match find_border(s1, 0, s1[i].start_virt_address as int, s1[i].num_pages as int) {
                None => s1,
                Some(j) => s1.update(j, merged(s1, i, j)).remove(i),
            }
        },
    }
}

/// The first block from `i` on that starts at `addr` and has `pages` pages.
pub open spec fn find_exact(s: Seq<PageDescriptor>, i: int, addr: u64, pages: int) -> Option<int>
    decreases s.len() - i,
{
    if i < 0 || i >= s.len() {
        None
    } else if s[i].start_virt_address == addr && s[i].num_pages == pages {
        Some(i)
    } else {
        find_exact(s, i + 1, addr, pages)
    }
}

/// The first block from `i` on that holds `size` bytes at `addr`; where `unmapped` is set, only
/// blocks that are not mapped count.
pub open spec fn find_holder(s: Seq<PageDescriptor>, i: int, addr: int, size: int, unmapped: bool) -> Option<int>
    decreases s.len() - i,
{
    if i < 0 || i >= s.len() {
        None
    } else if s[i].start_virt_address <= addr && addr + size <= s[i].virt_end() && !(unmapped && s[i].is_mapped) {
        Some(i)
    } else {
        find_holder(s, i + 1, addr, size, unmapped)
    }
}

/// The first mapped block from `i` on that starts at `addr` and has `pages` pages.
pub open spec fn find_mapped(s: Seq<PageDescriptor>, i: int, addr: u64, pages: int) -> Option<int>
    decreases s.len() - i,
{
    if i < 0 || i >= s.len() {
        None
    } else if s[i].start_virt_address == addr && s[i].num_pages == pages && s[i].is_mapped {
        Some(i)
    } else {
        find_mapped(s, i + 1, addr, pages)
    }
}

/// What is left of block `d` above `addr` of the `size` bytes at `addr`.
pub open spec fn top_of(d: PageDescriptor, addr: int) -> PageDescriptor {
    virt_block(d.start_virt_address as int, util::ceil_div_spec(addr - d.start_virt_address, 4096), 0)
}

pub open spec fn bottom_of(d: PageDescriptor, addr: int, size: int) -> PageDescriptor {
    virt_block(
        addr + size, util::ceil_div_spec(4096 * d.num_pages - ((addr + size) - d.start_virt_address), 4096), 0)
}

pub open spec fn push_nonempty(s: Seq<PageDescriptor>, d: PageDescriptor) -> Seq<PageDescriptor> {
    if d.num_pages != 0 { s.push(d) } else { s }
}

/// The list with block `i` replaced by what is left of it once the `size` bytes at `addr` are cut
/// out: the part before them, then the part behind them, each at the end of the list.
pub open spec fn carved(s: Seq<PageDescriptor>, i: int, addr: int, size: int) -> Seq<PageDescriptor> {
    push_nonempty(push_nonempty(s.remove(i), top_of(s[i], addr)), bottom_of(s[i], addr, size))
}

proof fn lemma_border_found(s: Seq<PageDescriptor>, i: int, addr: int, pages: int)
    requires
        0 <= i,
    ensures
        match find_border(s, i, addr, pages) {
            Some(k) => i <= k < s.len() && borders(s[k], addr, pages),
            None => forall|k: int| i <= k < s.len() ==> !borders(#[trigger] s[k], addr, pages),
        },
    decreases s.len() - i,
{
    if i < s.len() {
        lemma_border_found(s, i + 1, addr, pages);
    }
}

proof fn lemma_cut_sound(f: Seq<PageDescriptor>, a: Seq<PageDescriptor>, i: int, pages: int, flags: u8)
    requires
        sound(f, a),
        0 <= i < f.len(),
        0 <= pages <= f[i].num_pages,
    ensures
        sound(cut_front(f, i, pages), a.push(virt_block(f[i].start_virt_address as int, pages, flags))),
        block::pages_in(cut_front(f, i, pages)) == block::pages_in(f) - pages,
{
    let c = cut_front(f, i, pages);
    let d = virt_block(f[i].start_virt_address as int, pages, flags);
    let a1 = a.push(d);
    assert(placed(f[i]));
    if f[i].num_pages == pages {
        block::lemma_pages_remove(f, i);
        assert(forall|k: int| 0 <= k < c.len() ==> #[trigger] c[k] == (if k < i { f[k] } else { f[k + 1] }));
    } else {
        block::lemma_pages_update(f, i, c[i]);
        assert(forall|k: int| 0 <= k < c.len() && k != i ==> #[trigger] c[k] == f[k]);
    }
    assert(placed(d));
    assert(all_placed(c));
    assert(all_placed(a1));
    assert(all_apart(c));
    assert forall|k: int, j: int| 0 <= k < c.len() && 0 <= j < a1.len() implies apart(
        #[trigger] c[k], #[trigger] a1[j]) by {
        let k0 = if f[i].num_pages == pages && k >= i { k + 1 } else { k };
        if j < a.len() {
            assert(a1[j] == a[j]);
            assert(apart(f[k0], a[j]));
        } else if k0 != i {
            assert(apart(f[k0], f[i]) || apart(f[i], f[k0]));
        }
    }
    assert forall|x: int, y: int| 0 <= x < y < a1.len() implies apart(#[trigger] a1[x], #[trigger] a1[y]) by {
        if y == a.len() {
            assert(apart(f[i], a[x]));
        }
    }
}

proof fn lemma_join_sound(f: Seq<PageDescriptor>, a: Seq<PageDescriptor>, i: int, d: PageDescriptor)
    requires
        sound(f, a),
        0 <= i < f.len(),
        placed(d),
        borders(f[i], d.start_virt_address as int, d.num_pages as int),
        lists_apart(f, seq![d]),
        lists_apart(a, seq![d]),
    ensures
        sound(f.update(i, joined(f[i], d.start_virt_address as int, d.num_pages as int)), a),
        block::pages_in(f.update(i, joined(f[i], d.start_virt_address as int, d.num_pages as int)))
            == block::pages_in(f) + d.num_pages,
{
    let one = seq![d];
    let addr = d.start_virt_address as int;
    let pages = d.num_pages as int;
    let g = joined(f[i], addr, pages);
    let s = f.update(i, g);
    assert(one[0] == d);
    assert(placed(f[i]));
    assert(!f[i].is_mapped);
    block::lemma_pages_update(f, i, g);
    assert(placed(g));
    assert forall|k: int| 0 <= k < f.len() && k != i implies apart(#[trigger] f[k], g) && apart(g, f[k]) by {
        assert(apart(f[k], one[0]));
        assert(apart(f[i], f[k]) || apart(f[k], f[i]));
    }
    assert forall|k: int| 0 <= k < a.len() implies apart(g, #[trigger] a[k]) by {
        assert(apart(a[k], one[0]));
        assert(apart(f[i], a[k]));
    }
    assert(forall|k: int| 0 <= k < f.len() && k != i ==> #[trigger] s[k] == f[k]);
}

proof fn lemma_merge_sound(f: Seq<PageDescriptor>, a: Seq<PageDescriptor>, i: int, j: int)
    requires
        sound(f, a),
        0 <= i < f.len(),
        0 <= j < f.len(),
        borders(f[j], f[i].start_virt_address as int, f[i].num_pages as int),
    ensures
        sound(f.update(j, merged(f, i, j)).remove(i), a),
        block::pages_in(f.update(j, merged(f, i, j)).remove(i)) == block::pages_in(f),
{
    let m = merged(f, i, j);
    let u = f.update(j, m);
    let s = u.remove(i);
    assert(placed(f[i]) && placed(f[j]));
    assert(!f[i].is_mapped && !f[j].is_mapped);
    assert(placed(m));
    block::lemma_pages_update(f, j, m);
    block::lemma_pages_remove(u, i);
    assert forall|k: int| 0 <= k < f.len() && k != i && k != j implies apart(#[trigger] f[k], m) && apart(m, f[k]) by {
        assert(apart(f[i], f[k]) || apart(f[k], f[i]));
        assert(apart(f[j], f[k]) || apart(f[k], f[j]));
    }
    assert forall|k: int| 0 <= k < a.len() implies apart(m, #[trigger] a[k]) by {
        assert(apart(f[i], a[k]));
        assert(apart(f[j], a[k]));
    }
    assert(forall|k: int| 0 <= k < s.len() ==> #[trigger] s[k] == (if k < i { u[k] } else { u[k + 1] }));
    assert(forall|k: int| 0 <= k < u.len() && k != j ==> #[trigger] u[k] == f[k]);
    assert(all_placed(s));
    assert(all_apart(s));
    assert(lists_apart(s, a));
}

/// Giving pages back keeps the lists sound and adds the pages to the free ones.
proof fn lemma_given_back_sound(f: Seq<PageDescriptor>, a: Seq<PageDescriptor>, addr: int, pages: int)
    requires
        sound(f, a),
        0 <= addr,
        0 <= pages,
        addr + 4096 * pages <= u64::MAX,
        placed(virt_block(addr, pages, 0)),
        lists_apart(f, seq![virt_block(addr, pages, 0)]),
        lists_apart(a, seq![virt_block(addr, pages, 0)]),
    ensures
        sound(given_back(f, addr, pages), a),
        block::pages_in(given_back(f, addr, pages)) == block::pages_in(f) + pages,
{
    let d = virt_block(addr, pages, 0);
    lemma_border_found(f, 0, addr, pages);
    match find_border(f, 0, addr, pages) {
        None => {
            let s = f.push(d);
            let one = seq![d];
            block::lemma_pages_push(f, d);
            assert(one[0] == d);
            assert forall|x: int, y: int| 0 <= x < y < s.len() implies apart(#[trigger] s[x], #[trigger] s[y]) by {
                if y == f.len() {
                    assert(apart(f[x], one[0]));
                }
            }
            assert forall|x: int, y: int| 0 <= x < s.len() && 0 <= y < a.len() implies apart(
                #[trigger] s[x], #[trigger] a[y]) by {
                if x == f.len() {
                    assert(apart(a[y], one[0]));
                }
            }
        },
        Some(i) => {
            lemma_join_sound(f, a, i, d);
            let s1 = f.update(i, joined(f[i], addr, pages));
            lemma_border_found(s1, 0, s1[i].start_virt_address as int, s1[i].num_pages as int);
            match find_border(s1, 0, s1[i].start_virt_address as int, s1[i].num_pages as int) {
                None => {},
                Some(j) => {
                    lemma_merge_sound(s1, a, i, j);
                },
            }
        },
    }
}

impl Space {
    pub open spec fn well_formed(self) -> bool {
        &&& sound(self.free, self.alloc)
        &&& self.avl % 4096 == 0
        &&& 4096 * block::pages_in(self.free) <= self.avl
    }

    pub open spec fn choice(self, pages: int, is_user: bool) -> Option<int> {
        best_fit(self.free, self.free.len(), pages, is_user)
    }

    /// The outcome of a request for address space.
    pub open spec fn allocated(self, size: u64, align: u64, is_user: bool) -> (Space, Result<u64, KError>) {
        let pages = util::ceil_div_spec(size as int, 4096);
        if size >= self.avl || size > self.total {
            (self, Err(KError::OutOfMemory))
        } else if align > 4096 {
            (self, Err(KError::InvalidArgument))
        } else {
            match self.choice(pages, is_user) {
                None => (self, Err(KError::OutOfMemory)),
                Some(i) => {
                    let start = self.free[i].start_virt_address;
                    (
                        Space {
                            free: cut_front(self.free, i, pages),
                            alloc: self.alloc.push(
                                virt_block(start as int, pages, if is_user { USER } else { 0 })),
                            avl: (self.avl - 4096 * pages) as u64,
                            ..self
                        },
                        Ok(start),
                    )
                },
            }
        }
    }

    /// The outcome of giving address space back: it has to be an unmapped block.
    pub open spec fn deallocated(self, addr: u64, size: u64, align: u64) -> (Space, Result<(), KError>) {
        let pages = util::ceil_div_spec(size as int, 4096);
        match find_exact(self.alloc, 0, addr, pages) {
            Some(k) => if align > 4096 || self.alloc[k].is_mapped {
                (self, Err(KError::InvalidArgument))
            } else {
                (
                    Space {
                        alloc: self.alloc.remove(k),
                        free: given_back(self.free, addr as int, pages),
                        avl: (self.avl + 4096 * pages) as u64,
                        ..self
                    },
                    Ok(()),
                )
            },
            None => (self, Err(KError::InvalidArgument)),
        }
    }

    /// The outcome of setting a given stretch of free address space aside.
    pub open spec fn reserved(self, addr: u64, size: u64) -> (Space, Result<(), KError>) {
        let whole = util::align_up_spec(size as int, 4096);
        match find_holder(self.free, 0, addr as int, whole, false) {
            Some(i) => (
                Space {
                    free: carved(self.free, i, addr as int, whole),
                    alloc: self.alloc.push(virt_block(addr as int, whole / 4096, 0)),
                    ..self
                },
                Ok(()),
            ),
            None => (self, Err(KError::OutOfMemory)),
        }
    }

    /// The outcome of mapping physical pages to address space set aside before. A process's own
    /// space keeps no books on kernel pages: it changes its page tables only.
    pub open spec fn mapped(
        self, phys_addr: u64, virt_addr: u64, size: u64, flags: u8, skip_map: bool,
    ) -> (Space, Result<(), KError>) {
        let whole = util::align_up_spec(size as int, 4096);
        let op = PageOp::MapPages { virt_addr, phys_addr, size: whole as u64, flags };
        let is_user = flags & USER != 0;
        if phys_addr % 4096 != 0 || virt_addr % 4096 != 0 {
            (self, Err(KError::InvalidArgument))
        } else if self.proc_id != 0 && !is_user {
            (Space { ops: self.ops.push(op), ..self }, Ok(()))
        } else {
            match find_holder(self.alloc, 0, virt_addr as int, whole, true) {
                Some(i) => (
                    Space {
                        alloc: carved(self.alloc, i, virt_addr as int, whole).push(
                            PageDescriptor {
                                num_pages: (whole / 4096) as u64,
                                start_phy_address: phys_addr,
                                start_virt_address: virt_addr,
                                flags,
                                is_mapped: true,
                            },
                        ),
                        ops: if skip_map { self.ops } else { self.ops.push(op) },
                        ..self
                    },
                    Ok(()),
                ),
                None => (self, Err(KError::InvalidArgument)),
            }
        }
    }

    /// The outcome of unmapping a mapped block; it stays set aside. Gives the physical address.
    pub open spec fn unmapped(
        self, virt_addr: u64, size: u64, is_user: bool, skip_map: bool,
    ) -> (Space, Result<u64, KError>) {
        let whole = util::align_up_spec(size as int, 4096);
        let op = PageOp::UnmapPages { virt_addr, size: whole as u64 };
        if virt_addr % 4096 != 0 {
            (self, Err(KError::InvalidArgument))
        } else if self.proc_id != 0 && !is_user {
            (Space { ops: self.ops.push(op), ..self }, Ok(0))
        } else {
            match find_mapped(self.alloc, 0, virt_addr, whole / 4096) {
                Some(i) => (
                    Space {
                        alloc: self.alloc.update(
                            i, PageDescriptor { is_mapped: false, start_phy_address: 0, ..self.alloc[i] }),
                        ops: if skip_map { self.ops } else { self.ops.push(op) },
                        ..self
                    },
                    Ok(self.alloc[i].start_phy_address),
                ),
                None => (self, Err(KError::InvalidArgument)),
            }
        }
    }
}

impl VirtMemConBlk {
    /// The kernel's address space as it is before anything has been handed out.
    pub fn new(proc_id: u64) -> (r: VirtMemConBlk)
        ensures
            r@.well_formed(),
            r@ == (Space {
                total: 0x0000_ff7f_ffff_f000,
                avl: 0x0000_ff7f_ffff_f000,
                free: seq![
                    virt_block(4096, 0x7_ffff_ffff, 0),
                    virt_block(KERNEL_HALF_OFFSET as int, 0x7_f800_0000, 0),
                ],
                alloc: Seq::empty(),
                proc_id,
                ops: Seq::empty(),
            }),
    {
        let total: u64 = PAGE_TABLE_RAW - PAGE_SIZE;
        let user: u64 = ceil_div(KERNEL_HALF_OFFSET_RAW - PAGE_SIZE, PAGE_SIZE);
        let kernel: u64 = ceil_div(PAGE_TABLE_RAW - KERNEL_HALF_OFFSET_RAW, PAGE_SIZE);
        let mut free: Vec<PageDescriptor> = Vec::new();
        free.push(PageDescriptor {
            num_pages: user,
            start_phy_address: 0,
            start_virt_address: PAGE_SIZE,
            flags: 0,
            is_mapped: false,
        });
        free.push(PageDescriptor {
            num_pages: kernel,
            start_phy_address: 0,
            start_virt_address: KERNEL_HALF_OFFSET,
            flags: 0,
            is_mapped: false,
        });
        proof {
            let f0 = Seq::<PageDescriptor>::empty();
            block::lemma_pages_push(f0, free@[0]);
            block::lemma_pages_push(f0.push(free@[0]), free@[1]);
            assert(free@ =~= f0.push(free@[0]).push(free@[1]));
            assert(block::pages_in(f0) == 0);
        }
        VirtMemConBlk {
            total_memory: total,
            avl_memory: total,
            free_block_list: free,
            alloc_block_list: Vec::new(),
            proc_id,
            page_ops: Vec::new(),
        }
    }

    fn find_best_fit(&self, pages: u64, is_user: bool) -> (r: Option<usize>)
        requires
            self@.well_formed(),
        ensures
            match r {
                Some(b) => self@.choice(pages as int, is_user) == Some(b as int) && b < self.free_block_list@.len(),
                None => self@.choice(pages as int, is_user) is None,
            },
    {
        let ghost f0 = self.free_block_list@;
        let mut best: Option<usize> = None;
        let mut i: usize = 0;
        while i < self.free_block_list.len()
            invariant
                i <= self.free_block_list@.len(),
                f0 == self.free_block_list@,
                match best {
                    Some(b) => b < i && best_fit(f0, i as nat, pages as int, is_user) == Some(b as int),
                    None => best_fit(f0, i as nat, pages as int, is_user) is None,
                },
            decreases self.free_block_list@.len() - i,
        {
            let blk: PageDescriptor = self.free_block_list[i];
            if blk.num_pages >= pages && ((is_user && blk.start_virt_address < KERNEL_HALF_OFFSET)
                || (!is_user && blk.start_virt_address >= KERNEL_HALF_OFFSET)) {
                match best {
                    Some(b) => {
                        if blk.num_pages < self.free_block_list[b].num_pages {
                            best = Some(i);
                        }
                    },
                    None => { best = Some(i); },
                }
            }
            i = i + 1;
        }
        best
    }

    /// Puts pages back on the free list, joined with what borders on them; kernel and user pages are
    /// never joined.
    fn coalesce_block(&mut self, addr: u64, pages: u64)
        requires
            forall|i: int| 0 <= i < old(self).free_block_list@.len()
                ==> (#[trigger] old(self).free_block_list@[i]).virt_end() <= u64::MAX,
            addr + 4096 * pages <= u64::MAX,
        ensures
            final(self)@ == (Space { free: given_back(old(self)@.free, addr as int, pages as int), ..old(self)@ }),
    {
        let ghost s0 = self.free_block_list@;
        match border_index(&self.free_block_list, addr, pages) {
            None => {
                self.free_block_list.push(PageDescriptor {
                    num_pages: pages,
                    start_phy_address: 0,
                    start_virt_address: addr,
                    flags: 0,
                    is_mapped: false,
                });
            },
            Some(i) => {
                let b: PageDescriptor = self.free_block_list[i];
                assert(s0[i as int].virt_end() <= u64::MAX);
                proof {
                    lemma_border_found(s0, 0, addr as int, pages as int);
                }
                let start: u64 = if b.start_virt_address + 4096 * b.num_pages == addr && addr != KERNEL_HALF_OFFSET {
                    b.start_virt_address
                } else {
                    b.start_virt_address - 4096 * pages
                };
                let num: u64 = b.num_pages + pages;
                self.free_block_list.set(i, PageDescriptor {
                    num_pages: num,
                    start_phy_address: b.start_phy_address,
                    start_virt_address: start,
                    flags: b.flags,
                    is_mapped: b.is_mapped,
                });
                let ghost s1 = self.free_block_list@;
                assert(s1 =~= s0.update(i as int, joined(s0[i as int], addr as int, pages as int)));
                if let Some(j) = border_index(&self.free_block_list, start, num) {
                    let c: PageDescriptor = self.free_block_list[j];
                    proof {
                        lemma_border_found(s1, 0, start as int, num as int);
                        if j != i {
                            assert(s0[j as int].virt_end() <= u64::MAX);
                        }
                    }
                    self.free_block_list.set(j, PageDescriptor {
                        num_pages: c.num_pages + num,
                        start_phy_address: c.start_phy_address,
                        start_virt_address: if start <= c.start_virt_address { start } else { c.start_virt_address },
                        flags: c.flags,
                        is_mapped: c.is_mapped,
                    });
                    let _ = self.free_block_list.remove(i);
                }
            },
        }
    }
}

fn border_index(s: &Vec<PageDescriptor>, addr: u64, pages: u64) -> (r: Option<usize>)
    requires
        forall|i: int| 0 <= i < s@.len() ==> (#[trigger] s@[i]).virt_end() <= u64::MAX,
        addr + 4096 * pages <= u64::MAX,
    ensures
        match r {
            Some(k) => find_border(s@, 0, addr as int, pages as int) == Some(k as int) && k < s@.len(),
            None => find_border(s@, 0, addr as int, pages as int) is None,
        },
{
    let mut i: usize = 0;
    while i < s.len()
        invariant
            i <= s@.len(),
            forall|i: int| 0 <= i < s@.len() ==> (#[trigger] s@[i]).virt_end() <= u64::MAX,
            addr + 4096 * pages <= u64::MAX,
            find_border(s@, 0, addr as int, pages as int) == find_border(s@, i as int, addr as int, pages as int),
        decreases s@.len() - i,
    {
        assert(s@[i as int].virt_end() <= u64::MAX);
        let b: PageDescriptor = s[i];
        if (b.start_virt_address + 4096 * b.num_pages == addr && addr != KERNEL_HALF_OFFSET)
            || (addr + 4096 * pages == b.start_virt_address && b.start_virt_address != KERNEL_HALF_OFFSET) {
            return Some(i);
        }
        i = i + 1;
    }
    None
}

proof fn lemma_exact_found(s: Seq<PageDescriptor>, i: int, addr: u64, pages: int)
    requires
        0 <= i,
    ensures
        find_exact(s, i, addr, pages) matches Some(k) ==>
            i <= k < s.len() && s[k].start_virt_address == addr && s[k].num_pages == pages,
    decreases s.len() - i,
{
    if i < s.len() {
        lemma_exact_found(s, i + 1, addr, pages);
    }
}

proof fn lemma_holder_found(s: Seq<PageDescriptor>, i: int, addr: int, size: int, unmapped: bool)
    requires
        0 <= i,
    ensures
        find_holder(s, i, addr, size, unmapped) matches Some(k) ==> i <= k < s.len()
            && s[k].start_virt_address <= addr && addr + size <= s[k].virt_end() && !(unmapped && s[k].is_mapped),
    decreases s.len() - i,
{
    if i < s.len() {
        lemma_holder_found(s, i + 1, addr, size, unmapped);
    }
}

proof fn lemma_mapped_found(s: Seq<PageDescriptor>, i: int, addr: u64, pages: int)
    requires
        0 <= i,
    ensures
        find_mapped(s, i, addr, pages) matches Some(k) ==>
            i <= k < s.len() && s[k].start_virt_address == addr && s[k].num_pages == pages && s[k].is_mapped,
    decreases s.len() - i,
{
    if i < s.len() {
        lemma_mapped_found(s, i + 1, addr, pages);
    }
}

/// Adding a block that is apart from all others keeps the lists sound.
proof fn lemma_push_sound(f: Seq<PageDescriptor>, a: Seq<PageDescriptor>, d: PageDescriptor)
    requires
        sound(f, a),
        placed(d),
        forall|i: int| 0 <= i < f.len() ==> apart(#[trigger] f[i], d),
        forall|i: int| 0 <= i < a.len() ==> apart(#[trigger] a[i], d),
    ensures
        sound(f, a.push(d)),
        !d.is_mapped ==> sound(f.push(d), a),
{
    let a1 = a.push(d);
    let f1 = f.push(d);
    assert forall|i: int, j: int| 0 <= i < j < a1.len() implies apart(#[trigger] a1[i], #[trigger] a1[j]) by {
        if j == a.len() {
            assert(apart(a[i], d));
        }
    }
    assert forall|i: int, j: int| 0 <= i < j < f1.len() implies apart(#[trigger] f1[i], #[trigger] f1[j]) by {
        if j == f.len() {
            assert(apart(f[i], d));
        }
    }
    assert forall|i: int, j: int| 0 <= i < f.len() && 0 <= j < a1.len() implies apart(
        #[trigger] f[i], #[trigger] a1[j]) by {
        if j == a.len() {
            assert(apart(f[i], d));
        }
    }
    assert forall|i: int, j: int| 0 <= i < f1.len() && 0 <= j < a.len() implies apart(
        #[trigger] f1[i], #[trigger] a[j]) by {
        if i == f.len() {
            assert(apart(a[j], d));
        }
    }
}

/// The pieces that a block falls into when page-aligned bytes are cut out of it.
proof fn lemma_pieces(d: PageDescriptor, addr: int, size: int)
    requires
        placed(d),
        addr % 4096 == 0,
        size % 4096 == 0,
        0 <= size,
        d.start_virt_address <= addr,
        addr + size <= d.virt_end(),
    ensures
        placed(top_of(d, addr)),
        placed(bottom_of(d, addr, size)),
        top_of(d, addr).start_virt_address == d.start_virt_address,
        top_of(d, addr).virt_end() == addr,
        bottom_of(d, addr, size).start_virt_address == addr + size,
        bottom_of(d, addr, size).virt_end() == d.virt_end(),
        top_of(d, addr).num_pages + size / 4096 + bottom_of(d, addr, size).num_pages == d.num_pages,
{
    let t = addr - d.start_virt_address;
    assert(t % 4096 == 0);
    let b = 4096 * d.num_pages - ((addr + size) - d.start_virt_address);
    assert(b % 4096 == 0);
}

/// Cutting bytes out of a free block and handing them out keeps the lists sound.
proof fn lemma_reserve_sound(f: Seq<PageDescriptor>, a: Seq<PageDescriptor>, i: int, addr: int, size: int)
    requires
        sound(f, a),
        0 <= i < f.len(),
        addr % 4096 == 0,
        size % 4096 == 0,
        0 <= size,
        f[i].start_virt_address <= addr,
        addr + size <= f[i].virt_end(),
    ensures
        sound(carved(f, i, addr, size), a.push(virt_block(addr, size / 4096, 0))),
        block::pages_in(carved(f, i, addr, size)) == block::pages_in(f) - size / 4096,
{
    let d = f[i];
    assert(placed(d));
    lemma_pieces(d, addr, size);
    let m = virt_block(addr, size / 4096, 0);
    let t = top_of(d, addr);
    let b = bottom_of(d, addr, size);
    let f0 = f.remove(i);
    block::lemma_pages_remove(f, i);
    assert(forall|k: int| 0 <= k < f0.len() ==> #[trigger] f0[k] == (if k < i { f[k] } else { f[k + 1] }));
    assert(sound(f0, a));
    assert forall|k: int| 0 <= k < f0.len() implies apart(#[trigger] f0[k], d) by {
        let k0 = if k < i { k } else { k + 1 };
        assert(apart(f[k0], f[i]) || apart(f[i], f[k0]));
    }
    assert forall|k: int| 0 <= k < a.len() implies apart(#[trigger] a[k], d) by {
        assert(apart(f[i], a[k]));
    }
    lemma_push_sound(f0, a, m);
    let a1 = a.push(m);
    let f1 = push_nonempty(f0, t);
    block::lemma_pages_push(f0, t);
    if t.num_pages != 0 {
        lemma_push_sound(f0, a1, t);
    }
    let f2 = push_nonempty(f1, b);
    block::lemma_pages_push(f1, b);
    if b.num_pages != 0 {
        lemma_push_sound(f1, a1, b);
    }
}

/// Mapping part of a handed-out block keeps the lists sound.
proof fn lemma_map_sound(f: Seq<PageDescriptor>, a: Seq<PageDescriptor>, i: int, m: PageDescriptor)
    requires
        sound(f, a),
        0 <= i < a.len(),
        placed(m),
        a[i].start_virt_address <= m.start_virt_address,
        m.virt_end() <= a[i].virt_end(),
    ensures
        sound(f, carved(a, i, m.start_virt_address as int, 4096 * m.num_pages).push(m)),
        block::pages_in(carved(a, i, m.start_virt_address as int, 4096 * m.num_pages).push(m)) == block::pages_in(a),
{
    let addr = m.start_virt_address as int;
    let size = 4096 * m.num_pages;
    let d = a[i];
    assert(placed(d));
    lemma_pieces(d, addr, size);
    let t = top_of(d, addr);
    let b = bottom_of(d, addr, size);
    let a0 = a.remove(i);
    block::lemma_pages_remove(a, i);
    assert(forall|k: int| 0 <= k < a0.len() ==> #[trigger] a0[k] == (if k < i { a[k] } else { a[k + 1] }));
    assert(sound(f, a0));
    assert forall|k: int| 0 <= k < a0.len() implies apart(#[trigger] a0[k], d) by {
        let k0 = if k < i { k } else { k + 1 };
        assert(apart(a[k0], a[i]) || apart(a[i], a[k0]));
    }
    assert forall|k: int| 0 <= k < f.len() implies apart(#[trigger] f[k], d) by {
        assert(apart(f[k], a[i]));
    }
    let a1 = push_nonempty(a0, t);
    block::lemma_pages_push(a0, t);
    if t.num_pages != 0 {
        lemma_push_sound(f, a0, t);
    }
    let a2 = push_nonempty(a1, b);
    block::lemma_pages_push(a1, b);
    if b.num_pages != 0 {
        lemma_push_sound(f, a1, b);
    }
    lemma_push_sound(f, a2, m);
    block::lemma_pages_push(a2, m);
}

fn carve(s: &mut Vec<PageDescriptor>, i: usize, addr: u64, size: u64)
    requires
        i < old(s)@.len(),
        old(s)@[i as int].start_virt_address <= addr,
        addr + size <= old(s)@[i as int].virt_end() <= u64::MAX,
    ensures
        final(s)@ == carved(old(s)@, i as int, addr as int, size as int),
{
    let d: PageDescriptor = s.remove(i);
    let top: u64 = ceil_div(addr - d.start_virt_address, PAGE_SIZE);
    if top != 0 {
        s.push(PageDescriptor {
            num_pages: top,
            start_phy_address: 0,
            start_virt_address: d.start_virt_address,
            flags: 0,
            is_mapped: false,
        });
    }
    let bottom: u64 = ceil_div(d.num_pages * PAGE_SIZE - ((addr + size) - d.start_virt_address), PAGE_SIZE);
    if bottom != 0 {
        s.push(PageDescriptor {
            num_pages: bottom,
            start_phy_address: 0,
            start_virt_address: addr + size,
            flags: 0,
            is_mapped: false,
        });
    }
}

fn holder_index(s: &Vec<PageDescriptor>, addr: u64, size: u64, unmapped: bool) -> (r: Option<usize>)
    requires
        all_placed(s@),
        addr + size <= u64::MAX,
    ensures
        match r {
            Some(k) => find_holder(s@, 0, addr as int, size as int, unmapped) == Some(k as int),
            None => find_holder(s@, 0, addr as int, size as int, unmapped) is None,
        },
{
    let mut i: usize = 0;
    while i < s.len()
        invariant
            i <= s@.len(),
            all_placed(s@),
            addr + size <= u64::MAX,
            find_holder(s@, 0, addr as int, size as int, unmapped)
                == find_holder(s@, i as int, addr as int, size as int, unmapped),
        decreases s@.len() - i,
    {
        assert(placed(s@[i as int]));
        let b: PageDescriptor = s[i];
        if addr >= b.start_virt_address && addr + size <= b.start_virt_address + b.num_pages * PAGE_SIZE
            && !(unmapped && b.is_mapped) {
            return Some(i);
        }
        i = i + 1;
    }
    None
}

impl VirtMemConBlk {
    /// Finds a suitable block of address space and sets it aside.
    pub fn allocate(&mut self, size: u64, align: u64, is_user: bool) -> (r: Result<u64, KError>)
        requires
            old(self)@.well_formed(),
            !(old(self).proc_id == 0 && is_user) || size >= old(self).avl_memory || size > old(self).total_memory
                || align > 4096,
        ensures
            (final(self)@, r) == old(self)@.allocated(size, align, is_user),
            final(self)@.well_formed(),
    {
        if size >= self.avl_memory || size > self.total_memory {
            return Err(KError::OutOfMemory);
        }
        if align > PAGE_SIZE {
            return Err(KError::InvalidArgument);
        }
        let ghost f = self.free_block_list@;
        let ghost a = self.alloc_block_list@;
        let pages: u64 = ceil_div(size, PAGE_SIZE);
        let flags: u8 = if is_user { USER } else { 0 };
        match self.find_best_fit(pages, is_user) {
            None => Err(KError::OutOfMemory),
            Some(b) => {
                proof {
                    law_best_fit(f, f.len(), pages as int, is_user);
                    lemma_cut_sound(f, a, b as int, pages as int, flags);
                    assert(placed(f[b as int]));
                }
                let blk: PageDescriptor = self.free_block_list[b];
                let start: u64 = blk.start_virt_address;
                if blk.num_pages == pages {
                    let _ = self.free_block_list.remove(b);
                } else {
                    self.free_block_list.set(b, PageDescriptor {
                        num_pages: blk.num_pages - pages,
                        start_phy_address: blk.start_phy_address,
                        start_virt_address: start + pages * PAGE_SIZE,
                        flags: blk.flags,
                        is_mapped: blk.is_mapped,
                    });
                }
                assert(self.free_block_list@ =~= cut_front(f, b as int, pages as int));
                self.avl_memory = self.avl_memory - pages * PAGE_SIZE;
                self.alloc_block_list.push(PageDescriptor {
                    num_pages: pages,
                    start_phy_address: 0,
                    start_virt_address: start,
                    flags,
                    is_mapped: false,
                });
                Ok(start)
            },
        }
    }

    /// Gives address space back; it must not be mapped.
    pub fn deallocate(&mut self, addr: u64, size: u64, align: u64) -> (r: Result<(), KError>)
        requires
            old(self)@.well_formed(),
            old(self).avl_memory + 4096 * util::ceil_div_spec(size as int, 4096) <= u64::MAX,
        ensures
            (final(self)@, r) == old(self)@.deallocated(addr, size, align),
            final(self)@.well_formed(),
    {
        if align > PAGE_SIZE {
            return Err(KError::InvalidArgument);
        }
        let pages: u64 = ceil_div(size, PAGE_SIZE);
        let ghost f = self.free_block_list@;
        let ghost a = self.alloc_block_list@;
        let mut k: usize = 0;
        while k < self.alloc_block_list.len()
            && !(self.alloc_block_list[k].start_virt_address == addr && self.alloc_block_list[k].num_pages == pages)
            invariant
                k <= self.alloc_block_list@.len(),
                *self == *old(self),
                a == self.alloc_block_list@,
                find_exact(a, 0, addr, pages as int) == find_exact(a, k as int, addr, pages as int),
            decreases self.alloc_block_list@.len() - k,
        {
            k = k + 1;
        }
        if k >= self.alloc_block_list.len() {
            return Err(KError::InvalidArgument);
        }
        assert(find_exact(a, k as int, addr, pages as int) == Some(k as int));
        if self.alloc_block_list[k].is_mapped {
            return Err(KError::InvalidArgument);
        }
        let ghost a1 = a.remove(k as int);
        proof {
            let d = virt_block(addr as int, pages as int, 0);
            assert(placed(a[k as int]));
            assert(placed(d));
            assert(forall|x: int| 0 <= x < a1.len() ==> #[trigger] a1[x] == (if x < k { a[x] } else { a[x + 1] }));
            assert(sound(f, a1));
            assert forall|x: int, y: int| 0 <= x < a1.len() && 0 <= y < seq![d].len() implies apart(
                #[trigger] a1[x], #[trigger] seq![d][y]) by {
                let x0 = if x < k { x } else { x + 1 };
                assert(apart(a[x0], a[k as int]) || apart(a[k as int], a[x0]));
            }
            assert forall|x: int, y: int| 0 <= x < f.len() && 0 <= y < seq![d].len() implies apart(
                #[trigger] f[x], #[trigger] seq![d][y]) by {
                assert(apart(f[x], a[k as int]));
            }
            lemma_given_back_sound(f, a1, addr as int, pages as int);
            assert forall|i: int| 0 <= i < f.len() implies (#[trigger] f[i]).virt_end() <= u64::MAX by {
                assert(placed(f[i]));
            }
        }
        let _ = self.alloc_block_list.remove(k);
        self.coalesce_block(addr, pages);
        self.avl_memory = self.avl_memory + pages * PAGE_SIZE;
        Ok(())
    }

    /// Sets a given stretch of free address space aside, in whichever half it lies. This serves
    /// regions that keep their physical address as their virtual one.
    pub fn reserve_virtual_space(&mut self, virt_addr: u64, size: u64) -> (r: Result<(), KError>)
        requires
            old(self)@.well_formed(),
            virt_addr + util::align_up_spec(size as int, 4096) <= u64::MAX,
        ensures
            (final(self)@, r) == old(self)@.reserved(virt_addr, size),
            virt_addr % 4096 == 0 ==> final(self)@.well_formed(),
    {
        let whole: u64 = align_up(size, PAGE_SIZE);
        let ghost f = self.free_block_list@;
        match holder_index(&self.free_block_list, virt_addr, whole, false) {
            None => Err(KError::OutOfMemory),
            Some(i) => {
                proof {
                    lemma_holder_found(f, 0, virt_addr as int, whole as int, false);
                    assert(placed(f[i as int]));
                    if virt_addr % 4096 == 0 {
                        lemma_reserve_sound(f, self.alloc_block_list@, i as int, virt_addr as int, whole as int);
                    }
                }
                let pages: u64 = ceil_div(whole, PAGE_SIZE);
                carve(&mut self.free_block_list, i, virt_addr, whole);
                self.alloc_block_list.push(PageDescriptor {
                    num_pages: pages,
                    start_phy_address: 0,
                    start_virt_address: virt_addr,
                    flags: 0,
                    is_mapped: false,
                });
                Ok(())
            },
        }
    }

    /// Maps physical pages to address space that was set aside before and is not mapped.
    pub fn map_memory(&mut self, phys_addr: u64, virt_addr: u64, size: u64, flags: u8, skip_map: bool)
        -> (r: Result<(), KError>)
        requires
            old(self)@.well_formed(),
            virt_addr + util::align_up_spec(size as int, 4096) <= u64::MAX,
            phys_addr + util::align_up_spec(size as int, 4096) <= u64::MAX,
            !(old(self).proc_id == 0 && flags & USER != 0) || phys_addr % 4096 != 0 || virt_addr % 4096 != 0,
        ensures
            (final(self)@, r) == old(self)@.mapped(phys_addr, virt_addr, size, flags, skip_map),
            final(self)@.well_formed(),
    {
        let whole: u64 = align_up(size, PAGE_SIZE);
        if phys_addr % PAGE_SIZE != 0 || virt_addr % PAGE_SIZE != 0 {
            return Err(KError::InvalidArgument);
        }
        let op: PageOp = PageOp::MapPages { virt_addr, phys_addr, size: whole, flags };
        if self.proc_id != 0 && flags & USER == 0 {
            self.page_ops.push(op);
            return Ok(());
        }
        let ghost f = self.free_block_list@;
        let ghost a = self.alloc_block_list@;
        match holder_index(&self.alloc_block_list, virt_addr, whole, true) {
            None => Err(KError::InvalidArgument),
            Some(i) => {
                let pages: u64 = ceil_div(whole, PAGE_SIZE);
                let middle: PageDescriptor = PageDescriptor {
                    num_pages: pages,
                    start_phy_address: phys_addr,
                    start_virt_address: virt_addr,
                    flags,
                    is_mapped: true,
                };
                proof {
                    lemma_holder_found(a, 0, virt_addr as int, whole as int, true);
                    assert(placed(a[i as int]));
                    lemma_map_sound(f, a, i as int, middle);
                }
                carve(&mut self.alloc_block_list, i, virt_addr, whole);
                self.alloc_block_list.push(middle);
                if !skip_map {
                    self.page_ops.push(op);
                }
                Ok(())
            },
        }
    }

    /// Unmaps a mapped block; its address space stays set aside.
    pub fn unmap_memory(&mut self, virt_addr: u64, size: u64, is_user: bool, skip_map: bool)
        -> (r: Result<u64, KError>)
        requires
            old(self)@.well_formed(),
            util::align_up_spec(size as int, 4096) <= u64::MAX,
        ensures
            (final(self)@, r) == old(self)@.unmapped(virt_addr, size, is_user, skip_map),
            final(self)@.well_formed(),
    {
        let whole: u64 = align_up(size, PAGE_SIZE);
        let pages: u64 = ceil_div(whole, PAGE_SIZE);
        if virt_addr % PAGE_SIZE != 0 {
            return Err(KError::InvalidArgument);
        }
        let op: PageOp = PageOp::UnmapPages { virt_addr, size: whole };
        if self.proc_id != 0 && !is_user {
            self.page_ops.push(op);
            return Ok(0);
        }
        let ghost a = self.alloc_block_list@;
        let mut k: usize = 0;
        while k < self.alloc_block_list.len()
            && !(self.alloc_block_list[k].start_virt_address == virt_addr
                && self.alloc_block_list[k].num_pages == pages && self.alloc_block_list[k].is_mapped)
            invariant
                k <= self.alloc_block_list@.len(),
                *self == *old(self),
                a == self.alloc_block_list@,
                find_mapped(a, 0, virt_addr, pages as int) == find_mapped(a, k as int, virt_addr, pages as int),
            decreases self.alloc_block_list@.len() - k,
        {
            k = k + 1;
        }
        if k >= self.alloc_block_list.len() {
            return Err(KError::InvalidArgument);
        }
        assert(find_mapped(a, k as int, virt_addr, pages as int) == Some(k as int));
        let d: PageDescriptor = self.alloc_block_list[k];
        assert(placed(a[k as int]));
        self.alloc_block_list.set(k, PageDescriptor {
            num_pages: d.num_pages,
            start_phy_address: 0,
            start_virt_address: d.start_virt_address,
            flags: d.flags,
            is_mapped: false,
        });
        proof {
            let a1 = self.alloc_block_list@;
            assert(a1 =~= a.update(
                k as int, PageDescriptor { is_mapped: false, start_phy_address: 0, ..a[k as int] }));
            assert forall|i: int, j: int| 0 <= i < self.free_block_list@.len() && 0 <= j < a1.len() implies apart(
                #[trigger] self.free_block_list@[i], #[trigger] a1[j]) by {
                assert(apart(self.free_block_list@[i], a[j]));
            }
            assert forall|i: int, j: int| 0 <= i < j < a1.len() implies apart(#[trigger] a1[i], #[trigger] a1[j]) by {
                assert(apart(a[i], a[j]));
            }
        }
        if !skip_map {
            self.page_ops.push(op);
        }
        Ok(d.start_phy_address)
    }
}

/// The physical address that the first mapped block from `i` on gives for a virtual address.
pub open spec fn phys_of(s: Seq<PageDescriptor>, i: int, virt: int) -> Option<u64>
    decreases s.len() - i,
{
    if i < 0 || i >= s.len() {
        None
    } else if s[i].holds_virt(virt) && s[i].is_mapped {
        Some((s[i].start_phy_address + virt - s[i].start_virt_address) as u64)
    } else {
        phys_of(s, i + 1, virt)
    }
}

/// Virtual address `v` is mapped to physical address `p` by block `d`.
pub open spec fn maps(d: PageDescriptor, p: int, v: int) -> bool {
    d.is_mapped && d.holds_phys(p) && v == d.start_virt_address + (p - d.start_phy_address)
}

/// The better of two virtual addresses: for the kernel one in its half goes first, else the lower.
pub open spec fn preferred(a: u64, b: u64, fetch: MapFetchType) -> u64 {
    if fetch == MapFetchType::Kernel && (a >= KERNEL_HALF_OFFSET) != (b >= KERNEL_HALF_OFFSET) {
        if a >= KERNEL_HALF_OFFSET { a } else { b }
    } else if a <= b {
        a
    } else {
        b
    }
}

/// The best virtual address that the first `n` blocks give for a physical address.
pub open spec fn virt_of(s: Seq<PageDescriptor>, n: nat, phys: int, fetch: MapFetchType) -> Option<u64>
    decreases n,
{
    if n == 0 {
        None
    } else {
        let rest = virt_of(s, (n - 1) as nat, phys, fetch);
        let d = s[n - 1];
        if d.is_mapped && d.holds_phys(phys) {
            let v = (d.start_virt_address + (phys - d.start_phy_address)) as u64;
            match rest {
                None => Some(v),
                Some(w) => Some(preferred(w, v, fetch)),
            }
        } else {
            rest
        }
    }
}

impl VirtMemConBlk {
    /// The physical address behind a virtual one.
    pub fn get_phys_address(&self, virt_addr: u64) -> (r: Option<u64>)
        requires
            self@.well_formed(),
        ensures
            r == phys_of(self@.alloc, 0, virt_addr as int),
    {
        let mut i: usize = 0;
        while i < self.alloc_block_list.len()
            invariant
                i <= self.alloc_block_list@.len(),
                self@.well_formed(),
                phys_of(self@.alloc, 0, virt_addr as int) == phys_of(self@.alloc, i as int, virt_addr as int),
            decreases self.alloc_block_list@.len() - i,
        {
            assert(placed(self@.alloc[i as int]));
            let b: PageDescriptor = self.alloc_block_list[i];
            if b.start_virt_address <= virt_addr && b.start_virt_address + b.num_pages * PAGE_SIZE > virt_addr
                && b.is_mapped {
                return Some(b.start_phy_address + (virt_addr - b.start_virt_address));
            }
            i = i + 1;
        }
        None
    }

    /// A virtual address of a physical one.
    pub fn get_virt_address(&self, phys_addr: u64, fetch_type: MapFetchType) -> (r: Option<u64>)
        requires
            self@.well_formed(),
        ensures
            r == virt_of(self@.alloc, self@.alloc.len(), phys_addr as int, fetch_type),
    {
        let mut best: Option<u64> = None;
        let mut i: usize = 0;
        while i < self.alloc_block_list.len()
            invariant
                i <= self.alloc_block_list@.len(),
                self@.well_formed(),
                best == virt_of(self@.alloc, i as nat, phys_addr as int, fetch_type),
            decreases self.alloc_block_list@.len() - i,
        {
            assert(placed(self@.alloc[i as int]));
            let b: PageDescriptor = self.alloc_block_list[i];
            if b.is_mapped && b.start_phy_address <= phys_addr
                && b.start_phy_address + b.num_pages * PAGE_SIZE > phys_addr {
                let v: u64 = b.start_virt_address + (phys_addr - b.start_phy_address);
                best = match best {
                    None => Some(v),
                    Some(w) => {
                        let w_kernel: bool = w >= KERNEL_HALF_OFFSET;
                        let v_kernel: bool = v >= KERNEL_HALF_OFFSET;
                        if fetch_type == MapFetchType::Kernel && w_kernel != v_kernel {
                            if w_kernel { Some(w) } else { Some(v) }
                        } else if w <= v {
                            Some(w)
                        } else {
                            Some(v)
                        }
                    },
                };
            }
            i = i + 1;
        }
        best
    }
}

/// Some block maps `v` to `p`.
pub open spec fn some_maps(s: Seq<PageDescriptor>, n: int, p: int, v: int) -> bool {
    exists|k: int| 0 <= k < n && maps(#[trigger] s[k], p, v)
}

/// A physical address is looked up under one of its virtual addresses. Asked for any, that is the
/// lowest; asked for the kernel's, it is the lowest of those in the kernel's half if there are any,
/// and the lowest of all otherwise. Nothing is found only if there is none.
pub proof fn law_virtual_address(s: Seq<PageDescriptor>, n: nat, phys: int, fetch: MapFetchType)
    requires
        n <= s.len(),
        all_placed(s),
    ensures
        match virt_of(s, n, phys, fetch) {
            None => forall|v: int| !#[trigger] some_maps(s, n as int, phys, v),
            Some(w) => {
                &&& some_maps(s, n as int, phys, w as int)
                &&& fetch == MapFetchType::Any ==> forall|v: int| #[trigger] some_maps(s, n as int, phys, v) ==> w <= v
                &&& fetch == MapFetchType::Kernel && w >= KERNEL_HALF_OFFSET ==> forall|v: int|
                    #[trigger] some_maps(s, n as int, phys, v) && v >= KERNEL_HALF_OFFSET ==> w <= v
                &&& fetch == MapFetchType::Kernel && w < KERNEL_HALF_OFFSET ==> forall|v: int|
                    #[trigger] some_maps(s, n as int, phys, v) ==> v < KERNEL_HALF_OFFSET && w <= v
            },
        },
    decreases n,
{
    if n > 0 {
        law_virtual_address(s, (n - 1) as nat, phys, fetch);
        let d = s[n - 1];
        assert(placed(d));
        let m = n - 1;
        assert forall|v: int| #[trigger] some_maps(s, n as int, phys, v) implies some_maps(s, m, phys, v)
            || maps(d, phys, v) by {
            let k = choose|k: int| 0 <= k < n && maps(#[trigger] s[k], phys, v);
            if k < n - 1 {
                assert(maps(s[k], phys, v));
            }
        }
        assert forall|v: int| #[trigger] some_maps(s, m, phys, v) implies some_maps(s, n as int, phys, v) by {
            let k = choose|k: int| 0 <= k < n - 1 && maps(#[trigger] s[k], phys, v);
            assert(maps(s[k], phys, v));
        }
        let rest = virt_of(s, (n - 1) as nat, phys, fetch);
        if d.is_mapped && d.holds_phys(phys) {
            let v = d.start_virt_address + (phys - d.start_phy_address);
            assert(maps(s[n - 1], phys, v));
            assert(some_maps(s, n as int, phys, v));
            assert forall|x: int| maps(d, phys, x) implies x == v by {}
            if let Some(w) = rest {
                assert(some_maps(s, n as int, phys, w as int));
            }
        } else {
            assert forall|x: int| !maps(d, phys, x) by {}
            if let Some(w) = rest {
                assert(some_maps(s, n as int, phys, w as int));
            }
        }
    }
}

proof fn lemma_phys_of(s: Seq<PageDescriptor>, i: int, k: int, virt: int)
    requires
        0 <= i <= k < s.len(),
        all_apart(s),
        s[k].is_mapped,
        s[k].holds_virt(virt),
    ensures
        phys_of(s, i, virt) == Some((s[k].start_phy_address + virt - s[k].start_virt_address) as u64),
    decreases k - i,
{
    if i < k {
        assert(apart(s[i], s[k]));
        lemma_phys_of(s, i + 1, k, virt);
    }
}

/// Once pages are mapped, every address in them, up to the end of the last one, leads to the physical
/// address mapped to it.
pub proof fn law_map_then_look_up(v: Space, phys: u64, virt: u64, size: u64, flags: u8, skip: bool, at: int)
    requires
        v.mapped(phys, virt, size, flags, skip).1 is Ok,
        v.mapped(phys, virt, size, flags, skip).0.well_formed(),
        v.proc_id == 0 || flags & USER != 0,
        0 <= at < util::align_up_spec(size as int, 4096),
        virt + util::align_up_spec(size as int, 4096) <= u64::MAX,
    ensures
        phys_of(v.mapped(phys, virt, size, flags, skip).0.alloc, 0, virt + at) == Some((phys + at) as u64),
{
    let w = v.mapped(phys, virt, size, flags, skip).0;
    let k = w.alloc.len() - 1;
    assert(w.alloc[k].holds_virt(virt + at));
    lemma_phys_of(w.alloc, 0, k, virt + at);
}

/// Mapping pages and unmapping them gives the physical address back, and leaves the same address
/// space free.
pub proof fn law_map_then_unmap(v: Space, phys: u64, virt: u64, size: u64, flags: u8, skip: bool)
    requires
        v.well_formed(),
        v.mapped(phys, virt, size, flags, skip).1 is Ok,
        v.mapped(phys, virt, size, flags, skip).0.well_formed(),
        v.proc_id == 0 || flags & USER != 0,
        size > 0,
        virt + util::align_up_spec(size as int, 4096) <= u64::MAX,
    ensures
        ({
            let w = v.mapped(phys, virt, size, flags, skip).0;
            &&& w.free == v.free && w.avl == v.avl
            &&& w.unmapped(virt, size, flags & USER != 0, skip).1 == Ok::<u64, KError>(phys)
            &&& w.unmapped(virt, size, flags & USER != 0, skip).0.free == v.free
        }),
{
    let w = v.mapped(phys, virt, size, flags, skip).0;
    let whole = util::align_up_spec(size as int, 4096);
    let k = w.alloc.len() - 1;
    let m = w.alloc[k];
    assert(whole % 4096 == 0);
    lemma_find_mapped_unique(w.alloc, 0, k);
}

proof fn lemma_find_mapped_unique(s: Seq<PageDescriptor>, i: int, k: int)
    requires
        0 <= i <= k < s.len(),
        all_apart(s),
        s[k].is_mapped,
        s[k].num_pages > 0,
    ensures
        find_mapped(s, i, s[k].start_virt_address, s[k].num_pages as int) == Some(k),
    decreases k - i,
{
    if i < k {
        assert(apart(s[i], s[k]));
        lemma_find_mapped_unique(s, i + 1, k);
    }
}

/// A request is served from the half it asks for: user requests below the kernel's half, kernel
/// requests inside it; and nothing else holds any of the pages.
pub proof fn law_allocated_in_half(v: Space, size: u64, align: u64, is_user: bool, page: int)
    requires
        v.well_formed(),
        v.allocated(size, align, is_user).1 is Ok,
        virt_block(
            v.allocated(size, align, is_user).1->Ok_0 as int, util::ceil_div_spec(size as int, 4096), 0).holds_virt(page),
    ensures
        is_user ==> page < KERNEL_HALF_OFFSET,
        !is_user ==> page >= KERNEL_HALF_OFFSET,
        forall|k: int| 0 <= k < v.alloc.len() ==> !(#[trigger] v.alloc[k]).holds_virt(page),
{
    let pages = util::ceil_div_spec(size as int, 4096);
    law_best_fit(v.free, v.free.len(), pages, is_user);
    let i = v.choice(pages, is_user)->0;
    assert(placed(v.free[i]));
    assert forall|k: int| 0 <= k < v.alloc.len() implies !(#[trigger] v.alloc[k]).holds_virt(page) by {
        assert(apart(v.free[i], v.alloc[k]));
    }
}

/// Address space that has been handed out and not mapped can be given back, and then as many pages
/// are free, and as many bytes available, as before.
pub proof fn law_allocate_then_deallocate(v: Space, size: u64, align: u64, is_user: bool)
    requires
        v.well_formed(),
        size > 0,
        v.allocated(size, align, is_user).1 is Ok,
    ensures
        ({
            let (w, r) = v.allocated(size, align, is_user);
            let (u, back) = w.deallocated(r->Ok_0, size, align);
            &&& back is Ok
            &&& u.alloc == v.alloc
            &&& u.avl == v.avl
            &&& block::pages_in(u.free) == block::pages_in(v.free)
        }),
{
    let pages = util::ceil_div_spec(size as int, 4096);
    let (w, r) = v.allocated(size, align, is_user);
    law_best_fit(v.free, v.free.len(), pages, is_user);
    let i = v.choice(pages, is_user)->0;
    let start = v.free[i].start_virt_address;
    let flags = if is_user { USER } else { 0 };
    let d = virt_block(start as int, pages, flags);
    let d0 = virt_block(start as int, pages, 0);
    assert(placed(v.free[i]));
    lemma_cut_sound(v.free, v.alloc, i, pages, flags);
    let n = v.alloc.len() as int;
    assert(w.alloc[n] == d);
    lemma_find_exact_unique(w.alloc, 0, n);
    assert(w.alloc.remove(n) =~= v.alloc);
    assert forall|x: int, y: int| 0 <= x < w.free.len() && 0 <= y < seq![d0].len() implies apart(
        #[trigger] w.free[x], #[trigger] seq![d0][y]) by {
        assert(apart(w.free[x], w.alloc[n]));
    }
    assert forall|x: int, y: int| 0 <= x < v.alloc.len() && 0 <= y < seq![d0].len() implies apart(
        #[trigger] v.alloc[x], #[trigger] seq![d0][y]) by {
        assert(w.alloc[x] == v.alloc[x]);
        assert(apart(w.alloc[x], w.alloc[n]));
    }
    assert(sound(w.free, v.alloc)) by {
        assert forall|x: int, y: int| 0 <= x < w.free.len() && 0 <= y < v.alloc.len() implies apart(
            #[trigger] w.free[x], #[trigger] v.alloc[y]) by {
            assert(w.alloc[y] == v.alloc[y]);
            assert(apart(w.free[x], w.alloc[y]));
        }
    }
    lemma_given_back_sound(w.free, v.alloc, start as int, pages);
}

proof fn lemma_holder_unique(s: Seq<PageDescriptor>, i: int, k: int, size: int)
    requires
        0 <= i <= k < s.len(),
        all_apart(s),
        !s[k].is_mapped,
        0 < size <= 4096 * s[k].num_pages,
    ensures
        find_holder(s, i, s[k].start_virt_address as int, size, true) == Some(k),
    decreases k - i,
{
    if i < k {
        assert(apart(s[i], s[k]));
        lemma_holder_unique(s, i + 1, k, size);
    }
}

proof fn lemma_apart_like(s: Seq<PageDescriptor>, d: PageDescriptor, e: PageDescriptor)
    requires
        all_apart(s.push(d)),
        e.start_virt_address == d.start_virt_address,
        e.num_pages == d.num_pages,
    ensures
        all_apart(s.push(e)),
{
    let t = s.push(d);
    let u = s.push(e);
    assert forall|i: int, j: int| 0 <= i < j < u.len() implies apart(#[trigger] u[i], #[trigger] u[j]) by {
        assert(apart(t[i], t[j]));
    }
}

/// Address space that has been handed out can be mapped, unmapped again, which gives the physical
/// address back, and given back. Then as many pages are free, and as many bytes available, as before.
pub proof fn law_allocate_map_and_give_back(v: Space, size: u64, align: u64, phys: u64, flags: u8, skip: bool)
    requires
        v.well_formed(),
        size > 0,
        phys % 4096 == 0,
        v.proc_id == 0 || flags & USER != 0,
        v.allocated(size, align, flags & USER != 0).1 is Ok,
    ensures
        ({
            let is_user = flags & USER != 0;
            let (w, r) = v.allocated(size, align, is_user);
            let (x, mapped) = w.mapped(phys, r->Ok_0, size, flags, skip);
            let (y, unmapped) = x.unmapped(r->Ok_0, size, is_user, skip);
            let (z, back) = y.deallocated(r->Ok_0, size, align);
            &&& mapped is Ok
            &&& unmapped == Ok::<u64, KError>(phys)
            &&& back is Ok
            &&& z.alloc == v.alloc
            &&& z.avl == v.avl
            &&& block::pages_in(z.free) == block::pages_in(v.free)
        }),
{
    let is_user = flags & USER != 0;
    let pages = util::ceil_div_spec(size as int, 4096);
    let whole = util::align_up_spec(size as int, 4096);
    assert(whole == 4096 * pages);
    let (w, r) = v.allocated(size, align, is_user);
    law_allocate_then_deallocate(v, size, align, is_user);
    law_best_fit(v.free, v.free.len(), pages, is_user);
    let i = v.choice(pages, is_user)->0;
    let start = v.free[i].start_virt_address;
    assert(placed(v.free[i]));
    let d = virt_block(start as int, pages, if is_user { USER } else { 0 });
    lemma_cut_sound(v.free, v.alloc, i, pages, d.flags);
    let n = v.alloc.len() as int;
    assert(w.alloc[n] == d);
    lemma_holder_unique(w.alloc, 0, n, whole);
    assert(w.alloc.remove(n) =~= v.alloc);
    assert(carved(w.alloc, n, start as int, whole) == v.alloc);
    let m = PageDescriptor {
        num_pages: (whole / 4096) as u64,
        start_phy_address: phys,
        start_virt_address: start,
        flags,
        is_mapped: true,
    };
    let x = w.mapped(phys, start, size, flags, skip).0;
    assert(x.alloc == v.alloc.push(m));
    lemma_apart_like(v.alloc, d, m);
    assert(x.alloc[n] == m);
    lemma_find_mapped_unique(x.alloc, 0, n);
    let y = x.unmapped(start, size, is_user, skip).0;
    let e = PageDescriptor { is_mapped: false, start_phy_address: 0, ..m };
    assert(y.alloc =~= v.alloc.push(e));
    lemma_apart_like(v.alloc, d, e);
    assert(y.alloc[n] == e);
    lemma_find_exact_unique(y.alloc, 0, n);
    assert(y.alloc.remove(n) =~= v.alloc);
    lemma_find_exact_unique(w.alloc, 0, n);
}

pub proof fn lemma_find_exact_unique(s: Seq<PageDescriptor>, i: int, k: int)
    requires
        0 <= i <= k < s.len(),
        all_apart(s),
        s[k].num_pages > 0,
    ensures
        find_exact(s, i, s[k].start_virt_address, s[k].num_pages as int) == Some(k),
    decreases k - i,
{
    if i < k {
        assert(apart(s[i], s[k]));
        lemma_find_exact_unique(s, i + 1, k);
    }
}

/// The block is mapped for user code and holds the address.
pub open spec fn user_holds(d: PageDescriptor, at: int) -> bool {
    d.is_mapped && d.flags & USER != 0 && d.holds_virt(at)
}

/// Where one walk over the first `n` blocks takes a pointer that starts at `at`: every user block
/// that holds the pointer moves it on by the block's length.
pub open spec fn walked(s: Seq<PageDescriptor>, n: nat, at: int) -> int
    decreases n,
{
    if n == 0 {
        at
    } else {
        let p = walked(s, (n - 1) as nat, at);
        if user_holds(s[n - 1], p) { p + 4096 * s[n - 1].num_pages } else { p }
    }
}

/// Whether walks over the blocks, repeated as long as they move the pointer, take it from `at` to
/// `end` or beyond.
pub open spec fn range_covered(s: Seq<PageDescriptor>, at: int, end: int) -> bool
    decreases end - at,
{
    if at >= end {
        true
    } else {
        let p = walked(s, s.len(), at);
        if p <= at { false } else if p >= end { true } else { range_covered(s, p, end) }
    }
}

proof fn lemma_walked_grows(s: Seq<PageDescriptor>, n: nat, at: int)
    ensures
        walked(s, n, at) >= at,
    decreases n,
{
    if n > 0 {
        lemma_walked_grows(s, (n - 1) as nat, at);
    }
}

impl VirtMemConBlk {
    /// Checks that user code may use the `size` bytes at `virt_addr`.
    pub fn check_user_range_locked(&self, virt_addr: u64, size: u64) -> (r: bool)
        requires
            self@.well_formed(),
            virt_addr + size <= u64::MAX,
        ensures
            r == range_covered(self@.alloc, virt_addr as int, virt_addr + size),
    {
        let ghost s = self.alloc_block_list@;
        let end: u128 = virt_addr as u128 + size as u128;
        let mut cur: u128 = virt_addr as u128;
        while cur < end
            invariant
                self@.well_formed(),
                s == self.alloc_block_list@,
                end == virt_addr + size,
                end <= u64::MAX,
                range_covered(s, virt_addr as int, end as int) == range_covered(s, cur as int, end as int),
            decreases end - cur,
        {
            let start: u128 = cur;
            let mut i: usize = 0;
            while i < self.alloc_block_list.len()
                invariant
                    i <= s.len(),
                    self@.well_formed(),
                    s == self.alloc_block_list@,
                    start <= cur,
                    start < end <= u64::MAX,
                    cur == walked(s, i as nat, start as int),
                    cur <= 0x2_0000_0000_0000_0000,
                decreases s.len() - i,
            {
                let b: PageDescriptor = self.alloc_block_list[i];
                assert(placed(s[i as int]));
                let lo: u128 = b.start_virt_address as u128;
                let hi: u128 = lo + b.num_pages as u128 * 4096;
                if b.is_mapped && b.flags & USER != 0 && cur >= lo && cur < hi {
                    cur = cur + b.num_pages as u128 * 4096;
                }
                i = i + 1;
            }
            if cur == start {
                return false;
            }
            if cur >= end {
                return true;
            }
        }
        true
    }

    /// Whether user memory may be read from or written to: an empty range always may.
    pub fn user_access(&self, addr: u64, len: u64) -> (r: Result<(), KError>)
        requires
            self@.well_formed(),
            addr + len <= u64::MAX,
        ensures
            r == (if len == 0 || range_covered(self@.alloc, addr as int, addr + len) {
                Ok(())
            } else {
                Err(KError::InvalidArgument)
            }),
    {
        if len == 0 || self.check_user_range_locked(addr, len) { Ok(()) } else { Err(KError::InvalidArgument) }
    }
}

/// The blocks of the first `n` that lie below the kernel's half.
pub open spec fn user_blocks(s: Seq<PageDescriptor>, n: nat) -> Seq<PageDescriptor>
    decreases n,
{
    if n == 0 {
        Seq::empty()
    } else {
        let rest = user_blocks(s, (n - 1) as nat);
        if s[n - 1].start_virt_address < KERNEL_HALF_OFFSET { rest.push(s[n - 1]) } else { rest }
    }
}

/// The mappings of the first `n` blocks that lie below the kernel's half.
pub open spec fn low_mappings(s: Seq<PageDescriptor>, n: nat) -> Seq<PageOp>
    decreases n,
{
    if n == 0 {
        Seq::empty()
    } else {
        let rest = low_mappings(s, (n - 1) as nat);
        let d = s[n - 1];
        if d.is_mapped && d.start_virt_address < KERNEL_HALF_OFFSET {
            rest.push(PageOp::MapPages {
                virt_addr: d.start_virt_address,
                phys_addr: d.start_phy_address,
                size: (4096 * d.num_pages) as u64,
                flags: d.flags,
            })
        } else {
            rest
        }
    }
}

proof fn lemma_user_blocks(s: Seq<PageDescriptor>, n: nat)
    requires
        n <= s.len(),
        all_apart(s),
        all_placed(s),
        none_mapped(s),
    ensures
        sound(user_blocks(s, n), Seq::empty()),
        0 <= block::pages_in(user_blocks(s, n)) <= block::pages_in(s.take(n as int)),
        forall|i: int, k: int| 0 <= i < user_blocks(s, n).len() && n <= k < s.len()
            ==> apart(#[trigger] user_blocks(s, n)[i], #[trigger] s[k]),
    decreases n,
{
    if n > 0 {
        lemma_user_blocks(s, (n - 1) as nat);
        let rest = user_blocks(s, (n - 1) as nat);
        let d = s[n - 1];
        assert(s.take(n as int) =~= s.take(n - 1).push(d));
        block::lemma_pages_push(s.take(n - 1), d);
        block::lemma_pages_push(rest, d);
        assert(placed(d));
        let e = Seq::<PageDescriptor>::empty();
        if d.start_virt_address < KERNEL_HALF_OFFSET {
            lemma_push_sound(rest, e, d);
            assert forall|i: int, k: int| 0 <= i < user_blocks(s, n).len() && n <= k < s.len() implies apart(
                #[trigger] user_blocks(s, n)[i], #[trigger] s[k]) by {
                if i < rest.len() {
                    assert(apart(rest[i], s[k]));
                } else {
                    assert(apart(s[n - 1], s[k]));
                }
            }
        }
    } else {
        assert(s.take(0) =~= Seq::empty());
    }
}

impl VirtMemConBlk {
    /// A new address space for a process, made from the kernel's. Only address space below the
    /// kernel's half can be handed out from it; what the kernel has mapped there is mapped in it too.
    pub fn clone_for(&self, proc_id: u64) -> (r: VirtMemConBlk)
        requires
            self@.well_formed(),
            self.proc_id == 0,
            4096 * block::pages_in(self@.free) <= u64::MAX,
        ensures
            r@ == (Space {
                total: self@.total,
                avl: (4096 * block::pages_in(user_blocks(self@.free, self@.free.len()))) as u64,
                free: user_blocks(self@.free, self@.free.len()),
                alloc: Seq::empty(),
                proc_id,
                ops: low_mappings(self@.alloc, self@.alloc.len()),
            }),
            r@.well_formed(),
    {
        let ghost f = self.free_block_list@;
        let ghost a = self.alloc_block_list@;
        let mut free: Vec<PageDescriptor> = Vec::new();
        let mut avl: u64 = 0;
        let mut i: usize = 0;
        while i < self.free_block_list.len()
            invariant
                i <= f.len(),
                f == self.free_block_list@,
                self@.well_formed(),
                4096 * block::pages_in(f) <= u64::MAX,
                free@ == user_blocks(f, i as nat),
                avl == 4096 * block::pages_in(free@),
            decreases f.len() - i,
        {
            let b: PageDescriptor = self.free_block_list[i];
            proof {
                lemma_user_blocks(f, (i + 1) as nat);
                lemma_pages_take(f, i + 1);
                block::lemma_pages_push(free@, b);
            }
            if b.start_virt_address < KERNEL_HALF_OFFSET {
                avl = avl + b.num_pages * PAGE_SIZE;
                free.push(b);
            }
            i = i + 1;
        }
        let mut ops: Vec<PageOp> = Vec::new();
        let mut k: usize = 0;
        while k < self.alloc_block_list.len()
            invariant
                k <= a.len(),
                a == self.alloc_block_list@,
                self@.well_formed(),
                ops@ == low_mappings(a, k as nat),
            decreases a.len() - k,
        {
            let b: PageDescriptor = self.alloc_block_list[k];
            assert(placed(a[k as int]));
            if b.is_mapped && b.start_virt_address < KERNEL_HALF_OFFSET {
                ops.push(PageOp::MapPages {
                    virt_addr: b.start_virt_address,
                    phys_addr: b.start_phy_address,
                    size: b.num_pages * PAGE_SIZE,
                    flags: b.flags,
                });
            }
            k = k + 1;
        }
        proof {
            lemma_user_blocks(f, f.len());
        }
        VirtMemConBlk {
            total_memory: self.total_memory,
            avl_memory: avl,
            free_block_list: free,
            alloc_block_list: Vec::new(),
            proc_id,
            page_ops: ops,
        }
    }
}

proof fn lemma_pages_take(s: Seq<PageDescriptor>, n: int)
    requires
        0 <= n <= s.len(),
    ensures
        block::pages_in(s.take(n)) <= block::pages_in(s),
    decreases s.len() - n,
{
    if n < s.len() {
        lemma_pages_take(s, n + 1);
        assert(s.take(n + 1) =~= s.take(n).push(s[n]));
        block::lemma_pages_push(s.take(n), s[n]);
    } else {
        assert(s.take(n) =~= s);
    }
}

} // verus!
