use vstd::prelude::*;

verus! {

/// The page is part of a virtual address space.
pub const VIRTUAL: u8 = 1;
/// The page belongs to a user process.
pub const USER: u8 = 2;
/// Only address space is wanted, no physical memory behind it.
pub const NO_ALLOC: u8 = 4;

/// A run of pages.
#[derive(Clone, Copy, Debug, PartialEq, Eq, Structural)]
pub struct PageDescriptor {
    pub num_pages: u64,
    pub start_phy_address: u64,
    pub start_virt_address: u64,
    pub flags: u8,
    pub is_mapped: bool,
}

/// A plain run of physical pages.
pub open spec fn phys_block(start: int, pages: int) -> PageDescriptor {
    PageDescriptor {
        num_pages: pages as u64,
        start_phy_address: start as u64,
        start_virt_address: 0,
        flags: 0,
        is_mapped: false,
    }
}

impl PageDescriptor {
    /// First address behind the physical pages.
    pub open spec fn phys_end(self) -> int {
        self.start_phy_address + 4096 * self.num_pages
    }

    /// First address behind the virtual pages.
    pub open spec fn virt_end(self) -> int {
        self.start_virt_address + 4096 * self.num_pages
    }

    pub open spec fn holds_phys(self, a: int) -> bool {
        self.start_phy_address <= a < self.phys_end()
    }

    pub open spec fn holds_virt(self, a: int) -> bool {
        self.start_virt_address <= a < self.virt_end()
    }
}

/// Number of pages in all blocks of a list.
pub open spec fn pages_in(s: Seq<PageDescriptor>) -> int
    decreases s.len(),
{
    if s.len() == 0 { 0 } else { pages_in(s.drop_last()) + s.last().num_pages }
}

pub proof fn lemma_pages_push(s: Seq<PageDescriptor>, d: PageDescriptor)
    ensures
        pages_in(s.push(d)) == pages_in(s) + d.num_pages,
{
    assert(s.push(d).drop_last() =~= s);
}

pub proof fn lemma_pages_nonneg(s: Seq<PageDescriptor>)
    ensures
        pages_in(s) >= 0,
    decreases s.len(),
{
    if s.len() > 0 {
        lemma_pages_nonneg(s.drop_last());
    }
}

pub proof fn lemma_pages_update(s: Seq<PageDescriptor>, i: int, d: PageDescriptor)
    requires
        0 <= i < s.len(),
    ensures
        pages_in(s.update(i, d)) == pages_in(s) - s[i].num_pages + d.num_pages,
    decreases s.len(),
{
    if i == s.len() - 1 {
        assert(s.update(i, d).drop_last() =~= s.drop_last());
    } else {
        lemma_pages_update(s.drop_last(), i, d);
        assert(s.update(i, d).drop_last() =~= s.drop_last().update(i, d));
    }
}

pub proof fn lemma_pages_remove(s: Seq<PageDescriptor>, i: int)
    requires
        0 <= i < s.len(),
    ensures
        pages_in(s.remove(i)) == pages_in(s) - s[i].num_pages,
    decreases s.len(),
{
    if i == s.len() - 1 {
        assert(s.remove(i) =~= s.drop_last());
    } else {
        lemma_pages_remove(s.drop_last(), i);
        assert(s.remove(i).drop_last() =~= s.drop_last().remove(i));
    }
}

/// One block is no larger than the list that holds it.
pub proof fn lemma_pages_at_least(s: Seq<PageDescriptor>, i: int)
    requires
        0 <= i < s.len(),
    ensures
        s[i].num_pages <= pages_in(s),
    decreases s.len(),
{
    lemma_pages_remove(s, i);
    lemma_pages_nonneg(s.remove(i));
}

} // verus!
