use vstd::prelude::*;
use crate::error::KError;
use crate::util;
use crate::util::PAGE_SIZE;
use crate::mem::block;
use crate::mem::block::{NO_ALLOC, USER, VIRTUAL};
use crate::mem::frame_allocator;
use crate::mem::frame_allocator::{Frames, PhyMemConBlk};
use crate::mem::virtual_allocator;
use crate::mem::virtual_allocator::{MapFetchType, Space, VirtMemConBlk};
use crate::mem::virtual_allocator::PageOp;
use crate::loader::image::MemoryRegion;
use crate::loader::module::{RemapEntry, RemapTarget, RemapType};

verus! {

/// Physical memory, the kernel's address space, and that of the running process.
pub struct MemoryManager {
    /// Whether the kernel runs in its own address space yet; before that, virtual addresses are
    /// physical ones.
    pub is_init: bool,
    pub phys: PhyMemConBlk,
    pub kernel: VirtMemConBlk,
    /// The active address space, where it is not the kernel's.
    pub process: Option<VirtMemConBlk>,
    /// Regions that the other processors have to forget, oldest first.
    pub invalidated: Vec<MemoryRegion>,
}

/// What the memory manager holds.
#[verifier::ext_equal]
pub struct Memory {
    pub is_init: bool,
    pub phys: Frames,
    pub kernel: Space,
    pub process: Option<Space>,
    pub invalidated: Seq<MemoryRegion>,
}

impl View for MemoryManager {
    type V = Memory;

    open spec fn view(&self) -> Memory {
        Memory {
            is_init: self.is_init,
            phys: self.phys@,
            kernel: self.kernel@,
            process: match self.process { Some(p) => Some(p@), None => None },
            invalidated: self.invalidated@,
        }
    }
}

pub open spec fn has_flag(flags: u8, bit: u8) -> bool {
    flags & bit != 0
}

pub open spec fn lift<T>(r: Result<u64, KError>, t: T) -> Result<T, KError> {
    match r { Ok(_) => Ok(t), Err(e) => Err(e) }
}

impl Memory {
    pub open spec fn active(self) -> Space {
        match self.process { Some(p) => p, None => self.kernel }
    }

    pub open spec fn with_active(self, s: Space) -> Memory {
        match self.process {
            Some(_) => Memory { process: Some(s), ..self },
            None => Memory { kernel: s, ..self },
        }
    }

    /// Maps kernel or user pages: the kernel's books are kept in its own space, also where another
    /// is active, and the page tables of the active space are changed.
    pub open spec fn mapped(self, phys: u64, virt: u64, size: u64, flags: u8) -> (Memory, Result<(), KError>) {
        if !self.is_init {
            (self, Ok(()))
        } else if !has_flag(flags, USER) && self.process is Some {
            let (k, r) = self.kernel.mapped(phys, virt, size, flags, true);
            let m = Memory { kernel: k, ..self };
            if r is Err {
                (m, r)
            } else {
                let (p, r2) = self.process->0.mapped(phys, virt, size, flags, false);
                (Memory { process: Some(p), ..m }, r2)
            }
        } else {
            let (a, r) = self.active().mapped(phys, virt, size, flags, false);
            (self.with_active(a), r)
        }
    }

    /// Unmaps kernel pages.
    pub open spec fn unmapped(self, virt: u64, size: u64) -> (Memory, Result<(), KError>) {
        if !self.is_init {
            (self, Ok(()))
        } else if self.process is Some {
            let (k, r) = self.kernel.unmapped(virt, size, false, true);
            let m = Memory { kernel: k, ..self };
            if r is Err {
                (m, lift(r, ()))
            } else {
                let (p, r2) = self.process->0.unmapped(virt, size, false, false);
                let m2 = Memory { process: Some(p), ..m };
                (if r2 is Ok { m2.forget(virt, size) } else { m2 }, lift(r2, ()))
            }
        } else {
            let (k, r) = self.kernel.unmapped(virt, size, false, false);
            let m = Memory { kernel: k, ..self };
            (if r is Ok { m.forget(virt, size) } else { m }, lift(r, ()))
        }
    }

    pub open spec fn forget(self, virt: u64, size: u64) -> Memory {
        Memory {
            invalidated: self.invalidated.push(MemoryRegion { base_address: virt, size }),
            ..self
        }
    }

    /// Whether a request is for address space.
    pub open spec fn is_virtual(self, flags: u8) -> bool {
        self.is_init && has_flag(flags, VIRTUAL)
    }

    /// The outcome of a request for memory: address space if it is asked for, physical pages unless
    /// they are declined, and the one mapped to the other. What was set aside before a failure stays
    /// set aside.
    pub open spec fn allocated(self, size: u64, align: u64, flags: u8) -> (Memory, Result<u64, KError>) {
        if !self.is_virtual(flags) {
            let (p, r) = self.phys.allocated(size, align);
            (Memory { phys: p, ..self }, r)
        } else {
            let user = has_flag(flags, USER);
            let (s, r) = if user {
                self.process->0.allocated(size, align, true)
            } else {
                self.kernel.allocated(size, align, false)
            };
            let m = if user { Memory { process: Some(s), ..self } } else { Memory { kernel: s, ..self } };
            if r is Err || has_flag(flags, NO_ALLOC) {
                (m, r)
            } else {
                let (p, rp) = m.phys.allocated(size, align);
                let m2 = Memory { phys: p, ..m };
                if rp is Err {
                    (m2, rp)
                } else {
                    let (m3, rm) = m2.mapped(rp->Ok_0, r->Ok_0, size, flags);
                    (m3, if rm is Ok { r } else { Err(rm->Err_0) })
                }
            }
        }
    }

    /// Unmaps the block at `addr` for good, if it has physical pages, and gives their address.
    pub open spec fn released(self, addr: u64, size: u64, flags: u8) -> (Memory, Result<u64, KError>) {
        if has_flag(flags, NO_ALLOC) {
            (self, Ok(0))
        } else if has_flag(flags, USER) {
            let (p, r) = self.active().unmapped(addr, size, true, false);
            (self.with_active(p), r)
        } else if self.process is Some {
            let (k, r) = self.kernel.unmapped(addr, size, false, true);
            let m = Memory { kernel: k, ..self };
            if r is Err {
                (m, r)
            } else {
                let (p, r2) = self.process->0.unmapped(addr, size, false, true);
                let m2 = Memory { process: Some(p), ..m };
                if r2 is Err { (m2, r2) } else { (m2.forget(addr, size), r) }
            }
        } else {
            let (k, r) = self.kernel.unmapped(addr, size, false, false);
            let m = Memory { kernel: k, ..self };
            (if r is Ok { m.forget(addr, size) } else { m }, r)
        }
    }

    /// A virtual address of a physical one, of the process for `USER` and of the kernel otherwise.
    pub open spec fn virt_at(self, phys_addr: u64, flags: u8, fetch_type: MapFetchType) -> Option<u64> {
        if !self.is_init {
            Some(canonical(phys_addr))
        } else if has_flag(flags, USER) {
            virtual_allocator::virt_of(self.active().alloc, self.active().alloc.len(), phys_addr as int, fetch_type)
        } else {
            virtual_allocator::virt_of(self.kernel.alloc, self.kernel.alloc.len(), phys_addr as int, fetch_type)
        }
    }

    /// The outcome of giving memory back, with the flags it was requested with.
    pub open spec fn deallocated(self, addr: u64, size: u64, align: u64, flags: u8) -> (Memory, Result<(), KError>) {
        if !self.is_virtual(flags) {
            let (p, r) = self.phys.deallocated(addr, size, align);
            (Memory { phys: p, ..self }, r)
        } else {
            let (m, r) = self.released(addr, size, flags);
            if r is Err {
                (m, lift(r, ()))
            } else {
                let user = has_flag(flags, USER);
                let (s, rv) = if user {
                    m.active().deallocated(addr, size, align)
                } else {
                    m.kernel.deallocated(addr, size, align)
                };
                let m2 = if user { m.with_active(s) } else { Memory { kernel: s, ..m } };
                if rv is Err || has_flag(flags, NO_ALLOC) {
                    (m2, rv)
                } else {
                    let m3 = if user { m2.forget(addr, size) } else { m2 };
                    let (p, rp) = m3.phys.deallocated(r->Ok_0, size, align);
                    (Memory { phys: p, ..m3 }, rp)
                }
            }
        }
    }
}

/// Whole pages for `size` bytes and the page count agree.
proof fn lemma_whole_pages(size: int)
    requires
        0 <= size,
    ensures
        util::align_up_spec(size, 4096) == 4096 * util::ceil_div_spec(size, 4096),
{
}

proof fn lemma_space_result(s: Space, size: u64, align: u64, is_user: bool)
    requires
        s.well_formed(),
        s.allocated(size, align, is_user).1 is Ok,
    ensures
        s.allocated(size, align, is_user).1->Ok_0 + util::align_up_spec(size as int, 4096) <= u64::MAX,
{
    let pages = util::ceil_div_spec(size as int, 4096);
    virtual_allocator::law_best_fit(s.free, s.free.len(), pages, is_user);
    let i = s.choice(pages, is_user)->0;
    assert(virtual_allocator::placed(s.free[i]));
    lemma_whole_pages(size as int);
}

proof fn lemma_frame_result(p: PhyMemConBlk, size: u64, align: u64)
    requires
        p.well_formed(),
        p@.allocated(size, align).1 is Ok,
    ensures
        p@.allocated(size, align).1->Ok_0 + util::align_up_spec(size as int, 4096) <= u64::MAX,
{
    let f = p@.free;
    let pages = util::ceil_div_spec(size as int, 4096);
    frame_allocator::law_best_fit(f, f.len(), pages, p@.low, p@.high);
    let i = p@.choice(pages)->0;
    assert(f[i].phys_end() <= u64::MAX);
    lemma_whole_pages(size as int);
}

impl Memory {
    pub open spec fn spaces_formed(self) -> bool {
        &&& self.kernel.well_formed()
        &&& self.kernel.proc_id == 0
        &&& self.process matches Some(p) ==> p.well_formed() && p.proc_id != 0
    }
}

impl MemoryManager {
    pub open spec fn well_formed(self) -> bool {
        self.phys.well_formed() && self@.spaces_formed()
    }

    /// Maps physical pages that the caller owns to address space requested without pages.
    pub fn map_memory(&mut self, phys_addr: u64, virt_addr: u64, size: u64, flags: u8) -> (r: Result<(), KError>)
        requires
            old(self).well_formed(),
            has_flag(flags, USER) ==> old(self).process is Some || !old(self).is_init,
            virt_addr + util::align_up_spec(size as int, 4096) <= u64::MAX,
            phys_addr + util::align_up_spec(size as int, 4096) <= u64::MAX,
        ensures
            (final(self)@, r) == old(self)@.mapped(phys_addr, virt_addr, size, flags),
            final(self).well_formed(),
    {
        if !self.is_init {
            return Ok(());
        }
        match &mut self.process {
            Some(p) => {
                if flags & USER == 0 {
                    if let Err(e) = self.kernel.map_memory(phys_addr, virt_addr, size, flags, true) {
                        return Err(e);
                    }
                }
                p.map_memory(phys_addr, virt_addr, size, flags, false)
            },
            None => self.kernel.map_memory(phys_addr, virt_addr, size, flags, false),
        }
    }

    /// Unmaps kernel pages mapped by `map_memory`.
    pub fn unmap_memory(&mut self, virt_addr: u64, size: u64) -> (r: Result<(), KError>)
        requires
            old(self).well_formed(),
            util::align_up_spec(size as int, 4096) <= u64::MAX,
        ensures
            (final(self)@, r) == old(self)@.unmapped(virt_addr, size),
            final(self).well_formed(),
    {
        if !self.is_init {
            return Ok(());
        }
        match &mut self.process {
            Some(p) => {
                if let Err(e) = self.kernel.unmap_memory(virt_addr, size, false, true) {
                    return Err(e);
                }
                if let Err(e) = p.unmap_memory(virt_addr, size, false, false) {
                    return Err(e);
                }
            },
            None => {
                if let Err(e) = self.kernel.unmap_memory(virt_addr, size, false, false) {
                    return Err(e);
                }
            },
        }
        self.invalidated.push(MemoryRegion { base_address: virt_addr, size });
        Ok(())
    }

    /// Hands out memory. `VIRTUAL` asks for address space with physical pages mapped to it, `USER`
    /// for such space in the running process, `NO_ALLOC` for the space alone.
    pub fn allocate_memory(&mut self, size: u64, align: u64, flags: u8) -> (r: Result<u64, KError>)
        requires
            old(self).well_formed(),
            !old(self)@.is_virtual(flags) ==> flags == 0,
            old(self)@.is_virtual(flags) && has_flag(flags, USER) ==> old(self).process is Some,
        ensures
            (final(self)@, r) == old(self)@.allocated(size, align, flags),
            final(self).well_formed(),
    {
        if !(self.is_init && flags & VIRTUAL != 0) {
            return self.phys.allocate(size, align);
        }
        let got: Result<u64, KError> = if flags & USER != 0 {
            match &mut self.process {
                Some(p) => {
                    proof {
                        if p@.allocated(size, align, true).1 is Ok {
                            lemma_space_result(p@, size, align, true);
                        }
                    }
                    p.allocate(size, align, true)
                },
                None => Err(KError::InvalidArgument),
            }
        } else {
            proof {
                if self.kernel@.allocated(size, align, false).1 is Ok {
                    lemma_space_result(self.kernel@, size, align, false);
                }
            }
            self.kernel.allocate(size, align, false)
        };
        let virt_addr: u64 = match got {
            Ok(v) => v,
            Err(e) => { return Err(e); },
        };
        if flags & NO_ALLOC != 0 {
            return Ok(virt_addr);
        }
        proof {
            if self.phys@.allocated(size, align).1 is Ok {
                lemma_frame_result(self.phys, size, align);
            }
        }
        match self.phys.allocate(size, align) {
            Err(e) => Err(e),
            Ok(phys_addr) => {
                match self.map_memory(phys_addr, virt_addr, size, flags) {
                    Ok(_) => Ok(virt_addr),
                    Err(e) => Err(e),
                }
            },
        }
    }

    fn release(&mut self, addr: u64, size: u64, flags: u8) -> (r: Result<u64, KError>)
        requires
            old(self).well_formed(),
            util::align_up_spec(size as int, 4096) <= u64::MAX,
        ensures
            (final(self)@, r) == old(self)@.released(addr, size, flags),
            final(self).well_formed(),
            final(self).phys == old(self).phys,
            final(self)@.kernel.avl == old(self)@.kernel.avl,
            final(self)@.active().avl == old(self)@.active().avl,
            final(self).process is Some <==> old(self).process is Some,
    {
        if flags & NO_ALLOC != 0 {
            return Ok(0);
        }
        if flags & USER != 0 {
            return match &mut self.process {
                Some(p) => p.unmap_memory(addr, size, true, false),
                None => self.kernel.unmap_memory(addr, size, true, false),
            };
        }
        let got: Result<u64, KError> = match &mut self.process {
            Some(p) => {
                match self.kernel.unmap_memory(addr, size, false, true) {
                    Err(e) => Err(e),
                    Ok(phys) => match p.unmap_memory(addr, size, false, true) {
                        Err(e) => Err(e),
                        Ok(_) => Ok(phys),
                    },
                }
            },
            None => self.kernel.unmap_memory(addr, size, false, false),
        };
        if got.is_ok() {
            self.invalidated.push(MemoryRegion { base_address: addr, size });
        }
        got
    }

    /// Takes memory back; the flags are those it was requested with.
    pub fn deallocate_memory(&mut self, addr: u64, size: u64, align: u64, flags: u8) -> (r: Result<(), KError>)
        requires
            old(self).well_formed(),
            !old(self)@.is_virtual(flags) ==> flags == 0,
            util::align_up_spec(size as int, 4096) <= u64::MAX,
            old(self)@.is_virtual(flags) ==> (if has_flag(flags, USER) {
                old(self)@.active().avl
            } else {
                old(self)@.kernel.avl
            }) + util::align_up_spec(size as int, 4096) <= u64::MAX,
        ensures
            (final(self)@, r) == old(self)@.deallocated(addr, size, align, flags),
            final(self).well_formed(),
    {
        if !(self.is_init && flags & VIRTUAL != 0) {
            return self.phys.deallocate(addr, size, align);
        }
        proof {
            lemma_whole_pages(size as int);
        }
        let phys: u64 = match self.release(addr, size, flags) {
            Ok(p) => p,
            Err(e) => { return Err(e); },
        };
        let gone: Result<(), KError> = if flags & USER != 0 {
            match &mut self.process {
                Some(p) => p.deallocate(addr, size, align),
                None => self.kernel.deallocate(addr, size, align),
            }
        } else {
            self.kernel.deallocate(addr, size, align)
        };
        if let Err(e) = gone {
            return Err(e);
        }
        if flags & NO_ALLOC != 0 {
            return Ok(());
        }
        if flags & USER != 0 {
            self.invalidated.push(MemoryRegion { base_address: addr, size });
        }
        self.phys.deallocate(phys, size, align)
    }
}

impl Memory {
    /// The outcome of mapping physical pages at some address of the kernel's half.
    pub open spec fn mapped_to_kernel(self, phys: u64, size: u64) -> (Memory, Result<u64, KError>) {
        let (m, r) = self.allocated(size, 4096, VIRTUAL | NO_ALLOC);
        if r is Err {
            (m, r)
        } else {
            let (m2, rm) = m.mapped(phys, r->Ok_0, size, VIRTUAL);
            (m2, if rm is Ok { r } else { Err(rm->Err_0) })
        }
    }

    /// The outcome of undoing that.
    pub open spec fn unmapped_from_kernel(self, virt: u64, size: u64) -> (Memory, Result<(), KError>) {
        let (m, r) = self.unmapped(virt, size);
        if r is Err { (m, r) } else { m.deallocated(virt, size, 4096, VIRTUAL | NO_ALLOC) }
    }
}

impl MemoryManager {
    /// Maps physical pages at some address of the kernel's half.
    pub fn map_to_kernel(&mut self, phys_addr: u64, size: u64) -> (r: Result<u64, KError>)
        requires
            old(self).well_formed(),
            old(self).is_init,
            phys_addr + util::align_up_spec(size as int, 4096) <= u64::MAX,
        ensures
            (final(self)@, r) == old(self)@.mapped_to_kernel(phys_addr, size),
            final(self).well_formed(),
    {
        proof {
            lemma_flag_bits();
            if self.kernel@.allocated(size, 4096, false).1 is Ok {
                lemma_space_result(self.kernel@, size, 4096, false);
            }
        }
        match self.allocate_memory(size, PAGE_SIZE, VIRTUAL | NO_ALLOC) {
            Err(e) => Err(e),
            Ok(virt_addr) => match self.map_memory(phys_addr, virt_addr, size, VIRTUAL) {
                Err(e) => Err(e),
                Ok(_) => Ok(virt_addr),
            },
        }
    }

    /// Undoes `map_to_kernel`.
    pub fn unmap_from_kernel(&mut self, virt_addr: u64, size: u64) -> (r: Result<(), KError>)
        requires
            old(self).well_formed(),
            old(self).is_init,
            util::align_up_spec(size as int, 4096) <= u64::MAX,
            old(self).kernel.avl_memory + util::align_up_spec(size as int, 4096) <= u64::MAX,
        ensures
            (final(self)@, r) == old(self)@.unmapped_from_kernel(virt_addr, size),
            final(self).well_formed(),
    {
        proof {
            lemma_flag_bits();
        }
        match self.unmap_memory(virt_addr, size) {
            Err(e) => Err(e),
            Ok(_) => self.deallocate_memory(virt_addr, size, PAGE_SIZE, VIRTUAL | NO_ALLOC),
        }
    }

    /// Sets a given stretch of the kernel's address space aside.
    pub fn reserve_virtual_memory(&mut self, virt_addr: u64, size: u64) -> (r: Result<(), KError>)
        requires
            old(self).well_formed(),
            old(self).is_init,
            virt_addr + util::align_up_spec(size as int, 4096) <= u64::MAX,
        ensures
            ({
                let (k, res) = old(self)@.kernel.reserved(virt_addr, size);
                final(self)@ == (Memory { kernel: k, ..old(self)@ }) && r == res
            }),
            virt_addr % 4096 == 0 ==> final(self).well_formed(),
    {
        self.kernel.reserve_virtual_space(virt_addr, size)
    }

    /// The physical address behind a virtual one, of the process for `USER` and of the kernel
    /// otherwise. Before the kernel has its own address space the two are the same.
    pub fn get_physical_address(&self, virt_addr: u64, flags: u8) -> (r: Option<u64>)
        requires
            self.well_formed(),
        ensures
            r == (if !self.is_init {
                Some(virt_addr)
            } else if has_flag(flags, USER) {
                virtual_allocator::phys_of(self@.active().alloc, 0, virt_addr as int)
            } else {
                virtual_allocator::phys_of(self@.kernel.alloc, 0, virt_addr as int)
            }),
    {
        if !self.is_init {
            return Some(virt_addr);
        }
        if flags & USER != 0 {
            match &self.process {
                Some(p) => p.get_phys_address(virt_addr),
                None => self.kernel.get_phys_address(virt_addr),
            }
        } else {
            self.kernel.get_phys_address(virt_addr)
        }
    }

    /// A virtual address of a physical one. Before the kernel has its own address space that is the
    /// physical address in canonical form.
    pub fn get_virtual_address(&self, phys_addr: u64, flags: u8, fetch_type: MapFetchType) -> (r: Option<u64>)
        requires
            self.well_formed(),
        ensures
            r == self@.virt_at(phys_addr, flags, fetch_type),
    {
        if !self.is_init {
            return Some(canonicalize_virtual(phys_addr));
        }
        if flags & USER != 0 {
            match &self.process {
                Some(p) => p.get_virt_address(phys_addr, fetch_type),
                None => self.kernel.get_virt_address(phys_addr, fetch_type),
            }
        } else {
            self.kernel.get_virt_address(phys_addr, fetch_type)
        }
    }

    /// Whether the running process may be read from at `addr`.
    pub fn copy_from_user(&self, addr: u64, len: u64) -> (r: Result<(), KError>)
        requires
            self.well_formed(),
            addr + len <= u64::MAX,
        ensures
            r == (if len == 0 || virtual_allocator::range_covered(self@.active().alloc, addr as int, addr + len) {
                Ok(())
            } else {
                Err(KError::InvalidArgument)
            }),
    {
        match &self.process {
            Some(p) => p.user_access(addr, len),
            None => self.kernel.user_access(addr, len),
        }
    }

    /// Whether the running process may be written to at `addr`.
    pub fn copy_to_user(&self, addr: u64, len: u64) -> (r: Result<(), KError>)
        requires
            self.well_formed(),
            addr + len <= u64::MAX,
        ensures
            r == (if len == 0 || virtual_allocator::range_covered(self@.active().alloc, addr as int, addr + len) {
                Ok(())
            } else {
                Err(KError::InvalidArgument)
            }),
    {
        self.copy_from_user(addr, len)
    }

    /// Makes the address space of a process, or the kernel's, the active one; gives back the one
    /// that was active if it was not the kernel's.
    pub fn set_address_space(&mut self, next: Option<VirtMemConBlk>) -> (r: Option<VirtMemConBlk>)
        requires
            old(self).well_formed(),
            next matches Some(p) ==> p@.well_formed() && p.proc_id != 0,
        ensures
            r == old(self).process,
            final(self).process == next,
            final(self).kernel == old(self).kernel,
            final(self).phys == old(self).phys,
            final(self).is_init == old(self).is_init,
            final(self).invalidated == old(self).invalidated,
            final(self).well_formed(),
    {
        let mut slot: Option<VirtMemConBlk> = next;
        std::mem::swap(&mut slot, &mut self.process);
        slot
    }
}

proof fn lemma_flag_bits()
    ensures
        has_flag(VIRTUAL | NO_ALLOC, VIRTUAL),
        has_flag(VIRTUAL | NO_ALLOC, NO_ALLOC),
        !has_flag(VIRTUAL | NO_ALLOC, USER),
        !has_flag(VIRTUAL, USER),
        has_flag(VIRTUAL, VIRTUAL),
        !has_flag(VIRTUAL, NO_ALLOC),
{
    assert((1u8 | 4u8) & 1u8 != 0 && (1u8 | 4u8) & 4u8 != 0 && (1u8 | 4u8) & 2u8 == 0 && 1u8 & 2u8 == 0
        && 1u8 & 1u8 != 0 && 1u8 & 4u8 == 0) by (bit_vector);
}

/// The sign-extended form of a raw 48-bit address.
pub open spec fn canonical(a: u64) -> u64 {
    let low = a % 0x1_0000_0000_0000;
    if low >= 0x8000_0000_0000 { (low + 0xffff_0000_0000_0000) as u64 } else { low }
}

fn canonicalize_virtual(a: u64) -> (r: u64)
    ensures
        r == canonical(a),
{
    let low: u64 = a % 0x1_0000_0000_0000;
    if low >= 0x8000_0000_0000 { low + 0xffff_0000_0000_0000 } else { low }
}

/// The kernel's space after the first `n` remaps of regions that keep their address; nothing if one
/// of them could not be made.
pub open spec fn identity_mapped(k: Space, items: Seq<RemapEntry>, n: nat) -> Option<Space>
    decreases n,
{
    if n == 0 {
        Some(k)
    } else {
        let it = items[n - 1];
        match identity_mapped(k, items, (n - 1) as nat) {
            None => None,
            Some(s) => if it.map_type == RemapType::IdentityMapped {
                let base = it.value.base_address;
                let (s1, r1) = s.reserved(base, it.value.size);
                let (s2, r2) = s1.mapped(base, base, it.value.size, it.flags, true);
                if r1 is Ok && r2 is Ok {
                    Some(Space {
                        ops: s2.ops.push(
                            PageOp::MapPages { virt_addr: base, phys_addr: base, size: it.value.size, flags: it.flags }),
                        ..s2
                    })
                } else {
                    None
                }
            } else {
                Some(s)
            },
        }
    }
}

/// The same for the remaps to the kernel's half, with the new address of each region.
pub open spec fn offset_mapped(k: Space, items: Seq<RemapEntry>, n: nat) -> Option<(Space, Seq<(RemapTarget, u64)>)>
    decreases n,
{
    if n == 0 {
        Some((k, Seq::empty()))
    } else {
        let it = items[n - 1];
        match offset_mapped(k, items, (n - 1) as nat) {
            None => None,
            Some((s, moved)) => match it.map_type {
                RemapType::IdentityMapped => Some((s, moved)),
                RemapType::OffsetMapped(t) => {
                    let (s1, r1) = s.allocated(it.value.size, 4096, false);
                    if r1 is Ok {
                        let virt = r1->Ok_0;
                        let (s2, r2) = s1.mapped(it.value.base_address, virt, it.value.size, it.flags, true);
                        if r2 is Ok {
                            Some((
                                Space {
                                    ops: s2.ops.push(PageOp::MapPages {
                                        virt_addr: virt,
                                        phys_addr: it.value.base_address,
                                        size: it.value.size,
                                        flags: it.flags,
                                    }),
                                    ..s2
                                },
                                moved.push((t, virt)),
                            ))
                        } else {
                            None
                        }
                    } else {
                        None
                    }
                },
            },
        }
    }
}

proof fn lemma_identity_prefix(k: Space, items: Seq<RemapEntry>, i: nat, n: nat)
    requires
        i <= n,
        identity_mapped(k, items, n) is Some,
    ensures
        identity_mapped(k, items, i) is Some,
    decreases n,
{
    if i < n {
        lemma_identity_prefix(k, items, i, (n - 1) as nat);
    }
}

proof fn lemma_offset_prefix(k: Space, items: Seq<RemapEntry>, i: nat, n: nat)
    requires
        i <= n,
        offset_mapped(k, items, n) is Some,
    ensures
        offset_mapped(k, items, i) is Some,
    decreases n,
{
    if i < n {
        lemma_offset_prefix(k, items, i, (n - 1) as nat);
    }
}

/// The regions start on pages and end inside the address space, and none is a user region.
pub open spec fn remaps_sound(items: Seq<RemapEntry>) -> bool {
    forall|i: int| 0 <= i < items.len() ==> {
        let it = #[trigger] items[i];
        &&& it.value.base_address % 4096 == 0
        &&& it.value.base_address + util::align_up_spec(it.value.size as int, 4096) <= u64::MAX
        &&& !has_flag(it.flags, USER)
    }
}

fn map_identity(kernel: &mut VirtMemConBlk, items: &Vec<RemapEntry>)
    requires
        old(kernel)@.well_formed(),
        old(kernel).proc_id == 0,
        remaps_sound(items@),
        identity_mapped(old(kernel)@, items@, items@.len()) is Some,
    ensures
        final(kernel)@.well_formed(),
        final(kernel).proc_id == 0,
        Some(final(kernel)@) == identity_mapped(old(kernel)@, items@, items@.len()),
{
    let ghost k0 = kernel@;
    let mut i: usize = 0;
    while i < items.len()
        invariant
            i <= items@.len(),
            kernel@.well_formed(),
            kernel.proc_id == 0,
            remaps_sound(items@),
            identity_mapped(k0, items@, items@.len()) is Some,
            Some(kernel@) == identity_mapped(k0, items@, i as nat),
        decreases items@.len() - i,
    {
        let it: RemapEntry = items[i];
        assert(it == items@[i as int]);
        proof {
            lemma_identity_prefix(k0, items@, (i + 1) as nat, items@.len());
        }
        if it.map_type == RemapType::IdentityMapped {
            let base: u64 = it.value.base_address;
            let _ = kernel.reserve_virtual_space(base, it.value.size);
            let _ = kernel.map_memory(base, base, it.value.size, it.flags, true);
            kernel.page_ops.push(
                PageOp::MapPages { virt_addr: base, phys_addr: base, size: it.value.size, flags: it.flags });
        }
        i = i + 1;
    }
}

fn map_offset(kernel: &mut VirtMemConBlk, items: &Vec<RemapEntry>) -> (moved: Vec<(RemapTarget, u64)>)
    requires
        old(kernel)@.well_formed(),
        old(kernel).proc_id == 0,
        remaps_sound(items@),
        offset_mapped(old(kernel)@, items@, items@.len()) is Some,
    ensures
        final(kernel)@.well_formed(),
        final(kernel).proc_id == 0,
        Some((final(kernel)@, moved@)) == offset_mapped(old(kernel)@, items@, items@.len()),
{
    let ghost k0 = kernel@;
    let mut moved: Vec<(RemapTarget, u64)> = Vec::new();
    let mut i: usize = 0;
    while i < items.len()
        invariant
            i <= items@.len(),
            kernel@.well_formed(),
            kernel.proc_id == 0,
            remaps_sound(items@),
            offset_mapped(k0, items@, items@.len()) is Some,
            Some((kernel@, moved@)) == offset_mapped(k0, items@, i as nat),
        decreases items@.len() - i,
    {
        let it: RemapEntry = items[i];
        assert(it == items@[i as int]);
        proof {
            lemma_offset_prefix(k0, items@, (i + 1) as nat, items@.len());
        }
        if let RemapType::OffsetMapped(t) = it.map_type {
            proof {
                lemma_space_result(kernel@, it.value.size, 4096, false);
            }
            let virt: u64 = match kernel.allocate(it.value.size, PAGE_SIZE, false) {
                Ok(v) => v,
                Err(_) => 0,
            };
            let _ = kernel.map_memory(it.value.base_address, virt, it.value.size, it.flags, true);
            kernel.page_ops.push(PageOp::MapPages {
                virt_addr: virt,
                phys_addr: it.value.base_address,
                size: it.value.size,
                flags: it.flags,
            });
            moved.push((t, virt));
        }
        i = i + 1;
    }
    moved
}

/// Sizes of the boot processor's stack: all of it with its guard, the part with pages behind it,
/// and how far that part lies above the start.
#[derive(Clone, Copy)]
pub struct StackLayout {
    pub total_size: u64,
    pub stack_size: u64,
    pub guard_size: u64,
}

/// The kernel's address space, ready to be switched to.
pub struct BootSpace {
    pub kernel: VirtMemConBlk,
    /// Where the remapped regions have gone.
    pub moved: Vec<(RemapTarget, u64)>,
    /// Start of the boot processor's stack, with its guard.
    pub stack: u64,
}

/// The kernel's address space, the moved regions, the stack and the physical memory that is left;
/// nothing if something could not be placed.
pub open spec fn boot_space(p: Frames, items: Seq<RemapEntry>, st: StackLayout)
    -> Option<(Space, Seq<(RemapTarget, u64)>, u64, Frames)>
{
    let p0 = Frames { high: 0xffff_ffff, low: 0x10_0000, ..p };
    match identity_mapped(fresh_space(), items, items.len()) {
        None => None,
        Some(k1) => match offset_mapped(k1, items, items.len()) {
            None => None,
            Some((k2, moved)) => {
                let (k3, rs) = k2.allocated(st.total_size, 4096, false);
                let (p1, rp) = p0.allocated(st.stack_size, 4096);
                if rs is Ok && rp is Ok {
                    let base = (rs->Ok_0 + st.guard_size) as u64;
                    let (k4, rm) = k3.mapped(rp->Ok_0, base, st.stack_size, 0, true);
                    if rm is Ok {
                        let op = PageOp::MapPages {
                            virt_addr: base,
                            phys_addr: rp->Ok_0,
                            size: st.stack_size,
                            flags: 0,
                        };
                        Some((Space { ops: k4.ops.push(op), ..k4 }, moved, rs->Ok_0, p1))
                    } else {
                        None
                    }
                } else {
                    None
                }
            },
        },
    }
}

pub open spec fn fresh_space() -> Space {
    Space {
        total: 0x0000_ff7f_ffff_f000,
        avl: 0x0000_ff7f_ffff_f000,
        free: seq![
            virtual_allocator::virt_block(4096, 0x7_ffff_ffff, 0),
            virtual_allocator::virt_block(virtual_allocator::KERNEL_HALF_OFFSET as int, 0x7_f800_0000, 0),
        ],
        alloc: Seq::empty(),
        proc_id: 0,
        ops: Seq::empty(),
    }
}

/// Builds the kernel's address space: first the regions that keep their address, then those that
/// move to the kernel's half, and a stack for the boot processor. Page tables and the stack are
/// taken from memory between 1 MB and 4 GB.
pub fn virtual_allocator_init(phys: &mut PhyMemConBlk, items: &Vec<RemapEntry>, st: StackLayout) -> (r: BootSpace)
    requires
        old(phys).well_formed(),
        remaps_sound(items@),
        st.guard_size + util::align_up_spec(st.stack_size as int, 4096)
            <= util::align_up_spec(st.total_size as int, 4096),
        boot_space(old(phys)@, items@, st) is Some,
    ensures
        final(phys).well_formed(),
        r.kernel@.well_formed(),
        r.kernel.proc_id == 0,
        boot_space(old(phys)@, items@, st) == Some((r.kernel@, r.moved@, r.stack, final(phys)@)),
{
    phys.configure_upper_limit(0xffff_ffff);
    phys.configure_lower_limit(0x10_0000);
    let mut kernel: VirtMemConBlk = VirtMemConBlk::new(0);
    assert(kernel@ == fresh_space());
    map_identity(&mut kernel, items);
    let moved: Vec<(RemapTarget, u64)> = map_offset(&mut kernel, items);
    proof {
        lemma_space_result(kernel@, st.total_size, 4096, false);
        lemma_frame_result(*phys, st.stack_size, 4096);
        assert(!has_flag(0, USER)) by {
            assert(0u8 & 2u8 == 0) by (bit_vector);
        }
    }
    let stack: u64 = match kernel.allocate(st.total_size, PAGE_SIZE, false) {
        Ok(v) => v,
        Err(_) => 0,
    };
    let stack_phys: u64 = match phys.allocate(st.stack_size, PAGE_SIZE) {
        Ok(v) => v,
        Err(_) => 0,
    };
    let stack_base: u64 = stack + st.guard_size;
    let _ = kernel.map_memory(stack_phys, stack_base, st.stack_size, 0, true);
    kernel.page_ops.push(
        PageOp::MapPages { virt_addr: stack_base, phys_addr: stack_phys, size: st.stack_size, flags: 0 });
    BootSpace { kernel, moved, stack }
}

/// The kernel's space once `n` single pages have been set aside, and their addresses; no addresses
/// if one of them was refused.
pub open spec fn pages_reserved(k: Space, n: nat) -> (Space, Option<Seq<u64>>)
    decreases n,
{
    if n == 0 {
        (k, Some(Seq::empty()))
    } else {
        let (s, got) = pages_reserved(k, (n - 1) as nat);
        match got {
            None => (s, None),
            Some(list) => {
                let (s1, r) = s.allocated(4096, 4096, false);
                (s1, if r is Ok { Some(list.push(r->Ok_0)) } else { None })
            },
        }
    }
}

/// The kernel's space once the first `n` of the pages have been given back.
pub open spec fn pages_released(k: Space, pages: Seq<u64>, n: nat) -> Space
    decreases n,
{
    if n == 0 {
        k
    } else {
        pages_released(k, pages, (n - 1) as nat).deallocated(pages[n - 1], 4096, 4096).0
    }
}

pub open spec fn page_blocks(pages: Seq<u64>) -> Seq<block::PageDescriptor> {
    Seq::new(pages.len(), |i: int| virtual_allocator::virt_block(pages[i] as int, 1, 0))
}

proof fn lemma_reserved_none(k: Space, i: nat, n: nat)
    requires
        i <= n,
        pages_reserved(k, i).1 is None,
    ensures
        pages_reserved(k, n) == pages_reserved(k, i),
    decreases n,
{
    if i < n {
        lemma_reserved_none(k, i, (n - 1) as nat);
    }
}

/// Sets four pages of the kernel's address space aside for access to page tables.
fn get_page_reserve(kernel: &mut VirtMemConBlk) -> (r: Result<Vec<u64>, KError>)
    requires
        old(kernel)@.well_formed(),
    ensures
        final(kernel)@ == pages_reserved(old(kernel)@, 4).0,
        final(kernel)@.well_formed(),
        final(kernel)@.proc_id == old(kernel)@.proc_id,
        match r {
            Ok(v) => {
                &&& pages_reserved(old(kernel)@, 4).1 == Some(v@)
                &&& v@.len() == 4
                &&& final(kernel)@.alloc == old(kernel)@.alloc + page_blocks(v@)
                &&& final(kernel)@.avl == old(kernel)@.avl - 4096 * 4
                &&& final(kernel)@.ops == old(kernel)@.ops
            },
            Err(e) => pages_reserved(old(kernel)@, 4).1 is None && e == KError::OutOfMemory,
        },
{
    let ghost k0 = kernel@;
    let mut v: Vec<u64> = Vec::new();
    let mut i: u64 = 0;
    assert(k0.alloc + page_blocks(v@) =~= k0.alloc);
    while i < 4
        invariant
            i <= 4,
            kernel@.well_formed(),
            k0 == old(kernel)@,
            pages_reserved(k0, i as nat) == (kernel@, Some(v@)),
            v@.len() == i,
            kernel@.alloc == k0.alloc + page_blocks(v@),
            kernel@.avl == k0.avl - 4096 * i,
            kernel@.proc_id == k0.proc_id,
            kernel@.ops == k0.ops,
        decreases 4 - i,
    {
        let ghost before = kernel@;
        let ghost v0 = v@;
        match kernel.allocate(PAGE_SIZE, PAGE_SIZE, false) {
            Err(e) => {
                proof {
                    lemma_reserved_none(k0, (i + 1) as nat, 4);
                }
                return Err(e);
            },
            Ok(a) => {
                v.push(a);
                assert(page_blocks(v@) =~= page_blocks(v0).push(virtual_allocator::virt_block(a as int, 1, 0)));
                assert(kernel@.alloc =~= k0.alloc + page_blocks(v@));
            },
        }
        i = i + 1;
    }
    Ok(v)
}

/// Gives the pages set aside for page tables back.
fn remove_page_reserve(kernel: &mut VirtMemConBlk, pages: &Vec<u64>, Ghost(kept): Ghost<Seq<block::PageDescriptor>>)
    requires
        old(kernel)@.well_formed(),
        pages@.len() == 4,
        old(kernel)@.alloc == kept + page_blocks(pages@),
        old(kernel)@.avl + 4096 * 4 <= u64::MAX,
    ensures
        final(kernel)@ == pages_released(old(kernel)@, pages@, 4),
        final(kernel)@.well_formed(),
        final(kernel)@.alloc == kept,
        final(kernel)@.avl == old(kernel)@.avl + 4096 * 4,
        final(kernel)@.proc_id == old(kernel)@.proc_id,
        final(kernel)@.ops == old(kernel)@.ops,
{
    let ghost k0 = kernel@;
    let mut i: usize = 0;
    assert(pages@.skip(0) =~= pages@);
    while i < 4
        invariant
            i <= 4,
            pages@.len() == 4,
            kernel@.well_formed(),
            kernel@ == pages_released(k0, pages@, i as nat),
            kernel@.alloc == kept + page_blocks(pages@.skip(i as int)),
            kernel@.avl == k0.avl + 4096 * i,
            k0.avl + 4096 * 4 <= u64::MAX,
            kernel@.proc_id == k0.proc_id,
            kernel@.ops == k0.ops,
        decreases 4 - i,
    {
        proof {
            let a = kernel@.alloc;
            let n = kept.len() as int;
            assert(a[n] == page_blocks(pages@.skip(i as int))[0]);
            assert(a[n] == virtual_allocator::virt_block(pages@[i as int] as int, 1, 0));
            virtual_allocator::lemma_find_exact_unique(a, 0, n);
            assert(a.remove(n) =~= kept + page_blocks(pages@.skip(i + 1)));
        }
        let _ = kernel.deallocate(pages[i], PAGE_SIZE, PAGE_SIZE);
        i = i + 1;
    }
    assert(kept + page_blocks(pages@.skip(4)) =~= kept);
}

impl MemoryManager {
    /// Makes an address space for process `proc_id`. What the kernel has set aside, and how much is
    /// available to it, stays as it was, unless no pages can be had for the page tables.
    pub fn clone_address_space(&mut self, proc_id: u64) -> (r: Result<VirtMemConBlk, KError>)
        requires
            old(self).well_formed(),
        ensures
            final(self).well_formed(),
            final(self).phys == old(self).phys,
            final(self).process == old(self).process,
            final(self).is_init == old(self).is_init,
            final(self).invalidated == old(self).invalidated,
            ({
                let k = old(self)@.kernel;
                let (k1, got) = pages_reserved(k, 4);
                match got {
                    None => r == Err::<VirtMemConBlk, KError>(KError::OutOfMemory) && final(self)@.kernel == k1,
                    Some(pages) => {
                        &&& r is Ok
                        &&& r->Ok_0@.well_formed()
                        &&& r->Ok_0@ == (Space {
                            total: k.total,
                            avl: (4096 * block::pages_in(
                                virtual_allocator::user_blocks(k.free, k.free.len()))) as u64,
                            free: virtual_allocator::user_blocks(k.free, k.free.len()),
                            alloc: Seq::empty(),
                            proc_id,
                            ops: virtual_allocator::low_mappings(k.alloc, k.alloc.len()),
                        })
                        &&& final(self)@.kernel == pages_released(k1, pages, 4)
                        &&& final(self)@.kernel.alloc == k.alloc
                        &&& final(self)@.kernel.avl == k.avl
                    },
                }
            }),
    {
        let ghost kept = self.kernel@.alloc;
        let space: VirtMemConBlk = self.kernel.clone_for(proc_id);
        match get_page_reserve(&mut self.kernel) {
            Err(e) => Err(e),
            Ok(pages) => {
                remove_page_reserve(&mut self.kernel, &pages, Ghost(kept));
                Ok(space)
            },
        }
    }
}

impl Memory {
    /// The outcome of mapping one page for access to a page table: only the active space is touched.
    pub open spec fn table_mapped(self, virt: u64, phys: u64) -> (Memory, Result<(), KError>) {
        if !self.is_init {
            (self, Ok(()))
        } else {
            let (a, r) = self.active().mapped(phys, virt, 4096, 0, false);
            (self.with_active(a), r)
        }
    }

    /// The outcome of unmapping a page that gave access to a page table.
    pub open spec fn table_unmapped(self, virt: u64) -> (Memory, Result<(), KError>) {
        if !self.is_init {
            (self, Ok(()))
        } else {
            let (a, r) = self.active().unmapped(virt, 4096, false, false);
            (self.with_active(a), lift(r, ()))
        }
    }

    /// Physical regions given back, the first `n` of them.
    pub open spec fn regions_freed(self, list: Seq<MemoryRegion>, n: nat) -> (Memory, Result<(), KError>)
        decreases n,
    {
        if n == 0 {
            (self, Ok(()))
        } else {
            let (m, r) = self.regions_freed(list, (n - 1) as nat);
            if r is Err {
                (m, r)
            } else {
                let (p, r2) = m.phys.deallocated(list[n - 1].base_address, list[n - 1].size, 4096);
                (Memory { phys: p, ..m }, r2)
            }
        }
    }
}

proof fn lemma_freed_stuck(m: Memory, list: Seq<MemoryRegion>, i: nat, n: nat)
    requires
        i <= n,
        m.regions_freed(list, i).1 is Err,
    ensures
        m.regions_freed(list, n) == m.regions_freed(list, i),
    decreases n,
{
    if i < n {
        lemma_freed_stuck(m, list, i, (n - 1) as nat);
    }
}

/// Giving physical regions back touches the physical memory alone.
pub proof fn lemma_freed_phys_only(m: Memory, list: Seq<MemoryRegion>, n: nat)
    ensures
        m.regions_freed(list, n).0 == (Memory { phys: m.regions_freed(list, n).0.phys, ..m }),
    decreases n,
{
    if n > 0 {
        lemma_freed_phys_only(m, list, (n - 1) as nat);
    }
}

impl Memory {
    /// The physical address behind an address of the active process or of the kernel.
    pub open spec fn phys_at(self, virt: u64, is_user: bool) -> Option<u64> {
        if !self.is_init {
            Some(virt)
        } else if is_user {
            virtual_allocator::phys_of(self.active().alloc, 0, virt as int)
        } else {
            virtual_allocator::phys_of(self.kernel.alloc, 0, virt as int)
        }
    }
}

impl MemoryManager {
    /// The physical address behind an address of the active process or of the kernel.
    pub fn backing_address(&self, virt_addr: u64, is_user: bool) -> (r: Option<u64>)
        requires
            self.well_formed(),
        ensures
            r == self@.phys_at(virt_addr, is_user),
    {
        assert(has_flag(USER, USER) && !has_flag(0, USER)) by {
            assert(2u8 & 2u8 != 0 && 0u8 & 2u8 == 0) by (bit_vector);
        }
        let flags: u8 = if is_user { USER } else { 0 };
        self.get_physical_address(virt_addr, flags)
    }

    /// Maps a page for access to a page table of process `proc_id`.
    pub fn map_page_table(&mut self, virt_addr: u64, phy_addr: u64, proc_id: u64) -> (r: Result<(), KError>)
        requires
            old(self).well_formed(),
            old(self).is_init ==> proc_id != 0,
            virt_addr + 4096 <= u64::MAX,
            phy_addr + 4096 <= u64::MAX,
        ensures
            (final(self)@, r) == old(self)@.table_mapped(virt_addr, phy_addr),
            final(self).well_formed(),
    {
        if !self.is_init {
            return Ok(());
        }
        assert(!has_flag(0, USER)) by {
            assert(0u8 & 2u8 == 0) by (bit_vector);
        }
        match &mut self.process {
            Some(p) => p.map_memory(phy_addr, virt_addr, PAGE_SIZE, 0, false),
            None => self.kernel.map_memory(phy_addr, virt_addr, PAGE_SIZE, 0, false),
        }
    }

    /// Unmaps a page that gave access to a page table of process `proc_id`.
    pub fn unmap_page_table(&mut self, virt_addr: u64, proc_id: u64) -> (r: Result<(), KError>)
        requires
            old(self).well_formed(),
            old(self).is_init ==> proc_id != 0,
        ensures
            (final(self)@, r) == old(self)@.table_unmapped(virt_addr),
            final(self).well_formed(),
    {
        if !self.is_init {
            return Ok(());
        }
        let got: Result<u64, KError> = match &mut self.process {
            Some(p) => p.unmap_memory(virt_addr, PAGE_SIZE, false, false),
            None => self.kernel.unmap_memory(virt_addr, PAGE_SIZE, false, false),
        };
        match got {
            Ok(_) => Ok(()),
            Err(e) => Err(e),
        }
    }

    /// Takes the page tables of an address space apart, which needs four pages of the kernel's for a
    /// while. The space is not the active one. What the kernel has set aside stays as it was.
    pub fn destroy_address_space(&mut self, _space: VirtMemConBlk)
        requires
            old(self).well_formed(),
            pages_reserved(old(self)@.kernel, 4).1 is Some,
        ensures
            final(self).well_formed(),
            final(self).phys == old(self).phys,
            final(self).process == old(self).process,
            final(self).is_init == old(self).is_init,
            final(self).invalidated == old(self).invalidated,
            final(self)@.kernel == pages_released(
                pages_reserved(old(self)@.kernel, 4).0, pages_reserved(old(self)@.kernel, 4).1->0, 4),
            final(self)@.kernel.alloc == old(self)@.kernel.alloc,
            final(self)@.kernel.avl == old(self)@.kernel.avl,
    {
        let ghost kept = self.kernel@.alloc;
        match get_page_reserve(&mut self.kernel) {
            Err(_) => {},
            Ok(pages) => {
                remove_page_reserve(&mut self.kernel, &pages, Ghost(kept));
            },
        }
    }

    /// Gives physical regions back, up to the first that cannot be.
    pub fn free_regions(&mut self, list: &Vec<MemoryRegion>) -> (r: Result<(), KError>)
        requires
            old(self).well_formed(),
        ensures
            (final(self)@, r) == old(self)@.regions_freed(list@, list@.len()),
            final(self).well_formed(),
    {
        let ghost m0 = self@;
        let mut i: usize = 0;
        while i < list.len()
            invariant
                i <= list@.len(),
                m0 == old(self)@,
                self.well_formed(),
                (self@, Ok::<(), KError>(())) == m0.regions_freed(list@, i as nat),
            decreases list@.len() - i,
        {
            if let Err(e) = self.phys.deallocate(list[i].base_address, list[i].size, PAGE_SIZE) {
                proof {
                    assert((self@, Err::<(), KError>(e)) == m0.regions_freed(list@, (i + 1) as nat));
                    lemma_freed_stuck(m0, list@, (i + 1) as nat, list@.len());
                }
                return Err(e);
            }
            i = i + 1;
        }
        Ok(())
    }
}

/// What a page fault leads to.
#[derive(Clone, Copy, Debug, PartialEq, Eq, Structural)]
pub enum FaultOutcome {
    /// The process that caused it is killed.
    ProcessKilled,
    /// The kernel stops, naming the address.
    KernelPanic(u64),
}

/// A fault is the end of the user process that caused it, and one of the kernel is the kernel's.
pub fn on_page_fault(fault_address: u64, in_user_process: bool) -> (r: FaultOutcome)
    ensures
        r == (if in_user_process { FaultOutcome::ProcessKilled } else { FaultOutcome::KernelPanic(fault_address) }),
{
    if in_user_process { FaultOutcome::ProcessKilled } else { FaultOutcome::KernelPanic(fault_address) }
}

/// Physical memory as the memory map describes it.
pub open spec fn boot_frames(map: Seq<frame_allocator::MemoryDesc>, node_limit: usize) -> Frames {
    let b = frame_allocator::boot_memory(map, map.len());
    Frames {
        total: b.total as u64,
        avl: b.avl as u64,
        high: frame_allocator::ARCH_PHY_UPPER_LIMIT,
        low: frame_allocator::ARCH_PHY_LOWER_LIMIT,
        free: b.free,
        alloc: b.alloc,
        node_limit,
    }
}

/// The remaps asked for, and the regions of the memory map that keep their address.
pub open spec fn all_remaps(items: Seq<RemapEntry>, regions: Seq<MemoryRegion>) -> Seq<RemapEntry> {
    items + regions.map_values(
        |g: MemoryRegion| RemapEntry { value: g, map_type: RemapType::IdentityMapped, flags: 0 })
}

/// The memory manager of a machine that has just booted.
pub struct BootMemory {
    pub memory: MemoryManager,
    /// Pages that become free once the boot data has been consumed.
    pub bootloader_regions: Vec<block::PageDescriptor>,
    pub moved: Vec<(RemapTarget, u64)>,
    pub stack: u64,
}

/// Sets memory up: first the physical memory, then the kernel's address space.
pub fn init(map: &Vec<frame_allocator::MemoryDesc>, node_limit: usize, items: Vec<RemapEntry>, st: StackLayout)
    -> (r: BootMemory)
    requires
        frame_allocator::boot_memory(map@, map@.len()).total <= u64::MAX,
        frame_allocator::map_sound(map@),
        remaps_sound(all_remaps(items@, frame_allocator::boot_memory(map@, map@.len()).identity)),
        st.guard_size + util::align_up_spec(st.stack_size as int, 4096)
            <= util::align_up_spec(st.total_size as int, 4096),
        boot_space(
            boot_frames(map@, node_limit),
            all_remaps(items@, frame_allocator::boot_memory(map@, map@.len()).identity),
            st,
        ) is Some,
    ensures
        r.memory.well_formed(),
        r.memory.is_init,
        r.memory.process is None,
        r.memory.invalidated@.len() == 0,
        r.bootloader_regions@ == frame_allocator::boot_memory(map@, map@.len()).boot,
        Some((r.memory.kernel@, r.moved@, r.stack, r.memory.phys@)) == boot_space(
            boot_frames(map@, node_limit),
            all_remaps(items@, frame_allocator::boot_memory(map@, map@.len()).identity),
            st,
        ),
{
    let f: frame_allocator::FrameInit = frame_allocator::frame_allocator_init(map, node_limit);
    let mut phys: PhyMemConBlk = f.cb;
    let mut remaps: Vec<RemapEntry> = items;
    let ghost regions = f.identity@;
    let mut i: usize = 0;
    assert(all_remaps(items@, regions.take(0)) =~= items@);
    while i < f.identity.len()
        invariant
            i <= f.identity@.len(),
            regions == f.identity@,
            remaps@ == all_remaps(items@, regions.take(i as int)),
        decreases f.identity@.len() - i,
    {
        remaps.push(RemapEntry { value: f.identity[i], map_type: RemapType::IdentityMapped, flags: 0 });
        assert(all_remaps(items@, regions.take(i + 1)) =~= remaps@);
        i = i + 1;
    }
    assert(regions.take(i as int) =~= regions);
    assert(phys@ =~= boot_frames(map@, node_limit));
    let b: BootSpace = virtual_allocator_init(&mut phys, &remaps, st);
    BootMemory {
        memory: MemoryManager { is_init: true, phys, kernel: b.kernel, process: None, invalidated: Vec::new() },
        bootloader_regions: f.bootloader_regions,
        moved: b.moved,
        stack: b.stack,
    }
}

proof fn lemma_frames_back(p: PhyMemConBlk, size: u64, align: u64, page: int)
    requires
        p.well_formed(),
        p@.allocated(size, align).1 is Ok,
    ensures
        ({
            let (f, r) = p@.allocated(size, align);
            let (g, back) = f.deallocated(r->Ok_0, size, align);
            &&& back is Ok
            &&& g.avl == p@.avl
            &&& block::pages_in(g.free) == block::pages_in(p@.free)
            &&& (exists|k: int| 0 <= k < g.free.len() && (#[trigger] g.free[k]).holds_phys(page))
                <==> (exists|k: int| 0 <= k < p@.free.len() && (#[trigger] p@.free[k]).holds_phys(page))
        }),
{
    let pages = util::ceil_div_spec(size as int, 4096);
    frame_allocator::law_allocate_then_deallocate(p, pages, page);
    frame_allocator::law_best_fit(p@.free, p@.free.len(), pages, p@.low, p@.high);
    let i = p@.choice(pages)->0;
    block::lemma_pages_at_least(p@.free, i);
}

/// What a space is like once memory was handed out from it, mapped, unmapped and given back.
spec fn given_back_space(s: Space, phys: u64, size: u64, align: u64, flags: u8, skip: bool) -> Space {
    let user = has_flag(flags, USER);
    let (w, r) = s.allocated(size, align, user);
    let x = w.mapped(phys, r->Ok_0, size, flags, skip).0;
    let y = x.unmapped(r->Ok_0, size, user, skip).0;
    y.deallocated(r->Ok_0, size, align).0
}

proof fn lemma_spaces_back(m: Memory, size: u64, align: u64, flags: u8)
    requires
        m.spaces_formed(),
        m.is_init,
        has_flag(flags, VIRTUAL),
        !has_flag(flags, NO_ALLOC),
        has_flag(flags, USER) ==> m.process is Some,
        size > 0,
        m.allocated(size, align, flags).1 is Ok,
    ensures
        ({
            let user = has_flag(flags, USER);
            let (f, got) = m.phys.allocated(size, align);
            let skip = !user && m.process is Some;
            let (m1, r) = m.allocated(size, align, flags);
            let (m2, back) = m1.deallocated(r->Ok_0, size, align, flags);
            let (g, rp) = f.deallocated(got->Ok_0, size, align);
            let s = given_back_space(if user { m.process->0 } else { m.kernel }, got->Ok_0, size, align, flags, skip);
            &&& got is Ok
            &&& got->Ok_0 % 4096 == 0
            &&& back == rp
            &&& m2.phys == g
            &&& user ==> m2.kernel == m.kernel && m2.process == Some(s)
            &&& !user ==> m2.kernel == s && (match m.process {
                Some(p) => m2.process matches Some(q) && q.alloc == p.alloc && q.free == p.free && q.avl == p.avl,
                None => m2.process is None,
            })
        }),
{
    let user = has_flag(flags, USER);
    let (f, got) = m.phys.allocated(size, align);
    let phys = got->Ok_0;
    let skip = !user && m.process is Some;
    let space = if user { m.process->0 } else { m.kernel };
    let (w, r) = space.allocated(size, align, user);
    let addr = r->Ok_0;
    assert(r is Ok);
    assert(got is Ok);
    let (x, rm) = w.mapped(phys, addr, size, flags, skip);
    assert(rm is Ok && phys % 4096 == 0);
    virtual_allocator::law_allocate_map_and_give_back(space, size, align, phys, flags, skip);
    let (y, ru) = x.unmapped(addr, size, user, skip);
    assert(addr % 4096 == 0);
    let m1 = m.allocated(size, align, flags).0;
    let (m4, r4) = m1.released(addr, size, flags);
    if user {
        assert(m1 == (Memory { process: Some(x), phys: f, ..m }));
        assert(m4 == (Memory { process: Some(y), ..m1 }) && r4 == Ok::<u64, KError>(phys));
    } else if m.process is Some {
        let p = m.process->0;
        assert(m1.kernel == x && m1.phys == f);
        assert(m4.kernel == y && m4.phys == f && r4 == Ok::<u64, KError>(phys));
    } else {
        assert(m1 == (Memory { kernel: x, phys: f, ..m }));
        assert(m4.kernel == y && m4.phys == f && r4 == Ok::<u64, KError>(phys));
    }
}

/// Memory that has been handed out can be given back, whatever it was asked for with. Then the same
/// blocks of address space are handed out as before, and as many bytes of address space and the same
/// physical pages are free.
pub proof fn law_memory_given_back(mm: MemoryManager, size: u64, align: u64, flags: u8, page: int)
    requires
        mm.well_formed(),
        mm.is_init,
        has_flag(flags, VIRTUAL),
        !has_flag(flags, NO_ALLOC),
        has_flag(flags, USER) ==> mm.process is Some,
        size > 0,
        mm@.allocated(size, align, flags).1 is Ok,
    ensures
        ({
            let m = mm@;
            let (m1, r) = m.allocated(size, align, flags);
            let (m2, back) = m1.deallocated(r->Ok_0, size, align, flags);
            &&& back is Ok
            &&& m2.kernel.alloc == m.kernel.alloc && m2.kernel.avl == m.kernel.avl
            &&& m2.active().alloc == m.active().alloc && m2.active().avl == m.active().avl
            &&& block::pages_in(m2.kernel.free) == block::pages_in(m.kernel.free)
            &&& block::pages_in(m2.active().free) == block::pages_in(m.active().free)
            &&& m2.phys.avl == m.phys.avl
            &&& block::pages_in(m2.phys.free) == block::pages_in(m.phys.free)
            &&& (exists|k: int| 0 <= k < m2.phys.free.len() && (#[trigger] m2.phys.free[k]).holds_phys(page))
                <==> (exists|k: int| 0 <= k < m.phys.free.len() && (#[trigger] m.phys.free[k]).holds_phys(page))
        }),
{
    let m = mm@;
    let user = has_flag(flags, USER);
    let phys = m.phys.allocated(size, align).1->Ok_0;
    let skip = !user && m.process is Some;
    lemma_spaces_back(m, size, align, flags);
    lemma_frames_back(mm.phys, size, align, page);
    virtual_allocator::law_allocate_map_and_give_back(
        if user { m.process->0 } else { m.kernel }, size, align, phys, flags, skip);
}

/// Every byte of memory that has been handed out leads to a physical byte, the next to the next.
pub proof fn law_memory_is_mapped(m: Memory, size: u64, align: u64, flags: u8, at: int)
    requires
        m.spaces_formed(),
        m.allocated(size, align, flags).0.spaces_formed(),
        m.is_init,
        has_flag(flags, VIRTUAL),
        !has_flag(flags, NO_ALLOC),
        has_flag(flags, USER) ==> m.process is Some,
        m.allocated(size, align, flags).1 is Ok,
        0 <= at < size,
    ensures
        m.phys.allocated(size, align).1 matches Ok(phys) && m.allocated(size, align, flags).0.phys_at(
            (m.allocated(size, align, flags).1->Ok_0 + at) as u64, has_flag(flags, USER)) == Some((phys + at) as u64),
{
    let user = has_flag(flags, USER);
    let skip = !user && m.process is Some;
    let space = if user { m.process->0 } else { m.kernel };
    let phys = m.phys.allocated(size, align).1->Ok_0;
    let (w, r) = space.allocated(size, align, user);
    lemma_space_result(space, size, align, user);
    virtual_allocator::law_map_then_look_up(w, phys, r->Ok_0, size, flags, skip, at);
}

/// What a process asks for is its own: the kernel's books stay as they are. What the kernel asks for
/// is entered in its books alone, and so is the same for every process.
pub proof fn law_own_books(m: Memory, addr: u64, size: u64, align: u64, flags: u8)
    requires
        m.spaces_formed(),
        m.is_init,
        has_flag(flags, VIRTUAL),
        m.process is Some,
    ensures
        ({
            let p = m.process->0;
            let given = m.allocated(size, align, flags).0;
            let taken = m.deallocated(addr, size, align, flags).0;
            &&& has_flag(flags, USER) ==> given.kernel == m.kernel && taken.kernel == m.kernel
            &&& !has_flag(flags, USER) ==> {
                &&& given.process matches Some(q) && q.alloc == p.alloc && q.free == p.free && q.avl == p.avl
                &&& taken.process matches Some(q) && q.alloc == p.alloc && q.free == p.free && q.avl == p.avl
            }
        }),
{
}

} // verus!
