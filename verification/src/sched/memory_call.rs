//! What the system calls do by which a process asks for memory and gives it back.

use vstd::prelude::*;
use crate::loader::image::MemoryRegion;
use crate::mem::block::{NO_ALLOC, USER, VIRTUAL};
use crate::mem::manager;
use crate::mem::manager::{Memory, MemoryManager};
use crate::mem::virtual_allocator;
use crate::sched::proc;
use crate::sched::proc::{Proc, ProcessTable};
use crate::sched::user;
use crate::sched::user::SysError;
use crate::util;
use crate::util::PAGE_SIZE;

verus! {

/// Memory with physical pages in the address space of the running process.
pub const USER_MEMORY: u8 = 3;

/// Whether the running process can be told something at an address.
pub open spec fn can_be_told(m: Memory, out: u64) -> bool {
    virtual_allocator::range_covered(m.active().alloc, out as int, out + 8)
}

/// Hands memory to the calling process, which is told its address at `out`. Memory that the process
/// cannot be told of is taken back.
pub fn sys_allocate_memory_handler(procs: &mut ProcessTable, memory: &mut MemoryManager, cur: u64, size: u64, out: u64)
    -> (r: Result<u64, SysError>)
    requires
        old(procs)@.well_formed(),
        old(procs)@.proc(cur) is Some,
        old(memory).well_formed(),
        old(memory).is_init,
        old(memory).process is Some,
        size > 0,
        out + 8 <= u64::MAX,
    ensures
        size + PAGE_SIZE - 1 > i64::MAX ==> r == Err::<u64, SysError>(SysError::Invalid) && final(memory)@ == old(memory)@
            && final(procs)@ == old(procs)@,
        size + PAGE_SIZE - 1 <= i64::MAX ==> {
            let (m, got) = old(memory)@.allocated(size, PAGE_SIZE, USER_MEMORY);
            match got {
                Err(_) => r == Err::<u64, SysError>(SysError::OutOfMemory) && final(memory)@ == m && final(procs)@
                    == old(procs)@,
                Ok(addr) => if can_be_told(m, out) {
                    let p = old(procs)@.proc(cur)->0;
                    &&& r == Ok::<u64, SysError>(addr)
                    &&& final(memory)@ == m
                    &&& final(procs)@ == old(procs)@.with_proc(Proc {
                        memory: p.memory.push(MemoryRegion { base_address: m.phys_at(addr, true)->0, size }),
                        ..p
                    })
                } else {
                    &&& r == Err::<u64, SysError>(SysError::InvalidMemoryRange)
                    &&& final(memory)@ == m.deallocated(addr, size, PAGE_SIZE, USER_MEMORY).0
                    &&& final(procs)@ == old(procs)@
                },
            }
        },
        final(procs)@.well_formed(),
        final(memory).well_formed(),
{
    if !user::layout_fits(size) {
        return Err(SysError::Invalid);
    }
    assert(manager::has_flag(USER_MEMORY, VIRTUAL) && manager::has_flag(USER_MEMORY, USER)) by {
        assert(3u8 & 1u8 != 0 && 3u8 & 2u8 != 0) by (bit_vector);
    }
    assert(!manager::has_flag(USER_MEMORY, NO_ALLOC)) by {
        assert(3u8 & 4u8 == 0) by (bit_vector);
    }
    let ghost m0 = *memory;
    match memory.allocate_memory(size, PAGE_SIZE, USER_MEMORY) {
        Err(_) => Err(SysError::OutOfMemory),
        Ok(addr) => {
            if memory.copy_to_user(out, 8).is_err() {
                proof {
                    manager::law_memory_given_back(m0, size, PAGE_SIZE, USER_MEMORY, 0);
                }
                let _ = memory.deallocate_memory(addr, size, PAGE_SIZE, USER_MEMORY);
                return Err(SysError::InvalidMemoryRange);
            }
            proof {
                manager::law_memory_is_mapped(m0@, size, PAGE_SIZE, USER_MEMORY, 0);
            }
            procs.add_memory_range_to_cur_process(cur, memory, addr, size, true);
            Ok(addr)
        },
    }
}

/// Takes memory back from the calling process. The physical memory behind it is looked up before it is
/// unmapped, and is the process's no longer.
pub fn sys_deallocate_memory_handler(procs: &mut ProcessTable, memory: &mut MemoryManager, cur: u64, addr: u64, size: u64)
    -> (r: Result<(), SysError>)
    requires
        old(procs)@.well_formed(),
        old(procs)@.proc(cur) is Some,
        old(memory).well_formed(),
        old(memory).is_init,
        old(memory).process is Some,
        0 < size && size + PAGE_SIZE - 1 <= i64::MAX ==> {
            &&& old(memory)@.active().avl + util::align_up_spec(size as int, 4096) <= u64::MAX
            &&& old(memory)@.deallocated(addr, size, PAGE_SIZE, USER_MEMORY).1 is Ok ==> (old(memory)@.phys_at(addr, true)
                matches Some(phys) && proc::find_range(old(procs)@.proc(cur)->0.memory, 0, phys, size) is Some)
        },
    ensures
        size == 0 || size + PAGE_SIZE - 1 > i64::MAX ==> r == Err::<(), SysError>(SysError::Invalid) && final(memory)@
            == old(memory)@ && final(procs)@ == old(procs)@,
        0 < size && size + PAGE_SIZE - 1 <= i64::MAX ==> {
            let (m, gone) = old(memory)@.deallocated(addr, size, PAGE_SIZE, USER_MEMORY);
            let p = old(procs)@.proc(cur)->0;
            &&& final(memory)@ == m
            &&& gone is Err ==> r == Err::<(), SysError>(SysError::Invalid) && final(procs)@ == old(procs)@
            &&& gone is Ok ==> r == Ok::<(), SysError>(()) && final(procs)@ == old(procs)@.with_proc(Proc {
                memory: p.memory.remove(proc::find_range(p.memory, 0, old(memory)@.phys_at(addr, true)->0, size)->0),
                ..p
            })
        },
        final(procs)@.well_formed(),
        final(memory).well_formed(),
{
    if size == 0 || !user::layout_fits(size) {
        return Err(SysError::Invalid);
    }
    assert(manager::has_flag(USER_MEMORY, VIRTUAL) && manager::has_flag(USER_MEMORY, USER)) by {
        assert(3u8 & 1u8 != 0 && 3u8 & 2u8 != 0) by (bit_vector);
    }
    let base: Option<u64> = memory.backing_address(addr, true);
    match memory.deallocate_memory(addr, size, PAGE_SIZE, USER_MEMORY) {
        Err(_) => Err(SysError::Invalid),
        Ok(()) => {
            if let Some(b) = base {
                procs.forget_memory_range(cur, b, size);
            }
            Ok(())
        },
    }
}

} // verus!
