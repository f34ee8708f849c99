use vstd::prelude::*;
use crate::error::KError;
use crate::mem::manager;
use crate::mem::manager::{Memory, MemoryManager};
use crate::mem::virtual_allocator::VirtMemConBlk;
use crate::pipe;
use crate::pipe::{PipeTable, PipeType};
use crate::sched::pipe_call;
use crate::sched::pipe_call::close_handles;
use crate::sched::proc::ProcessCleanupWork;

verus! {

/// What is left of processes that have ended, for the worker that frees it, oldest first.
pub struct CleanupQueue {
    pub works: Vec<ProcessCleanupWork>,
    pub started: bool,
    pub signalled: bool,
}

impl CleanupQueue {
    /// The worker waits for something to do.
    pub fn init() -> (r: CleanupQueue)
        ensures
            r.works@.len() == 0,
            r.started,
            !r.signalled,
    {
        CleanupQueue { works: Vec::new(), started: true, signalled: false }
    }

    /// Leaves a piece of work to the worker.
    pub fn enqueue_cleanup(&mut self, work: ProcessCleanupWork)
        requires
            old(self).started,
        ensures
            final(self).works@ == old(self).works@.push(work),
            final(self).signalled,
            final(self).started,
    {
        self.works.push(work);
        self.signalled = true;
    }

    /// Takes the oldest piece of work.
    pub fn pop_one(&mut self) -> (r: Option<ProcessCleanupWork>)
        ensures
            r == (if old(self).works@.len() == 0 { None } else { Some(old(self).works@[0]) }),
            final(self).works@ == (if r is None { old(self).works@ } else { old(self).works@.skip(1) }),
            final(self).started == old(self).started,
            final(self).signalled == old(self).signalled,
    {
        if self.works.len() == 0 {
            return None;
        }
        let ghost q0 = self.works@;
        let w: ProcessCleanupWork = self.works.remove(0);
        assert(self.works@ =~= q0.skip(1));
        Some(w)
    }
}

/// The page tables of an address space have been taken apart, with four pages of the kernel's that are
/// given back afterwards.
pub open spec fn space_destroyed(m: Memory) -> Memory {
    let (k, pages) = manager::pages_reserved(m.kernel, 4);
    Memory { kernel: manager::pages_released(k, pages->0, 4), ..m }
}

/// Frees what a process leaves behind: its handles, its address space, then its physical memory. Gives
/// the pipes whose readers are to be told that nothing more will come.
pub fn release_process(memory: &mut MemoryManager, pipes: &mut PipeTable, work: &ProcessCleanupWork, space: VirtMemConBlk)
    -> (r: (Result<(), KError>, Vec<u64>))
    requires
        old(memory).well_formed(),
        manager::pages_reserved(old(memory)@.kernel, 4).1 is Some,
        old(pipes).well_formed(),
        forall|e: PipeType| #[trigger] pipe::ends(old(pipes).pipes@, e) >= pipe_call::held(
            work.handles@, work.handles@.len(), e),
    ensures
        final(memory).well_formed(),
        (final(memory)@, r.0) == space_destroyed(old(memory)@).regions_freed(work.memory_list@, work.memory_list@.len()),
        final(memory)@.kernel.alloc == old(memory)@.kernel.alloc,
        final(memory)@.kernel.avl == old(memory)@.kernel.avl,
        final(memory)@.process == old(memory)@.process,
        final(pipes).pipes@ == pipe_call::all_given_up(old(pipes).pipes@, work.handles@, work.handles@.len()),
        final(pipes).next_id == old(pipes).next_id,
        final(pipes).well_formed(),
        r.1@ == pipe_call::all_ended(old(pipes).pipes@, work.handles@, work.handles@.len()),
{
    let told: Vec<u64> = close_handles(pipes, &work.handles);
    let ghost m0 = memory@;
    memory.destroy_address_space(space);
    assert(memory@ =~= space_destroyed(m0));
    proof {
        manager::lemma_freed_phys_only(memory@, work.memory_list@, work.memory_list@.len());
    }
    (memory.free_regions(&work.memory_list), told)
}

/// One round of the worker: the oldest piece of work is taken and freed. `space` is the address space
/// that it names.
pub fn clean_one(queue: &mut CleanupQueue, memory: &mut MemoryManager, pipes: &mut PipeTable, space: VirtMemConBlk)
    -> (r: Option<(Result<(), KError>, Vec<u64>)>)
    requires
        old(memory).well_formed(),
        manager::pages_reserved(old(memory)@.kernel, 4).1 is Some,
        old(pipes).well_formed(),
        old(queue).works@.len() > 0 ==> forall|e: PipeType| #[trigger] pipe::ends(old(pipes).pipes@, e)
            >= pipe_call::held(old(queue).works@[0].handles@, old(queue).works@[0].handles@.len(), e),
    ensures
        final(queue).started == old(queue).started,
        final(queue).signalled == old(queue).signalled,
        old(queue).works@.len() == 0 ==> r is None && final(queue).works@ == old(queue).works@ && *final(memory)
            == *old(memory) && *final(pipes) == *old(pipes),
        old(queue).works@.len() > 0 ==> {
            let w = old(queue).works@[0];
            &&& final(queue).works@ == old(queue).works@.skip(1)
            &&& r matches Some((done, told)) && (final(memory)@, done) == space_destroyed(old(memory)@).regions_freed(
                w.memory_list@, w.memory_list@.len()) && told@ == pipe_call::all_ended(
                old(pipes).pipes@, w.handles@, w.handles@.len())
            &&& final(pipes).pipes@ == pipe_call::all_given_up(old(pipes).pipes@, w.handles@, w.handles@.len())
            &&& final(pipes).next_id == old(pipes).next_id
        },
        final(memory).well_formed(),
        final(pipes).well_formed(),
{
    match queue.pop_one() {
        None => None,
        Some(w) => Some(release_process(memory, pipes, &w, space)),
    }
}

} // verus!
