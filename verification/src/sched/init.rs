//! How a new process begins to run.

use vstd::prelude::*;
use crate::error::KError;
use crate::sched::handle::{Handle, HandleKind};
use crate::sched::proc::{Proc, ProcessStatus, ProcessTable};
use crate::sched::scheduler::Scheduler;
use crate::sched::syscall;
use crate::sched::user;
use crate::util;

verus! {

/// How the first thread of a user process goes on.
#[derive(Debug)]
pub enum UserStart {
    /// The process ends with an exit code.
    Exit(i64),
    /// The block goes on the user stack, and the thread enters user code, once it has been resumed if
    /// it has to be.
    Enter { entry: u64, rsp: u64, block: Vec<u8>, suspend: bool },
}

/// Goes on with a user process once it is known what came of loading its image. Whoever waits for the
/// process to be set up is told.
pub fn user_init_handler(procs: &mut ProcessTable, sched: &mut Scheduler, id: u64, loaded: Result<u64, KError>,
    stack_top: u64, envp: &Vec<Vec<u8>>) -> (r: UserStart)
    requires
        old(procs)@.well_formed(),
        old(sched)@.well_formed(),
        old(procs)@.proc(id) matches Some(p) && p.init_notify < old(sched).sems@.len() && user::block_len(
            p.args, util::strings(envp@)) <= stack_top,
    ensures
        ({
            let p = old(procs)@.proc(id)->0;
            &&& final(procs)@ == old(procs)@.with_proc(Proc { init_status: loaded is Ok, ..p })
            &&& final(sched)@ == old(sched)@.signalled(p.init_notify as int)
            &&& match loaded {
                Err(_) => r matches UserStart::Exit(code) && code == -1,
                Ok(entry) => r matches UserStart::Enter { entry: e, rsp, block, suspend } && {
                    &&& e == entry
                    &&& user::laid_out(stack_top as int, rsp as int, block@, p.args, util::strings(envp@))
                    &&& suspend == (p.status == ProcessStatus::Suspended)
                },
            }
        }),
        final(procs)@.well_formed(),
        final(sched)@.well_formed(),
{
    let i: usize = match procs.find(id) { Some(i) => i, None => { return UserStart::Exit(-1); } };
    let ghost v0 = procs@;
    procs.procs[i].complete_init(sched, loaded.is_ok());
    assert(procs@.procs =~= v0.procs.update(i as int, Proc { init_status: loaded is Ok, ..v0.procs[i as int] }));
    match loaded {
        Err(_) => UserStart::Exit(-1),
        Ok(entry) => {
            let (rsp, block) = user::push_args_and_envp_to_user_stack(stack_top, procs.procs[i].get_args(), envp);
            let suspend: bool = procs.procs[i].get_status() == ProcessStatus::Suspended;
            UserStart::Enter { entry, rsp, block, suspend }
        },
    }
}

/// Goes on with a process of the kernel once it is known what came of loading its image: its number
/// and where it is entered. The process keeps a handle for its image. Without an image it ends.
pub fn kernel_init_handler(procs: &mut ProcessTable, id: u64, loaded: Result<(u64, u64), KError>)
    -> (r: Result<u64, i64>)
    requires
        old(procs)@.well_formed(),
        old(procs)@.proc(id) is Some,
    ensures
        match loaded {
            Err(_) => (r matches Err(code) && code == -1) && final(procs)@ == old(procs)@,
            Ok((image, entry)) => {
                &&& r == Ok::<u64, i64>(entry)
                &&& final(procs)@ == syscall::handle_given(
                    old(procs)@, id, Handle { kind: HandleKind::Image, object: image }, false).0
            },
        },
        final(procs)@.well_formed(),
{
    match loaded {
        Err(_) => Err(-1),
        Ok((image, entry)) => {
            let _ = procs.add_handle_to_proc(id, Handle { kind: HandleKind::Image, object: image }, false);
            Ok(entry)
        },
    }
}

} // verus!
