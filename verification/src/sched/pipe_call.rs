//! Handles for the ends of pipes, from the making of a pipe to the closing of its last handle.

use vstd::prelude::*;
use crate::error::KError;
use crate::pipe;
use crate::pipe::{Pipe, PipeTable, PipeType};
use crate::sched::file_call::store_word;
use crate::sched::handle;
use crate::sched::handle::{Handle, HandleKind, HandleType};
use crate::sched::proc;
use crate::sched::proc::{Proc, ProcessParts, ProcessTable, Procs, Work};
use crate::sched::scheduler::Scheduler;
use crate::sched::syscall;
use crate::sched::syscall::{ProcessRequest, duplicate_handle, find_handle};
use crate::sched::user;
use crate::sched::user::{Stretch, SysError, UserMemory};
use crate::util;

verus! {

/// The end of a pipe that a handle stands for.
pub open spec fn end_of(h: Handle) -> Option<PipeType> {
    match h.kind {
        HandleKind::PipeRead => Some(PipeType { pipe: h.object, is_reader: true }),
        HandleKind::PipeWrite => Some(PipeType { pipe: h.object, is_reader: false }),
        _ => None,
    }
}

fn pipe_end(h: Handle) -> (r: Option<PipeType>)
    ensures
        r == end_of(h),
{
    match h.kind {
        HandleKind::PipeRead => Some(PipeType { pipe: h.object, is_reader: true }),
        HandleKind::PipeWrite => Some(PipeType { pipe: h.object, is_reader: false }),
        _ => None,
    }
}

/// Whether a place of a table holds a handle for an end.
pub open spec fn stands_for(h: Option<HandleType>, e: PipeType) -> bool {
    h matches Some(t) && end_of(t.handle_info) == Some(e)
}

pub open spec fn one_if(b: bool) -> nat {
    if b { 1 } else { 0 }
}

/// How many of the first `n` places of a table hold a handle for an end.
pub open spec fn held(t: Seq<Option<HandleType>>, n: nat, e: PipeType) -> nat
    decreases n,
{
    if n == 0 { 0 } else { held(t, (n - 1) as nat, e) + one_if(stands_for(t[n - 1], e)) }
}

/// How many handles for an end the first `n` of some processes have.
pub open spec fn held_by(p: Seq<Proc>, n: nat, e: PipeType) -> nat
    decreases n,
{
    if n == 0 { 0 } else { held_by(p, (n - 1) as nat, e) + held(p[n - 1].handles, p[n - 1].handles.len(), e) }
}

/// How many handles for an end the first `n` of some ended processes have left behind.
pub open spec fn held_in(w: Seq<Work>, n: nat, e: PipeType) -> nat
    decreases n,
{
    if n == 0 { 0 } else { held_in(w, (n - 1) as nat, e) + held(w[n - 1].handles, w[n - 1].handles.len(), e) }
}

/// All handles for an end, of the processes and of what has been left behind.
pub open spec fn handles_for(p: Procs, w: Seq<Work>, e: PipeType) -> nat {
    held_by(p.procs, p.procs.len(), e) + held_in(w, w.len(), e)
}

/// Every handle for an end of a pipe is counted there, and nothing else is.
pub open spec fn balanced(s: Seq<Pipe>, p: Procs, w: Seq<Work>) -> bool {
    forall|e: PipeType| #[trigger] pipe::ends(s, e) == handles_for(p, w, e)
}

/// Every handle that a process has for an end of a pipe is counted there.
pub open spec fn covers(s: Seq<Pipe>, p: Procs) -> bool {
    forall|e: PipeType| #[trigger] pipe::ends(s, e) >= held_by(p.procs, p.procs.len(), e)
}

/// A handle has been copied.
pub open spec fn copied(s: Seq<Pipe>, h: Handle) -> Seq<Pipe> {
    match end_of(h) { Some(e) => pipe::with_end(s, e), None => s }
}

/// What a place of a table held has been given up.
pub open spec fn given_up(s: Seq<Pipe>, h: Option<HandleType>) -> Seq<Pipe> {
    match h {
        Some(t) => match end_of(t.handle_info) { Some(e) => pipe::without_end(s, e), None => s },
        None => s,
    }
}

/// The pipe whose readers are told that nothing more will come, once what a place held has been given
/// up.
pub open spec fn ended_by(s: Seq<Pipe>, h: Option<HandleType>) -> Option<u64> {
    match h {
        Some(t) => match end_of(t.handle_info) {
            Some(e) => if pipe::last_writer(s, e) { Some(e.pipe) } else { None },
            None => None,
        },
        None => None,
    }
}

/// What the place of a table holds.
pub open spec fn slot(t: Seq<Option<HandleType>>, i: int) -> Option<HandleType> {
    if 0 <= i < t.len() { t[i] } else { None }
}

proof fn lemma_held_same(t: Seq<Option<HandleType>>, u: Seq<Option<HandleType>>, n: nat, e: PipeType)
    requires
        forall|i: int| 0 <= i < n ==> stands_for(#[trigger] t[i], e) == stands_for(u[i], e),
    ensures
        held(t, n, e) == held(u, n, e),
    decreases n,
{
    if n > 0 {
        lemma_held_same(t, u, (n - 1) as nat, e);
        assert(stands_for(t[n - 1], e) == stands_for(u[n - 1], e));
    }
}

/// A table with another thing at one place.
proof fn lemma_held_changed(t: Seq<Option<HandleType>>, n: nat, i: int, h: Option<HandleType>, e: PipeType)
    requires
        0 <= i < t.len(),
        n <= t.len(),
    ensures
        held(t.update(i, h), n, e) == (if i < n {
            held(t, n, e) + one_if(stands_for(h, e)) - one_if(stands_for(t[i], e))
        } else {
            held(t, n, e) as int
        }),
        stands_for(t[i], e) && i < n ==> held(t, n, e) > 0,
    decreases n,
{
    if n > 0 {
        lemma_held_changed(t, (n - 1) as nat, i, h, e);
    }
}

proof fn lemma_held_removed(t: Seq<Option<HandleType>>, i: int, e: PipeType)
    ensures
        ({
            let r = handle::handle_removed(t, i);
            held(r, r.len(), e) + one_if(stands_for(slot(t, i), e)) == held(t, t.len(), e)
        }),
{
    if 0 <= i < t.len() {
        lemma_held_changed(t, t.len(), i, None, e);
    }
}

proof fn lemma_held_added(t: Seq<Option<HandleType>>, h: HandleType, e: PipeType)
    ensures
        ({
            let r = handle::handle_added(t, h);
            held(r, r.len(), e) == held(t, t.len(), e) + one_if(stands_for(Some(h), e))
        }),
{
    handle::lemma_free_from(t, 0);
    match handle::free_from(t, 0) {
        Some(i) => lemma_held_changed(t, t.len(), i, Some(h), e),
        None => lemma_held_same(t, t.push(Some(h)), t.len(), e),
    }
}

proof fn lemma_held_empty(t: Seq<Option<HandleType>>, k: nat, n: nat, e: PipeType)
    requires
        k <= n <= t.len(),
        forall|i: int| k <= i < n ==> (#[trigger] t[i]) is None,
    ensures
        held(t, n, e) == held(t, k, e),
    decreases n,
{
    if k < n {
        lemma_held_empty(t, k, (n - 1) as nat, e);
        assert(t[n - 1] is None);
    }
}

proof fn lemma_held_placed(t: Seq<Option<HandleType>>, i: int, h: HandleType, e: PipeType)
    requires
        0 <= i,
    ensures
        ({
            let r = handle::handle_placed(t, i, h);
            held(r, r.len(), e) + one_if(stands_for(slot(t, i), e)) == held(t, t.len(), e) + one_if(
                stands_for(Some(h), e))
        }),
{
    let r = handle::handle_placed(t, i, h);
    if i < t.len() {
        assert(r =~= t.update(i, Some(h)));
        lemma_held_changed(t, t.len(), i, Some(h), e);
    } else {
        let u = r.update(i, None);
        lemma_held_changed(r, r.len(), i, None, e);
        lemma_held_empty(u, t.len(), u.len(), e);
        lemma_held_same(t, u, t.len(), e);
    }
}

/// Processes of which one has another table.
proof fn lemma_held_by_changed(p: Seq<Proc>, n: nat, k: int, q: Proc, e: PipeType)
    requires
        0 <= k < p.len(),
        n <= p.len(),
    ensures
        held_by(p.update(k, q), n, e) == (if k < n {
            held_by(p, n, e) + held(q.handles, q.handles.len(), e) - held(p[k].handles, p[k].handles.len(), e)
        } else {
            held_by(p, n, e) as int
        }),
        k < n ==> held_by(p, n, e) >= held(p[k].handles, p[k].handles.len(), e),
    decreases n,
{
    if n > 0 {
        lemma_held_by_changed(p, (n - 1) as nat, k, q, e);
    }
}

proof fn lemma_with_proc(p: Procs, id: u64, q: Proc, e: PipeType)
    requires
        p.proc(id) is Some,
        q.id == id,
    ensures
        ({
            let r = p.with_proc(q).procs;
            let c = p.proc(id)->0;
            held_by(r, r.len(), e) + held(c.handles, c.handles.len(), e) == held_by(p.procs, p.procs.len(), e) + held(
                q.handles, q.handles.len(), e)
        }),
        held_by(p.procs, p.procs.len(), e) >= held(p.proc(id)->0.handles, p.proc(id)->0.handles.len(), e),
{
    proc::lemma_proc_found(p.procs, 0, id);
    let k = proc::find_proc(p.procs, 0, id)->0;
    lemma_held_by_changed(p.procs, p.procs.len(), k, q, e);
}

/// A copied handle for a pipe that is there counts once more.
proof fn lemma_copied(s: Seq<Pipe>, next: u64, h: Handle, x: PipeType)
    requires
        pipe::pipes_ok(s, next),
        pipe::room_for(s, 1),
        end_of(h) matches Some(e) ==> pipe::find_pipe(s, 0, e.pipe) is Some,
    ensures
        pipe::ends(copied(s, h), x) == pipe::ends(s, x) + one_if(end_of(h) == Some(x)),
        pipe::pipes_ok(copied(s, h), next),
        copied(s, h).len() == s.len(),
        pipe::find_pipe(copied(s, h), 0, x.pipe) is Some == pipe::find_pipe(s, 0, x.pipe) is Some,
{
    if let Some(e) = end_of(h) {
        pipe::lemma_with_end(s, next, e, x);
    }
}

/// A handle that has been given up counts no more.
proof fn lemma_given_up(s: Seq<Pipe>, next: u64, h: Option<HandleType>, x: PipeType)
    requires
        pipe::pipes_ok(s, next),
        forall|e: PipeType| stands_for(h, e) ==> #[trigger] pipe::ends(s, e) > 0,
    ensures
        pipe::ends(given_up(s, h), x) + one_if(stands_for(h, x)) == pipe::ends(s, x),
        pipe::pipes_ok(given_up(s, h), next),
{
    if let Some(t) = h {
        if let Some(e) = end_of(t.handle_info) {
            assert(stands_for(h, e));
            pipe::lemma_without_end(s, next, e, x);
        }
    }
}

/// A handle that a process has stands for a pipe that is there.
proof fn lemma_covered(s: Seq<Pipe>, p: Procs, id: u64, i: int, e: PipeType)
    requires
        covers(s, p),
        p.proc(id) is Some,
        stands_for(slot(p.proc(id)->0.handles, i), e),
    ensures
        pipe::ends(s, e) > 0,
        pipe::find_pipe(s, 0, e.pipe) is Some,
{
    let c = p.proc(id)->0;
    proc::lemma_proc_named(p, id);
    lemma_held_changed(c.handles, c.handles.len(), i, None, e);
    lemma_with_proc(p, id, c, e);
    assert(pipe::ends(s, e) >= held_by(p.procs, p.procs.len(), e));
}

/// A handle of a process has been closed.
pub open spec fn closed(p: Procs, cur: u64, number: int) -> Procs {
    let c = p.proc(cur)->0;
    p.with_proc(Proc { handles: handle::handle_removed(c.handles, number), ..c })
}

/// A closed handle is counted no more, and no other is.
proof fn lemma_closed(s: Seq<Pipe>, next: u64, p: Procs, cur: u64, number: int, x: PipeType)
    requires
        pipe::pipes_ok(s, next),
        covers(s, p),
        p.proc(cur) is Some,
    ensures
        ({
            let h = slot(p.proc(cur)->0.handles, number);
            let q = closed(p, cur, number);
            &&& pipe::ends(given_up(s, h), x) + held_by(p.procs, p.procs.len(), x) == pipe::ends(s, x) + held_by(
                q.procs, q.procs.len(), x)
            &&& pipe::pipes_ok(given_up(s, h), next)
        }),
{
    let c = p.proc(cur)->0;
    let h = slot(c.handles, number);
    assert forall|e: PipeType| stands_for(h, e) implies #[trigger] pipe::ends(s, e) > 0 by {
        lemma_covered(s, p, cur, number, e);
    }
    lemma_given_up(s, next, h, x);
    lemma_held_removed(c.handles, number, x);
    proc::lemma_proc_named(p, cur);
    lemma_with_proc(p, cur, Proc { handles: handle::handle_removed(c.handles, number), ..c }, x);
}

/// Closing a handle keeps the count right. So the last writer of a pipe that closes its handle ends
/// the pipe, and nobody else does.
pub proof fn law_closed(s: Seq<Pipe>, next: u64, p: Procs, w: Seq<Work>, cur: u64, number: int)
    requires
        pipe::pipes_ok(s, next),
        balanced(s, p, w),
        p.proc(cur) is Some,
    ensures
        ({
            let h = slot(p.proc(cur)->0.handles, number);
            &&& balanced(given_up(s, h), closed(p, cur, number), w)
            &&& ended_by(s, h) is Some <==> (h matches Some(t) && t.handle_info.kind == HandleKind::PipeWrite && handles_for(
                closed(p, cur, number), w, end_of(t.handle_info)->0) == 0)
        }),
{
    lemma_balanced_covers(s, p, w);
    let h = slot(p.proc(cur)->0.handles, number);
    let q = closed(p, cur, number);
    assert forall|e: PipeType| #[trigger] pipe::ends(given_up(s, h), e) == handles_for(q, w, e) by {
        lemma_closed(s, next, p, cur, number, e);
        assert(pipe::ends(s, e) == handles_for(p, w, e));
    }
    if let Some(t) = h {
        if let Some(e) = end_of(t.handle_info) {
            assert(stands_for(h, e));
            lemma_covered(s, p, cur, number, e);
            pipe::lemma_without_end(s, next, e, e);
            assert(pipe::ends(given_up(s, h), e) == handles_for(q, w, e));
        }
    }
}

proof fn lemma_balanced_covers(s: Seq<Pipe>, p: Procs, w: Seq<Work>)
    requires
        balanced(s, p, w),
    ensures
        covers(s, p),
{
    assert forall|e: PipeType| #[trigger] pipe::ends(s, e) >= held_by(p.procs, p.procs.len(), e) by {
        assert(pipe::ends(s, e) == handles_for(p, w, e));
    }
}

/// Gives up a handle of the calling process. If it was the last that a pipe could be written through,
/// the pipe's readers are to be told.
pub fn sys_close_handler(procs: &mut ProcessTable, pipes: &mut PipeTable, cur: u64, number: usize)
    -> (r: (Result<(), SysError>, Option<u64>))
    requires
        old(procs)@.well_formed(),
        old(procs)@.proc(cur) is Some,
        old(pipes).well_formed(),
        covers(old(pipes).pipes@, old(procs)@),
    ensures
        ({
            let h = slot(old(procs)@.proc(cur)->0.handles, number as int);
            &&& r.0 == (if h is Some { Ok::<(), SysError>(()) } else { Err(SysError::Invalid) })
            &&& r.1 == ended_by(old(pipes).pipes@, h)
            &&& final(procs)@ == closed(old(procs)@, cur, number as int)
            &&& final(pipes).pipes@ == given_up(old(pipes).pipes@, h)
            &&& final(pipes).next_id == old(pipes).next_id
        }),
        final(procs)@.well_formed(),
        final(pipes).well_formed(),
        covers(final(pipes).pipes@, final(procs)@),
{
    let ghost s0 = pipes.pipes@;
    let ghost p0 = procs@;
    let ghost h0 = slot(p0.proc(cur)->0.handles, number as int);
    proof {
        assert forall|e: PipeType| #[trigger] pipe::ends(given_up(s0, h0), e) >= held_by(
            closed(p0, cur, number as int).procs, closed(p0, cur, number as int).procs.len(), e) by {
            lemma_closed(s0, pipes.next_id, p0, cur, number as int, e);
            assert(pipe::ends(s0, e) >= held_by(p0.procs, p0.procs.len(), e));
        }
        lemma_closed(s0, pipes.next_id, p0, cur, number as int, PipeType { pipe: 0, is_reader: true });
    }
    let h: Option<Handle> = find_handle(procs, cur, number);
    let there: bool = procs.remove_handle(cur, number);
    let mut told: Option<u64> = None;
    if let Some(h) = h {
        if let Some(e) = pipe_end(h) {
            proof {
                assert(stands_for(h0, e));
                lemma_covered(s0, p0, cur, number as int, e);
            }
            if pipes.drop_end(e) {
                told = Some(e.pipe);
            }
        }
    }
    (if there { Ok(()) } else { Err(SysError::Invalid) }, told)
}

/// What duplicating a handle does to the pipes. The copy counts before what it replaces is given up.
pub open spec fn pipes_duplicated(s: Seq<Pipe>, p: Procs, cur: u64, target: i64, old_handle: usize, new_handle: i64,
    inherit: u64) -> (Seq<Pipe>, Option<u64>)
{
    if syscall::duplicated(p, cur, target, old_handle, new_handle, inherit).1 is Err {
        (s, None)
    } else {
        let t = copied(s, syscall::handle_of(p, cur, old_handle as int)->0);
        if new_handle == -1 {
            (t, None)
        } else {
            let id = syscall::duplicate_target(p, cur, target)->Ok_0;
            let h = slot(p.proc(id)->0.handles, new_handle as int);
            (given_up(t, h), ended_by(t, h))
        }
    }
}

proof fn lemma_duplicated(s: Seq<Pipe>, next: u64, p: Procs, cur: u64, target: i64, old_handle: usize, new_handle: i64,
    inherit: u64, x: PipeType)
    requires
        pipe::pipes_ok(s, next),
        pipe::room_for(s, 1),
        covers(s, p),
        p.proc(cur) is Some,
        new_handle >= -1,
    ensures
        ({
            let r = pipes_duplicated(s, p, cur, target, old_handle, new_handle, inherit).0;
            let q = syscall::duplicated(p, cur, target, old_handle, new_handle, inherit).0;
            &&& pipe::ends(r, x) + held_by(p.procs, p.procs.len(), x) == pipe::ends(s, x) + held_by(
                q.procs, q.procs.len(), x)
            &&& pipe::pipes_ok(r, next)
        }),
{
    if syscall::duplicated(p, cur, target, old_handle, new_handle, inherit).1 is Ok {
        let h = syscall::handle_of(p, cur, old_handle as int)->0;
        let c0 = p.proc(cur)->0;
        if let Some(e) = end_of(h) {
            assert(stands_for(slot(c0.handles, old_handle as int), e));
            lemma_covered(s, p, cur, old_handle as int, e);
        }
        lemma_copied(s, next, h, x);
        let t = copied(s, h);
        let id = syscall::duplicate_target(p, cur, target)->Ok_0;
        let c = p.proc(id)->0;
        let n = HandleType { handle_info: h, is_inheritable: inherit == 1 };
        proc::lemma_proc_named(p, id);
        if new_handle == -1 {
            lemma_held_added(c.handles, n, x);
            lemma_with_proc(p, id, Proc { handles: handle::handle_added(c.handles, n), ..c }, x);
        } else {
            let o = slot(c.handles, new_handle as int);
            assert forall|e: PipeType| stands_for(o, e) implies #[trigger] pipe::ends(t, e) > 0 by {
                lemma_covered(s, p, id, new_handle as int, e);
                lemma_copied(s, next, h, e);
            }
            lemma_given_up(t, next, o, x);
            lemma_held_placed(c.handles, new_handle as int, n, x);
            lemma_with_proc(p, id, Proc { handles: handle::handle_placed(c.handles, new_handle as int, n), ..c }, x);
        }
    }
}

/// Duplicating a handle keeps the count right.
pub proof fn law_duplicated(s: Seq<Pipe>, next: u64, p: Procs, w: Seq<Work>, cur: u64, target: i64, old_handle: usize,
    new_handle: i64, inherit: u64)
    requires
        pipe::pipes_ok(s, next),
        pipe::room_for(s, 1),
        balanced(s, p, w),
        p.proc(cur) is Some,
        new_handle >= -1,
    ensures
        balanced(pipes_duplicated(s, p, cur, target, old_handle, new_handle, inherit).0,
            syscall::duplicated(p, cur, target, old_handle, new_handle, inherit).0, w),
{
    lemma_balanced_covers(s, p, w);
    let r = pipes_duplicated(s, p, cur, target, old_handle, new_handle, inherit).0;
    let q = syscall::duplicated(p, cur, target, old_handle, new_handle, inherit).0;
    assert forall|e: PipeType| #[trigger] pipe::ends(r, e) == handles_for(q, w, e) by {
        lemma_duplicated(s, next, p, cur, target, old_handle, new_handle, inherit, e);
        assert(pipe::ends(s, e) == handles_for(p, w, e));
    }
}

/// Gives a handle of the calling process another number, there or in a process that it has made and
/// that has not begun to run. What had the number is given up.
pub fn sys_duplicate_handler(procs: &mut ProcessTable, pipes: &mut PipeTable, cur: u64, target: i64, old_handle: usize,
    new_handle: i64, inherit: u64) -> (r: (Result<usize, SysError>, Option<u64>))
    requires
        old(procs)@.well_formed(),
        old(procs)@.proc(cur) is Some,
        -1 <= new_handle < usize::MAX,
        old(pipes).well_formed(),
        pipe::room_for(old(pipes).pipes@, 1),
        covers(old(pipes).pipes@, old(procs)@),
    ensures
        final(procs)@ == syscall::duplicated(old(procs)@, cur, target, old_handle, new_handle, inherit).0,
        match syscall::duplicated(old(procs)@, cur, target, old_handle, new_handle, inherit).1 {
            Ok(n) => r.0 is Ok && r.0->Ok_0 == n,
            Err(e) => r.0 == Err::<usize, SysError>(e),
        },
        (final(pipes).pipes@, r.1) == pipes_duplicated(
            old(pipes).pipes@, old(procs)@, cur, target, old_handle, new_handle, inherit),
        final(pipes).next_id == old(pipes).next_id,
        final(procs)@.well_formed(),
        final(pipes).well_formed(),
        covers(final(pipes).pipes@, final(procs)@),
{
    let ghost s0 = pipes.pipes@;
    let ghost p0 = procs@;
    proof {
        let r = pipes_duplicated(s0, p0, cur, target, old_handle, new_handle, inherit).0;
        let q = syscall::duplicated(p0, cur, target, old_handle, new_handle, inherit).0;
        assert forall|e: PipeType| #[trigger] pipe::ends(r, e) >= held_by(q.procs, q.procs.len(), e) by {
            lemma_duplicated(s0, pipes.next_id, p0, cur, target, old_handle, new_handle, inherit, e);
            assert(pipe::ends(s0, e) >= held_by(p0.procs, p0.procs.len(), e));
        }
        lemma_duplicated(s0, pipes.next_id, p0, cur, target, old_handle, new_handle, inherit,
            PipeType { pipe: 0, is_reader: true });
    }
    let h: Option<Handle> = find_handle(procs, cur, old_handle);
    let mut id: u64 = cur;
    if target != -1 {
        if let Some(t) = syscall::find_asked(procs, cur, target) {
            id = t.object;
        }
    }
    let replaced: Option<Handle> = if new_handle == -1 { None } else { find_handle(procs, id, new_handle as usize) };
    let n: usize = match duplicate_handle(procs, cur, target, old_handle, new_handle, inherit) {
        Ok(n) => n,
        Err(e) => { return (Err(e), None); },
    };
    let mut told: Option<u64> = None;
    if let Some(h) = h {
        let ghost t = copied(s0, h);
        proof {
            if let Some(e) = end_of(h) {
                assert(stands_for(slot(p0.proc(cur)->0.handles, old_handle as int), e));
                lemma_covered(s0, p0, cur, old_handle as int, e);
            }
            lemma_copied(s0, pipes.next_id, h, PipeType { pipe: 0, is_reader: true });
        }
        if let Some(e) = pipe_end(h) {
            pipes.add_end(e);
        }
        if let Some(o) = replaced {
            if let Some(e) = pipe_end(o) {
                proof {
                    assert(stands_for(slot(p0.proc(id)->0.handles, new_handle as int), e));
                    lemma_covered(s0, p0, id, new_handle as int, e);
                    lemma_copied(s0, pipes.next_id, h, e);
                }
                if pipes.drop_end(e) {
                    told = Some(e.pipe);
                }
            }
        }
    }
    (Ok(n), told)
}

/// What a child inherits of the first `n` places of a table has been copied.
pub open spec fn all_copied(s: Seq<Pipe>, t: Seq<Option<HandleType>>, n: nat) -> Seq<Pipe>
    decreases n,
{
    if n == 0 {
        s
    } else {
        let r = all_copied(s, t, (n - 1) as nat);
        match t[n - 1] { Some(h) => copied(r, h.handle_info), None => r }
    }
}

proof fn lemma_all_copied(s: Seq<Pipe>, next: u64, t: Seq<Option<HandleType>>, n: nat, m: nat, x: PipeType)
    requires
        pipe::pipes_ok(s, next),
        n <= m,
        pipe::room_for(s, m),
        forall|i: int, e: PipeType| 0 <= i < n && #[trigger] stands_for(t[i], e) ==> pipe::find_pipe(s, 0, e.pipe) is Some,
    ensures
        pipe::ends(all_copied(s, t, n), x) == pipe::ends(s, x) + held(t, n, x),
        pipe::pipes_ok(all_copied(s, t, n), next),
        pipe::room_for(all_copied(s, t, n), (m - n) as nat),
        pipe::find_pipe(all_copied(s, t, n), 0, x.pipe) is Some == pipe::find_pipe(s, 0, x.pipe) is Some,
    decreases n,
{
    if n > 0 {
        lemma_all_copied(s, next, t, (n - 1) as nat, m, x);
        let r = all_copied(s, t, (n - 1) as nat);
        if let Some(h) = t[n - 1] {
            if let Some(e) = end_of(h.handle_info) {
                assert(stands_for(t[n - 1], e));
                lemma_all_copied(s, next, t, (n - 1) as nat, m, e);
                pipe::lemma_find_pipe(r, 0, e.pipe);
                lemma_copied(r, next, h.handle_info, x);
            }
        }
    }
}

/// What making a process does to the pipes: the child's handles count too.
pub open spec fn pipes_inherited(s: Seq<Pipe>, p: Procs, cur: u64, made: bool) -> Seq<Pipe> {
    let t = handle::inherited(p.proc(cur)->0.handles);
    if made { all_copied(s, t, t.len()) } else { s }
}

proof fn lemma_inherited(s: Seq<Pipe>, next: u64, p: Procs, cur: u64, x: PipeType)
    requires
        pipe::pipes_ok(s, next),
        covers(s, p),
        p.proc(cur) is Some,
        pipe::room_for(s, p.proc(cur)->0.handles.len()),
    ensures
        ({
            let t = handle::inherited(p.proc(cur)->0.handles);
            &&& pipe::ends(pipes_inherited(s, p, cur, true), x) == pipe::ends(s, x) + held(t, t.len(), x)
            &&& pipe::pipes_ok(pipes_inherited(s, p, cur, true), next)
            &&& forall|i: int, e: PipeType|
                0 <= i < t.len() && #[trigger] stands_for(t[i], e) ==> pipe::find_pipe(s, 0, e.pipe) is Some
        }),
{
    let c = p.proc(cur)->0;
    let t = handle::inherited(c.handles);
    assert forall|i: int, e: PipeType| 0 <= i < t.len() && #[trigger] stands_for(t[i], e) implies pipe::find_pipe(
        s, 0, e.pipe) is Some by {
        assert(stands_for(slot(c.handles, i), e));
        lemma_covered(s, p, cur, i, e);
    }
    lemma_all_copied(s, next, t, t.len(), t.len(), x);
}

proof fn lemma_held_by_same(p: Seq<Proc>, q: Seq<Proc>, n: nat, e: PipeType)
    requires
        n <= p.len(),
        n <= q.len(),
        forall|i: int| 0 <= i < n ==> (#[trigger] p[i]).handles == q[i].handles,
    ensures
        held_by(p, n, e) == held_by(q, n, e),
    decreases n,
{
    if n > 0 {
        lemma_held_by_same(p, q, (n - 1) as nat, e);
    }
}

/// Making a process keeps the count right: the handles that it inherits are counted.
pub proof fn law_inherited(s: Seq<Pipe>, next: u64, p: Procs, w: Seq<Work>, cur: u64, child: Proc, q: Procs)
    requires
        pipe::pipes_ok(s, next),
        balanced(s, p, w),
        p.proc(cur) is Some,
        pipe::room_for(s, p.proc(cur)->0.handles.len()),
        child.handles == handle::inherited(p.proc(cur)->0.handles),
        q.procs == p.procs.push(child),
    ensures
        balanced(pipes_inherited(s, p, cur, true), q, w),
{
    lemma_balanced_covers(s, p, w);
    assert forall|e: PipeType| #[trigger] pipe::ends(pipes_inherited(s, p, cur, true), e) == handles_for(q, w, e) by {
        lemma_inherited(s, next, p, cur, e);
        lemma_held_by_same(p.procs, q.procs, p.procs.len(), e);
        assert(pipe::ends(s, e) == handles_for(p, w, e));
    }
}

/// Makes a process on behalf of process `cur`. The handles that it inherits are copies.
pub fn create_process(procs: &mut ProcessTable, pipes: &mut PipeTable, sched: &mut Scheduler, cur: u64,
    args: Vec<Vec<u8>>, is_user: bool, is_suspended: bool, parts: ProcessParts) -> (r: Result<u64, KError>)
    requires
        old(procs)@.well_formed(),
        old(procs)@.proc(cur) is Some,
        old(procs).next_process < u64::MAX,
        old(sched)@.well_formed(),
        old(sched).queues@.len() > 0,
        old(sched).next_task < u64::MAX,
        old(pipes).well_formed(),
        covers(old(pipes).pipes@, old(procs)@),
        pipe::room_for(old(pipes).pipes@, old(procs)@.proc(cur)->0.handles.len()),
    ensures
        (final(procs)@, final(sched)@, r) == old(procs)@.process_created(
            old(sched)@, cur, util::strings(args@), is_user, is_suspended, parts),
        final(pipes).pipes@ == pipes_inherited(old(pipes).pipes@, old(procs)@, cur, r is Ok),
        final(pipes).next_id == old(pipes).next_id,
        final(procs)@.well_formed(),
        final(sched)@.well_formed(),
        final(pipes).well_formed(),
        covers(final(pipes).pipes@, final(procs)@),
{
    let ghost s0 = pipes.pipes@;
    let ghost p0 = procs@;
    let r: Result<u64, KError> = procs.create_process(sched, cur, args, is_user, is_suspended, parts);
    if r.is_ok() {
        let last: usize = procs.procs.len() - 1;
        let ghost t = procs@.procs.last().handles;
        assert(t == handle::inherited(p0.proc(cur)->0.handles));
        let len: usize = procs.procs[last].handle_table.len();
        let mut i: usize = 0;
        proof {
            lemma_inherited(s0, pipes.next_id, p0, cur, PipeType { pipe: 0, is_reader: true });
        }
        while i < len
            invariant
                i <= len,
                len == t.len(),
                last < procs.procs@.len(),
                t == procs.procs@[last as int].handle_table@,
                pipe::pipes_ok(s0, pipes.next_id),
                pipes.next_id == old(pipes).next_id,
                pipe::room_for(s0, len as nat),
                forall|i: int, e: PipeType|
                    0 <= i < t.len() && #[trigger] stands_for(t[i], e) ==> pipe::find_pipe(s0, 0, e.pipe) is Some,
                pipes.pipes@ == all_copied(s0, t, i as nat),
            decreases len - i,
        {
            proof {
                lemma_all_copied(s0, pipes.next_id, t, i as nat, len as nat, PipeType { pipe: 0, is_reader: true });
            }
            if let Some(h) = procs.procs[last].handle_table[i] {
                if let Some(e) = pipe_end(h.handle_info) {
                    pipes.add_end(e);
                }
            }
            i = i + 1;
        }
        proof {
            assert forall|e: PipeType| #[trigger] pipe::ends(pipes.pipes@, e) >= held_by(
                procs@.procs, procs@.procs.len(), e) by {
                lemma_inherited(s0, pipes.next_id, p0, cur, e);
                assert(procs@.procs =~= p0.procs.push(procs@.procs.last()));
                lemma_held_by_same(p0.procs, procs@.procs, p0.procs.len(), e);
                assert(pipe::ends(s0, e) >= held_by(p0.procs, p0.procs.len(), e));
            }
        }
    } else {
        proof {
            assert forall|e: PipeType| #[trigger] pipe::ends(pipes.pipes@, e) >= held_by(
                procs@.procs, procs@.procs.len(), e) by {
                assert(procs@.procs =~= p0.procs);
                assert(pipe::ends(s0, e) >= held_by(p0.procs, p0.procs.len(), e));
            }
        }
    }
    r
}

/// A process is made that does not begin to run.
pub const PROCESS_SUSPENDED_FLAG: u64 = 1;

/// Makes the process that a process has asked for, of user code. Once that has been set up, its maker
/// gets a handle for it.
pub fn begin_create_process(procs: &mut ProcessTable, pipes: &mut PipeTable, sched: &mut Scheduler, cur: u64,
    request: ProcessRequest, flags: u64, parts: ProcessParts) -> (r: Result<u64, SysError>)
    requires
        old(procs)@.well_formed(),
        old(procs)@.proc(cur) is Some,
        old(procs).next_process < u64::MAX,
        old(sched)@.well_formed(),
        old(sched).queues@.len() > 0,
        old(sched).next_task < u64::MAX,
        old(pipes).well_formed(),
        covers(old(pipes).pipes@, old(procs)@),
        pipe::room_for(old(pipes).pipes@, old(procs)@.proc(cur)->0.handles.len()),
    ensures
        ({
            let suspended = flags & PROCESS_SUSPENDED_FLAG != 0;
            let (p, s, made) = old(procs)@.process_created(
                old(sched)@, cur, util::strings(request.args@), true, suspended, parts);
            &&& final(procs)@ == p
            &&& final(sched)@ == s
            &&& r == (match made {
                Ok(id) => Ok::<u64, SysError>(id),
                Err(e) => Err(SysError::Kernel(e)),
            })
            &&& final(pipes).pipes@ == pipes_inherited(old(pipes).pipes@, old(procs)@, cur, made is Ok)
        }),
        final(pipes).next_id == old(pipes).next_id,
        final(procs)@.well_formed(),
        final(sched)@.well_formed(),
        final(pipes).well_formed(),
        covers(final(pipes).pipes@, final(procs)@),
{
    let suspended: bool = flags & PROCESS_SUSPENDED_FLAG != 0;
    match create_process(procs, pipes, sched, cur, request.args, true, suspended, parts) {
        Ok(id) => Ok(id),
        Err(e) => Err(SysError::Kernel(e)),
    }
}

/// What the first `n` places of a table held has been given up, one after the other.
pub open spec fn all_given_up(s: Seq<Pipe>, t: Seq<Option<HandleType>>, n: nat) -> Seq<Pipe>
    decreases n,
{
    if n == 0 { s } else { given_up(all_given_up(s, t, (n - 1) as nat), t[n - 1]) }
}

/// The pipes whose readers are told that nothing more will come.
pub open spec fn all_ended(s: Seq<Pipe>, t: Seq<Option<HandleType>>, n: nat) -> Seq<u64>
    decreases n,
{
    if n == 0 {
        Seq::empty()
    } else {
        let rest = all_ended(s, t, (n - 1) as nat);
        match ended_by(all_given_up(s, t, (n - 1) as nat), t[n - 1]) {
            Some(id) => rest.push(id),
            None => rest,
        }
    }
}

proof fn lemma_held_fewer(t: Seq<Option<HandleType>>, n: nat, m: nat, e: PipeType)
    requires
        n <= m,
    ensures
        held(t, n, e) <= held(t, m, e),
    decreases m,
{
    if n < m {
        lemma_held_fewer(t, n, (m - 1) as nat, e);
    }
}

proof fn lemma_all_given_up(s: Seq<Pipe>, next: u64, t: Seq<Option<HandleType>>, n: nat, x: PipeType)
    requires
        pipe::pipes_ok(s, next),
        forall|e: PipeType| #[trigger] pipe::ends(s, e) >= held(t, n, e),
    ensures
        pipe::ends(all_given_up(s, t, n), x) + held(t, n, x) == pipe::ends(s, x),
        pipe::pipes_ok(all_given_up(s, t, n), next),
    decreases n,
{
    if n > 0 {
        assert forall|e: PipeType| #[trigger] pipe::ends(s, e) >= held(t, (n - 1) as nat, e) by {
            lemma_held_fewer(t, (n - 1) as nat, n, e);
        }
        lemma_all_given_up(s, next, t, (n - 1) as nat, x);
        let r = all_given_up(s, t, (n - 1) as nat);
        assert forall|e: PipeType| stands_for(t[n - 1], e) implies #[trigger] pipe::ends(r, e) > 0 by {
            lemma_all_given_up(s, next, t, (n - 1) as nat, e);
            assert(pipe::ends(s, e) >= held(t, n, e));
        }
        lemma_given_up(r, next, t[n - 1], x);
    }
}

/// Closes the handles that an ended process has left behind. Gives the pipes whose readers are to be
/// told.
pub fn close_handles(pipes: &mut PipeTable, handles: &Vec<Option<HandleType>>) -> (r: Vec<u64>)
    requires
        old(pipes).well_formed(),
        forall|e: PipeType| #[trigger] pipe::ends(old(pipes).pipes@, e) >= held(handles@, handles@.len(), e),
    ensures
        final(pipes).pipes@ == all_given_up(old(pipes).pipes@, handles@, handles@.len()),
        final(pipes).next_id == old(pipes).next_id,
        final(pipes).well_formed(),
        r@ == all_ended(old(pipes).pipes@, handles@, handles@.len()),
{
    let ghost s0 = pipes.pipes@;
    let ghost t = handles@;
    let mut out: Vec<u64> = Vec::new();
    let mut i: usize = 0;
    while i < handles.len()
        invariant
            i <= handles@.len(),
            t == handles@,
            pipes.next_id == old(pipes).next_id,
            pipes.well_formed(),
            pipe::pipes_ok(s0, pipes.next_id),
            forall|e: PipeType| #[trigger] pipe::ends(s0, e) >= held(t, t.len(), e),
            pipes.pipes@ == all_given_up(s0, t, i as nat),
            out@ == all_ended(s0, t, i as nat),
        decreases handles@.len() - i,
    {
        if let Some(h) = handles[i] {
            if let Some(e) = pipe_end(h.handle_info) {
                proof {
                    assert(stands_for(t[i as int], e));
                    assert forall|x: PipeType| #[trigger] pipe::ends(s0, x) >= held(t, i as nat, x) by {
                        lemma_held_fewer(t, i as nat, t.len(), x);
                    }
                    lemma_all_given_up(s0, pipes.next_id, t, i as nat, e);
                    lemma_held_fewer(t, (i + 1) as nat, t.len(), e);
                    assert(pipe::ends(s0, e) >= held(t, t.len(), e));
                }
                if pipes.drop_end(e) {
                    out.push(e.pipe);
                }
            }
        }
        i = i + 1;
    }
    out
}

proof fn lemma_held_in_rest(w: Seq<Work>, n: nat, e: PipeType)
    requires
        0 < n <= w.len(),
    ensures
        held_in(w, n, e) == held(w[0].handles, w[0].handles.len(), e) + held_in(w.skip(1), (n - 1) as nat, e),
    decreases n,
{
    reveal_with_fuel(held_in, 2);
    if n > 1 {
        lemma_held_in_rest(w, (n - 1) as nat, e);
        assert(w.skip(1)[n - 2] == w[n - 1]);
    }
}

/// Closing what the oldest ended process has left behind keeps the count right.
pub proof fn law_left_behind_closed(s: Seq<Pipe>, next: u64, p: Procs, w: Seq<Work>)
    requires
        pipe::pipes_ok(s, next),
        balanced(s, p, w),
        w.len() > 0,
    ensures
        forall|e: PipeType| #[trigger] pipe::ends(s, e) >= held(w[0].handles, w[0].handles.len(), e),
        balanced(all_given_up(s, w[0].handles, w[0].handles.len()), p, w.skip(1)),
{
    let t = w[0].handles;
    assert forall|e: PipeType| #[trigger] pipe::ends(s, e) >= held(t, t.len(), e) by {
        assert(pipe::ends(s, e) == handles_for(p, w, e));
        lemma_held_in_rest(w, w.len(), e);
    }
    assert forall|e: PipeType| #[trigger] pipe::ends(all_given_up(s, t, t.len()), e) == handles_for(p, w.skip(1), e) by {
        lemma_all_given_up(s, next, t, t.len(), e);
        lemma_held_in_rest(w, w.len(), e);
        assert(pipe::ends(s, e) == handles_for(p, w, e));
    }
}

proof fn lemma_held_by_without(p: Seq<Proc>, k: int, n: nat, e: PipeType)
    requires
        0 <= k < n <= p.len(),
    ensures
        held_by(p.remove(k), (n - 1) as nat, e) + held(p[k].handles, p[k].handles.len(), e) == held_by(p, n, e),
    decreases n,
{
    let r = p.remove(k);
    if n - 1 == k {
        assert forall|i: int| 0 <= i < k implies (#[trigger] p[i]).handles == r[i].handles by {}
        lemma_held_by_same(p, r, k as nat, e);
    } else {
        lemma_held_by_without(p, k, (n - 1) as nat, e);
        assert(r[n - 2] == p[n - 1]);
    }
}

/// When a process ends, its handles stay open until what it leaves behind is freed.
pub proof fn law_process_ended(s: Seq<Pipe>, p: Procs, w: Seq<Work>, c: Proc)
    requires
        balanced(s, p, w),
        p.proc(c.id) matches Some(q) && q.handles == c.handles,
    ensures
        balanced(s, p.destroyed(c), w.push(proc::left_behind(c))),
{
    proc::lemma_proc_found(p.procs, 0, c.id);
    let k = proc::find_proc(p.procs, 0, c.id)->0;
    let v = w.push(proc::left_behind(c));
    assert forall|e: PipeType| #[trigger] pipe::ends(s, e) == handles_for(p.destroyed(c), v, e) by {
        assert(pipe::ends(s, e) == handles_for(p, w, e));
        lemma_held_by_without(p.procs, k, p.procs.len(), e);
        lemma_held_in_same(w, v, w.len(), e);
    }
}

proof fn lemma_held_in_same(w: Seq<Work>, v: Seq<Work>, n: nat, e: PipeType)
    requires
        n <= w.len(),
        n <= v.len(),
        forall|i: int| 0 <= i < n ==> (#[trigger] w[i]).handles == v[i].handles,
    ensures
        held_in(w, n, e) == held_in(v, n, e),
    decreases n,
{
    if n > 0 {
        lemma_held_in_same(w, v, (n - 1) as nat, e);
    }
}

/// A pipe has been made, with one handle for each end.
pub open spec fn with_new_pipe(s: Seq<Pipe>, r: Seq<Pipe>, id: u64) -> bool {
    &&& r.len() == s.len() + 1
    &&& r.take(s.len() as int) == s
    &&& r.last().id == id
    &&& r.last().stream@.len() == 0
    &&& r.last().reader_count == 1
    &&& r.last().writer_count == 1
}

/// The handles of a new pipe count once each.
proof fn lemma_new_pipe(s: Seq<Pipe>, r: Seq<Pipe>, next: u64, x: PipeType)
    requires
        pipe::pipes_ok(s, next),
        with_new_pipe(s, r, next),
    ensures
        pipe::ends(r, x) == pipe::ends(s, x) + one_if(x.pipe == next),
{
    pipe::lemma_find_pipe(s, 0, x.pipe);
    pipe::lemma_find_pipe(r, 0, x.pipe);
    assert forall|i: int| 0 <= i < s.len() implies r[i] == s[i] by {
        assert(r.take(s.len() as int)[i] == r[i]);
    }
    if let Some(a) = pipe::find_pipe(s, 0, x.pipe) {
        let b = pipe::find_pipe(r, 0, x.pipe)->0;
        assert(r[a].id == x.pipe);
        if b < s.len() {
            if a < b {
                assert(s[a].id != s[b].id);
            } else if b < a {
                assert(s[b].id != s[a].id);
            }
        }
    } else {
        assert(r[s.len() as int] == r.last());
    }
}

/// The processes after a pipe has been made: the calling one has a handle for each end.
pub open spec fn both_given(p: Procs, cur: u64, id: u64, inherit: bool) -> (Procs, int, int) {
    let (p1, reader) = syscall::handle_given(p, cur, Handle { kind: HandleKind::PipeRead, object: id }, inherit);
    let (p2, writer) = syscall::handle_given(p1, cur, Handle { kind: HandleKind::PipeWrite, object: id }, inherit);
    (p2, reader, writer)
}

proof fn lemma_both_given(p: Procs, cur: u64, id: u64, inherit: bool, x: PipeType)
    requires
        p.proc(cur) is Some,
    ensures
        ({
            let q = both_given(p, cur, id, inherit).0.procs;
            held_by(q, q.len(), x) == held_by(p.procs, p.procs.len(), x) + one_if(x.pipe == id)
        }),
        syscall::handle_given(p, cur, Handle { kind: HandleKind::PipeRead, object: id }, inherit).0.proc(cur) is Some,
{
    let c = p.proc(cur)->0;
    let t = HandleType { handle_info: Handle { kind: HandleKind::PipeRead, object: id }, is_inheritable: inherit };
    let u = HandleType { handle_info: Handle { kind: HandleKind::PipeWrite, object: id }, is_inheritable: inherit };
    proc::lemma_proc_named(p, cur);
    let c1 = Proc { handles: handle::handle_added(c.handles, t), ..c };
    proc::lemma_still_there(p, cur, c1);
    lemma_held_added(c.handles, t, x);
    lemma_with_proc(p, cur, c1, x);
    let p1 = p.with_proc(c1);
    lemma_held_added(c1.handles, u, x);
    lemma_with_proc(p1, cur, Proc { handles: handle::handle_added(c1.handles, u), ..c1 }, x);
    assert(stands_for(Some(t), x) <==> x == (PipeType { pipe: id, is_reader: true }));
    assert(stands_for(Some(u), x) <==> x == (PipeType { pipe: id, is_reader: false }));
}

/// Making a pipe keeps the count right.
pub proof fn law_pipe_made(s: Seq<Pipe>, r: Seq<Pipe>, next: u64, p: Procs, w: Seq<Work>, cur: u64, inherit: bool)
    requires
        pipe::pipes_ok(s, next),
        with_new_pipe(s, r, next),
        balanced(s, p, w),
        p.proc(cur) is Some,
    ensures
        balanced(r, both_given(p, cur, next, inherit).0, w),
{
    assert forall|e: PipeType| #[trigger] pipe::ends(r, e) == handles_for(both_given(p, cur, next, inherit).0, w, e) by {
        lemma_new_pipe(s, r, next, e);
        lemma_both_given(p, cur, next, inherit, e);
        assert(pipe::ends(s, e) == handles_for(p, w, e));
    }
}

/// Whether a name is that of a pipe.
pub open spec fn name_taken(s: Seq<Pipe>, name: Option<Seq<u8>>) -> bool {
    name matches Some(n) && pipe::find_named(s, 0, n) is Some
}

pub open spec fn name_view(name: Option<Vec<u8>>) -> Option<Seq<u8>> {
    match name { Some(n) => Some(n@), None => None }
}

/// Makes a pipe with a handle for each end. Gives the numbers of the reading and the writing end.
pub fn create_pipe(procs: &mut ProcessTable, pipes: &mut PipeTable, cur: u64, name: Option<Vec<u8>>, inherit: bool)
    -> (r: Result<(usize, usize), SysError>)
    requires
        old(procs)@.well_formed(),
        old(procs)@.proc(cur) is Some,
        old(pipes).well_formed(),
        old(pipes).next_id < u64::MAX,
        covers(old(pipes).pipes@, old(procs)@),
    ensures
        name_taken(old(pipes).pipes@, name_view(name)) ==> {
            &&& r == Err::<(usize, usize), SysError>(SysError::Kernel(KError::InvalidArgument))
            &&& *final(pipes) == *old(pipes)
            &&& final(procs)@ == old(procs)@
        },
        !name_taken(old(pipes).pipes@, name_view(name)) ==> {
            let id = old(pipes).next_id;
            let (q, reader, writer) = both_given(old(procs)@, cur, id, inherit);
            &&& r is Ok
            &&& r->Ok_0.0 == reader
            &&& r->Ok_0.1 == writer
            &&& final(procs)@ == q
            &&& final(pipes).next_id == id + 1
            &&& with_new_pipe(old(pipes).pipes@, final(pipes).pipes@, id)
            &&& final(pipes).pipes@.last().name == name
        },
        final(procs)@.well_formed(),
        final(pipes).well_formed(),
        covers(final(pipes).pipes@, final(procs)@),
{
    let ghost s0 = pipes.pipes@;
    let ghost p0 = procs@;
    match pipes.create_named_pipe(name) {
        Err(e) => Err(SysError::Kernel(e)),
        Ok(id) => {
            let ghost v0 = pipes.pipes@;
            let last: usize = pipes.pipes.len() - 1;
            pipes.pipes[last].add_end(true);
            pipes.pipes[last].add_end(false);
            let ghost v1 = pipes.pipes@;
            assert(v1.take(last as int) =~= v0.take(last as int));
            proof {
                lemma_both_given(p0, cur, id, inherit, PipeType { pipe: 0, is_reader: true });
                assert forall|e: PipeType| #[trigger] pipe::ends(v1, e) >= held_by(
                    both_given(p0, cur, id, inherit).0.procs, both_given(p0, cur, id, inherit).0.procs.len(), e) by {
                    lemma_new_pipe(s0, v1, id, e);
                    lemma_both_given(p0, cur, id, inherit, e);
                    assert(pipe::ends(s0, e) >= held_by(p0.procs, p0.procs.len(), e));
                }
                assert(pipe::pipes_ok(v1, pipes.next_id)) by {
                    assert forall|i: int| 0 <= i < v1.len() implies (#[trigger] v1[i]).id == v0[i].id && v1[i].name
                        == v0[i].name && v1[i].stream == v0[i].stream by {}
                    assert forall|i: int, j: int| 0 <= i < j < v1.len() implies (#[trigger] v1[i]).id != (
                        #[trigger] v1[j]).id by {
                        assert(v0[i].id != v0[j].id);
                    }
                    assert forall|i: int, j: int|
                        0 <= i < j < v1.len() && (#[trigger] v1[i]).name is Some && (#[trigger] v1[j]).name is Some implies
                        v1[i].name->0@ != v1[j].name->0@ by {
                        assert(v0[i].name is Some && v0[j].name is Some);
                    }
                    assert forall|i: int| 0 <= i < v1.len() implies (#[trigger] v1[i]).id < pipes.next_id
                        && v1[i].well_formed() by {
                        assert(v0[i].well_formed());
                    }
                }
            }
            let reader: usize = procs.add_handle_to_proc(cur, Handle { kind: HandleKind::PipeRead, object: id }, inherit);
            let writer: usize = procs.add_handle_to_proc(cur, Handle { kind: HandleKind::PipeWrite, object: id }, inherit);
            Ok((reader, writer))
        },
    }
}

/// The name that a process gives a pipe, if any: there is none without a pointer, or if it is empty.
pub open spec fn pipe_name(m: Seq<Stretch>, ptr: u64) -> Result<Option<Seq<u8>>, SysError> {
    if ptr == 0 {
        Ok(None)
    } else {
        match user::user_string(m, ptr as int) {
            None => Err(SysError::InvalidMemoryRange),
            Some(s) => if s.len() == 0 { Ok(None) } else { Ok(Some(s)) },
        }
    }
}

/// The user memory once the numbers of two handles have been written to it, and whether both could be.
pub open spec fn both_stored(m: Seq<Stretch>, read_at: u64, write_at: u64, reader: u64, writer: u64)
    -> (Seq<Stretch>, Result<(), SysError>)
{
    match user::stored(m, read_at as int, user::word(reader)) {
        None => (m, Err(SysError::InvalidMemoryRange)),
        Some(m1) => match user::stored(m1, write_at as int, user::word(writer)) {
            None => (m1, Err(SysError::InvalidMemoryRange)),
            Some(m2) => (m2, Ok(())),
        },
    }
}

/// Makes a pipe for the calling process and tells it the numbers of the two handles. If they cannot be
/// told, the handles stay.
pub fn sys_create_pipe_handler(procs: &mut ProcessTable, pipes: &mut PipeTable, memory: &mut UserMemory, cur: u64,
    read_at: u64, write_at: u64, name: u64, inherit: u64) -> (r: Result<(), SysError>)
    requires
        old(procs)@.well_formed(),
        old(procs)@.proc(cur) is Some,
        old(pipes).well_formed(),
        old(pipes).next_id < u64::MAX,
        covers(old(pipes).pipes@, old(procs)@),
        user::ranges_ok(old(memory)@),
    ensures
        read_at == 0 || write_at == 0 ==> {
            &&& r == Err::<(), SysError>(SysError::Invalid)
            &&& *final(pipes) == *old(pipes) && final(procs)@ == old(procs)@ && final(memory)@ == old(memory)@
        },
        read_at != 0 && write_at != 0 ==> match pipe_name(old(memory)@, name) {
            Err(e) => {
                &&& r == Err::<(), SysError>(e)
                &&& *final(pipes) == *old(pipes) && final(procs)@ == old(procs)@ && final(memory)@ == old(memory)@
            },
            Ok(n) => if name_taken(old(pipes).pipes@, n) {
                &&& r == Err::<(), SysError>(SysError::Kernel(KError::InvalidArgument))
                &&& *final(pipes) == *old(pipes) && final(procs)@ == old(procs)@ && final(memory)@ == old(memory)@
            } else {
                let id = old(pipes).next_id;
                let (q, reader, writer) = both_given(old(procs)@, cur, id, inherit == 1);
                &&& final(procs)@ == q
                &&& final(pipes).next_id == id + 1
                &&& with_new_pipe(old(pipes).pipes@, final(pipes).pipes@, id)
                &&& name_view(final(pipes).pipes@.last().name) == n
                &&& (final(memory)@, r) == both_stored(old(memory)@, read_at, write_at, reader as u64, writer as u64)
            },
        },
        final(procs)@.well_formed(),
        final(pipes).well_formed(),
        covers(final(pipes).pipes@, final(procs)@),
{
    if read_at == 0 || write_at == 0 {
        return Err(SysError::Invalid);
    }
    let mut n: Option<Vec<u8>> = None;
    if name != 0 {
        match memory.read_user_string(name) {
            None => { return Err(SysError::InvalidMemoryRange); },
            Some(s) => {
                if s.len() > 0 {
                    n = Some(s);
                }
            },
        }
    }
    match create_pipe(procs, pipes, cur, n, inherit == 1) {
        Err(e) => Err(e),
        Ok((reader, writer)) => match store_word(memory, reader as u64, read_at) {
            Err(e) => Err(e),
            Ok(()) => store_word(memory, writer as u64, write_at),
        },
    }
}

/// The handle that stands for an end.
pub open spec fn handle_for(e: PipeType) -> Handle {
    Handle { kind: if e.is_reader { HandleKind::PipeRead } else { HandleKind::PipeWrite }, object: e.pipe }
}

proof fn lemma_given(p: Procs, cur: u64, h: Handle, inherit: bool, x: PipeType)
    requires
        p.proc(cur) is Some,
    ensures
        ({
            let q = syscall::handle_given(p, cur, h, inherit).0.procs;
            held_by(q, q.len(), x) == held_by(p.procs, p.procs.len(), x) + one_if(end_of(h) == Some(x))
        }),
{
    let c = p.proc(cur)->0;
    let t = HandleType { handle_info: h, is_inheritable: inherit };
    proc::lemma_proc_named(p, cur);
    lemma_held_added(c.handles, t, x);
    lemma_with_proc(p, cur, Proc { handles: handle::handle_added(c.handles, t), ..c }, x);
}

/// Opening a pipe by its name keeps the count right.
pub proof fn law_pipe_opened(s: Seq<Pipe>, next: u64, p: Procs, w: Seq<Work>, cur: u64, e: PipeType, inherit: bool)
    requires
        pipe::pipes_ok(s, next),
        pipe::room_for(s, 1),
        pipe::find_pipe(s, 0, e.pipe) is Some,
        balanced(s, p, w),
        p.proc(cur) is Some,
    ensures
        balanced(pipe::with_end(s, e), syscall::handle_given(p, cur, handle_for(e), inherit).0, w),
{
    let q = syscall::handle_given(p, cur, handle_for(e), inherit).0;
    assert forall|x: PipeType| #[trigger] pipe::ends(pipe::with_end(s, e), x) == handles_for(q, w, x) by {
        pipe::lemma_with_end(s, next, e, x);
        lemma_given(p, cur, handle_for(e), inherit, x);
        assert(pipe::ends(s, x) == handles_for(p, w, x));
        assert(end_of(handle_for(e)) == Some(e));
    }
}

/// Opens a pipe by its name for the calling process.
pub fn open_pipe(procs: &mut ProcessTable, pipes: &mut PipeTable, cur: u64, name: &Vec<u8>, flags: u64, inherit: bool)
    -> (r: Result<usize, SysError>)
    requires
        old(procs)@.well_formed(),
        old(procs)@.proc(cur) is Some,
        old(pipes).well_formed(),
        pipe::room_for(old(pipes).pipes@, 1),
        covers(old(pipes).pipes@, old(procs)@),
    ensures
        match pipe::find_named(old(pipes).pipes@, 0, name@) {
            None => {
                &&& r == Err::<usize, SysError>(SysError::Kernel(KError::InvalidArgument))
                &&& *final(pipes) == *old(pipes)
                &&& final(procs)@ == old(procs)@
            },
            Some(k) => {
                let e = PipeType { pipe: old(pipes).pipes@[k].id, is_reader: flags & pipe::OPEN_WRITE_FLAG == 0 };
                let (q, n) = syscall::handle_given(old(procs)@, cur, handle_for(e), inherit);
                &&& r is Ok && r->Ok_0 == n
                &&& final(procs)@ == q
                &&& final(pipes).pipes@ == pipe::with_end(old(pipes).pipes@, e)
                &&& final(pipes).next_id == old(pipes).next_id
            },
        },
        final(procs)@.well_formed(),
        final(pipes).well_formed(),
        covers(final(pipes).pipes@, final(procs)@),
{
    let ghost s0 = pipes.pipes@;
    let ghost p0 = procs@;
    match pipes.open_pipe(name, flags) {
        Err(e) => Err(SysError::Kernel(e)),
        Ok(e) => {
            let h: Handle = Handle {
                kind: if e.is_reader { HandleKind::PipeRead } else { HandleKind::PipeWrite },
                object: e.pipe,
            };
            proof {
                let q = syscall::handle_given(p0, cur, h, inherit).0;
                assert(end_of(h) == Some(e));
                pipe::lemma_named_pipe(s0, pipes.next_id, name@);
                assert forall|x: PipeType| #[trigger] pipe::ends(pipes.pipes@, x) >= held_by(q.procs, q.procs.len(), x) by {
                    pipe::lemma_with_end(s0, pipes.next_id, e, x);
                    lemma_given(p0, cur, h, inherit, x);
                    assert(pipe::ends(s0, x) >= held_by(p0.procs, p0.procs.len(), x));
                }
            }
            Ok(procs.add_handle_to_proc(cur, h, inherit))
        },
    }
}

} // verus!
