use vstd::prelude::*;
use crate::error::KError;
use crate::sched::queue;
use crate::sched::queue::{Queue, QueueKind, TaskQueue, TimerInfo, queue_for};
use crate::sched::task;
use crate::sched::task::{
    FrameTable, HandlerSetup, INIT_QUANTA, MAX_SIGNALS, Saved, SignalCause, SignalRun, SignalStep, Task, TaskStatus,
};
use crate::sync::lock::Spinlock;
use crate::sync::semaphore::{SemState, Wake};

verus! {

/// Something that tasks wait for, and those that do, first come first.
pub struct KSemInner {
    pub state: SemState,
    pub blocked: Vec<u64>,
}

#[verifier::ext_equal]
pub struct Sem {
    pub state: SemState,
    pub blocked: Seq<u64>,
}

impl View for KSemInner {
    type V = Sem;

    open spec fn view(&self) -> Sem {
        Sem { state: self.state, blocked: self.blocked@ }
    }
}

/// What is known of a task that has ended and been cleared away: what those who have a handle for it
/// can still ask, and what they can still wait for.
#[derive(Clone, Copy, Debug, PartialEq, Eq, Structural)]
pub struct EndedTask {
    pub id: u64,
    pub exit_code: i64,
    pub term_notify: usize,
}

/// The record of a task that has ended, the one made last.
pub open spec fn ended_task(s: Seq<EndedTask>, n: nat, id: u64) -> Option<EndedTask>
    decreases n,
{
    if n == 0 {
        None
    } else if s[n - 1].id == id {
        Some(s[n - 1])
    } else {
        ended_task(s, (n - 1) as nat, id)
    }
}

/// All tasks, the cores that run them and what they wait for.
pub struct Scheduler {
    pub tasks: Vec<Task>,
    pub queues: Vec<TaskQueue>,
    pub sems: Vec<KSemInner>,
    pub next_task: u64,
    /// The core that gets the next task.
    pub next_core: u64,
    /// Cores that have been told that there is something new to run.
    pub notified: Vec<usize>,
    /// Tasks that have ended and been cleared away.
    pub ended: Vec<EndedTask>,
}

#[verifier::ext_equal]
pub struct Sched {
    pub tasks: Seq<Task>,
    pub queues: Seq<Queue>,
    pub sems: Seq<Sem>,
    pub next_task: u64,
    pub next_core: u64,
    pub notified: Seq<usize>,
    pub ended: Seq<EndedTask>,
}

pub open spec fn queue_views(v: Seq<TaskQueue>) -> Seq<Queue> {
    Seq::new(v.len(), |i: int| v[i]@)
}

pub open spec fn sem_views(v: Seq<KSemInner>) -> Seq<Sem> {
    Seq::new(v.len(), |i: int| v[i]@)
}

impl View for Scheduler {
    type V = Sched;

    open spec fn view(&self) -> Sched {
        Sched {
            tasks: self.tasks@,
            queues: queue_views(self.queues@),
            sems: sem_views(self.sems@),
            next_task: self.next_task,
            next_core: self.next_core,
            notified: self.notified@,
            ended: self.ended@,
        }
    }
}

/// The first task from `i` on with an id.
pub open spec fn find_task(s: Seq<Task>, i: int, id: u64) -> Option<int>
    decreases s.len() - i,
{
    if i < 0 || i >= s.len() {
        None
    } else if s[i].id == id {
        Some(i)
    } else {
        find_task(s, i + 1, id)
    }
}

pub open spec fn lookup(s: Seq<Task>, id: u64) -> Option<Task> {
    match find_task(s, 0, id) { Some(i) => Some(s[i]), None => None }
}

pub open spec fn replaced(s: Seq<Task>, t: Task) -> Seq<Task> {
    match find_task(s, 0, t.id) { Some(i) => s.update(i, t), None => s }
}

/// A task is known, belongs to a core and has a status that a list is for.
pub open spec fn fits(tasks: Seq<Task>, id: u64, core: int, kind: QueueKind) -> bool {
    match lookup(tasks, id) {
        Some(t) => t.core == core && queue::kind_of(t.status) == Some(kind),
        None => false,
    }
}

/// A list holds tasks of its kind, each once.
pub open spec fn list_ok(tasks: Seq<Task>, l: Seq<u64>, core: int, kind: QueueKind) -> bool {
    &&& forall|i: int| 0 <= i < l.len() ==> fits(tasks, #[trigger] l[i], core, kind)
    &&& queue::no_dup(l)
}

/// The running task is known, belongs to the core and is in none of its lists.
pub open spec fn running_ok(tasks: Seq<Task>, q: Queue, core: int) -> bool {
    match q.running {
        None => true,
        Some(id) => {
            &&& lookup(tasks, id) matches Some(t) && t.core == core && t.status != TaskStatus::Active
            &&& !queue::holds(q.waiting, id)
            &&& !queue::holds(q.terminated, id)
            &&& !queue::holds(q.suspended, id)
        },
    }
}

pub open spec fn queue_ok(tasks: Seq<Task>, q: Queue, core: int) -> bool {
    &&& list_ok(tasks, q.active, core, QueueKind::Active)
    &&& list_ok(tasks, q.waiting, core, QueueKind::Waiting)
    &&& list_ok(tasks, q.terminated, core, QueueKind::Terminated)
    &&& list_ok(tasks, q.suspended, core, QueueKind::Suspended)
    &&& running_ok(tasks, q, core)
}

pub open spec fn waits(status: TaskStatus) -> bool {
    status == TaskStatus::Waiting || status == TaskStatus::WaitingInterruptible
}

/// A task that is blocked on a semaphore waits for it, unless it has been killed.
pub open spec fn blocked_ok(tasks: Seq<Task>, id: u64, sem: int) -> bool {
    match lookup(tasks, id) {
        None => true,
        Some(t) => t.status == TaskStatus::Terminated || (waits(t.status) && t.wait_sem == Some(sem as usize)),
    }
}

pub open spec fn sem_ok(tasks: Seq<Task>, s: Sem, sem: int, next: u64) -> bool {
    &&& forall|i: int| 0 <= i < s.blocked.len() ==> {
        let id = #[trigger] s.blocked[i];
        id < next && blocked_ok(tasks, id, sem)
    }
    &&& queue::no_dup(s.blocked)
    &&& s.state.well_formed()
}

pub open spec fn tasks_ok(tasks: Seq<Task>, next: u64, cores: nat) -> bool {
    &&& forall|i: int, j: int| 0 <= i < j < tasks.len() ==> (#[trigger] tasks[i]).id != (#[trigger] tasks[j]).id
    &&& forall|i: int| 0 <= i < tasks.len() ==> {
        let t = #[trigger] tasks[i];
        t.id < next && t.core < cores && t.well_formed() && t.vcb is Some
    }
}

pub open spec fn runs(q: Queue, id: u64) -> bool {
    q.running == Some(id)
}

/// A task is where its status says: in the list for it, unless it is the running one.
pub open spec fn placed(t: Task, q: Queue) -> bool {
    match queue::kind_of(t.status) {
        None => runs(q, t.id),
        Some(k) => queue::holds(q.list(k), t.id) || (k != QueueKind::Active && runs(q, t.id)),
    }
}

pub open spec fn all_placed(tasks: Seq<Task>, queues: Seq<Queue>) -> bool {
    forall|i: int| 0 <= i < tasks.len() ==> placed(#[trigger] tasks[i], queues[tasks[i].core as int])
}

/// A task waits for something exactly while its status says so.
pub open spec fn waiting_ok(t: Task, sems: nat) -> bool {
    match t.wait_sem {
        Some(m) => waits(t.status) && m < sems,
        None => !waits(t.status),
    }
}

pub open spec fn all_waiting_ok(tasks: Seq<Task>, sems: nat) -> bool {
    forall|i: int| 0 <= i < tasks.len() ==> waiting_ok(#[trigger] tasks[i], sems)
}

impl Sched {
    /// Every task is in one place, and whoever is blocked waits.
    pub open spec fn well_formed(self) -> bool {
        &&& tasks_ok(self.tasks, self.next_task, self.queues.len())
        &&& all_placed(self.tasks, self.queues)
        &&& all_waiting_ok(self.tasks, self.sems.len())
        &&& forall|c: int| 0 <= c < self.queues.len() ==> queue_ok(self.tasks, #[trigger] self.queues[c], c)
        &&& forall|s: int| 0 <= s < self.sems.len() ==> sem_ok(self.tasks, #[trigger] self.sems[s], s, self.next_task)
        &&& self.sems.len() <= usize::MAX
        &&& self.next_core < 256
    }

    pub open spec fn task(self, id: u64) -> Option<Task> {
        lookup(self.tasks, id)
    }

    pub open spec fn with_task(self, t: Task) -> Sched {
        Sched { tasks: replaced(self.tasks, t), ..self }
    }

    pub open spec fn with_queue(self, core: int, q: Queue) -> Sched {
        Sched { queues: self.queues.update(core, q), ..self }
    }

    pub open spec fn with_sem(self, sem: int, s: Sem) -> Sched {
        Sched { sems: self.sems.update(sem, s), ..self }
    }

    pub open spec fn with_notice(self, core: usize) -> Sched {
        Sched { notified: self.notified.push(core), ..self }
    }

    /// The task that a core runs.
    pub open spec fn current(self, core: int) -> Option<Task> {
        match self.queues[core].running { Some(id) => self.task(id), None => None }
    }

    /// The outcome of telling a task that its wait is over. A task that has been killed is not told,
    /// and an interruption only ends a wait that can be interrupted.
    pub open spec fn woken(self, id: u64, sem: usize, cause: SignalCause) -> (Sched, bool) {
        match self.task(id) {
            None => (self, false),
            Some(t) => if !waits(t.status)
                || (cause == SignalCause::Interruption && t.status != TaskStatus::WaitingInterruptible) {
                (self, false)
            } else {
                let q = self.queues[t.core as int];
                let in_queue = queue::holds(q.waiting, id);
                let u = Task {
                    status: if in_queue { TaskStatus::Active } else { TaskStatus::Running },
                    quanta: if in_queue { t.quanta } else { INIT_QUANTA },
                    wait_sem: if t.wait_sem == Some(sem) { None } else { t.wait_sem },
                    ..t
                };
                let q1 = Queue {
                    waiting: queue::taken_out(q.waiting, id),
                    active: if in_queue { seq![id] + q.active } else { q.active },
                    timer_list: queue::without_timer(q.timer_list, id, Some(sem)),
                    ..q
                };
                (self.with_task(u.with_cause(cause)).with_queue(t.core as int, q1).with_notice(t.core), true)
            },
        }
    }

    /// The outcome of waking a task that is blocked on a semaphore: a given one, or the first.
    pub open spec fn woke(self, sem: int, task: Option<u64>, cause: SignalCause) -> (Sched, bool) {
        let b = self.sems[sem].blocked;
        let found = match task {
            Some(id) => queue::holds(b, id),
            None => b.len() > 0,
        };
        let id = match task { Some(id) => id, None => b[0] };
        if !found {
            (self, false)
        } else {
            let (s, ok) = self.woken(id, sem as usize, cause);
            if ok {
                (s.with_sem(sem, Sem { blocked: queue::taken_out(b, id), ..s.sems[sem] }), true)
            } else {
                (self, false)
            }
        }
    }

    /// Everybody who is blocked has been woken, up to the first who cannot be.
    pub open spec fn woke_all(self, sem: int, n: nat) -> Sched
        decreases n,
    {
        if n == 0 {
            self
        } else {
            let (s, ok) = self.woke(sem, None, SignalCause::Normal);
            if ok { s.woke_all(sem, (n - 1) as nat) } else { self }
        }
    }

    pub open spec fn with_state(self, sem: int, state: SemState) -> Sched {
        self.with_sem(sem, Sem { state, ..self.sems[sem] })
    }

    /// A semaphore or event has been signalled.
    pub open spec fn signalled(self, sem: int) -> Sched {
        let state = self.sems[sem].state;
        let s = self.with_state(sem, state.restored());
        match state.wakes() {
            Wake::Nobody => s,
            Wake::One => {
                let (t, ok) = s.woke(sem, None, SignalCause::Normal);
                if ok { t } else { s.with_state(sem, s.sems[sem].state.raised()) }
            },
            Wake::All => {
                let t = s.woke_all(sem, s.sems[sem].blocked.len());
                t.with_state(sem, t.sems[sem].state.raised())
            },
        }
    }

    /// A given task has been told that its wait is over, for a reason other than a signal.
    pub open spec fn signalled_on_task(self, sem: int, task: u64, is_interruption: bool) -> Sched {
        let cause = if is_interruption { SignalCause::Interruption } else { SignalCause::TimerExpiry };
        let (s, ok) = self.woke(sem, Some(task), cause);
        if ok { s.with_state(sem, s.sems[sem].state.restored()) } else { self }
    }

    /// A task that has been killed no longer waits.
    pub open spec fn dropped(self, sem: int, task: u64) -> Sched {
        let b = self.sems[sem].blocked;
        if queue::holds(b, task) {
            self.with_sem(sem, Sem { state: self.sems[sem].state.restored(), blocked: queue::taken_out(b, task) })
        } else {
            self
        }
    }
}

pub proof fn lemma_task_found(s: Seq<Task>, i: int, id: u64)
    requires
        0 <= i,
    ensures
        match find_task(s, i, id) {
            Some(k) => i <= k < s.len() && s[k].id == id,
            None => forall|k: int| i <= k < s.len() ==> (#[trigger] s[k]).id != id,
        },
    decreases s.len() - i,
{
    if i < s.len() {
        lemma_task_found(s, i + 1, id);
    }
}

/// Changing one task leaves the lookup of all others alone.
pub proof fn lemma_replaced_find(s: Seq<Task>, i: int, t: Task, id: u64)
    requires
        0 <= i,
    ensures
        find_task(replaced(s, t), i, id) == find_task(s, i, id),
    decreases s.len() - i,
{
    lemma_task_found(s, 0, t.id);
    if i < s.len() {
        lemma_replaced_find(s, i + 1, t, id);
    }
}

pub proof fn lemma_replaced(s: Seq<Task>, t: Task, id: u64)
    requires
        lookup(s, t.id) is Some,
    ensures
        lookup(replaced(s, t), id) == (if id == t.id { Some(t) } else { lookup(s, id) }),
{
    lemma_task_found(s, 0, t.id);
    lemma_task_found(s, 0, id);
    lemma_replaced_find(s, 0, t, id);
}

/// A task with another status or core is not in a list.
proof fn lemma_not_in(tasks: Seq<Task>, l: Seq<u64>, core: int, kind: QueueKind, id: u64)
    requires
        list_ok(tasks, l, core, kind),
        !fits(tasks, id, core, kind),
    ensures
        !queue::holds(l, id),
{
    queue::lemma_index_in(l, 0, id);
    if let Some(k) = queue::index_in(l, 0, id) {
        assert(fits(tasks, l[k], core, kind));
    }
}

/// A list stays sound when a task changes that is not in it, or that stays fit for it.
proof fn lemma_list_kept(tasks: Seq<Task>, t: Task, l: Seq<u64>, core: int, kind: QueueKind)
    requires
        list_ok(tasks, l, core, kind),
        lookup(tasks, t.id) is Some,
        queue::holds(l, t.id) ==> t.core == core && queue::kind_of(t.status) == Some(kind),
    ensures
        list_ok(replaced(tasks, t), l, core, kind),
{
    let u = replaced(tasks, t);
    assert forall|i: int| 0 <= i < l.len() implies fits(u, #[trigger] l[i], core, kind) by {
        lemma_replaced(tasks, t, l[i]);
        assert(fits(tasks, l[i], core, kind));
        if l[i] == t.id {
            queue::lemma_index_in(l, 0, t.id);
        }
    }
}

proof fn lemma_list_pushed(tasks: Seq<Task>, l: Seq<u64>, core: int, kind: QueueKind, id: u64)
    requires
        list_ok(tasks, l, core, kind),
        fits(tasks, id, core, kind),
        !queue::holds(l, id),
    ensures
        list_ok(tasks, l.push(id), core, kind),
        list_ok(tasks, seq![id] + l, core, kind),
        queue::holds(l.push(id), id),
        queue::holds(seq![id] + l, id),
{
    queue::lemma_index_in(l, 0, id);
    let a = l.push(id);
    let b = seq![id] + l;
    queue::lemma_index_in(a, 0, id);
    queue::lemma_index_in(b, 0, id);
    assert(a[l.len() as int] == id);
    assert(b[0] == id);
    assert forall|i: int| 0 <= i < a.len() implies fits(tasks, #[trigger] a[i], core, kind) by {
        if i < l.len() {
            assert(fits(tasks, l[i], core, kind));
        }
    }
    assert forall|i: int| 0 <= i < b.len() implies fits(tasks, #[trigger] b[i], core, kind) by {
        if i > 0 {
            assert(fits(tasks, l[i - 1], core, kind));
        }
    }
    assert forall|i: int, j: int| 0 <= i < j < b.len() implies #[trigger] b[i] != #[trigger] b[j] by {
        if i == 0 {
            assert(l[j - 1] != id);
        } else {
            assert(l[i - 1] != l[j - 1]);
        }
    }
    assert forall|i: int, j: int| 0 <= i < j < a.len() implies #[trigger] a[i] != #[trigger] a[j] by {
        if j == l.len() {
            assert(l[i] != id);
        } else {
            assert(l[i] != l[j]);
        }
    }
}

proof fn lemma_list_taken(tasks: Seq<Task>, l: Seq<u64>, core: int, kind: QueueKind, id: u64)
    requires
        list_ok(tasks, l, core, kind),
    ensures
        list_ok(tasks, queue::taken_out(l, id), core, kind),
        !queue::holds(queue::taken_out(l, id), id),
        forall|x: u64| x != id ==> #[trigger] queue::holds(queue::taken_out(l, id), x) == queue::holds(l, x),
{
    queue::lemma_taken_out(l, id);
    let t = queue::taken_out(l, id);
    queue::lemma_index_in(t, 0, id);
    assert forall|i: int| 0 <= i < t.len() implies fits(tasks, #[trigger] t[i], core, kind) by {
        let j = choose|j: int| 0 <= j < l.len() && l[j] == t[i];
        assert(fits(tasks, l[j], core, kind));
    }
    assert forall|x: u64| x != id implies #[trigger] queue::holds(t, x) == queue::holds(l, x) by {
        queue::lemma_index_in(t, 0, x);
        queue::lemma_index_in(l, 0, x);
        if let Some(k) = queue::index_in(t, 0, x) {
            let j = choose|j: int| 0 <= j < l.len() && l[j] == t[k];
            assert(l[j] == x);
        }
        if let Some(k) = queue::index_in(l, 0, x) {
            queue::lemma_index_in(l, 0, id);
            if let Some(d) = queue::index_in(l, 0, id) {
                let e = if k < d { k } else { k - 1 };
                assert(t[e] == l[k]);
            } else {
                assert(t[k] == l[k]);
            }
        }
    }
}

/// Membership after an id has been added.
proof fn lemma_holds_added(l: Seq<u64>, id: u64)
    ensures
        forall|x: u64| x != id ==> #[trigger] queue::holds(l.push(id), x) == queue::holds(l, x),
        forall|x: u64| x != id ==> #[trigger] queue::holds(seq![id] + l, x) == queue::holds(l, x),
{
    assert forall|x: u64| x != id implies #[trigger] queue::holds(l.push(id), x) == queue::holds(l, x) by {
        let a = l.push(id);
        queue::lemma_index_in(a, 0, x);
        queue::lemma_index_in(l, 0, x);
        if let Some(k) = queue::index_in(l, 0, x) {
            assert(a[k] == x);
        }
        if let Some(k) = queue::index_in(a, 0, x) {
            assert(l[k] == x);
        }
    }
    assert forall|x: u64| x != id implies #[trigger] queue::holds(seq![id] + l, x) == queue::holds(l, x) by {
        let b = seq![id] + l;
        queue::lemma_index_in(b, 0, x);
        queue::lemma_index_in(l, 0, x);
        if let Some(k) = queue::index_in(l, 0, x) {
            assert(b[k + 1] == x);
        }
        if let Some(k) = queue::index_in(b, 0, x) {
            assert(l[k - 1] == x);
        }
    }
}

/// A core's queue stays sound when a task of another core changes and stays there.
proof fn lemma_queue_other(tasks: Seq<Task>, q: Queue, core: int, t: Task)
    requires
        queue_ok(tasks, q, core),
        lookup(tasks, t.id) matches Some(o) && o.core != core,
    ensures
        queue_ok(replaced(tasks, t), q, core),
{
    lemma_not_in(tasks, q.active, core, QueueKind::Active, t.id);
    lemma_not_in(tasks, q.waiting, core, QueueKind::Waiting, t.id);
    lemma_not_in(tasks, q.terminated, core, QueueKind::Terminated, t.id);
    lemma_not_in(tasks, q.suspended, core, QueueKind::Suspended, t.id);
    lemma_list_kept(tasks, t, q.active, core, QueueKind::Active);
    lemma_list_kept(tasks, t, q.waiting, core, QueueKind::Waiting);
    lemma_list_kept(tasks, t, q.terminated, core, QueueKind::Terminated);
    lemma_list_kept(tasks, t, q.suspended, core, QueueKind::Suspended);
    if let Some(r) = q.running {
        lemma_replaced(tasks, t, r);
    }
}

/// A core's queue stays sound when one of its tasks changes and its status does not call for
/// another list.
proof fn lemma_queue_same(tasks: Seq<Task>, q: Queue, core: int, t: Task)
    requires
        queue_ok(tasks, q, core),
        lookup(tasks, t.id) matches Some(o) && o.core == t.core && queue::kind_of(o.status) == queue::kind_of(t.status),
    ensures
        queue_ok(replaced(tasks, t), q, core),
{
    let o = lookup(tasks, t.id)->0;
    assert forall|k: QueueKind| #[trigger] queue::holds(q.list(k), t.id) implies t.core == core && queue::kind_of(t.status)
        == Some(k) by {
        queue::lemma_index_in(q.list(k), 0, t.id);
        let i = queue::index_in(q.list(k), 0, t.id)->0;
        assert(list_ok(tasks, q.list(k), core, k));
        assert(fits(tasks, q.list(k)[i], core, k));
    }
    assert(q.list(QueueKind::Active) == q.active);
    assert(q.list(QueueKind::Waiting) == q.waiting);
    assert(q.list(QueueKind::Terminated) == q.terminated);
    assert(q.list(QueueKind::Suspended) == q.suspended);
    lemma_list_kept(tasks, t, q.active, core, QueueKind::Active);
    lemma_list_kept(tasks, t, q.waiting, core, QueueKind::Waiting);
    lemma_list_kept(tasks, t, q.terminated, core, QueueKind::Terminated);
    lemma_list_kept(tasks, t, q.suspended, core, QueueKind::Suspended);
    if let Some(r) = q.running {
        lemma_replaced(tasks, t, r);
    }
}

proof fn lemma_tasks_ok(tasks: Seq<Task>, next: u64, cores: nat, t: Task)
    requires
        tasks_ok(tasks, next, cores),
        lookup(tasks, t.id) matches Some(o) && o.core == t.core,
        t.well_formed(),
        t.vcb is Some,
    ensures
        tasks_ok(replaced(tasks, t), next, cores),
{
    lemma_task_found(tasks, 0, t.id);
    let u = replaced(tasks, t);
    let k = find_task(tasks, 0, t.id)->0;
    assert forall|i: int, j: int| 0 <= i < j < u.len() implies (#[trigger] u[i]).id != (#[trigger] u[j]).id by {
        assert(tasks[i].id != tasks[j].id);
        assert(u[i].id == tasks[i].id && u[j].id == tasks[j].id);
    }
    assert forall|i: int| 0 <= i < u.len() implies ({
        let x = #[trigger] u[i];
        x.id < next && x.core < cores && x.well_formed() && x.vcb is Some
    }) by {
        assert(tasks[i].id < next && tasks[i].core < cores && tasks[i].well_formed() && tasks[i].vcb is Some);
        assert(tasks[k].core == t.core);
    }
}

/// Ids are unique, so a task is found where it is.
proof fn lemma_lookup_at(tasks: Seq<Task>, next: u64, cores: nat, i: int)
    requires
        tasks_ok(tasks, next, cores),
        0 <= i < tasks.len(),
    ensures
        lookup(tasks, tasks[i].id) == Some(tasks[i]),
{
    lemma_task_found(tasks, 0, tasks[i].id);
    let k = find_task(tasks, 0, tasks[i].id)->0;
    if k < i {
        assert(tasks[k].id != tasks[i].id);
    } else if i < k {
        assert(tasks[i].id != tasks[k].id);
    }
}

proof fn lemma_lookup_ok(tasks: Seq<Task>, next: u64, cores: nat, id: u64)
    requires
        tasks_ok(tasks, next, cores),
    ensures
        lookup(tasks, id) matches Some(t) ==> t.id == id && t.id < next && t.core < cores && t.well_formed()
            && t.vcb is Some,
{
    lemma_task_found(tasks, 0, id);
    if let Some(k) = find_task(tasks, 0, id) {
        assert(tasks[k].id < next);
    }
}

proof fn lemma_lookup_waiting(s: Sched, id: u64)
    requires
        s.well_formed(),
    ensures
        s.task(id) matches Some(t) ==> waiting_ok(t, s.sems.len()),
{
    lemma_task_found(s.tasks, 0, id);
    if let Some(k) = find_task(s.tasks, 0, id) {
        assert(waiting_ok(s.tasks[k], s.sems.len()));
    }
}

/// Two queues of a core agree on every task but one.
pub open spec fn agree_but(q: Queue, r: Queue, id: u64) -> bool {
    &&& forall|x: u64, k: QueueKind| x != id ==> #[trigger] queue::holds(q.list(k), x) == queue::holds(r.list(k), x)
    &&& forall|x: u64| x != id ==> #[trigger] runs(q, x) == runs(r, x)
}

/// A task has changed, and its core's queue with it.
proof fn lemma_moved(s: Sched, t: Task, q1: Queue)
    requires
        s.well_formed(),
        lookup(s.tasks, t.id) matches Some(o) && o.core == t.core,
        t.well_formed(),
        t.vcb is Some,
        waiting_ok(t, s.sems.len()),
        queue_ok(replaced(s.tasks, t), q1, t.core as int),
        placed(t, q1),
        agree_but(s.queues[t.core as int], q1, t.id),
        forall|m: int| 0 <= m < s.sems.len() && #[trigger] queue::holds(s.sems[m].blocked, t.id)
            ==> t.status == TaskStatus::Terminated || (waits(t.status) && t.wait_sem == Some(m as usize)),
    ensures
        s.with_task(t).with_queue(t.core as int, q1).well_formed(),
{
    let c = t.core as int;
    let u = replaced(s.tasks, t);
    let r = s.with_task(t).with_queue(c, q1);
    lemma_lookup_ok(s.tasks, s.next_task, s.queues.len(), t.id);
    lemma_tasks_ok(s.tasks, s.next_task, s.queues.len(), t);
    lemma_task_found(s.tasks, 0, t.id);
    let k = find_task(s.tasks, 0, t.id)->0;
    assert forall|i: int| 0 <= i < u.len() implies placed(#[trigger] u[i], r.queues[u[i].core as int]) by {
        if i != k {
            assert(u[i] == s.tasks[i]);
            assert(placed(s.tasks[i], s.queues[s.tasks[i].core as int]));
            assert(s.tasks[i].id != t.id) by {
                if i < k {
                    assert(s.tasks[i].id != s.tasks[k].id);
                } else {
                    assert(s.tasks[k].id != s.tasks[i].id);
                }
            }
            if u[i].core == t.core {
                let x = u[i].id;
                let q = s.queues[c];
                if let Some(d) = queue::kind_of(u[i].status) {
                    assert(queue::holds(q.list(d), x) == queue::holds(q1.list(d), x));
                }
                assert(runs(q, x) == runs(q1, x));
            }
        }
    }
    assert forall|i: int| 0 <= i < u.len() implies waiting_ok(#[trigger] u[i], r.sems.len()) by {
        assert(waiting_ok(s.tasks[i], s.sems.len()));
    }
    assert forall|d: int| 0 <= d < r.queues.len() implies queue_ok(r.tasks, #[trigger] r.queues[d], d) by {
        if d != c {
            assert(queue_ok(s.tasks, s.queues[d], d));
            lemma_queue_other(s.tasks, s.queues[d], d, t);
        }
    }
    assert forall|m: int| 0 <= m < r.sems.len() implies sem_ok(r.tasks, #[trigger] r.sems[m], m, r.next_task) by {
        let b = s.sems[m].blocked;
        assert(sem_ok(s.tasks, s.sems[m], m, s.next_task));
        assert forall|i: int| 0 <= i < b.len() implies ({
            let id = #[trigger] b[i];
            id < r.next_task && blocked_ok(r.tasks, id, m)
        }) by {
            lemma_replaced(s.tasks, t, b[i]);
            assert(blocked_ok(s.tasks, b[i], m));
            if b[i] == t.id {
                queue::lemma_index_in(b, 0, t.id);
                assert(queue::holds(s.sems[m].blocked, t.id));
            }
        }
    }
}

/// A semaphore's state and the tasks that are blocked on it may change, as long as these wait.
proof fn lemma_sem_changed(s: Sched, m: int, x: Sem)
    requires
        s.well_formed(),
        0 <= m < s.sems.len(),
        sem_ok(s.tasks, x, m, s.next_task),
    ensures
        s.with_sem(m, x).well_formed(),
{
    let r = s.with_sem(m, x);
    assert forall|n: int| 0 <= n < r.sems.len() implies sem_ok(r.tasks, #[trigger] r.sems[n], n, r.next_task) by {
        if n != m {
            assert(sem_ok(s.tasks, s.sems[n], n, s.next_task));
        }
    }
}

proof fn lemma_blocked_taken(s: Sched, m: int, id: u64)
    requires
        s.well_formed(),
        0 <= m < s.sems.len(),
    ensures
        sem_ok(s.tasks, Sem { blocked: queue::taken_out(s.sems[m].blocked, id), ..s.sems[m] }, m, s.next_task),
        !queue::holds(queue::taken_out(s.sems[m].blocked, id), id),
{
    let b = s.sems[m].blocked;
    let t = queue::taken_out(b, id);
    assert(sem_ok(s.tasks, s.sems[m], m, s.next_task));
    queue::lemma_taken_out(b, id);
    queue::lemma_index_in(t, 0, id);
    assert forall|i: int| 0 <= i < t.len() implies ({
        let x = #[trigger] t[i];
        x < s.next_task && blocked_ok(s.tasks, x, m)
    }) by {
        let j = choose|j: int| 0 <= j < b.len() && b[j] == t[i];
        assert(blocked_ok(s.tasks, b[j], m));
    }
}

/// Waking a blocked task keeps everything in its place.
proof fn lemma_woke_ok(s: Sched, m: int, id: u64, cause: SignalCause)
    requires
        s.well_formed(),
        0 <= m < s.sems.len(),
        queue::holds(s.sems[m].blocked, id),
    ensures
        ({
            let (t, ok) = s.woken(id, m as usize, cause);
            ok ==> t.with_sem(m, Sem { blocked: queue::taken_out(s.sems[m].blocked, id), ..t.sems[m] }).well_formed()
                && t.sems == s.sems
        }),
        s.task(id) matches Some(t) ==> (waits(t.status) && t.wait_sem == Some(m as usize)) || t.status
            == TaskStatus::Terminated,
{
    let b = s.sems[m].blocked;
    assert(sem_ok(s.tasks, s.sems[m], m, s.next_task));
    queue::lemma_index_in(b, 0, id);
    let bi = queue::index_in(b, 0, id)->0;
    assert(blocked_ok(s.tasks, b[bi], m));
    let (t, ok) = s.woken(id, m as usize, cause);
    if ok {
        let o = s.task(id)->0;
        lemma_lookup_ok(s.tasks, s.next_task, s.queues.len(), id);
        let c = o.core as int;
        let q = s.queues[c];
        assert(queue_ok(s.tasks, q, c));
        let in_queue = queue::holds(q.waiting, id);
        let n0 = Task {
            status: if in_queue { TaskStatus::Active } else { TaskStatus::Running },
            quanta: if in_queue { o.quanta } else { INIT_QUANTA },
            wait_sem: None,
            ..o
        };
        let n = n0.with_cause(cause);
        assert(n.id == id && n.core == o.core && n.status == n0.status && n.wait_sem is None);
        assert(n.well_formed());
        let q1 = Queue {
            waiting: queue::taken_out(q.waiting, id),
            active: if in_queue { seq![id] + q.active } else { q.active },
            timer_list: queue::without_timer(q.timer_list, id, Some(m as usize)),
            ..q
        };
        let u = replaced(s.tasks, n);
        lemma_replaced(s.tasks, n, id);
        lemma_not_in(s.tasks, q.active, c, QueueKind::Active, id);
        lemma_not_in(s.tasks, q.terminated, c, QueueKind::Terminated, id);
        lemma_not_in(s.tasks, q.suspended, c, QueueKind::Suspended, id);
        lemma_list_kept(s.tasks, n, q.active, c, QueueKind::Active);
        lemma_list_kept(s.tasks, n, q.terminated, c, QueueKind::Terminated);
        lemma_list_kept(s.tasks, n, q.suspended, c, QueueKind::Suspended);
        lemma_list_taken(s.tasks, q.waiting, c, QueueKind::Waiting, id);
        lemma_list_kept(s.tasks, n, q1.waiting, c, QueueKind::Waiting);
        if in_queue {
            lemma_list_pushed(u, q.active, c, QueueKind::Active, id);
        }
        lemma_holds_added(q.active, id);
        if let Some(r) = q.running {
            lemma_replaced(s.tasks, n, r);
        }
        lemma_task_found(s.tasks, 0, id);
        let k = find_task(s.tasks, 0, id)->0;
        assert(placed(s.tasks[k], s.queues[s.tasks[k].core as int]));
        assert(agree_but(q, q1, id)) by {
            assert forall|x: u64, d: QueueKind| x != id implies #[trigger] queue::holds(q.list(d), x) == queue::holds(
                q1.list(d), x) by {
                assert(queue::holds(queue::taken_out(q.waiting, id), x) == queue::holds(q.waiting, x));
                assert(queue::holds(seq![id] + q.active, x) == queue::holds(q.active, x));
            }
        }
        let s0 = s.with_sem(m, Sem { blocked: queue::taken_out(b, id), ..s.sems[m] });
        lemma_blocked_taken(s, m, id);
        lemma_sem_changed(s, m, s0.sems[m]);
        assert forall|j: int| 0 <= j < s0.sems.len() && #[trigger] queue::holds(s0.sems[j].blocked, id) implies
            n.status == TaskStatus::Terminated || (waits(n.status) && n.wait_sem == Some(j as usize)) by {
            if j != m {
                let bj = s.sems[j].blocked;
                queue::lemma_index_in(bj, 0, id);
                assert(sem_ok(s.tasks, s.sems[j], j, s.next_task));
                let i = queue::index_in(bj, 0, id)->0;
                assert(blocked_ok(s.tasks, bj[i], j));
            }
        }
        lemma_moved(s0, n, q1);
        let r = s0.with_task(n).with_queue(c, q1);
        assert(t.with_sem(m, Sem { blocked: queue::taken_out(b, id), ..t.sems[m] }) =~= r.with_notice(o.core));
    }
}

impl Scheduler {
    fn task_index(&self, id: u64) -> (r: Option<usize>)
        ensures
            match r {
                Some(i) => find_task(self.tasks@, 0, id) == Some(i as int) && i < self.tasks@.len(),
                None => find_task(self.tasks@, 0, id) is None,
            },
    {
        let mut i: usize = 0;
        while i < self.tasks.len()
            invariant
                i <= self.tasks@.len(),
                find_task(self.tasks@, 0, id) == find_task(self.tasks@, i as int, id),
            decreases self.tasks@.len() - i,
        {
            if self.tasks[i].id == id {
                return Some(i);
            }
            i = i + 1;
        }
        None
    }

    /// A task that has not been cleared away.
    pub fn get_task_info(&self, id: u64) -> (r: Option<Task>)
        ensures
            r == self@.task(id),
    {
        match self.task_index(id) {
            Some(i) => Some(self.tasks[i]),
            None => None,
        }
    }

    /// Looks the record of a task up that has ended and been cleared away.
    pub fn get_ended_task(&self, id: u64) -> (r: Option<EndedTask>)
        ensures
            r == ended_task(self@.ended, self@.ended.len(), id),
    {
        let mut n: usize = self.ended.len();
        while n > 0
            invariant
                n <= self.ended@.len(),
                ended_task(self.ended@, self.ended@.len(), id) == ended_task(self.ended@, n as nat, id),
            decreases n,
        {
            if self.ended[n - 1].id == id {
                return Some(self.ended[n - 1]);
            }
            n = n - 1;
        }
        None
    }

    fn put_task(&mut self, t: Task)
        ensures
            final(self)@ == old(self)@.with_task(t),
    {
        if let Some(i) = self.task_index(t.id) {
            self.tasks.set(i, t);
        }
    }

    /// Tells a core that there is something new to run.
    fn notify_other_cpu(&mut self, core: usize)
        ensures
            final(self)@ == old(self)@.with_notice(core),
    {
        self.notified.push(core);
    }

    /// Tells a task that its wait for a semaphore is over.
    fn signal_waiting_task(&mut self, id: u64, sem: usize, cause: SignalCause) -> (r: bool)
        requires
            old(self)@.well_formed(),
        ensures
            (final(self)@, r) == old(self)@.woken(id, sem, cause),
    {
        let ghost s0 = self@;
        proof {
            lemma_lookup_ok(self.tasks@, self.next_task, self@.queues.len(), id);
        }
        let mut t: Task = match self.get_task_info(id) { Some(t) => t, None => { return false; } };
        let ghost o = t;
        let waiting: bool = match t.status {
            TaskStatus::Waiting => cause != SignalCause::Interruption,
            TaskStatus::WaitingInterruptible => true,
            _ => false,
        };
        if !waiting {
            return false;
        }
        let core: usize = t.core;
        let ghost q0 = self@.queues[core as int];
        let found: bool = self.queues[core].remove_from(QueueKind::Waiting, id);
        if found {
            self.queues[core].push_first(id);
            t.status = TaskStatus::Active;
        } else {
            t.status = TaskStatus::Running;
            t.quanta = INIT_QUANTA;
        }
        self.queues[core].remove_timer(id, Some(sem));
        if let Some(w) = t.wait_sem {
            if w == sem {
                t.wait_sem = None;
            }
        }
        t.set_signal_cause(cause);
        assert(self@.queues =~= s0.queues.update(core as int, self@.queues[core as int]));
        self.put_task(t);
        self.notify_other_cpu(core);
        true
    }

    /// Wakes a task that is blocked on a semaphore: a given one, or the first.
    fn wake_task(&mut self, sem: usize, task: Option<u64>, cause: SignalCause) -> (r: bool)
        requires
            old(self)@.well_formed(),
            sem < old(self).sems@.len(),
        ensures
            (final(self)@, r) == old(self)@.woke(sem as int, task, cause),
            final(self)@.well_formed(),
            final(self).sems@.len() == old(self).sems@.len(),
    {
        let ghost s0 = self@;
        let ghost b = self@.sems[sem as int].blocked;
        let id: u64 = match task {
            Some(id) => {
                if !queue::contains(&self.sems[sem].blocked, id) {
                    return false;
                }
                id
            },
            None => {
                if self.sems[sem].blocked.len() == 0 {
                    return false;
                }
                proof {
                    queue::lemma_index_in(b, 0, b[0]);
                }
                self.sems[sem].blocked[0]
            },
        };
        proof {
            lemma_woke_ok(s0, sem as int, id, cause);
        }
        if self.signal_waiting_task(id, sem, cause) {
            let ghost s1 = self@;
            let _ = queue::take_out(&mut self.sems[sem].blocked, id);
            assert(self@.sems =~= s1.sems.update(
                sem as int, Sem { blocked: queue::taken_out(b, id), ..s1.sems[sem as int] }));
            true
        } else {
            false
        }
    }

    fn put_state(&mut self, sem: usize, state: SemState)
        requires
            sem < old(self).sems@.len(),
        ensures
            final(self)@ == old(self)@.with_state(sem as int, state),
            final(self).sems@.len() == old(self).sems@.len(),
    {
        let ghost s0 = self@;
        self.sems[sem].state = state;
        assert(self@.sems =~= s0.sems.update(sem as int, Sem { state, ..s0.sems[sem as int] }));
    }

    /// Signals a semaphore or an event.
    pub fn do_signal(&mut self, sem: usize)
        requires
            old(self)@.well_formed(),
            sem < old(self).sems@.len(),
        ensures
            final(self)@ == old(self)@.signalled(sem as int),
            final(self)@.well_formed(),
    {
        let ghost s0 = self@;
        let mut state: SemState = self.sems[sem].state;
        assert(sem_ok(s0.tasks, s0.sems[sem as int], sem as int, s0.next_task));
        let wake: Wake = state.signal();
        proof {
            lemma_sem_changed(s0, sem as int, Sem { state, ..s0.sems[sem as int] });
        }
        self.put_state(sem, state);
        let ghost s1 = self@;
        match wake {
            Wake::Nobody => {},
            Wake::One => {
                if !self.wake_task(sem, None, SignalCause::Normal) {
                    let mut again: SemState = self.sems[sem].state;
                    again.raise();
                    proof {
                        lemma_sem_changed(s1, sem as int, Sem { state: again, ..s1.sems[sem as int] });
                    }
                    self.put_state(sem, again);
                }
            },
            Wake::All => {
                self.wake_everybody(sem);
                let ghost s2 = self@;
                let mut again: SemState = self.sems[sem].state;
                again.raise();
                assert(sem_ok(s2.tasks, s2.sems[sem as int], sem as int, s2.next_task));
                proof {
                    lemma_sem_changed(s2, sem as int, Sem { state: again, ..s2.sems[sem as int] });
                }
                self.put_state(sem, again);
            },
        }
    }

    fn wake_everybody(&mut self, sem: usize)
        requires
            old(self)@.well_formed(),
            sem < old(self).sems@.len(),
        ensures
            final(self)@ == old(self)@.woke_all(sem as int, old(self)@.sems[sem as int].blocked.len()),
            final(self)@.well_formed(),
            final(self).sems@.len() == old(self).sems@.len(),
        decreases old(self)@.sems[sem as int].blocked.len(),
    {
        let ghost s0 = self@;
        let ghost b = s0.sems[sem as int].blocked;
        proof {
            if b.len() > 0 {
                queue::lemma_index_in(b, 0, b[0]);
                lemma_woke_ok(s0, sem as int, b[0], SignalCause::Normal);
            }
        }
        if self.wake_task(sem, None, SignalCause::Normal) {
            assert(self@.sems[sem as int].blocked.len() == b.len() - 1);
            self.wake_everybody(sem);
        }
    }

    /// Ends a task's wait for a reason other than a signal.
    pub fn do_signal_on_task(&mut self, sem: usize, task: u64, is_interruption: bool)
        requires
            old(self)@.well_formed(),
            sem < old(self).sems@.len(),
        ensures
            final(self)@ == old(self)@.signalled_on_task(sem as int, task, is_interruption),
            final(self)@.well_formed(),
    {
        let cause: SignalCause = if is_interruption { SignalCause::Interruption } else { SignalCause::TimerExpiry };
        if self.wake_task(sem, Some(task), cause) {
            let ghost s1 = self@;
            let mut state: SemState = self.sems[sem].state;
            assert(sem_ok(s1.tasks, s1.sems[sem as int], sem as int, s1.next_task));
            state.restore();
            proof {
                lemma_sem_changed(s1, sem as int, Sem { state, ..s1.sems[sem as int] });
            }
            self.put_state(sem, state);
        }
    }

    /// Forgets a killed task that was blocked on a semaphore.
    pub fn drop_task(&mut self, sem: usize, task: u64)
        requires
            old(self)@.well_formed(),
            sem < old(self).sems@.len(),
        ensures
            final(self)@ == old(self)@.dropped(sem as int, task),
            final(self)@.well_formed(),
    {
        let ghost s0 = self@;
        let ghost b = s0.sems[sem as int].blocked;
        if queue::contains(&self.sems[sem].blocked, task) {
            let mut state: SemState = self.sems[sem].state;
            assert(sem_ok(s0.tasks, s0.sems[sem as int], sem as int, s0.next_task));
            state.restore();
            proof {
                lemma_blocked_taken(s0, sem as int, task);
                lemma_sem_changed(s0, sem as int, Sem { state, blocked: queue::taken_out(b, task) });
            }
            self.put_state(sem, state);
            let ghost s1 = self@;
            let _ = queue::take_out(&mut self.sems[sem].blocked, task);
            let ghost x = Sem { blocked: queue::taken_out(b, task), ..s1.sems[sem as int] };
            assert(self@.sems =~= s1.sems.update(sem as int, x));
            assert(s1.sems.update(sem as int, x) =~= s0.sems.update(sem as int, x));
        }
    }

    /// Lowers an event's flag.
    pub fn reset(&mut self, sem: usize)
        requires
            old(self)@.well_formed(),
            sem < old(self).sems@.len(),
        ensures
            final(self)@ == old(self)@.with_state(sem as int, old(self)@.sems[sem as int].state.lowered()),
            final(self)@.well_formed(),
    {
        let ghost s0 = self@;
        let mut state: SemState = self.sems[sem].state;
        assert(sem_ok(s0.tasks, s0.sems[sem as int], sem as int, s0.next_task));
        state.reset();
        proof {
            lemma_sem_changed(s0, sem as int, Sem { state, ..s0.sems[sem as int] });
        }
        self.put_state(sem, state);
    }
}

/// How far a wait has come.
#[derive(Clone, Copy, Debug)]
pub enum WaitStep {
    Done(Result<(), KError>),
    /// The task gives its core up; when it runs again, its signal cause says how the wait ended.
    Blocked,
}

pub open spec fn wait_result(cause: SignalCause) -> Result<(), KError> {
    match cause {
        SignalCause::Normal => Ok(()),
        SignalCause::TimerExpiry => Err(KError::WaitTimedOut),
        SignalCause::Interruption => Err(KError::WaitInterrupted),
    }
}

impl Sched {
    /// The outcome of a core's task beginning to wait. With a timeout of zero it only gets through if
    /// that takes no waiting.
    pub open spec fn wait_begun(self, core: int, sem: usize, timeout: Option<u64>, is_interruptible: bool)
        -> (Sched, WaitStep)
    {
        let t = self.current(core)->0.with_cause(SignalCause::Normal);
        let s = self.with_task(t);
        let state = self.sems[sem as int].state;
        if state.available() {
            (s.with_state(sem as int, state.entered()), WaitStep::Done(Ok(())))
        } else if timeout == Some(0u64) {
            (s, WaitStep::Done(Err(KError::WaitTimedOut)))
        } else if t.status == TaskStatus::Terminated {
            (s, WaitStep::Done(Err(KError::WaitFailed)))
        } else if is_interruptible && t.in_signal_init != 0 {
            (s, WaitStep::Done(Err(KError::WaitInterrupted)))
        } else {
            let u = Task {
                wait_sem: Some(sem),
                status: if is_interruptible { TaskStatus::WaitingInterruptible } else { TaskStatus::Waiting },
                ..t
            };
            let q = self.queues[core];
            let q1 = match timeout {
                Some(n) => (Queue {
                    timer_list: q.timer_list.push(TimerInfo { timer_count: n, task_id: t.id, sem }),
                    ..q
                }),
                None => q,
            };
            let b = Sem { state: state.entered(), blocked: self.sems[sem as int].blocked.push(t.id) };
            (self.with_task(u).with_queue(core, q1).with_sem(sem as int, b), WaitStep::Blocked)
        }
    }
}

/// A task that neither waits nor has been killed is not blocked.
proof fn lemma_not_blocked(s: Sched, id: u64, m: int)
    requires
        s.well_formed(),
        0 <= m < s.sems.len(),
        s.task(id) matches Some(t) && !waits(t.status) && t.status != TaskStatus::Terminated,
    ensures
        !queue::holds(s.sems[m].blocked, id),
{
    let b = s.sems[m].blocked;
    queue::lemma_index_in(b, 0, id);
    assert(sem_ok(s.tasks, s.sems[m], m, s.next_task));
    if let Some(i) = queue::index_in(b, 0, id) {
        assert(blocked_ok(s.tasks, b[i], m));
    }
}

/// Changes to a task that concern neither its place nor its waiting.
proof fn lemma_touched(s: Sched, t: Task)
    requires
        s.well_formed(),
        s.task(t.id) matches Some(o) && o.core == t.core && o.status == t.status && o.wait_sem == t.wait_sem,
        t.well_formed(),
        t.vcb is Some,
    ensures
        s.with_task(t).well_formed(),
        forall|x: u64| s.with_task(t).task(x) == (if x == t.id { Some(t) } else { s.task(x) }),
{
    let c = t.core as int;
    lemma_lookup_waiting(s, t.id);
    lemma_lookup_ok(s.tasks, s.next_task, s.queues.len(), t.id);
    assert(queue_ok(s.tasks, s.queues[c], c));
    lemma_queue_same(s.tasks, s.queues[c], c, t);
    lemma_task_found(s.tasks, 0, t.id);
    let k = find_task(s.tasks, 0, t.id)->0;
    assert(placed(s.tasks[k], s.queues[s.tasks[k].core as int]));
    assert forall|m: int| 0 <= m < s.sems.len() && #[trigger] queue::holds(s.sems[m].blocked, t.id) implies
        t.status == TaskStatus::Terminated || (waits(t.status) && t.wait_sem == Some(m as usize)) by {
        let b = s.sems[m].blocked;
        queue::lemma_index_in(b, 0, t.id);
        assert(sem_ok(s.tasks, s.sems[m], m, s.next_task));
        let i = queue::index_in(b, 0, t.id)->0;
        assert(blocked_ok(s.tasks, b[i], m));
    }
    lemma_moved(s, t, s.queues[c]);
    assert(s.with_task(t).with_queue(c, s.queues[c]) =~= s.with_task(t));
    assert forall|x: u64| s.with_task(t).task(x) == (if x == t.id { Some(t) } else { s.task(x) }) by {
        lemma_replaced(s.tasks, t, x);
    }
}

/// The task that a core runs is known and is in none of its lists while its status is that of a
/// running one.
proof fn lemma_running(s: Sched, c: int)
    requires
        s.well_formed(),
        0 <= c < s.queues.len(),
        s.queues[c].running is Some,
    ensures
        s.current(c) matches Some(t) && t.id == s.queues[c].running->0 && t.core == c && t.well_formed()
            && t.vcb is Some && t.status != TaskStatus::Active,
        s.task(s.queues[c].running->0) == s.current(c),
{
    assert(queue_ok(s.tasks, s.queues[c], c));
    lemma_lookup_ok(s.tasks, s.next_task, s.queues.len(), s.queues[c].running->0);
}

/// A running task that begins to wait stays where it is until it is switched out.
proof fn lemma_wait_ok(s: Sched, c: int, u: Task, q1: Queue, sem: usize, state: SemState)
    requires
        s.well_formed(),
        0 <= c < s.queues.len(),
        s.current(c) matches Some(t) && t.status == TaskStatus::Running && t.id == u.id,
        u.core == c,
        u.well_formed(),
        u.vcb is Some,
        waits(u.status),
        u.wait_sem == Some(sem),
        q1 == (Queue { timer_list: q1.timer_list, ..s.queues[c] }),
        sem < s.sems.len(),
        state.well_formed(),
    ensures
        s.with_task(u).with_queue(c, q1).with_sem(
            sem as int, Sem { state, blocked: s.sems[sem as int].blocked.push(u.id) }).well_formed(),
{
    let q = s.queues[c];
    let id = u.id;
    lemma_running(s, c);
    assert(queue_ok(s.tasks, q, c));
    lemma_not_in(s.tasks, q.active, c, QueueKind::Active, id);
    lemma_not_in(s.tasks, q.waiting, c, QueueKind::Waiting, id);
    lemma_not_in(s.tasks, q.terminated, c, QueueKind::Terminated, id);
    lemma_not_in(s.tasks, q.suspended, c, QueueKind::Suspended, id);
    lemma_list_kept(s.tasks, u, q.active, c, QueueKind::Active);
    lemma_list_kept(s.tasks, u, q.waiting, c, QueueKind::Waiting);
    lemma_list_kept(s.tasks, u, q.terminated, c, QueueKind::Terminated);
    lemma_list_kept(s.tasks, u, q.suspended, c, QueueKind::Suspended);
    lemma_replaced(s.tasks, u, id);
    assert forall|m: int| 0 <= m < s.sems.len() && #[trigger] queue::holds(s.sems[m].blocked, id) implies
        u.status == TaskStatus::Terminated || (waits(u.status) && u.wait_sem == Some(m as usize)) by {
        lemma_not_blocked(s, id, m);
    }
    assert(agree_but(q, q1, id)) by {
        assert forall|x: u64, d: QueueKind| x != id implies #[trigger] queue::holds(q.list(d), x) == queue::holds(
            q1.list(d), x) by {
            assert(q.list(d) == q1.list(d));
        }
    }
    lemma_moved(s, u, q1);
    let r = s.with_task(u).with_queue(c, q1);
    let b = s.sems[sem as int].blocked;
    let x = Sem { state, blocked: b.push(id) };
    lemma_not_blocked(s, id, sem as int);
    queue::lemma_index_in(b, 0, id);
    assert(sem_ok(r.tasks, r.sems[sem as int], sem as int, r.next_task));
    assert forall|i: int| 0 <= i < x.blocked.len() implies ({
        let y = #[trigger] x.blocked[i];
        y < r.next_task && blocked_ok(r.tasks, y, sem as int)
    }) by {
        if i < b.len() {
            assert(blocked_ok(r.tasks, b[i], sem as int));
        } else {
            lemma_lookup_ok(s.tasks, s.next_task, s.queues.len(), id);
        }
    }
    assert forall|i: int, j: int| 0 <= i < j < x.blocked.len() implies #[trigger] x.blocked[i]
        != #[trigger] x.blocked[j] by {
        if j == b.len() {
            assert(b[i] != id);
        } else {
            assert(b[i] != b[j]);
        }
    }
    lemma_sem_changed(r, sem as int, x);
}

impl Scheduler {
    /// The task that a core runs.
    pub fn get_current_task(&self, core: usize) -> (r: Option<Task>)
        requires
            core < self.queues@.len(),
        ensures
            r == self@.current(core as int),
    {
        match self.queues[core].running {
            Some(id) => self.get_task_info(id),
            None => None,
        }
    }

    pub fn get_current_task_id(&self, core: usize) -> (r: Option<u64>)
        requires
            core < self.queues@.len(),
        ensures
            r == self@.queues[core as int].running,
    {
        self.queues[core].running
    }

    /// Begins a wait of a core's task. A task may only block where it can be switched out.
    pub fn do_wait(&mut self, core: usize, sem: usize, timeout: Option<u64>, is_interruptible: bool) -> (r: WaitStep)
        requires
            old(self)@.well_formed(),
            core < old(self).queues@.len(),
            sem < old(self).sems@.len(),
            old(self)@.current(core as int) matches Some(t) && (t.status == TaskStatus::Running || t.status
                == TaskStatus::Terminated),
            old(self)@.sems[sem as int].state.can_wait(),
            !old(self)@.sems[sem as int].state.available() && timeout != Some(0u64) ==>
                !old(self)@.queues[core as int].is_dw_mode && old(self)@.queues[core as int].preemption_count == 0,
        ensures
            (final(self)@, r) == old(self)@.wait_begun(core as int, sem, timeout, is_interruptible),
            final(self)@.well_formed(),
    {
        let ghost s0 = self@;
        let ghost c = core as int;
        proof {
            lemma_running(s0, c);
        }
        let mut t: Task = match self.get_current_task(core) {
            Some(t) => t,
            None => { return WaitStep::Done(Err(KError::WaitFailed)); },
        };
        t.set_signal_cause(SignalCause::Normal);
        proof {
            lemma_touched(s0, t);
        }
        let mut state: SemState = self.sems[sem].state;
        assert(sem_ok(s0.tasks, s0.sems[sem as int], sem as int, s0.next_task));
        let zero: bool = match timeout { Some(n) => n == 0, None => false };
        if zero {
            let got: Result<(), KError> = state.try_wait();
            self.put_task(t);
            let ghost s1 = self@;
            assert(sem_ok(s1.tasks, s1.sems[sem as int], sem as int, s1.next_task));
            if got.is_ok() {
                proof {
                    lemma_sem_changed(s1, sem as int, Sem { state, ..s1.sems[sem as int] });
                }
                self.put_state(sem, state);
            }
            return WaitStep::Done(got);
        }
        let blocks: bool = state.enter();
        if !blocks {
            self.put_task(t);
            let ghost s1 = self@;
            assert(sem_ok(s1.tasks, s1.sems[sem as int], sem as int, s1.next_task));
            proof {
                lemma_sem_changed(s1, sem as int, Sem { state, ..s1.sems[sem as int] });
            }
            self.put_state(sem, state);
            return WaitStep::Done(Ok(()));
        }
        if t.status == TaskStatus::Terminated {
            self.put_task(t);
            return WaitStep::Done(Err(KError::WaitFailed));
        }
        if is_interruptible && t.in_signal_init != 0 {
            self.put_task(t);
            return WaitStep::Done(Err(KError::WaitInterrupted));
        }
        t.wait_sem = Some(sem);
        t.status = if is_interruptible { TaskStatus::WaitingInterruptible } else { TaskStatus::Waiting };
        let ghost q0 = s0.queues[c];
        if let Some(n) = timeout {
            self.queues[core].timer_list.push(TimerInfo { timer_count: n, task_id: t.id, sem });
        }
        let ghost q1 = self@.queues[c];
        assert(q1 =~= (Queue { timer_list: q1.timer_list, ..q0 }));
        assert(self@.queues =~= s0.queues.update(c, q1));
        proof {
            lemma_wait_ok(s0, c, t, q1, sem, state);
        }
        self.put_task(t);
        self.sems[sem].blocked.push(t.id);
        self.sems[sem].state = state;
        assert(self@.sems =~= s0.sems.update(
            sem as int, Sem { state, blocked: s0.sems[sem as int].blocked.push(t.id) }));
        WaitStep::Blocked
    }

    /// How a wait ended, for a task that had blocked.
    pub fn finish_wait(&self, core: usize) -> (r: Result<(), KError>)
        requires
            self@.well_formed(),
            core < self.queues@.len(),
            self@.current(core as int) is Some,
        ensures
            r == wait_result(self@.current(core as int)->0.cause()),
    {
        proof {
            lemma_running(self@, core as int);
        }
        match self.get_current_task(core) {
            Some(t) => match t.get_signal_cause() {
                SignalCause::Normal => Ok(()),
                SignalCause::TimerExpiry => Err(KError::WaitTimedOut),
                SignalCause::Interruption => Err(KError::WaitInterrupted),
            },
            None => Ok(()),
        }
    }

    /// Whether a wait got through, for the task that runs on a core and has come out of it.
    pub fn waited(&self, core: usize, step: WaitStep) -> (r: bool)
        requires
            self@.well_formed(),
            core < self.queues@.len(),
            self@.current(core as int) is Some,
        ensures
            r == (match step {
                WaitStep::Done(d) => d is Ok,
                WaitStep::Blocked => wait_result(self@.current(core as int)->0.cause()) is Ok,
            }),
    {
        match step {
            WaitStep::Done(d) => d.is_ok(),
            WaitStep::Blocked => self.finish_wait(core).is_ok(),
        }
    }

    /// Makes a semaphore with some units.
    pub fn new_sem(&mut self, init_count: i64, max_count: i64) -> (r: usize)
        requires
            old(self)@.well_formed(),
            init_count < i64::MAX,
            max_count < i64::MAX,
            old(self).sems@.len() < usize::MAX,
        ensures
            r == old(self).sems@.len(),
            final(self)@ == (Sched {
                sems: old(self)@.sems.push(Sem {
                    state: SemState::Semaphore { max_count, counter: init_count },
                    blocked: Seq::empty(),
                }),
                ..old(self)@
            }),
            final(self)@.well_formed(),
    {
        self.add_sem(SemState::semaphore(init_count, max_count))
    }

    /// Makes an event.
    pub fn new_event(&mut self, is_auto_reset: bool) -> (r: usize)
        requires
            old(self)@.well_formed(),
            old(self).sems@.len() < usize::MAX,
        ensures
            r == old(self).sems@.len(),
            final(self)@ == (Sched {
                sems: old(self)@.sems.push(Sem {
                    state: SemState::Event { signalled: false, is_auto_reset },
                    blocked: Seq::empty(),
                }),
                ..old(self)@
            }),
            final(self)@.well_formed(),
    {
        self.add_sem(SemState::event(is_auto_reset))
    }

    fn add_sem(&mut self, state: SemState) -> (r: usize)
        requires
            old(self)@.well_formed(),
            state.well_formed(),
            old(self).sems@.len() < usize::MAX,
        ensures
            r == old(self).sems@.len(),
            final(self)@ == (Sched {
                sems: old(self)@.sems.push(Sem { state, blocked: Seq::empty() }),
                ..old(self)@
            }),
            final(self)@.well_formed(),
    {
        let ghost s0 = self@;
        let n: usize = self.sems.len();
        self.sems.push(KSemInner { state, blocked: Vec::new() });
        assert(self@.sems =~= s0.sems.push(Sem { state, blocked: Seq::empty() }));
        let ghost s1 = self@;
        assert forall|m: int| 0 <= m < s1.sems.len() implies sem_ok(s1.tasks, #[trigger] s1.sems[m], m, s1.next_task) by {
            if m < s0.sems.len() {
                assert(sem_ok(s0.tasks, s0.sems[m], m, s0.next_task));
            }
        }
        n
    }
}

/// What is left to do once a task has been killed.
#[derive(Clone, Copy, Debug, PartialEq, Eq, Structural)]
pub struct KillOutcome {
    /// The caller was the task itself, or shares its core, and gives the core up.
    pub yields: bool,
    /// The requests that the task has issued are to be cancelled.
    pub sweep_irps: bool,
}

impl Sched {
    /// A task's status is that of a killed one, and the task is in the list for these unless it is
    /// on its core still.
    pub open spec fn terminated(self, t: Task, exit_code: i64) -> Sched {
        let q = self.queues[t.core as int];
        let u = Task {
            status: TaskStatus::Terminated,
            exit_code,
            stack: if t.status == TaskStatus::Running { None } else { t.stack },
            wait_sem: if waits(t.status) { None } else { t.wait_sem },
            ..t
        };
        let q1 = match queue::kind_of(t.status) {
            None => (Queue {
                leftover_stack: q.leftover_stack.push(t.stack->0),
                flip_flop: true,
                ..q
            }),
            Some(QueueKind::Terminated) => q,
            Some(k) => {
                let q2 = if queue::holds(q.list(k), t.id) {
                    Queue {
                        terminated: q.terminated.push(t.id),
                        ..q.with_list(k, queue::taken_out(q.list(k), t.id))
                    }
                } else {
                    q
                };
                if k == QueueKind::Waiting {
                    Queue { timer_list: queue::without_timer(q2.timer_list, t.id, None), ..q2 }
                } else {
                    q2
                }
            },
        };
        self.with_task(u).with_queue(t.core as int, q1)
    }

    /// A task has been killed from some core.
    pub open spec fn killed(self, id: u64, exit_code: i64, here: usize) -> (Sched, KillOutcome) {
        match self.task(id) {
            None => (self, KillOutcome { yields: false, sweep_irps: false }),
            Some(t) => {
                let s = self.terminated(t, exit_code);
                let s1 = if t.status == TaskStatus::Terminated { s } else { s.with_notice(t.core) };
                let s2 = if waits(t.status) && t.wait_sem is Some {
                    s1.dropped(t.wait_sem->0 as int, id)
                } else {
                    s1
                };
                (s2, KillOutcome {
                    yields: (t.status == TaskStatus::Running || t.status == TaskStatus::Terminated) && here == t.core,
                    sweep_irps: t.status != TaskStatus::Terminated,
                })
            },
        }
    }
}

/// Moving a task from one list of its core to the end of another, along with its status.
proof fn lemma_relisted(s: Sched, t: Task, from: QueueKind, to: QueueKind, q2: Queue)
    requires
        s.well_formed(),
        s.task(t.id) matches Some(o) && o.core == t.core && queue::kind_of(o.status) == Some(from),
        queue::kind_of(t.status) == Some(to),
        from != to,
        t.well_formed(),
        t.vcb is Some,
        t.status == TaskStatus::Terminated || to == QueueKind::Active,
        waiting_ok(t, s.sems.len()),
        waits(s.task(t.id)->0.status) ==> t.status == TaskStatus::Terminated,
        ({
            let q = s.queues[t.core as int];
            &&& queue::holds(q.list(from), t.id)
            &&& q2.active == (if to == QueueKind::Active {
                seq![t.id] + q.active
            } else if from == QueueKind::Active {
                queue::taken_out(q.active, t.id)
            } else {
                q.active
            })
            &&& q2.waiting == (if from == QueueKind::Waiting { queue::taken_out(q.waiting, t.id) } else { q.waiting })
            &&& q2.suspended == (if from == QueueKind::Suspended {
                queue::taken_out(q.suspended, t.id)
            } else {
                q.suspended
            })
            &&& q2.terminated == (if to == QueueKind::Terminated { q.terminated.push(t.id) } else { q.terminated })
            &&& q2.running == q.running
        }),
        to == QueueKind::Active || to == QueueKind::Terminated,
        from != QueueKind::Terminated,
    ensures
        s.with_task(t).with_queue(t.core as int, q2).well_formed(),
{
    let o = s.task(t.id)->0;
    let id = t.id;
    let c = t.core as int;
    let q = s.queues[c];
    lemma_lookup_ok(s.tasks, s.next_task, s.queues.len(), id);
    assert(queue_ok(s.tasks, q, c));
    let u = replaced(s.tasks, t);
    lemma_replaced(s.tasks, t, id);
    if from != QueueKind::Active {
        lemma_not_in(s.tasks, q.active, c, QueueKind::Active, id);
    }
    if from != QueueKind::Waiting {
        lemma_not_in(s.tasks, q.waiting, c, QueueKind::Waiting, id);
    }
    if from != QueueKind::Suspended {
        lemma_not_in(s.tasks, q.suspended, c, QueueKind::Suspended, id);
    }
    lemma_not_in(s.tasks, q.terminated, c, QueueKind::Terminated, id);
    lemma_list_taken(s.tasks, q.active, c, QueueKind::Active, id);
    lemma_list_taken(s.tasks, q.waiting, c, QueueKind::Waiting, id);
    lemma_list_taken(s.tasks, q.suspended, c, QueueKind::Suspended, id);
    let a = queue::taken_out(q.active, id);
    let w = queue::taken_out(q.waiting, id);
    let d = queue::taken_out(q.suspended, id);
    lemma_list_kept(s.tasks, t, a, c, QueueKind::Active);
    lemma_list_kept(s.tasks, t, w, c, QueueKind::Waiting);
    lemma_list_kept(s.tasks, t, d, c, QueueKind::Suspended);
    lemma_list_kept(s.tasks, t, q.terminated, c, QueueKind::Terminated);
    if to == QueueKind::Active {
        lemma_list_pushed(u, a, c, QueueKind::Active, id);
        assert(a == q.active);
    } else {
        lemma_list_pushed(u, q.terminated, c, QueueKind::Terminated, id);
    }
    lemma_holds_added(q.active, id);
    lemma_holds_added(q.terminated, id);
    assert(q2.waiting == w);
    assert(q2.suspended == d);
    assert(q.running != Some(id)) by {
        assert(running_ok(s.tasks, q, c));
    }
    if let Some(r) = q.running {
        lemma_replaced(s.tasks, t, r);
        assert(queue::holds(w, r) == queue::holds(q.waiting, r));
        assert(queue::holds(d, r) == queue::holds(q.suspended, r));
        assert(queue::holds(q.terminated.push(id), r) == queue::holds(q.terminated, r));
    }
    assert(agree_but(q, q2, id)) by {
        assert forall|x: u64, k: QueueKind| x != id implies #[trigger] queue::holds(q.list(k), x) == queue::holds(
            q2.list(k), x) by {
            assert(queue::holds(a, x) == queue::holds(q.active, x));
            assert(queue::holds(seq![id] + q.active, x) == queue::holds(q.active, x));
            assert(queue::holds(w, x) == queue::holds(q.waiting, x));
            assert(queue::holds(d, x) == queue::holds(q.suspended, x));
            assert(queue::holds(q.terminated.push(id), x) == queue::holds(q.terminated, x));
        }
    }
    assert forall|m: int| 0 <= m < s.sems.len() && #[trigger] queue::holds(s.sems[m].blocked, id) implies
        t.status == TaskStatus::Terminated || (waits(t.status) && t.wait_sem == Some(m as usize)) by {
        if t.status != TaskStatus::Terminated {
            lemma_not_blocked(s, id, m);
        }
    }
    lemma_moved(s, t, q2);
}

/// A task that is on its core may get any status but that of an active one and stay there.
proof fn lemma_stays_running(s: Sched, t: Task, q1: Queue)
    requires
        s.well_formed(),
        s.task(t.id) matches Some(o) && o.core == t.core,
        s.queues[t.core as int].running == Some(t.id),
        t.status != TaskStatus::Active,
        t.well_formed(),
        t.vcb is Some,
        waiting_ok(t, s.sems.len()),
        t.status == TaskStatus::Terminated || (!waits(t.status) && !waits(s.task(t.id)->0.status)
            && s.task(t.id)->0.status != TaskStatus::Terminated),
        q1.active == s.queues[t.core as int].active,
        q1.waiting == s.queues[t.core as int].waiting,
        q1.terminated == s.queues[t.core as int].terminated,
        q1.suspended == s.queues[t.core as int].suspended,
        q1.running == s.queues[t.core as int].running,
    ensures
        s.with_task(t).with_queue(t.core as int, q1).well_formed(),
{
    let id = t.id;
    let c = t.core as int;
    let q = s.queues[c];
    lemma_lookup_ok(s.tasks, s.next_task, s.queues.len(), id);
    assert(queue_ok(s.tasks, q, c));
    lemma_not_in(s.tasks, q.active, c, QueueKind::Active, id);
    lemma_list_kept(s.tasks, t, q.active, c, QueueKind::Active);
    lemma_list_kept(s.tasks, t, q.waiting, c, QueueKind::Waiting);
    lemma_list_kept(s.tasks, t, q.terminated, c, QueueKind::Terminated);
    lemma_list_kept(s.tasks, t, q.suspended, c, QueueKind::Suspended);
    lemma_replaced(s.tasks, t, id);
    assert(agree_but(q, q1, id)) by {
        assert forall|x: u64, k: QueueKind| x != id implies #[trigger] queue::holds(q.list(k), x) == queue::holds(
            q1.list(k), x) by {
            assert(q.list(k) == q1.list(k));
        }
    }
    assert forall|m: int| 0 <= m < s.sems.len() && #[trigger] queue::holds(s.sems[m].blocked, id) implies
        t.status == TaskStatus::Terminated || (waits(t.status) && t.wait_sem == Some(m as usize)) by {
        if t.status != TaskStatus::Terminated {
            lemma_not_blocked(s, id, m);
        }
    }
    lemma_moved(s, t, q1);
}

proof fn lemma_terminated_ok(s: Sched, t: Task, exit_code: i64)
    requires
        s.well_formed(),
        s.task(t.id) == Some(t),
    ensures
        s.terminated(t, exit_code).well_formed(),
        s.terminated(t, exit_code).sems == s.sems,
{
    let c = t.core as int;
    let id = t.id;
    lemma_lookup_waiting(s, id);
    lemma_lookup_ok(s.tasks, s.next_task, s.queues.len(), id);
    let q = s.queues[c];
    let u = Task {
        status: TaskStatus::Terminated,
        exit_code,
        stack: if t.status == TaskStatus::Running { None } else { t.stack },
        wait_sem: if waits(t.status) { None } else { t.wait_sem },
        ..t
    };
    let r = s.terminated(t, exit_code);
    let q1 = r.queues[c];
    lemma_task_found(s.tasks, 0, id);
    let k0 = find_task(s.tasks, 0, id)->0;
    assert(placed(s.tasks[k0], s.queues[s.tasks[k0].core as int]));
    assert(queue_ok(s.tasks, q, c));
    if let Some(k) = queue::kind_of(t.status) {
        if k == QueueKind::Terminated {
            lemma_queue_same(s.tasks, q, c, u);
            lemma_replaced(s.tasks, u, id);
            assert(agree_but(q, q, id));
            lemma_moved(s, u, q);
        } else if queue::holds(q.list(k), id) {
            lemma_relisted(s, u, k, QueueKind::Terminated, q1);
        } else {
            lemma_stays_running(s, u, q1);
        }
    } else {
        lemma_stays_running(s, u, q1);
    }
    assert(r =~= s.with_task(u).with_queue(c, q1));
}

impl Scheduler {
    fn terminate(&mut self, t: Task, exit_code: i64)
        requires
            old(self)@.well_formed(),
            old(self)@.task(t.id) == Some(t),
            t.status == TaskStatus::Running ==> t.stack is Some,
        ensures
            final(self)@ == old(self)@.terminated(t, exit_code),
            final(self)@.well_formed(),
    {
        let ghost s0 = self@;
        proof {
            lemma_lookup_ok(s0.tasks, s0.next_task, s0.queues.len(), t.id);
            lemma_terminated_ok(s0, t, exit_code);
            lemma_task_found(s0.tasks, 0, t.id);
            let k0 = find_task(s0.tasks, 0, t.id)->0;
            assert(placed(s0.tasks[k0], s0.queues[s0.tasks[k0].core as int]));
        }
        let core: usize = t.core;
        let id: u64 = t.id;
        let mut u: Task = t;
        u.status = TaskStatus::Terminated;
        u.exit_code = exit_code;
        match t.status {
            TaskStatus::Running => {
                if let Some(stack) = t.stack {
                    self.queues[core].leftover_stack.push(stack);
                }
                self.queues[core].flip_flop = true;
                u.stack = None;
            },
            TaskStatus::Active => {
                if self.queues[core].remove_from(QueueKind::Active, id) {
                    self.queues[core].push_to(QueueKind::Terminated, id);
                }
            },
            TaskStatus::Waiting | TaskStatus::WaitingInterruptible => {
                if self.queues[core].remove_from(QueueKind::Waiting, id) {
                    self.queues[core].push_to(QueueKind::Terminated, id);
                }
                self.queues[core].remove_timer(id, None);
                u.wait_sem = None;
            },
            TaskStatus::Suspended => {
                if self.queues[core].remove_from(QueueKind::Suspended, id) {
                    self.queues[core].push_to(QueueKind::Terminated, id);
                }
            },
            TaskStatus::Terminated => {},
        }
        self.put_task(u);
        let ghost q1 = s0.terminated(t, exit_code).queues[core as int];
        assert(self@.queues[core as int] =~= q1) by {
            let q = s0.queues[core as int];
            if let Some(k) = queue::kind_of(t.status) {
                if !queue::holds(q.list(k), id) {
                    assert(queue::taken_out(q.list(k), id) == q.list(k));
                }
            }
        }
        assert(self@.queues =~= s0.queues.update(core as int, q1));
    }

    /// Kills a task, on behalf of code that runs on core `here`. Tasks of the system process cannot be
    /// killed.
    pub fn kill_thread(&mut self, id: u64, exit_code: i64, here: usize) -> (r: KillOutcome)
        requires
            old(self)@.well_formed(),
            old(self)@.task(id) matches Some(t) ==> t.process != Some(0u64) && (t.status == TaskStatus::Running
                ==> t.stack is Some),
        ensures
            (final(self)@, r) == old(self)@.killed(id, exit_code, here),
            final(self)@.well_formed(),
    {
        let ghost s0 = self@;
        let t: Task = match self.get_task_info(id) {
            Some(t) => t,
            None => { return KillOutcome { yields: false, sweep_irps: false }; },
        };
        proof {
            lemma_lookup_ok(s0.tasks, s0.next_task, s0.queues.len(), id);
            lemma_lookup_waiting(s0, id);
            lemma_terminated_ok(s0, t, exit_code);
        }
        self.terminate(t, exit_code);
        let was_dead: bool = t.status == TaskStatus::Terminated;
        if !was_dead {
            self.notify_other_cpu(t.core);
        }
        if t.status == TaskStatus::Waiting || t.status == TaskStatus::WaitingInterruptible {
            if let Some(m) = t.wait_sem {
                self.drop_task(m, id);
            }
        }
        KillOutcome {
            yields: (was_dead || t.status == TaskStatus::Running) && here == t.core,
            sweep_irps: !was_dead,
        }
    }
}

/// What a core does after a schedule.
#[derive(Clone, Copy, Debug)]
pub enum Decision {
    /// Nothing may change now.
    Stay,
    /// The task goes on.
    Continue(u64),
    /// The core goes on with another task. It leaves an address space for another one, or the idle
    /// task's for the new task's.
    Switch { task: u64, from: Option<u64>, to: u64, panic_base: u64 },
    /// The core goes over to its idle task, and its timer may rest.
    Idle { left: u64, sleep: bool },
    /// The core has been idle and stays so.
    Rest { sleep: bool },
}

impl Sched {
    /// A core's task has left it, for the list that its status calls for. A task that could go on
    /// running is active.
    pub open spec fn left_core(self, core: int, t: Task, saved: Saved) -> Sched {
        let u0 = t.switched_out(saved);
        let u = Task {
            status: if t.status == TaskStatus::Running { TaskStatus::Active } else { t.status },
            ..u0
        };
        let k = queue::kind_of(u.status)->0;
        let q = self.queues[core];
        let q1 = Queue { running: None, ..q.with_list(k, q.list(k).push(t.id)) };
        self.with_task(u).with_queue(core, q1)
    }

    /// A core has taken its first active task.
    pub open spec fn head_taken(self, core: int) -> Sched {
        let q = self.queues[core];
        let h = self.task(q.active[0])->0;
        let u = Task { status: TaskStatus::Running, quanta: INIT_QUANTA, ..h };
        let q1 = Queue { running: Some(h.id), active: q.active.skip(1), ..q };
        self.with_task(u).with_queue(core, q1)
    }

    pub open spec fn ticked(self, core: int) -> Sched {
        let q = self.queues[core];
        self.with_queue(core, Queue {
            timer_list: queue::still_running(q.timer_list, q.timer_list.len()),
            timer_notifier_list: q.timer_notifier_list + queue::run_out(q.timer_list, q.timer_list.len()),
            ..q
        })
    }

    /// Which task a core runs next. A task leaves its core once it waits, is suspended or killed, or
    /// has used up its turns while another is active.
    pub open spec fn chosen(self, core: int, saved: Saved) -> (Sched, Decision) {
        let q = self.queues[core];
        match q.running {
            None => if q.active.len() > 0 {
                let h = self.task(q.active[0])->0;
                (self.head_taken(core), Decision::Switch {
                    task: h.id,
                    from: None,
                    to: h.vcb->0,
                    panic_base: h.panic_base,
                })
            } else {
                (self, Decision::Rest { sleep: q.can_sleep() })
            },
            Some(id) => {
                let o = self.task(id)->0;
                let t = Task { quanta: if o.quanta == 0 { 0 } else { (o.quanta - 1) as u64 }, ..o };
                let s = self.with_task(t);
                if t.status == TaskStatus::Running && t.quanta > 0 {
                    (s, Decision::Continue(id))
                } else if q.active.len() > 0 {
                    let h = self.task(q.active[0])->0;
                    (s.left_core(core, t, saved).head_taken(core), Decision::Switch {
                        task: h.id,
                        from: t.vcb,
                        to: h.vcb->0,
                        panic_base: h.panic_base,
                    })
                } else if t.status != TaskStatus::Running {
                    (s.left_core(core, t, saved), Decision::Idle { left: t.vcb->0, sleep: q.can_sleep() })
                } else {
                    (self.with_task(Task { quanta: INIT_QUANTA, ..t }), Decision::Continue(id))
                }
            },
        }
    }

    /// The outcome of a timer tick on a core. Timers go on even where nothing may be switched.
    pub open spec fn scheduled(self, core: int, saved: Saved) -> (Sched, Decision) {
        let s = self.ticked(core);
        if s.queues[core].preemption_count > 0 || s.queues[core].is_dw_mode {
            (s, Decision::Stay)
        } else {
            s.chosen(core, saved)
        }
    }
}

/// Changes to a queue that concern neither its lists nor what runs.
pub proof fn lemma_queue_touched(s: Sched, c: int, q1: Queue)
    requires
        s.well_formed(),
        0 <= c < s.queues.len(),
        q1.active == s.queues[c].active,
        q1.waiting == s.queues[c].waiting,
        q1.terminated == s.queues[c].terminated,
        q1.suspended == s.queues[c].suspended,
        q1.running == s.queues[c].running,
    ensures
        s.with_queue(c, q1).well_formed(),
{
    let r = s.with_queue(c, q1);
    assert(queue_ok(s.tasks, s.queues[c], c));
    assert forall|d: int| 0 <= d < r.queues.len() implies queue_ok(r.tasks, #[trigger] r.queues[d], d) by {
        if d != c {
            assert(queue_ok(s.tasks, s.queues[d], d));
        }
    }
    assert forall|i: int| 0 <= i < r.tasks.len() implies placed(#[trigger] r.tasks[i], r.queues[r.tasks[i].core as int]) by {
        assert(placed(s.tasks[i], s.queues[s.tasks[i].core as int]));
        if let Some(k) = queue::kind_of(s.tasks[i].status) {
            assert(q1.list(k) == s.queues[c].list(k));
        }
    }
}

/// A task that leaves its core is in the list for its status.
proof fn lemma_left_core_ok(s: Sched, c: int, t: Task, saved: Saved)
    requires
        s.well_formed(),
        0 <= c < s.queues.len(),
        s.current(c) == Some(t),
        s.queues[c].running is Some,
    ensures
        s.left_core(c, t, saved).well_formed(),
        s.left_core(c, t, saved).queues[c].running is None,
        s.left_core(c, t, saved).queues.len() == s.queues.len(),
        s.queues[c].active.len() > 0 ==> s.left_core(c, t, saved).queues[c].active.len() > 0
            && s.left_core(c, t, saved).queues[c].active[0] == s.queues[c].active[0],
{
    lemma_running(s, c);
    lemma_lookup_waiting(s, t.id);
    let id = t.id;
    let q = s.queues[c];
    let u0 = t.switched_out(saved);
    let u = Task {
        status: if t.status == TaskStatus::Running { TaskStatus::Active } else { t.status },
        ..u0
    };
    let k = queue::kind_of(u.status)->0;
    let q1 = Queue { running: None, ..q.with_list(k, q.list(k).push(id)) };
    task::lemma_highest_below(t.completed_signals, 8);
    task::lemma_highest_below(t.pending_signals, 8);
    assert(u.well_formed());
    assert(queue_ok(s.tasks, q, c));
    lemma_replaced(s.tasks, u, id);
    let v = replaced(s.tasks, u);
    lemma_not_in(s.tasks, q.active, c, QueueKind::Active, id);
    lemma_list_kept(s.tasks, u, q.active, c, QueueKind::Active);
    lemma_list_kept(s.tasks, u, q.waiting, c, QueueKind::Waiting);
    lemma_list_kept(s.tasks, u, q.terminated, c, QueueKind::Terminated);
    lemma_list_kept(s.tasks, u, q.suspended, c, QueueKind::Suspended);
    assert(!queue::holds(q.list(k), id));
    assert(list_ok(v, q.list(k), c, k));
    lemma_list_pushed(v, q.list(k), c, k, id);
    lemma_holds_added(q.list(k), id);
    assert(agree_but(q, q1, id)) by {
        assert forall|x: u64, d: QueueKind| x != id implies #[trigger] queue::holds(q.list(d), x) == queue::holds(
            q1.list(d), x) by {
            if d == k {
                assert(queue::holds(q.list(k).push(id), x) == queue::holds(q.list(k), x));
            } else {
                assert(q.list(d) == q1.list(d));
            }
        }
    }
    assert forall|m: int| 0 <= m < s.sems.len() && #[trigger] queue::holds(s.sems[m].blocked, id) implies
        u.status == TaskStatus::Terminated || (waits(u.status) && u.wait_sem == Some(m as usize)) by {
        let b = s.sems[m].blocked;
        queue::lemma_index_in(b, 0, id);
        assert(sem_ok(s.tasks, s.sems[m], m, s.next_task));
        let i = queue::index_in(b, 0, id)->0;
        assert(blocked_ok(s.tasks, b[i], m));
    }
    lemma_moved(s, u, q1);
}

/// The first active task of an idle core is known and can run.
proof fn lemma_head_ok(s: Sched, c: int)
    requires
        s.well_formed(),
        0 <= c < s.queues.len(),
        s.queues[c].running is None,
        s.queues[c].active.len() > 0,
    ensures
        s.task(s.queues[c].active[0]) matches Some(h) && h.id == s.queues[c].active[0] && h.core == c && h.vcb is Some
            && h.status == TaskStatus::Active,
        s.head_taken(c).well_formed(),
{
    let q = s.queues[c];
    let id = q.active[0];
    assert(queue_ok(s.tasks, q, c));
    assert(fits(s.tasks, q.active[0], c, QueueKind::Active));
    lemma_lookup_waiting(s, id);
    lemma_lookup_ok(s.tasks, s.next_task, s.queues.len(), id);
    let h = s.task(id)->0;
    let u = Task { status: TaskStatus::Running, quanta: INIT_QUANTA, ..h };
    let q1 = Queue { running: Some(h.id), active: q.active.skip(1), ..q };
    queue::lemma_index_in(q.active, 0, id);
    assert(queue::index_in(q.active, 0, id) == Some(0int));
    assert(q.active.skip(1) =~= q.active.remove(0));
    lemma_list_taken(s.tasks, q.active, c, QueueKind::Active, id);
    lemma_replaced(s.tasks, u, id);
    lemma_not_in(s.tasks, q.waiting, c, QueueKind::Waiting, id);
    lemma_not_in(s.tasks, q.terminated, c, QueueKind::Terminated, id);
    lemma_not_in(s.tasks, q.suspended, c, QueueKind::Suspended, id);
    lemma_list_kept(s.tasks, u, q1.active, c, QueueKind::Active);
    lemma_list_kept(s.tasks, u, q.waiting, c, QueueKind::Waiting);
    lemma_list_kept(s.tasks, u, q.terminated, c, QueueKind::Terminated);
    lemma_list_kept(s.tasks, u, q.suspended, c, QueueKind::Suspended);
    assert(agree_but(q, q1, id)) by {
        assert forall|x: u64, d: QueueKind| x != id implies #[trigger] queue::holds(q.list(d), x) == queue::holds(
            q1.list(d), x) by {
            assert(queue::holds(queue::taken_out(q.active, id), x) == queue::holds(q.active, x));
            if d != QueueKind::Active {
                assert(q.list(d) == q1.list(d));
            }
        }
    }
    assert forall|m: int| 0 <= m < s.sems.len() && #[trigger] queue::holds(s.sems[m].blocked, id) implies
        u.status == TaskStatus::Terminated || (waits(u.status) && u.wait_sem == Some(m as usize)) by {
        lemma_not_blocked(s, id, m);
    }
    lemma_moved(s, u, q1);
}

impl Scheduler {
    fn leave_core(&mut self, core: usize, t: Task, saved: Saved)
        requires
            old(self)@.well_formed(),
            core < old(self).queues@.len(),
            old(self)@.current(core as int) == Some(t),
            old(self)@.queues[core as int].running is Some,
        ensures
            final(self)@ == old(self)@.left_core(core as int, t, saved),
            final(self)@.well_formed(),
    {
        let ghost s0 = self@;
        proof {
            lemma_running(s0, core as int);
            lemma_left_core_ok(s0, core as int, t, saved);
        }
        let mut u: Task = t;
        u.switch_out(saved);
        if t.status == TaskStatus::Running {
            u.status = TaskStatus::Active;
        }
        if let Some(k) = queue_for(u.status) {
            self.queues[core].push_to(k, t.id);
        }
        self.queues[core].running = None;
        self.put_task(u);
        let ghost q1 = s0.left_core(core as int, t, saved).queues[core as int];
        assert(self@.queues[core as int] =~= q1);
        assert(self@.queues =~= s0.queues.update(core as int, q1));
    }

    /// Lets a core that runs nothing run its first active task.
    fn take_head(&mut self, core: usize) -> (r: Task)
        requires
            old(self)@.well_formed(),
            core < old(self).queues@.len(),
            old(self)@.queues[core as int].running is None,
            old(self)@.queues[core as int].active.len() > 0,
        ensures
            final(self)@ == old(self)@.head_taken(core as int),
            final(self)@.well_formed(),
            old(self)@.task(old(self)@.queues[core as int].active[0]) == Some(r),
            r.vcb is Some,
    {
        let ghost s0 = self@;
        proof {
            lemma_head_ok(s0, core as int);
        }
        let id: u64 = self.queues[core].active.remove(0);
        self.queues[core].running = Some(id);
        let h: Task = match self.get_task_info(id) {
            Some(h) => h,
            None => self.tasks[0],
        };
        let mut u: Task = h;
        u.status = TaskStatus::Running;
        u.quanta = INIT_QUANTA;
        self.put_task(u);
        let ghost q1 = s0.head_taken(core as int).queues[core as int];
        assert(s0.queues[core as int].active.remove(0) =~= s0.queues[core as int].active.skip(1));
        assert(self@.queues[core as int] =~= q1);
        assert(self@.queues =~= s0.queues.update(core as int, q1));
        h
    }

    /// Chooses what a core runs next, on a timer tick or because its task has given up the rest of
    /// its turns. `saved` is the machine state of what has been running.
    pub fn schedule(&mut self, core: usize, saved: Saved) -> (r: Decision)
        requires
            old(self)@.well_formed(),
            core < old(self).queues@.len(),
        ensures
            (final(self)@, r) == old(self)@.scheduled(core as int, saved),
            final(self)@.well_formed(),
            final(self)@.queues.len() == old(self)@.queues.len(),
    {
        let ghost s0 = self@;
        let ghost c = core as int;
        self.queues[core].update_timers();
        let ghost s1 = self@;
        assert(s1.queues =~= s0.ticked(c).queues);
        proof {
            lemma_queue_touched(s0, c, s1.queues[c]);
        }
        if self.queues[core].preemption_count > 0 || self.queues[core].is_dw_mode {
            return Decision::Stay;
        }
        let id: u64 = match self.queues[core].running {
            None => {
                if self.queues[core].active.len() > 0 {
                    let h: Task = self.take_head(core);
                    proof {
                        lemma_head_ok(s1, c);
                    }
                    return Decision::Switch {
                        task: h.id,
                        from: None,
                        to: match h.vcb { Some(v) => v, None => 0 },
                        panic_base: h.panic_base,
                    };
                }
                return Decision::Rest { sleep: self.queues[core].can_sleep() };
            },
            Some(id) => id,
        };
        proof {
            lemma_running(s1, c);
        }
        let mut t: Task = match self.get_task_info(id) { Some(t) => t, None => { return Decision::Stay; } };
        if t.quanta > 0 {
            t.quanta = t.quanta - 1;
        }
        proof {
            lemma_touched(s1, t);
        }
        if t.status == TaskStatus::Running && t.quanta > 0 {
            self.put_task(t);
            return Decision::Continue(id);
        }
        if self.queues[core].active.len() > 0 {
            self.put_task(t);
            let ghost s2 = self@;
            proof {
                lemma_left_core_ok(s2, c, t, saved);
                lemma_head_kept(s1, c, t, saved);
            }
            self.leave_core(core, t, saved);
            let h: Task = self.take_head(core);
            return Decision::Switch {
                task: h.id,
                from: t.vcb,
                to: match h.vcb { Some(v) => v, None => 0 },
                panic_base: h.panic_base,
            };
        }
        if t.status != TaskStatus::Running {
            self.put_task(t);
            self.leave_core(core, t, saved);
            return Decision::Idle {
                left: match t.vcb { Some(v) => v, None => 0 },
                sleep: self.queues[core].can_sleep(),
            };
        }
        t.quanta = INIT_QUANTA;
        proof {
            lemma_touched(s1, t);
        }
        self.put_task(t);
        Decision::Continue(id)
    }
}

/// The first active task does not change when the running one leaves.
proof fn lemma_head_kept(s: Sched, c: int, t: Task, saved: Saved)
    requires
        s.well_formed(),
        0 <= c < s.queues.len(),
        s.queues[c].running == Some(t.id),
        s.queues[c].active.len() > 0,
        s.current(c) matches Some(o) && o.core == t.core && o.status == t.status && o.wait_sem == t.wait_sem,
        t.well_formed(),
        t.vcb is Some,
    ensures
        s.with_task(t).left_core(c, t, saved).task(s.queues[c].active[0]) == s.task(s.queues[c].active[0]),
        s.task(s.queues[c].active[0]) matches Some(h) && h.id == s.queues[c].active[0],
{
    let id = s.queues[c].active[0];
    lemma_running(s, c);
    assert(queue_ok(s.tasks, s.queues[c], c));
    assert(fits(s.tasks, s.queues[c].active[0], c, QueueKind::Active));
    assert(id != t.id);
    lemma_lookup_ok(s.tasks, s.next_task, s.queues.len(), id);
    lemma_replaced(s.tasks, t, id);
    lemma_replaced(s.tasks, t, t.id);
    let s2 = s.with_task(t);
    let u0 = t.switched_out(saved);
    let u = Task {
        status: if t.status == TaskStatus::Running { TaskStatus::Active } else { t.status },
        ..u0
    };
    lemma_replaced(s2.tasks, u, id);
}

/// A killed task is on no core, and the first active task is another one.
proof fn lemma_killed_apart(s: Sched, c: int, i: int)
    requires
        s.well_formed(),
        0 <= c < s.queues.len(),
        0 <= i < s.queues[c].terminated.len(),
    ensures
        s.queues[c].running != Some(s.queues[c].terminated[i]),
        s.queues[c].active.len() > 0 ==> s.queues[c].active[0] != s.queues[c].terminated[i],
{
    let q = s.queues[c];
    assert(queue_ok(s.tasks, q, c));
    assert(fits(s.tasks, q.terminated[i], c, QueueKind::Terminated));
    queue::lemma_index_in(q.terminated, 0, q.terminated[i]);
    if q.active.len() > 0 {
        assert(fits(s.tasks, q.active[0], c, QueueKind::Active));
    }
}

/// Scheduling a core leaves the tasks that were killed before as they are.
pub proof fn lemma_scheduled(s: Sched, c: int, saved: Saved)
    requires
        s.well_formed(),
        0 <= c < s.queues.len(),
    ensures
        ({
            let r = s.scheduled(c, saved).0;
            let l = s.queues[c].terminated;
            &&& r.well_formed()
            &&& r.queues.len() == s.queues.len()
            &&& r.sems == s.sems
            &&& l.len() <= r.queues[c].terminated.len()
            &&& forall|i: int| 0 <= i < l.len() ==> r.queues[c].terminated[i] == l[i] && r.task(#[trigger] l[i]) == s.task(l[i])
        }),
{
    let s1 = s.ticked(c);
    let q = s1.queues[c];
    let r = s.scheduled(c, saved).0;
    let l = s.queues[c].terminated;
    lemma_queue_touched(s, c, q);
    assert forall|i: int| 0 <= i < l.len() implies s1.queues[c].running != Some(#[trigger] l[i])
        && (q.active.len() > 0 ==> q.active[0] != l[i]) by {
        lemma_killed_apart(s1, c, i);
    }
    if q.preemption_count > 0 || q.is_dw_mode {
    } else if q.running is None {
        if q.active.len() > 0 {
            lemma_head_ok(s1, c);
            lemma_head_alone(s1, c);
        }
    } else {
        lemma_running(s1, c);
        let o = s1.current(c)->0;
        let t = Task { quanta: if o.quanta == 0 { 0 } else { (o.quanta - 1) as u64 }, ..o };
        let s2 = s1.with_task(t);
        lemma_touched(s1, t);
        lemma_touched(s1, Task { quanta: INIT_QUANTA, ..t });
        lemma_left_core_ok(s2, c, t, saved);
        let s3 = s2.left_core(c, t, saved);
        lemma_left_alone(s2, c, t, saved);
        if q.active.len() > 0 {
            lemma_head_ok(s3, c);
            lemma_head_alone(s3, c);
        }
    }
}

/// Taking up the first active task changes no other.
proof fn lemma_head_alone(s: Sched, c: int)
    requires
        s.well_formed(),
        0 <= c < s.queues.len(),
        s.queues[c].running is None,
        s.queues[c].active.len() > 0,
    ensures
        s.head_taken(c).sems == s.sems,
        s.head_taken(c).queues.len() == s.queues.len(),
        s.head_taken(c).queues[c].terminated == s.queues[c].terminated,
        forall|x: u64| x != s.queues[c].active[0] ==> #[trigger] s.head_taken(c).task(x) == s.task(x),
{
    lemma_head_ok(s, c);
    assert forall|x: u64| x != s.queues[c].active[0] implies #[trigger] s.head_taken(c).task(x) == s.task(x) by {
        lemma_replaced(s.tasks, Task { status: TaskStatus::Running, quanta: INIT_QUANTA, ..s.task(s.queues[c].active[0])->0 }, x);
    }
}

/// A task that leaves its core changes no other, and is at most added to the killed ones.
proof fn lemma_left_alone(s: Sched, c: int, t: Task, saved: Saved)
    requires
        s.well_formed(),
        0 <= c < s.queues.len(),
        s.current(c) == Some(t),
        s.queues[c].running is Some,
    ensures
        ({
            let r = s.left_core(c, t, saved);
            let l = s.queues[c].terminated;
            &&& r.sems == s.sems
            &&& r.queues[c].terminated == l || r.queues[c].terminated == l.push(t.id)
            &&& forall|x: u64| x != t.id ==> #[trigger] r.task(x) == s.task(x)
        }),
{
    lemma_running(s, c);
    let u = Task {
        status: if t.status == TaskStatus::Running { TaskStatus::Active } else { t.status },
        ..t.switched_out(saved)
    };
    assert forall|x: u64| x != t.id implies #[trigger] s.left_core(c, t, saved).task(x) == s.task(x) by {
        lemma_replaced(s.tasks, u, x);
    }
}

/// What a new thread is made of.
#[derive(Clone, Copy, Debug)]
pub struct NewThread {
    pub stack: Option<u64>,
    pub context: u64,
    pub panic_base: u64,
    pub user_fn: Option<u64>,
    pub process: u64,
    pub vcb: u64,
    pub arg_context: u64,
    pub term_notify: usize,
    pub per_cpu_base: u64,
}

pub open spec fn no_frames() -> FrameTable {
    FrameTable { f0: None, f1: None, f2: None, f3: None, f4: None, f5: None }
}

pub open spec fn fresh_task(id: u64, core: usize, p: NewThread) -> Task {
    Task {
        id,
        is_kernel_mode: true,
        is_in_syscall: false,
        syscall_gs: 0,
        syscall_rsp: 0,
        core,
        stack: p.stack,
        user_stack: None,
        status: TaskStatus::Active,
        context: p.context,
        quanta: INIT_QUANTA,
        panic_base: p.panic_base,
        user_fn: p.user_fn,
        last_signal_cause: SignalCause::Normal,
        wait_sem: None,
        term_notify: p.term_notify,
        in_signal_init: 0,
        process: Some(p.process),
        vcb: Some(p.vcb),
        arg_context: p.arg_context,
        exit_code: 0,
        pending_signals: 0,
        completed_signals: 0,
        frames_pending: no_frames(),
        frames_init: no_frames(),
        per_cpu_base: p.per_cpu_base,
    }
}

impl Sched {
    /// The core whose turn it is to get a task.
    pub open spec fn core_in_turn(self) -> int {
        (self.next_core % 256) as int % self.queues.len() as int
    }

    /// A thread has been made and waits for its first turn.
    pub open spec fn spawned(self, p: NewThread) -> Sched {
        let c = self.core_in_turn();
        let t = fresh_task(self.next_task, c as usize, p);
        let q = self.queues[c];
        Sched {
            tasks: self.tasks.push(t),
            queues: self.queues.update(c, Queue { active: q.active.push(t.id), ..q }),
            next_task: (self.next_task + 1) as u64,
            next_core: ((self.next_core + 1) % 256) as u64,
            notified: self.notified.push(c as usize),
            ..self
        }
    }

    /// A thread could not be made after all: its core's turn is over, and its id is used up if it had
    /// one.
    pub open spec fn turn_passed(self, had_id: bool) -> Sched {
        Sched {
            next_task: if had_id { (self.next_task + 1) as u64 } else { self.next_task },
            next_core: ((self.next_core + 1) % 256) as u64,
            ..self
        }
    }

    /// A core's task gives up the rest of its turns.
    pub open spec fn yielded(self, core: int) -> Sched {
        self.with_task(Task { quanta: 0, ..self.current(core)->0 })
    }

    /// A suspended task goes on: at once if it has not left its core yet.
    pub open spec fn resumed(self, id: u64) -> (Sched, bool) {
        match self.task(id) {
            None => (self, false),
            Some(t) => if t.status != TaskStatus::Suspended {
                (self, false)
            } else {
                let q = self.queues[t.core as int];
                if queue::holds(q.suspended, id) {
                    let q1 = Queue {
                        suspended: queue::taken_out(q.suspended, id),
                        active: seq![id] + q.active,
                        ..q
                    };
                    (self.with_task(Task { status: TaskStatus::Active, ..t }).with_queue(t.core as int, q1)
                        .with_notice(t.core), true)
                } else {
                    (self.with_task(Task { status: TaskStatus::Running, ..t }).with_notice(t.core), true)
                }
            },
        }
    }

    /// The first killed task of a core has been cleared away, and whoever waits for its end is to be
    /// told. How it ended stays known.
    pub open spec fn reaped(self, core: int) -> Sched {
        let q = self.queues[core];
        let id = q.terminated[0];
        let k = find_task(self.tasks, 0, id)->0;
        Sched {
            tasks: self.tasks.remove(k),
            queues: self.queues.update(core, Queue {
                terminated: q.terminated.skip(1),
                notifier_list: q.notifier_list.push(self.tasks[k].term_notify),
                ..q
            }),
            ended: self.ended.push(EndedTask {
                id,
                exit_code: self.tasks[k].exit_code,
                term_notify: self.tasks[k].term_notify,
            }),
            ..self
        }
    }

    /// Whether a signal can go to a task that has a status, or any.
    pub open spec fn eligible(self, id: u64, signal: u8, state: Option<TaskStatus>) -> bool {
        match self.task(id) {
            None => false,
            Some(t) => {
                &&& !task::has_bit(t.in_signal_init, signal)
                &&& !task::has_bit(t.pending_signals, signal)
                &&& (state is None || t.status == state->0)
                &&& t.status != TaskStatus::Terminated
            },
        }
    }

    pub open spec fn first_eligible(self, threads: Seq<u64>, i: int, signal: u8, state: Option<TaskStatus>) -> Option<u64>
        decreases threads.len() - i,
    {
        if i < 0 || i >= threads.len() {
            None
        } else if self.eligible(threads[i], signal, state) {
            Some(threads[i])
        } else {
            self.first_eligible(threads, i + 1, signal, state)
        }
    }

    /// A signal has been issued to the first task it can go to. If that one waits and can be
    /// interrupted, it is.
    pub open spec fn issued(
        self,
        threads: Seq<u64>,
        signal: u8,
        user_ctx: u64,
        handler: u64,
        state: Option<TaskStatus>,
    ) -> (Sched, bool) {
        match self.first_eligible(threads, 0, signal, state) {
            None => (self, false),
            Some(id) => {
                let t = self.task(id)->0;
                let s = self.with_task(t.signalled(signal, user_ctx, handler));
                if t.status == TaskStatus::WaitingInterruptible {
                    (s.signalled_on_task(t.wait_sem->0 as int, id, true), true)
                } else {
                    (s, true)
                }
            },
        }
    }
}

proof fn lemma_pushed_find(s: Seq<Task>, i: int, t: Task, id: u64)
    requires
        0 <= i <= s.len(),
    ensures
        find_task(s.push(t), i, id) == (match find_task(s, i, id) {
            Some(k) => Some(k),
            None => if t.id == id { Some(s.len() as int) } else { None },
        }),
    decreases s.len() - i,
{
    let u = s.push(t);
    if i < s.len() {
        assert(u[i] == s[i]);
        lemma_pushed_find(s, i + 1, t, id);
    } else {
        assert(u[i] == t);
        assert(find_task(u, i + 1, id) is None);
    }
}

/// A new task is found, and so are all others as before.
proof fn lemma_pushed(s: Seq<Task>, t: Task, id: u64)
    ensures
        lookup(s.push(t), id) == (match lookup(s, id) {
            Some(x) => Some(x),
            None => if t.id == id { Some(t) } else { None },
        }),
{
    lemma_pushed_find(s, 0, t, id);
    lemma_task_found(s, 0, id);
}

proof fn lemma_list_with_new(s: Seq<Task>, t: Task, l: Seq<u64>, core: int, kind: QueueKind)
    requires
        list_ok(s, l, core, kind),
    ensures
        list_ok(s.push(t), l, core, kind),
{
    assert forall|i: int| 0 <= i < l.len() implies fits(s.push(t), #[trigger] l[i], core, kind) by {
        assert(fits(s, l[i], core, kind));
        lemma_pushed(s, t, l[i]);
    }
}

proof fn lemma_spawned_ok(s: Sched, p: NewThread)
    requires
        s.well_formed(),
        s.queues.len() > 0,
        s.queues.len() <= usize::MAX,
        s.next_task < u64::MAX,
    ensures
        s.spawned(p).well_formed(),
        0 <= s.core_in_turn() < s.queues.len(),
{
    let c = s.core_in_turn();
    let id = s.next_task;
    let t = fresh_task(id, c as usize, p);
    let r = s.spawned(p);
    assert(0 <= c < s.queues.len());
    lemma_lookup_ok(s.tasks, s.next_task, s.queues.len(), id);
    assert(lookup(s.tasks, id) is None);
    assert(t.well_formed()) by {
        assert forall|i: u8| i < 8 implies !task::has_bit(0u8, i) by {
            assert(0u8 & (1u8 << i) == 0) by (bit_vector);
        }
    }
    lemma_pushed(s.tasks, t, id);
    assert(tasks_ok(r.tasks, r.next_task, r.queues.len())) by {
        assert forall|i: int, j: int| 0 <= i < j < r.tasks.len() implies (#[trigger] r.tasks[i]).id != (
        #[trigger] r.tasks[j]).id by {
            assert(s.tasks[i].id < s.next_task);
            if j < s.tasks.len() {
                assert(s.tasks[i].id != s.tasks[j].id);
            }
        }
        assert forall|i: int| 0 <= i < r.tasks.len() implies ({
            let x = #[trigger] r.tasks[i];
            x.id < r.next_task && x.core < r.queues.len() && x.well_formed() && x.vcb is Some
        }) by {
            if i < s.tasks.len() {
                assert(s.tasks[i].id < s.next_task);
            }
        }
    }
    let q = s.queues[c];
    assert(queue_ok(s.tasks, q, c));
    lemma_not_in(s.tasks, q.active, c, QueueKind::Active, id);
    lemma_holds_added(q.active, id);
    assert forall|d: int| 0 <= d < r.queues.len() implies queue_ok(r.tasks, #[trigger] r.queues[d], d) by {
        let w = s.queues[d];
        assert(queue_ok(s.tasks, w, d));
        lemma_list_with_new(s.tasks, t, w.active, d, QueueKind::Active);
        lemma_list_with_new(s.tasks, t, w.waiting, d, QueueKind::Waiting);
        lemma_list_with_new(s.tasks, t, w.terminated, d, QueueKind::Terminated);
        lemma_list_with_new(s.tasks, t, w.suspended, d, QueueKind::Suspended);
        if let Some(x) = w.running {
            lemma_pushed(s.tasks, t, x);
        }
        if d == c {
            lemma_list_pushed(r.tasks, w.active, d, QueueKind::Active, id);
        }
    }
    assert forall|i: int| 0 <= i < r.tasks.len() implies placed(#[trigger] r.tasks[i], r.queues[r.tasks[i].core as int]) by {
        if i < s.tasks.len() {
            let x = s.tasks[i];
            assert(x.id < s.next_task);
            assert(placed(x, s.queues[x.core as int]));
            if x.core == c {
                if let Some(k) = queue::kind_of(x.status) {
                    assert(queue::holds(q.active.push(id), x.id) == queue::holds(q.active, x.id));
                }
            }
        } else {
            lemma_list_with_new(s.tasks, t, q.active, c, QueueKind::Active);
            lemma_list_pushed(r.tasks, q.active, c, QueueKind::Active, id);
        }
    }
    assert forall|i: int| 0 <= i < r.tasks.len() implies waiting_ok(#[trigger] r.tasks[i], r.sems.len()) by {
        if i < s.tasks.len() {
            assert(waiting_ok(s.tasks[i], s.sems.len()));
        }
    }
    assert forall|m: int| 0 <= m < r.sems.len() implies sem_ok(r.tasks, #[trigger] r.sems[m], m, r.next_task) by {
        let b = s.sems[m].blocked;
        assert(sem_ok(s.tasks, s.sems[m], m, s.next_task));
        assert forall|i: int| 0 <= i < b.len() implies ({
            let x = #[trigger] b[i];
            x < r.next_task && blocked_ok(r.tasks, x, m)
        }) by {
            assert(blocked_ok(s.tasks, b[i], m));
            lemma_pushed(s.tasks, t, b[i]);
        }
    }
}

/// Taking a task out leaves the lookup of the others alone, and loses that one.
pub proof fn lemma_removed_task(s: Seq<Task>, next: u64, cores: nat, k: int, id: u64)
    requires
        tasks_ok(s, next, cores),
        0 <= k < s.len(),
    ensures
        lookup(s.remove(k), id) == (if id == s[k].id { None } else { lookup(s, id) }),
        tasks_ok(s.remove(k), next, cores),
{
    let u = s.remove(k);
    assert(tasks_ok(u, next, cores)) by {
        assert forall|i: int, j: int| 0 <= i < j < u.len() implies (#[trigger] u[i]).id != (#[trigger] u[j]).id by {
            let a = if i < k { i } else { i + 1 };
            let b = if j < k { j } else { j + 1 };
            assert(s[a].id != s[b].id);
        }
        assert forall|i: int| 0 <= i < u.len() implies ({
            let x = #[trigger] u[i];
            x.id < next && x.core < cores && x.well_formed() && x.vcb is Some
        }) by {
            let a = if i < k { i } else { i + 1 };
            assert(s[a].id < next);
        }
    }
    lemma_task_found(s, 0, id);
    lemma_task_found(u, 0, id);
    if let Some(a) = find_task(u, 0, id) {
        let b = if a < k { a } else { a + 1 };
        assert(s[b].id == id);
        lemma_lookup_at(s, next, cores, b);
        if b < k {
            assert(s[b].id != s[k].id);
        } else {
            assert(s[k].id != s[b].id);
        }
    }
    if let Some(b) = find_task(s, 0, id) {
        if b != k {
            let a = if b < k { b } else { b - 1 };
            assert(u[a].id == id);
            lemma_lookup_at(u, next, cores, a);
            if b < k {
                assert(s[b].id != s[k].id);
            } else {
                assert(s[k].id != s[b].id);
            }
        }
    }
}

proof fn lemma_list_without(s: Seq<Task>, next: u64, cores: nat, k: int, l: Seq<u64>, core: int, kind: QueueKind)
    requires
        tasks_ok(s, next, cores),
        0 <= k < s.len(),
        list_ok(s, l, core, kind),
        !queue::holds(l, s[k].id),
    ensures
        list_ok(s.remove(k), l, core, kind),
{
    assert forall|i: int| 0 <= i < l.len() implies fits(s.remove(k), #[trigger] l[i], core, kind) by {
        assert(fits(s, l[i], core, kind));
        lemma_removed_task(s, next, cores, k, l[i]);
        queue::lemma_index_in(l, 0, s[k].id);
    }
}

pub proof fn lemma_reaped_ok(s: Sched, c: int)
    requires
        s.well_formed(),
        0 <= c < s.queues.len(),
        s.queues[c].terminated.len() > 0,
    ensures
        s.reaped(c).well_formed(),
        find_task(s.tasks, 0, s.queues[c].terminated[0]) is Some,
        s.task(s.queues[c].terminated[0]) matches Some(t) && t.id == s.queues[c].terminated[0],
{
    let q = s.queues[c];
    let id = q.terminated[0];
    assert(queue_ok(s.tasks, q, c));
    assert(fits(s.tasks, q.terminated[0], c, QueueKind::Terminated));
    lemma_task_found(s.tasks, 0, id);
    let k = find_task(s.tasks, 0, id)->0;
    let next = s.next_task;
    let cores = s.queues.len();
    let r = s.reaped(c);
    lemma_removed_task(s.tasks, next, cores, k, id);
    queue::lemma_index_in(q.terminated, 0, id);
    assert(queue::index_in(q.terminated, 0, id) == Some(0int));
    assert(q.terminated.skip(1) =~= queue::taken_out(q.terminated, id));
    lemma_list_taken(s.tasks, q.terminated, c, QueueKind::Terminated, id);
    assert forall|d: int| 0 <= d < r.queues.len() implies queue_ok(r.tasks, #[trigger] r.queues[d], d) by {
        let w = s.queues[d];
        assert(queue_ok(s.tasks, w, d));
        lemma_not_in(s.tasks, w.active, d, QueueKind::Active, id);
        lemma_not_in(s.tasks, w.waiting, d, QueueKind::Waiting, id);
        lemma_not_in(s.tasks, w.suspended, d, QueueKind::Suspended, id);
        if d != c {
            lemma_not_in(s.tasks, w.terminated, d, QueueKind::Terminated, id);
        }
        lemma_list_without(s.tasks, next, cores, k, w.active, d, QueueKind::Active);
        lemma_list_without(s.tasks, next, cores, k, w.waiting, d, QueueKind::Waiting);
        lemma_list_without(s.tasks, next, cores, k, w.suspended, d, QueueKind::Suspended);
        lemma_list_without(s.tasks, next, cores, k, r.queues[d].terminated, d, QueueKind::Terminated);
        if let Some(x) = w.running {
            lemma_removed_task(s.tasks, next, cores, k, x);
            assert(x != id);
            if d == c {
                assert(queue::holds(queue::taken_out(q.terminated, id), x) == queue::holds(q.terminated, x));
            }
        }
    }
    assert forall|i: int| 0 <= i < r.tasks.len() implies placed(#[trigger] r.tasks[i], r.queues[r.tasks[i].core as int]) by {
        let a = if i < k { i } else { i + 1 };
        let x = s.tasks[a];
        assert(placed(x, s.queues[x.core as int]));
        if a < k {
            assert(s.tasks[a].id != s.tasks[k].id);
        } else {
            assert(s.tasks[k].id != s.tasks[a].id);
        }
        if x.core == c {
            assert(queue::holds(queue::taken_out(q.terminated, id), x.id) == queue::holds(q.terminated, x.id));
            if let Some(d) = queue::kind_of(x.status) {
                assert(d != QueueKind::Terminated ==> q.list(d) == r.queues[c].list(d));
            }
        }
    }
    assert forall|i: int| 0 <= i < r.tasks.len() implies waiting_ok(#[trigger] r.tasks[i], r.sems.len()) by {
        let a = if i < k { i } else { i + 1 };
        assert(waiting_ok(s.tasks[a], s.sems.len()));
    }
    assert forall|m: int| 0 <= m < r.sems.len() implies sem_ok(r.tasks, #[trigger] r.sems[m], m, r.next_task) by {
        let b = s.sems[m].blocked;
        assert(sem_ok(s.tasks, s.sems[m], m, s.next_task));
        assert forall|i: int| 0 <= i < b.len() implies ({
            let x = #[trigger] b[i];
            x < r.next_task && blocked_ok(r.tasks, x, m)
        }) by {
            assert(blocked_ok(s.tasks, b[i], m));
            lemma_removed_task(s.tasks, next, cores, k, b[i]);
        }
    }
}

impl Scheduler {
    /// A scheduler whose first core runs the initial task, which belongs to the system process and
    /// has no stack of its own.
    pub fn init(cores: usize, vcb: u64, panic_base: u64, term_notify_auto: bool) -> (r: Scheduler)
        requires
            cores > 0,
        ensures
            r@.well_formed(),
            r@.queues.len() == cores,
            r@.tasks.len() == 1,
            r@.tasks[0] == (Task {
                status: TaskStatus::Running,
                ..fresh_task(0, 0, NewThread {
                    stack: None,
                    context: 0,
                    panic_base,
                    user_fn: None,
                    process: 0,
                    vcb,
                    arg_context: 0,
                    term_notify: 0,
                    per_cpu_base: 0,
                })
            }),
            r@.queues[0].running == Some(0u64),
            forall|c: int| 0 < c < cores ==> (#[trigger] r@.queues[c]).running is None,
            forall|c: int| 0 <= c < cores ==> (#[trigger] r@.queues[c]).active.len() == 0,
            r@.sems == seq![Sem {
                state: SemState::Event { signalled: false, is_auto_reset: term_notify_auto },
                blocked: Seq::empty(),
            }],
            r@.next_task == 1,
            r@.next_core == 0,
    {
        let mut queues: Vec<TaskQueue> = Vec::new();
        let mut i: usize = 0;
        while i < cores
            invariant
                i <= cores,
                queues@.len() == i,
                forall|c: int| 0 <= c < i ==> empty_queue((#[trigger] queues@[c])@, if c == 0 { Some(0u64) } else { None }),
            decreases cores - i,
        {
            let mut q: TaskQueue = TaskQueue::new();
            if i == 0 {
                q.running = Some(0);
            }
            queues.push(q);
            i = i + 1;
        }
        let t: Task = Task {
            id: 0,
            is_kernel_mode: true,
            is_in_syscall: false,
            syscall_gs: 0,
            syscall_rsp: 0,
            core: 0,
            stack: None,
            user_stack: None,
            status: TaskStatus::Running,
            context: 0,
            quanta: INIT_QUANTA,
            panic_base,
            user_fn: None,
            last_signal_cause: SignalCause::Normal,
            wait_sem: None,
            term_notify: 0,
            in_signal_init: 0,
            process: Some(0),
            vcb: Some(vcb),
            arg_context: 0,
            exit_code: 0,
            pending_signals: 0,
            completed_signals: 0,
            frames_pending: FrameTable { f0: None, f1: None, f2: None, f3: None, f4: None, f5: None },
            frames_init: FrameTable { f0: None, f1: None, f2: None, f3: None, f4: None, f5: None },
            per_cpu_base: 0,
        };
        let mut tasks: Vec<Task> = Vec::new();
        tasks.push(t);
        let mut sems: Vec<KSemInner> = Vec::new();
        sems.push(KSemInner { state: SemState::event(term_notify_auto), blocked: Vec::new() });
        let r: Scheduler = Scheduler { tasks, queues, sems, next_task: 1, next_core: 0, notified: Vec::new(), ended: Vec::new() };
        proof {
            assert(t.well_formed()) by {
                assert forall|i: u8| i < 8 implies !task::has_bit(0u8, i) by {
                    assert(0u8 & (1u8 << i) == 0) by (bit_vector);
                }
            }
            let v = r@;
            assert(v.tasks =~= seq![t]);
            assert(find_task(v.tasks, 0, 0) == Some(0int));
            assert forall|c: int| 0 <= c < v.queues.len() implies queue_ok(v.tasks, #[trigger] v.queues[c], c) by {
                assert(empty_queue(queues@[c]@, if c == 0 { Some(0u64) } else { None }));
                assert(queue::index_in(Seq::<u64>::empty(), 0, 0) is None);
            }
            assert(empty_queue(queues@[0]@, Some(0u64)));
            assert(v.sems =~= seq![Sem {
                state: SemState::Event { signalled: false, is_auto_reset: term_notify_auto },
                blocked: Seq::empty(),
            }]);
            assert forall|c: int| 0 <= c < cores implies (#[trigger] v.queues[c]).active.len() == 0 && (c > 0
                ==> v.queues[c].running is None) by {
                assert(empty_queue(queues@[c]@, if c == 0 { Some(0u64) } else { None }));
            }
        }
        r
    }

    /// Makes a thread on the core whose turn it is.
    pub fn create_thread(&mut self, p: NewThread) -> (r: u64)
        requires
            old(self)@.well_formed(),
            old(self).queues@.len() > 0,
            old(self).next_task < u64::MAX,
        ensures
            r == old(self).next_task,
            final(self)@ == old(self)@.spawned(p),
            final(self)@.well_formed(),
    {
        let ghost s0 = self@;
        let cores: usize = self.queues.len();
        proof {
            lemma_spawned_ok(s0, p);
        }
        let core: usize = (self.next_core as usize) % cores;
        let id: u64 = self.next_task;
        self.tasks.push(Task {
            id,
            is_kernel_mode: true,
            is_in_syscall: false,
            syscall_gs: 0,
            syscall_rsp: 0,
            core,
            stack: p.stack,
            user_stack: None,
            status: TaskStatus::Active,
            context: p.context,
            quanta: INIT_QUANTA,
            panic_base: p.panic_base,
            user_fn: p.user_fn,
            last_signal_cause: SignalCause::Normal,
            wait_sem: None,
            term_notify: p.term_notify,
            in_signal_init: 0,
            process: Some(p.process),
            vcb: Some(p.vcb),
            arg_context: p.arg_context,
            exit_code: 0,
            pending_signals: 0,
            completed_signals: 0,
            frames_pending: FrameTable { f0: None, f1: None, f2: None, f3: None, f4: None, f5: None },
            frames_init: FrameTable { f0: None, f1: None, f2: None, f3: None, f4: None, f5: None },
            per_cpu_base: p.per_cpu_base,
        });
        self.queues[core].push_to(QueueKind::Active, id);
        self.next_task = id + 1;
        self.next_core = (self.next_core + 1) % 256;
        self.notify_other_cpu(core);
        let ghost q1 = s0.spawned(p).queues[core as int];
        assert(self@.queues[core as int] =~= q1);
        assert(self@.queues =~= s0.queues.update(core as int, q1));
        id
    }

    /// Passes over a thread that could not be made.
    pub fn pass_turn(&mut self, had_id: bool)
        requires
            old(self)@.well_formed(),
            old(self).next_task < u64::MAX,
        ensures
            final(self)@ == old(self)@.turn_passed(had_id),
            final(self)@.well_formed(),
    {
        let ghost s0 = self@;
        if had_id {
            self.next_task = self.next_task + 1;
        }
        self.next_core = (self.next_core + 1) % 256;
        proof {
            let r = self@;
            assert forall|i: int| 0 <= i < r.tasks.len() implies ({
                let x = #[trigger] r.tasks[i];
                x.id < r.next_task && x.core < r.queues.len() && x.well_formed() && x.vcb is Some
            }) by {
                assert(s0.tasks[i].id < s0.next_task);
            }
            assert forall|m: int| 0 <= m < r.sems.len() implies sem_ok(r.tasks, #[trigger] r.sems[m], m, r.next_task) by {
                assert(sem_ok(s0.tasks, s0.sems[m], m, s0.next_task));
            }
        }
    }

    /// Gives up the rest of a task's turns.
    pub fn yield_cpu(&mut self, core: usize)
        requires
            old(self)@.well_formed(),
            core < old(self).queues@.len(),
            old(self)@.queues[core as int].running is Some,
        ensures
            final(self)@ == old(self)@.yielded(core as int),
            final(self)@.well_formed(),
    {
        let ghost s0 = self@;
        proof {
            lemma_running(s0, core as int);
        }
        if let Some(t) = self.get_current_task(core) {
            let mut u: Task = t;
            u.quanta = 0;
            proof {
                lemma_touched(s0, u);
            }
            self.put_task(u);
        }
    }

    /// Gives the task of a core its user stack.
    pub fn add_user_stack_to_cur_task(&mut self, core: usize, user_stack: u64)
        requires
            old(self)@.well_formed(),
            core < old(self).queues@.len(),
            old(self)@.queues[core as int].running is Some,
        ensures
            final(self)@ == old(self)@.with_task(
                Task { user_stack: Some(user_stack), ..old(self)@.current(core as int)->0 }),
            final(self)@.well_formed(),
    {
        let ghost s0 = self@;
        proof {
            lemma_running(s0, core as int);
        }
        if let Some(t) = self.get_current_task(core) {
            let mut u: Task = t;
            u.user_stack = Some(user_stack);
            proof {
                lemma_touched(s0, u);
            }
            self.put_task(u);
        }
    }

    /// Marks the handler that runs for the task of a core as done, and says which it was.
    pub fn complete_signal(&mut self, core: usize) -> (r: Option<u8>)
        requires
            old(self)@.well_formed(),
            core < old(self).queues@.len(),
            old(self)@.queues[core as int].running is Some,
        ensures
            ({
                let t = old(self)@.current(core as int)->0;
                &&& r == t.handler()
                &&& final(self)@ == old(self)@.with_task(match r { Some(i) => t.completed(i), None => t })
            }),
            final(self)@.well_formed(),
    {
        let ghost s0 = self@;
        proof {
            lemma_running(s0, core as int);
            lemma_lookup_ok(s0.tasks, s0.next_task, s0.queues.len(), s0.queues[core as int].running->0);
        }
        match self.get_current_task(core) {
            None => None,
            Some(t) => {
                let mut u: Task = t;
                let r: Option<u8> = u.complete_signal();
                proof {
                    lemma_touched(s0, u);
                }
                self.put_task(u);
                r
            },
        }
    }

    /// Sees to the handlers of the task of a core.
    pub fn run_signal_handlers(&mut self, core: usize, fresh: bool, now: Saved, is_user_context: bool, setup: HandlerSetup)
        -> (r: SignalRun)
        requires
            old(self)@.well_formed(),
            core < old(self).queues@.len(),
            old(self)@.current(core as int) matches Some(t) && t.one_completed() && (task::signal_choice(
                t.pending_signals, t.in_signal_init) matches SignalStep::Begin(i) ==> {
                &&& i < MAX_SIGNALS
                &&& t.tidied().frames_pending.at(i) is None
                &&& is_user_context || t.tidied().in_syscall() || t.handler() is None
            }),
        ensures
            ({
                let (t, run) = old(self)@.current(core as int)->0.signals_run(fresh, now, is_user_context, setup);
                r == run && final(self)@ == old(self)@.with_task(t)
            }),
            final(self)@.well_formed(),
    {
        let ghost s0 = self@;
        proof {
            lemma_running(s0, core as int);
            lemma_lookup_ok(s0.tasks, s0.next_task, s0.queues.len(), s0.queues[core as int].running->0);
        }
        match self.get_current_task(core) {
            None => SignalRun { unmap: None, restore: None, state: None, handles: false },
            Some(t) => {
                let mut u: Task = t;
                let r: SignalRun = u.check_and_execute_signal_handler(fresh, now, is_user_context, setup);
                proof {
                    lemma_touched(s0, u);
                }
                self.put_task(u);
                r
            },
        }
    }

    /// Suspends the task of a core if its process is to start suspended. A killed task stays killed.
    /// Whether the task gives its core up.
    pub fn suspend_process(&mut self, core: usize, is_suspended: bool) -> (r: bool)
        requires
            old(self)@.well_formed(),
            core < old(self).queues@.len(),
            old(self)@.current(core as int) matches Some(t) && (t.status == TaskStatus::Running || t.status
                == TaskStatus::Terminated),
        ensures
            r == (is_suspended && old(self)@.current(core as int)->0.status == TaskStatus::Running),
            final(self)@ == (if r {
                old(self)@.with_task(
                    Task { status: TaskStatus::Suspended, quanta: 0, ..old(self)@.current(core as int)->0 })
            } else {
                old(self)@
            }),
            final(self)@.well_formed(),
    {
        let ghost s0 = self@;
        let ghost c = core as int;
        proof {
            lemma_running(s0, c);
            lemma_lookup_waiting(s0, s0.queues[c].running->0);
        }
        if !is_suspended {
            return false;
        }
        match self.get_current_task(core) {
            None => false,
            Some(t) => {
                if t.status != TaskStatus::Running {
                    return false;
                }
                let mut u: Task = t;
                u.status = TaskStatus::Suspended;
                u.quanta = 0;
                proof {
                    lemma_stays_running(s0, u, s0.queues[c]);
                    assert(s0.with_task(u).with_queue(c, s0.queues[c]) =~= s0.with_task(u));
                }
                self.put_task(u);
                true
            },
        }
    }

    /// Lets a suspended task go on.
    pub fn resume_task(&mut self, id: u64) -> (r: bool)
        requires
            old(self)@.well_formed(),
        ensures
            (final(self)@, r) == old(self)@.resumed(id),
            final(self)@.well_formed(),
    {
        let ghost s0 = self@;
        let t: Task = match self.get_task_info(id) { Some(t) => t, None => { return false; } };
        if t.status != TaskStatus::Suspended {
            return false;
        }
        let core: usize = t.core;
        let ghost c = core as int;
        proof {
            lemma_lookup_ok(s0.tasks, s0.next_task, s0.queues.len(), id);
            lemma_lookup_waiting(s0, id);
            lemma_task_found(s0.tasks, 0, id);
            let k = find_task(s0.tasks, 0, id)->0;
            assert(placed(s0.tasks[k], s0.queues[s0.tasks[k].core as int]));
        }
        let mut u: Task = t;
        if self.queues[core].remove_from(QueueKind::Suspended, id) {
            self.queues[core].push_first(id);
            u.status = TaskStatus::Active;
            let ghost q1 = self@.queues[c];
            proof {
                lemma_relisted(s0, u, QueueKind::Suspended, QueueKind::Active, q1);
            }
            assert(self@.queues =~= s0.queues.update(c, q1));
        } else {
            u.status = TaskStatus::Running;
            proof {
                lemma_stays_running(s0, u, s0.queues[c]);
                assert(s0.with_task(u).with_queue(c, s0.queues[c]) =~= s0.with_task(u));
            }
            assert(self@.queues =~= s0.queues);
        }
        self.put_task(u);
        self.notify_other_cpu(core);
        true
    }

    /// Clears the first killed task of a core away and gives it back.
    pub fn reap_one(&mut self, core: usize) -> (r: Option<Task>)
        requires
            old(self)@.well_formed(),
            core < old(self).queues@.len(),
        ensures
            old(self)@.queues[core as int].terminated.len() == 0 ==> r is None && final(self)@ == old(self)@,
            old(self)@.queues[core as int].terminated.len() > 0 ==> final(self)@ == old(self)@.reaped(core as int)
                && r == old(self)@.task(old(self)@.queues[core as int].terminated[0]) && r is Some,
            final(self)@.well_formed(),
    {
        let ghost s0 = self@;
        if self.queues[core].terminated.len() == 0 {
            return None;
        }
        proof {
            lemma_reaped_ok(s0, core as int);
        }
        let id: u64 = self.queues[core].terminated[0];
        match self.task_index(id) {
            None => None,
            Some(k) => {
                let t: Task = self.tasks.remove(k);
                let _ = self.queues[core].terminated.remove(0);
                self.queues[core].notifier_list.push(t.term_notify);
                self.ended.push(EndedTask { id, exit_code: t.exit_code, term_notify: t.term_notify });
                let ghost q1 = s0.reaped(core as int).queues[core as int];
                assert(s0.queues[core as int].terminated.remove(0) =~= s0.queues[core as int].terminated.skip(1));
                assert(self@.queues[core as int] =~= q1);
                assert(self@.queues =~= s0.queues.update(core as int, q1));
                Some(t)
            },
        }
    }

    /// Remembers whom to tell that a process has ended.
    pub fn add_notices(&mut self, core: usize, term_notify: usize, init_notify: usize)
        requires
            old(self)@.well_formed(),
            core < old(self).queues@.len(),
        ensures
            final(self)@ == old(self)@.with_queue(core as int, (Queue {
                notifier_list: old(self)@.queues[core as int].notifier_list.push(term_notify).push(init_notify),
                ..old(self)@.queues[core as int]
            })),
            final(self)@.well_formed(),
    {
        let ghost s0 = self@;
        self.queues[core].notifier_list.push(term_notify);
        self.queues[core].notifier_list.push(init_notify);
        let ghost q1 = self@.queues[core as int];
        assert(self@.queues =~= s0.queues.update(core as int, q1));
        proof {
            lemma_queue_touched(s0, core as int, q1);
        }
    }

    /// Issues a signal to the first of some threads that it can go to.
    pub fn issue_signal_to_threads(
        &mut self,
        threads: &Vec<u64>,
        signal: u8,
        user_ctx: u64,
        handler: u64,
        state: Option<TaskStatus>,
    ) -> (r: bool)
        requires
            old(self)@.well_formed(),
            signal < MAX_SIGNALS,
        ensures
            (final(self)@, r) == old(self)@.issued(threads@, signal, user_ctx, handler, state),
            final(self)@.well_formed(),
    {
        let ghost s0 = self@;
        let mut i: usize = 0;
        while i < threads.len()
            invariant
                i <= threads@.len(),
                *self == *old(self),
                s0 == self@,
                s0.well_formed(),
                signal < MAX_SIGNALS,
                s0.first_eligible(threads@, 0, signal, state) == s0.first_eligible(threads@, i as int, signal, state),
            decreases threads@.len() - i,
        {
            let id: u64 = threads[i];
            if let Some(t) = self.get_task_info(id) {
                let fits_state: bool = match state { Some(x) => t.status == x, None => true };
                if t.check_signal_validity(signal) && fits_state && t.status != TaskStatus::Terminated {
                    proof {
                        lemma_lookup_ok(s0.tasks, s0.next_task, s0.queues.len(), id);
                        lemma_lookup_waiting(s0, id);
                    }
                    let mut u: Task = t;
                    u.setup_signal_handler(signal, user_ctx, handler);
                    proof {
                        lemma_touched(s0, u);
                    }
                    self.put_task(u);
                    if t.status == TaskStatus::WaitingInterruptible {
                        if let Some(m) = t.wait_sem {
                            self.do_signal_on_task(m, id, true);
                        }
                    }
                    return true;
                }
            }
            i = i + 1;
        }
        false
    }
}

pub open spec fn empty_queue(q: Queue, running: Option<u64>) -> bool {
    &&& q.active.len() == 0
    &&& q.waiting.len() == 0
    &&& q.terminated.len() == 0
    &&& q.suspended.len() == 0
    &&& q.running == running
}

/// A task is in at most one list, and in none while it runs and has not been given up.
pub proof fn law_one_place(s: Sched, id: u64, c: int, d: int, k: QueueKind, l: QueueKind)
    requires
        s.well_formed(),
        0 <= c < s.queues.len(),
        0 <= d < s.queues.len(),
        queue::holds(s.queues[c].list(k), id),
    ensures
        queue::holds(s.queues[d].list(l), id) ==> c == d && k == l,
        s.queues[d].running != Some(id),
{
    assert(queue_ok(s.tasks, s.queues[c], c));
    assert(queue_ok(s.tasks, s.queues[d], d));
    queue::lemma_index_in(s.queues[c].list(k), 0, id);
    let i = queue::index_in(s.queues[c].list(k), 0, id)->0;
    assert(list_ok(s.tasks, s.queues[c].list(k), c, k));
    assert(fits(s.tasks, s.queues[c].list(k)[i], c, k));
    if queue::holds(s.queues[d].list(l), id) {
        queue::lemma_index_in(s.queues[d].list(l), 0, id);
        let j = queue::index_in(s.queues[d].list(l), 0, id)->0;
        assert(list_ok(s.tasks, s.queues[d].list(l), d, l));
        assert(fits(s.tasks, s.queues[d].list(l)[j], d, l));
    }
}

/// No task is lost: each is in a list of its core or runs there.
pub proof fn law_no_task_lost(s: Sched, id: u64)
    requires
        s.well_formed(),
        s.task(id) is Some,
    ensures
        s.task(id)->0.core < s.queues.len(),
        s.queues[s.task(id)->0.core as int].running == Some(id) || exists|k: QueueKind|
            queue::holds(s.queues[s.task(id)->0.core as int].list(k), id),
{
    let t = s.task(id)->0;
    lemma_lookup_ok(s.tasks, s.next_task, s.queues.len(), id);
    lemma_task_found(s.tasks, 0, id);
    let i = find_task(s.tasks, 0, id)->0;
    assert(placed(s.tasks[i], s.queues[s.tasks[i].core as int]));
    if let Some(k) = queue::kind_of(t.status) {
        assert(queue::holds(s.queues[t.core as int].list(k), id) || runs(s.queues[t.core as int], id));
    }
}

/// Tasks take turns: one that has used up its own goes to the end of the line, and the first in line
/// runs.
pub proof fn law_round_robin(s: Sched, c: int, saved: Saved)
    requires
        s.well_formed(),
        0 <= c < s.queues.len(),
        s.current(c) matches Some(t) && t.status == TaskStatus::Running && t.quanta <= 1,
        s.queues[c].active.len() > 0,
    ensures
        s.chosen(c, saved).0.queues[c].running == Some(s.queues[c].active[0]),
        s.chosen(c, saved).0.queues[c].active == s.queues[c].active.skip(1).push(s.queues[c].running->0),
{
    lemma_running(s, c);
    let id = s.queues[c].running->0;
    let o = s.task(id)->0;
    let t = Task { quanta: if o.quanta == 0 { 0 } else { (o.quanta - 1) as u64 }, ..o };
    lemma_touched(s, t);
    lemma_head_kept(s, c, t, saved);
    assert(s.queues[c].active.push(id).skip(1) =~= s.queues[c].active.skip(1).push(id));
}

proof fn lemma_woke_first(s: Sched, m: int)
    requires
        s.well_formed(),
        0 <= m < s.sems.len(),
        s.sems[m].blocked.len() > 0,
        s.task(s.sems[m].blocked[0]) matches Some(t) && t.status != TaskStatus::Terminated,
    ensures
        ({
            let id = s.sems[m].blocked[0];
            let (r, ok) = s.woke(m, None, SignalCause::Normal);
            &&& ok
            &&& r.well_formed()
            &&& r.task(id) matches Some(t) && !waits(t.status) && t.wait_sem is None && t.cause() == SignalCause::Normal
            &&& r.sems.len() == s.sems.len()
            &&& r.sems[m].blocked == s.sems[m].blocked.skip(1)
            &&& r.sems[m].state == s.sems[m].state
            &&& forall|o: u64| o != id ==> #[trigger] r.task(o) == s.task(o)
        }),
{
    let b = s.sems[m].blocked;
    let id = b[0];
    assert(sem_ok(s.tasks, s.sems[m], m, s.next_task));
    queue::lemma_index_in(b, 0, id);
    assert(queue::index_in(b, 0, id) == Some(0int));
    lemma_woke_ok(s, m, id, SignalCause::Normal);
    lemma_lookup_ok(s.tasks, s.next_task, s.queues.len(), id);
    let t = s.task(id)->0;
    let q = s.queues[t.core as int];
    let in_queue = queue::holds(q.waiting, id);
    let u = Task {
        status: if in_queue { TaskStatus::Active } else { TaskStatus::Running },
        quanta: if in_queue { t.quanta } else { INIT_QUANTA },
        wait_sem: None,
        ..t
    };
    let v = u.with_cause(SignalCause::Normal);
    task::lemma_highest_below(t.pending_signals, 8);
    assert(v.cause() == SignalCause::Normal);
    lemma_replaced(s.tasks, v, id);
    assert(queue::taken_out(b, id) =~= b.skip(1));
    let r = s.woke(m, None, SignalCause::Normal).0;
    assert forall|o: u64| o != id implies #[trigger] r.task(o) == s.task(o) by {
        lemma_replaced(s.tasks, v, o);
    }
}

proof fn lemma_first_woken(s: Sched, m: int)
    requires
        s.well_formed(),
        0 <= m < s.sems.len(),
        s.sems[m].blocked.len() > 0,
        s.sems[m].state.wakes() == Wake::One,
        s.task(s.sems[m].blocked[0]) matches Some(t) && t.status != TaskStatus::Terminated,
    ensures
        ({
            let id = s.sems[m].blocked[0];
            let r = s.signalled(m);
            &&& r.well_formed()
            &&& r.task(id) matches Some(t) && !waits(t.status) && t.wait_sem is None && t.cause() == SignalCause::Normal
            &&& r.sems.len() == s.sems.len()
            &&& r.sems[m].blocked == s.sems[m].blocked.skip(1)
            &&& r.sems[m].state == s.sems[m].state.restored()
            &&& forall|o: u64| o != id ==> #[trigger] r.task(o) == s.task(o)
        }),
{
    let s1 = s.with_state(m, s.sems[m].state.restored());
    assert(sem_ok(s.tasks, s.sems[m], m, s.next_task));
    lemma_sem_changed(s, m, s1.sems[m]);
    lemma_woke_first(s1, m);
}

proof fn lemma_woke_everybody(s: Sched, m: int)
    requires
        s.well_formed(),
        0 <= m < s.sems.len(),
        forall|k: int| 0 <= k < s.sems[m].blocked.len() ==> (s.task(#[trigger] s.sems[m].blocked[k]) matches Some(t)
            && t.status != TaskStatus::Terminated),
    ensures
        ({
            let b = s.sems[m].blocked;
            let r = s.woke_all(m, b.len());
            &&& r.sems.len() == s.sems.len()
            &&& r.sems[m].blocked.len() == 0
            &&& r.sems[m].state == s.sems[m].state
            &&& forall|k: int| 0 <= k < b.len() ==> (r.task(#[trigger] b[k]) matches Some(t) && !waits(t.status))
            &&& forall|o: u64| !queue::holds(b, o) ==> #[trigger] r.task(o) == s.task(o)
        }),
    decreases s.sems[m].blocked.len(),
{
    let b = s.sems[m].blocked;
    assert(sem_ok(s.tasks, s.sems[m], m, s.next_task));
    if b.len() > 0 {
        assert(s.task(b[0]) is Some);
        lemma_woke_first(s, m);
        let q = s.woke(m, None, SignalCause::Normal).0;
        let c = q.sems[m].blocked;
        assert forall|k: int| 0 <= k < c.len() implies (q.task(#[trigger] c[k]) matches Some(t) && t.status
            != TaskStatus::Terminated) by {
            assert(c[k] == b[k + 1]);
            assert(b[k + 1] != b[0]);
            assert(s.task(b[k + 1]) is Some);
        }
        lemma_woke_everybody(q, m);
        let r = s.woke_all(m, b.len());
        assert(r == q.woke_all(m, c.len()));
        assert forall|k: int| 0 <= k < b.len() implies (r.task(#[trigger] b[k]) matches Some(t) && !waits(t.status)) by {
            if k == 0 {
                assert(!queue::holds(c, b[0])) by {
                    queue::lemma_index_in(c, 0, b[0]);
                    if queue::holds(c, b[0]) {
                        let x = queue::index_in(c, 0, b[0])->0;
                        assert(c[x] == b[x + 1]);
                    }
                }
                assert(r.task(b[0]) == q.task(b[0]));
            } else {
                assert(c[k - 1] == b[k]);
            }
        }
        assert forall|o: u64| !queue::holds(b, o) implies #[trigger] r.task(o) == s.task(o) by {
            queue::lemma_index_in(b, 0, o);
            queue::lemma_index_in(c, 0, o);
            assert(o != b[0]);
            assert(!queue::holds(c, o)) by {
                if queue::holds(c, o) {
                    let x = queue::index_in(c, 0, o)->0;
                    assert(c[x] == b[x + 1]);
                }
            }
            assert(q.task(o) == s.task(o));
        }
    }
}

/// An event that stays signalled lets everybody go who waits for it, and whoever comes next.
pub proof fn law_event_wakes_everybody(s: Sched, m: int)
    requires
        s.well_formed(),
        0 <= m < s.sems.len(),
        s.sems[m].state matches SemState::Event { is_auto_reset, .. } && !is_auto_reset,
        forall|k: int| 0 <= k < s.sems[m].blocked.len() ==> (s.task(#[trigger] s.sems[m].blocked[k]) matches Some(t)
            && t.status != TaskStatus::Terminated),
    ensures
        ({
            let b = s.sems[m].blocked;
            let r = s.signalled(m);
            &&& r.sems[m].blocked.len() == 0
            &&& r.sems[m].state.available()
            &&& r.sems[m].state.entered() == r.sems[m].state
            &&& forall|k: int| 0 <= k < b.len() ==> (r.task(#[trigger] b[k]) matches Some(t) && !waits(t.status))
        }),
{
    assert(s.with_state(m, s.sems[m].state.restored()).sems =~= s.sems);
    lemma_woke_everybody(s, m);
}

/// Whoever has waited longest for a semaphore is woken first, unless it has been killed.
pub proof fn law_first_come(s: Sched, m: int)
    requires
        s.well_formed(),
        0 <= m < s.sems.len(),
        s.sems[m].blocked.len() > 0,
        s.sems[m].state.wakes() == Wake::One,
        s.task(s.sems[m].blocked[0]) matches Some(t) && t.status != TaskStatus::Terminated,
    ensures
        ({
            let id = s.sems[m].blocked[0];
            let r = s.signalled(m);
            &&& r.task(id) matches Some(t) && !waits(t.status) && t.wait_sem is None && t.cause() == SignalCause::Normal
            &&& r.sems[m].blocked == s.sems[m].blocked.skip(1)
        }),
{
    lemma_first_woken(s, m);
}

impl Sched {
    /// A semaphore or event has been signalled `n` times.
    pub open spec fn signalled_often(self, sem: int, n: nat) -> Sched
        decreases n,
    {
        if n == 0 { self } else { self.signalled_often(sem, (n - 1) as nat).signalled(sem) }
    }
}

/// Of those who wait for a semaphore, or for an event that resets itself, as many wake as it is
/// signalled, those who came first; the others wait on.
pub proof fn law_as_many_as_signalled(s: Sched, m: int, n: nat)
    requires
        s.well_formed(),
        0 <= m < s.sems.len(),
        n <= s.sems[m].blocked.len(),
        match s.sems[m].state {
            SemState::Semaphore { max_count, counter } => max_count >= 0 && counter + n <= 0,
            SemState::Event { is_auto_reset, .. } => is_auto_reset,
        },
        forall|k: int| 0 <= k < n ==> (s.task(#[trigger] s.sems[m].blocked[k]) matches Some(t) && t.status
            != TaskStatus::Terminated),
    ensures
        ({
            let b = s.sems[m].blocked;
            let r = s.signalled_often(m, n);
            &&& r.well_formed()
            &&& r.sems.len() == s.sems.len()
            &&& r.sems[m].blocked == b.skip(n as int)
            &&& match s.sems[m].state {
                SemState::Semaphore { max_count, counter } => r.sems[m].state == (SemState::Semaphore {
                    max_count,
                    counter: (counter + n) as i64,
                }),
                SemState::Event { .. } => r.sems[m].state == s.sems[m].state,
            }
            &&& forall|k: int| 0 <= k < n ==> (r.task(#[trigger] b[k]) matches Some(t) && !waits(t.status))
            &&& forall|k: int| n <= k < b.len() ==> r.task(#[trigger] b[k]) == s.task(b[k])
        }),
    decreases n,
{
    let b = s.sems[m].blocked;
    assert(sem_ok(s.tasks, s.sems[m], m, s.next_task));
    if n == 0 {
        assert(b.skip(0) =~= b);
    } else {
        let p = (n - 1) as nat;
        law_as_many_as_signalled(s, m, p);
        let q = s.signalled_often(m, p);
        assert(q.sems[m].blocked[0] == b[p as int]);
        assert(q.task(b[p as int]) == s.task(b[p as int]));
        lemma_first_woken(q, m);
        let r = s.signalled_often(m, n);
        assert(b.skip(p as int).skip(1) =~= b.skip(n as int));
        assert forall|k: int| 0 <= k < n implies (r.task(#[trigger] b[k]) matches Some(t) && !waits(t.status)) by {
            if k < p {
                assert(b[k] != b[p as int]);
                assert(r.task(b[k]) == q.task(b[k]));
            }
        }
        assert forall|k: int| n <= k < b.len() implies r.task(#[trigger] b[k]) == s.task(b[k]) by {
            assert(b[k] != b[p as int]);
            assert(q.task(b[k]) == s.task(b[k]));
        }
    }
}

/// A task whose time has run out leaves the semaphore as if it had never waited.
pub proof fn law_timeout_gives_back(s: Sched, m: int, id: u64)
    requires
        s.well_formed(),
        0 <= m < s.sems.len(),
        queue::holds(s.sems[m].blocked, id),
        s.task(id) matches Some(t) && t.status != TaskStatus::Terminated,
    ensures
        s.signalled_on_task(m, id, false).sems[m].state == s.sems[m].state.restored(),
        !queue::holds(s.signalled_on_task(m, id, false).sems[m].blocked, id),
        s.signalled_on_task(m, id, false).task(id) matches Some(t) && t.cause() == SignalCause::TimerExpiry,
{
    lemma_woke_ok(s, m, id, SignalCause::TimerExpiry);
    lemma_blocked_taken(s, m, id);
    lemma_lookup_ok(s.tasks, s.next_task, s.queues.len(), id);
    let t = s.task(id)->0;
    let q = s.queues[t.core as int];
    let in_queue = queue::holds(q.waiting, id);
    let u = Task {
        status: if in_queue { TaskStatus::Active } else { TaskStatus::Running },
        quanta: if in_queue { t.quanta } else { INIT_QUANTA },
        wait_sem: None,
        ..t
    };
    let v = u.with_cause(SignalCause::TimerExpiry);
    task::lemma_highest_below(t.pending_signals, 8);
    assert(v.cause() == SignalCause::TimerExpiry);
    lemma_replaced(s.tasks, v, id);
}

impl Sched {
    /// The first `n` of some semaphores have been signalled.
    pub open spec fn sems_told(self, list: Seq<usize>, n: nat) -> Sched
        decreases n,
    {
        if n == 0 {
            self
        } else {
            let s = self.sems_told(list, (n - 1) as nat);
            if list[n - 1] < s.sems.len() { s.signalled(list[n - 1] as int) } else { s }
        }
    }

    /// The tasks of the first `n` of some timers have been told that their time is up.
    pub open spec fn timers_told(self, list: Seq<TimerInfo>, n: nat) -> Sched
        decreases n,
    {
        if n == 0 {
            self
        } else {
            let s = self.timers_told(list, (n - 1) as nat);
            let t = list[n - 1];
            if t.sem < s.sems.len() { s.signalled_on_task(t.sem as int, t.task_id, false) } else { s }
        }
    }

    /// Whoever waits for what a core has noticed has been told: that tasks and processes have ended
    /// first, that timers have run out last.
    pub open spec fn watchers_notified(self, core: int) -> Sched {
        let q = self.queues[core];
        let s = self.with_queue(core, Queue {
            notifier_list: Seq::empty(),
            timer_notifier_list: Seq::empty(),
            ..q
        });
        s.sems_told(q.notifier_list, q.notifier_list.len()).timers_told(
            q.timer_notifier_list, q.timer_notifier_list.len())
    }
}

impl Scheduler {
    /// Tells whoever waits for what a core has noticed.
    pub fn notify_watchers(&mut self, core: usize)
        requires
            old(self)@.well_formed(),
            core < old(self).queues@.len(),
        ensures
            final(self)@ == old(self)@.watchers_notified(core as int),
            final(self)@.well_formed(),
    {
        let ghost s0 = self@;
        let mut sems: Vec<usize> = Vec::new();
        let mut timers: Vec<TimerInfo> = Vec::new();
        std::mem::swap(&mut sems, &mut self.queues[core].notifier_list);
        std::mem::swap(&mut timers, &mut self.queues[core].timer_notifier_list);
        let ghost q1 = self@.queues[core as int];
        assert(q1 =~= (Queue {
            notifier_list: Seq::empty(),
            timer_notifier_list: Seq::empty(),
            ..s0.queues[core as int]
        }));
        assert(self@.queues =~= s0.queues.update(core as int, q1));
        proof {
            lemma_queue_touched(s0, core as int, q1);
        }
        let ghost s1 = self@;
        let mut i: usize = 0;
        while i < sems.len()
            invariant
                i <= sems@.len(),
                self@.well_formed(),
                self@ == s1.sems_told(sems@, i as nat),
            decreases sems@.len() - i,
        {
            if sems[i] < self.sems.len() {
                self.do_signal(sems[i]);
            }
            i = i + 1;
        }
        let ghost s2 = self@;
        let mut j: usize = 0;
        while j < timers.len()
            invariant
                j <= timers@.len(),
                self@.well_formed(),
                self@ == s2.timers_told(timers@, j as nat),
            decreases timers@.len() - j,
        {
            if timers[j].sem < self.sems.len() {
                self.do_signal_on_task(timers[j].sem, timers[j].task_id, false);
            }
            j = j + 1;
        }
    }

    /// Forgets the stacks of tasks that have ended on a core.
    pub fn drop_leftover_stacks(&mut self, core: usize)
        requires
            old(self)@.well_formed(),
            core < old(self).queues@.len(),
        ensures
            final(self)@ == old(self)@.with_queue(core as int, old(self)@.queues[core as int].stacks_dropped()),
            final(self)@.well_formed(),
    {
        let ghost s0 = self@;
        self.queues[core].drop_leftover_stacks();
        let ghost q1 = self@.queues[core as int];
        assert(self@.queues =~= s0.queues.update(core as int, q1));
        proof {
            lemma_queue_touched(s0, core as int, q1);
        }
    }

    /// Ends the task that runs on a core. A core that cannot switch would stay with it.
    pub fn exit_thread(&mut self, core: usize, exit_code: i64) -> (r: KillOutcome)
        requires
            old(self)@.well_formed(),
            core < old(self).queues@.len(),
            old(self)@.queues[core as int].preemption_count == 0,
            old(self)@.queues[core as int].running matches Some(id) && (old(self)@.task(id) matches Some(t) ==> t.process
                != Some(0u64) && (t.status == TaskStatus::Running ==> t.stack is Some)),
        ensures
            (final(self)@, r) == old(self)@.killed(old(self)@.queues[core as int].running->0, exit_code, core),
            final(self)@.well_formed(),
    {
        match self.get_current_task_id(core) {
            Some(id) => self.kill_thread(id, exit_code, core),
            None => KillOutcome { yields: false, sweep_irps: false },
        }
    }
}

impl Spinlock<Task> {
    /// Waits, on behalf of the task that runs on a core, until this one has ended.
    pub fn wait(&self, sched: &mut Scheduler, core: usize, is_interruptible: bool) -> (r: WaitStep)
        requires
            old(sched)@.well_formed(),
            core < old(sched).queues@.len(),
            self.data.term_notify < old(sched).sems@.len(),
            old(sched)@.current(core as int) matches Some(t) && (t.status == TaskStatus::Running || t.status
                == TaskStatus::Terminated),
            old(sched)@.sems[self.data.term_notify as int].state.can_wait(),
            !old(sched)@.sems[self.data.term_notify as int].state.available() ==>
                !old(sched)@.queues[core as int].is_dw_mode && old(sched)@.queues[core as int].preemption_count == 0,
        ensures
            (final(sched)@, r) == old(sched)@.wait_begun(core as int, self.data.term_notify, None, is_interruptible),
            final(sched)@.well_formed(),
    {
        sched.do_wait(core, self.data.term_notify, None, is_interruptible)
    }
}

/// A thread that is killed while it waits is no longer among those that wait for anything.
pub proof fn law_killed_does_not_wait(s: Sched, id: u64, exit_code: i64, here: usize, m: usize)
    requires
        s.well_formed(),
        s.task(id) matches Some(t) && t.status != TaskStatus::Terminated,
        m < s.sems.len(),
    ensures
        !queue::holds(s.killed(id, exit_code, here).0.sems[m as int].blocked, id),
{
    let t = s.task(id)->0;
    let b = s.sems[m as int].blocked;
    lemma_lookup_ok(s.tasks, s.next_task, s.queues.len(), id);
    lemma_lookup_waiting(s, id);
    lemma_blocked_taken(s, m as int, id);
    assert(sem_ok(s.tasks, s.sems[m as int], m as int, s.next_task));
    queue::lemma_index_in(b, 0, id);
    let s1 = s.terminated(t, exit_code).with_notice(t.core);
    assert(s1.sems == s.sems);
    if queue::holds(b, id) {
        let i = queue::index_in(b, 0, id)->0;
        assert(blocked_ok(s.tasks, b[i], m as int));
    }
}

} // verus!
