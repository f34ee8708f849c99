use vstd::prelude::*;
use crate::sched::task::{QUANTUM, TaskStatus};

verus! {

/// A task that stops waiting for something after a while.
#[derive(Clone, Copy, Debug, PartialEq, Eq, Structural)]
pub struct TimerInfo {
    /// Milliseconds that are left.
    pub timer_count: u64,
    pub task_id: u64,
    pub sem: usize,
}

/// Work that a driver has put off.
#[derive(Clone, Copy, Debug, PartialEq, Eq, Structural)]
pub struct DriverWorker {
    pub routine: u64,
    pub context: u64,
}

/// The lists of a core.
#[derive(Clone, Copy, Debug, PartialEq, Eq, Structural)]
pub enum QueueKind {
    Active,
    Waiting,
    Terminated,
    Suspended,
}

/// The list that a task of a status is in, unless it is the running one.
pub open spec fn kind_of(status: TaskStatus) -> Option<QueueKind> {
    match status {
        TaskStatus::Running => None,
        TaskStatus::Active => Some(QueueKind::Active),
        TaskStatus::Waiting => Some(QueueKind::Waiting),
        TaskStatus::WaitingInterruptible => Some(QueueKind::Waiting),
        TaskStatus::Terminated => Some(QueueKind::Terminated),
        TaskStatus::Suspended => Some(QueueKind::Suspended),
    }
}

pub fn queue_for(status: TaskStatus) -> (r: Option<QueueKind>)
    ensures
        r == kind_of(status),
{
    match status {
        TaskStatus::Running => None,
        TaskStatus::Active => Some(QueueKind::Active),
        TaskStatus::Waiting => Some(QueueKind::Waiting),
        TaskStatus::WaitingInterruptible => Some(QueueKind::Waiting),
        TaskStatus::Terminated => Some(QueueKind::Terminated),
        TaskStatus::Suspended => Some(QueueKind::Suspended),
    }
}

/// What a core runs and what it is to run.
pub struct TaskQueue {
    pub active: Vec<u64>,
    pub waiting: Vec<u64>,
    pub terminated: Vec<u64>,
    pub suspended: Vec<u64>,
    /// The core idles without one.
    pub running: Option<u64>,
    /// What to signal once the core has no locks.
    pub notifier_list: Vec<usize>,
    pub timer_list: Vec<TimerInfo>,
    /// Timers that have run out.
    pub timer_notifier_list: Vec<TimerInfo>,
    /// Stacks of tasks that have ended while they ran.
    pub leftover_stack: Vec<u64>,
    /// The core may still be on one of these stacks.
    pub flip_flop: bool,
    pub preemption_count: u64,
    pub is_dw_mode: bool,
    pub dw_queue: Vec<DriverWorker>,
}

#[verifier::ext_equal]
pub struct Queue {
    pub active: Seq<u64>,
    pub waiting: Seq<u64>,
    pub terminated: Seq<u64>,
    pub suspended: Seq<u64>,
    pub running: Option<u64>,
    pub notifier_list: Seq<usize>,
    pub timer_list: Seq<TimerInfo>,
    pub timer_notifier_list: Seq<TimerInfo>,
    pub leftover_stack: Seq<u64>,
    pub flip_flop: bool,
    pub preemption_count: u64,
    pub is_dw_mode: bool,
    pub dw_queue: Seq<DriverWorker>,
}

impl View for TaskQueue {
    type V = Queue;

    open spec fn view(&self) -> Queue {
        Queue {
            active: self.active@,
            waiting: self.waiting@,
            terminated: self.terminated@,
            suspended: self.suspended@,
            running: self.running,
            notifier_list: self.notifier_list@,
            timer_list: self.timer_list@,
            timer_notifier_list: self.timer_notifier_list@,
            leftover_stack: self.leftover_stack@,
            flip_flop: self.flip_flop,
            preemption_count: self.preemption_count,
            is_dw_mode: self.is_dw_mode,
            dw_queue: self.dw_queue@,
        }
    }
}

/// The first place from `i` on where an id is.
pub open spec fn index_in(s: Seq<u64>, i: int, id: u64) -> Option<int>
    decreases s.len() - i,
{
    if i < 0 || i >= s.len() {
        None
    } else if s[i] == id {
        Some(i)
    } else {
        index_in(s, i + 1, id)
    }
}

/// A list without the first occurrence of an id.
pub open spec fn taken_out(s: Seq<u64>, id: u64) -> Seq<u64> {
    match index_in(s, 0, id) { Some(i) => s.remove(i), None => s }
}

pub open spec fn no_dup(s: Seq<u64>) -> bool {
    forall|i: int, j: int| 0 <= i < j < s.len() ==> #[trigger] s[i] != #[trigger] s[j]
}

pub open spec fn holds(s: Seq<u64>, id: u64) -> bool {
    index_in(s, 0, id) is Some
}

pub proof fn lemma_index_in(s: Seq<u64>, i: int, id: u64)
    requires
        0 <= i,
    ensures
        match index_in(s, i, id) {
            Some(k) => i <= k < s.len() && s[k] == id,
            None => forall|k: int| i <= k < s.len() ==> #[trigger] s[k] != id,
        },
    decreases s.len() - i,
{
    if i < s.len() {
        lemma_index_in(s, i + 1, id);
    }
}

/// Taking an id out of a list without duplicates leaves the others and none of that id.
pub proof fn lemma_taken_out(s: Seq<u64>, id: u64)
    requires
        no_dup(s),
    ensures
        no_dup(taken_out(s, id)),
        forall|i: int| 0 <= i < taken_out(s, id).len() ==> #[trigger] taken_out(s, id)[i] != id,
        forall|i: int| 0 <= i < taken_out(s, id).len() ==> exists|j: int|
            0 <= j < s.len() && s[j] == #[trigger] taken_out(s, id)[i],
{
    lemma_index_in(s, 0, id);
    let t = taken_out(s, id);
    if let Some(k) = index_in(s, 0, id) {
        assert forall|i: int| 0 <= i < t.len() implies #[trigger] t[i] != id by {
            let c = if i < k { i } else { i + 1 };
            assert(s[c] != s[k]);
        }
        assert forall|i: int| 0 <= i < t.len() implies exists|j: int| 0 <= j < s.len() && s[j] == #[trigger] t[i] by {
            let c = if i < k { i } else { i + 1 };
            assert(s[c] == t[i]);
        }
        assert forall|i: int, j: int| 0 <= i < j < t.len() implies #[trigger] t[i] != #[trigger] t[j] by {
            let c = if i < k { i } else { i + 1 };
            let d = if j < k { j } else { j + 1 };
            assert(s[c] != s[d]);
        }
    } else {
        assert forall|i: int| 0 <= i < t.len() implies exists|j: int| 0 <= j < s.len() && s[j] == #[trigger] t[i] by {
            assert(s[i] == t[i]);
        }
    }
}

fn find_in(s: &Vec<u64>, id: u64) -> (r: Option<usize>)
    ensures
        match r {
            Some(i) => index_in(s@, 0, id) == Some(i as int) && i < s@.len() && s@[i as int] == id,
            None => index_in(s@, 0, id) is None,
        },
{
    let mut i: usize = 0;
    while i < s.len()
        invariant
            i <= s@.len(),
            index_in(s@, 0, id) == index_in(s@, i as int, id),
        decreases s@.len() - i,
    {
        if s[i] == id {
            return Some(i);
        }
        i = i + 1;
    }
    None
}

/// Takes the first occurrence of an id out of a list.
pub fn take_out(s: &mut Vec<u64>, id: u64) -> (r: bool)
    ensures
        r == holds(old(s)@, id),
        final(s)@ == taken_out(old(s)@, id),
{
    match find_in(s, id) {
        Some(i) => {
            let _ = s.remove(i);
            true
        },
        None => false,
    }
}

pub fn contains(s: &Vec<u64>, id: u64) -> (r: bool)
    ensures
        r == holds(s@, id),
{
    find_in(s, id).is_some()
}

impl Queue {
    pub open spec fn list(self, kind: QueueKind) -> Seq<u64> {
        match kind {
            QueueKind::Active => self.active,
            QueueKind::Waiting => self.waiting,
            QueueKind::Terminated => self.terminated,
            QueueKind::Suspended => self.suspended,
        }
    }

    pub open spec fn with_list(self, kind: QueueKind, l: Seq<u64>) -> Queue {
        match kind {
            QueueKind::Active => Queue { active: l, ..self },
            QueueKind::Waiting => Queue { waiting: l, ..self },
            QueueKind::Terminated => Queue { terminated: l, ..self },
            QueueKind::Suspended => Queue { suspended: l, ..self },
        }
    }

    /// The core has nothing that keeps its timer going.
    pub open spec fn can_sleep(self) -> bool {
        !self.flip_flop && self.timer_list.len() == 0
    }
}

/// Timers that go on after a tick, among the first `n`.
pub open spec fn still_running(s: Seq<TimerInfo>, n: nat) -> Seq<TimerInfo>
    decreases n,
{
    if n == 0 {
        Seq::empty()
    } else {
        let rest = still_running(s, (n - 1) as nat);
        let t = s[n - 1];
        if t.timer_count > QUANTUM {
            rest.push(TimerInfo { timer_count: (t.timer_count - QUANTUM) as u64, ..t })
        } else {
            rest
        }
    }
}

/// Timers that run out at a tick, among the first `n`.
pub open spec fn run_out(s: Seq<TimerInfo>, n: nat) -> Seq<TimerInfo>
    decreases n,
{
    if n == 0 {
        Seq::empty()
    } else {
        let rest = run_out(s, (n - 1) as nat);
        let t = s[n - 1];
        if t.timer_count > QUANTUM { rest } else { rest.push(TimerInfo { timer_count: 0, ..t }) }
    }
}

/// The first timer from `i` on of a task, for a semaphore or for any.
pub open spec fn timer_of(s: Seq<TimerInfo>, i: int, task: u64, sem: Option<usize>) -> Option<int>
    decreases s.len() - i,
{
    if i < 0 || i >= s.len() {
        None
    } else if s[i].task_id == task && (sem is None || s[i].sem == sem->0) {
        Some(i)
    } else {
        timer_of(s, i + 1, task, sem)
    }
}

pub open spec fn without_timer(s: Seq<TimerInfo>, task: u64, sem: Option<usize>) -> Seq<TimerInfo> {
    match timer_of(s, 0, task, sem) { Some(i) => s.remove(i), None => s }
}

impl Queue {
    /// The stacks of tasks that have ended are kept for one schedule more.
    pub open spec fn stacks_dropped(self) -> Queue {
        Queue {
            flip_flop: false,
            leftover_stack: if self.flip_flop { self.leftover_stack } else { Seq::empty() },
            ..self
        }
    }
}

impl TaskQueue {
    pub fn new() -> (r: TaskQueue)
        ensures
            r@ == (Queue {
                active: Seq::empty(),
                waiting: Seq::empty(),
                terminated: Seq::empty(),
                suspended: Seq::empty(),
                running: None,
                notifier_list: Seq::empty(),
                timer_list: Seq::empty(),
                timer_notifier_list: Seq::empty(),
                leftover_stack: Seq::empty(),
                flip_flop: false,
                preemption_count: 0,
                is_dw_mode: false,
                dw_queue: Seq::empty(),
            }),
    {
        TaskQueue {
            active: Vec::new(),
            waiting: Vec::new(),
            terminated: Vec::new(),
            suspended: Vec::new(),
            running: None,
            notifier_list: Vec::new(),
            timer_list: Vec::new(),
            timer_notifier_list: Vec::new(),
            leftover_stack: Vec::new(),
            flip_flop: false,
            preemption_count: 0,
            is_dw_mode: false,
            dw_queue: Vec::new(),
        }
    }

    /// Takes a task out of a list, if it is there.
    pub fn remove_from(&mut self, kind: QueueKind, id: u64) -> (r: bool)
        ensures
            r == holds(old(self)@.list(kind), id),
            final(self)@ == old(self)@.with_list(kind, taken_out(old(self)@.list(kind), id)),
    {
        match kind {
            QueueKind::Active => take_out(&mut self.active, id),
            QueueKind::Waiting => take_out(&mut self.waiting, id),
            QueueKind::Terminated => take_out(&mut self.terminated, id),
            QueueKind::Suspended => take_out(&mut self.suspended, id),
        }
    }

    pub fn push_to(&mut self, kind: QueueKind, id: u64)
        ensures
            final(self)@ == old(self)@.with_list(kind, old(self)@.list(kind).push(id)),
    {
        match kind {
            QueueKind::Active => self.active.push(id),
            QueueKind::Waiting => self.waiting.push(id),
            QueueKind::Terminated => self.terminated.push(id),
            QueueKind::Suspended => self.suspended.push(id),
        }
    }

    /// Lets a task run next.
    pub fn push_first(&mut self, id: u64)
        ensures
            final(self)@ == (Queue { active: seq![id] + old(self)@.active, ..old(self)@ }),
    {
        let ghost a = self.active@;
        self.active.insert(0, id);
        assert(self.active@ =~= seq![id] + a);
    }

    /// Lets the time of a tick pass.
    pub fn update_timers(&mut self)
        ensures
            final(self)@ == (Queue {
                timer_list: still_running(old(self)@.timer_list, old(self)@.timer_list.len()),
                timer_notifier_list: old(self)@.timer_notifier_list + run_out(
                    old(self)@.timer_list, old(self)@.timer_list.len()),
                ..old(self)@
            }),
    {
        let ghost q0 = self@;
        let mut kept: Vec<TimerInfo> = Vec::new();
        let mut i: usize = 0;
        assert(q0.timer_notifier_list + run_out(q0.timer_list, 0) =~= q0.timer_notifier_list);
        while i < self.timer_list.len()
            invariant
                i <= self.timer_list@.len(),
                kept@ == still_running(q0.timer_list, i as nat),
                self@ == (Queue {
                    timer_notifier_list: q0.timer_notifier_list + run_out(q0.timer_list, i as nat),
                    ..q0
                }),
            decreases self.timer_list@.len() - i,
        {
            let t: TimerInfo = self.timer_list[i];
            if t.timer_count > QUANTUM {
                kept.push(TimerInfo { timer_count: t.timer_count - QUANTUM, task_id: t.task_id, sem: t.sem });
            } else {
                let ghost before = self.timer_notifier_list@;
                self.timer_notifier_list.push(TimerInfo { timer_count: 0, task_id: t.task_id, sem: t.sem });
                assert(self.timer_notifier_list@ =~= q0.timer_notifier_list + run_out(q0.timer_list, (i + 1) as nat));
            }
            i = i + 1;
        }
        self.timer_list = kept;
    }

    /// Drops the first timer of a task, for a semaphore or for any.
    pub fn remove_timer(&mut self, task: u64, sem: Option<usize>)
        ensures
            final(self)@ == (Queue {
                timer_list: without_timer(old(self)@.timer_list, task, sem),
                ..old(self)@
            }),
    {
        let mut i: usize = 0;
        while i < self.timer_list.len()
            invariant
                i <= self.timer_list@.len(),
                *self == *old(self),
                timer_of(self.timer_list@, 0, task, sem) == timer_of(self.timer_list@, i as int, task, sem),
            decreases self.timer_list@.len() - i,
        {
            let t: TimerInfo = self.timer_list[i];
            let same: bool = match sem { Some(s) => t.sem == s, None => true };
            if t.task_id == task && same {
                let _ = self.timer_list.remove(i);
                return;
            }
            i = i + 1;
        }
    }

    pub fn is_preemption_enabled(&self) -> (r: bool)
        ensures
            r == (self@.preemption_count == 0),
    {
        self.preemption_count == 0
    }

    pub fn is_in_dw_mode(&self) -> (r: bool)
        ensures
            r == self@.is_dw_mode,
    {
        self.is_dw_mode
    }

    pub fn disable_preemption(&mut self)
        requires
            old(self)@.preemption_count < u64::MAX,
        ensures
            final(self)@ == old(self)@.preemption_disabled(),
    {
        self.preemption_count = self.preemption_count + 1;
    }

    pub fn enable_preemption(&mut self)
        requires
            old(self)@.preemption_count > 0,
        ensures
            final(self)@ == old(self)@.preemption_enabled(),
    {
        self.preemption_count = self.preemption_count - 1;
    }

    pub fn create_driver_worker(&mut self, routine: u64, context: u64)
        ensures
            final(self)@ == (Queue {
                dw_queue: old(self)@.dw_queue.push(DriverWorker { routine, context }),
                ..old(self)@
            }),
    {
        self.dw_queue.push(DriverWorker { routine, context });
    }

    /// Begins with the work that drivers have put off, oldest first. The core is in worker mode while
    /// there is any. It is not to be begun twice.
    pub fn dw_handler(&mut self) -> (r: Option<DriverWorker>)
        requires
            !old(self)@.is_dw_mode,
        ensures
            (final(self)@, r) == old(self)@.work_taken(),
    {
        self.next_dw()
    }

    /// Goes on with the work that drivers have put off, once a piece of it has been done.
    pub fn next_dw(&mut self) -> (r: Option<DriverWorker>)
        ensures
            (final(self)@, r) == old(self)@.work_taken(),
    {
        if self.dw_queue.len() == 0 {
            self.is_dw_mode = false;
            return None;
        }
        let ghost d0 = self.dw_queue@;
        let w: DriverWorker = self.dw_queue.remove(0);
        assert(self.dw_queue@ =~= d0.skip(1));
        self.is_dw_mode = true;
        Some(w)
    }

    /// Forgets the stacks of tasks that have ended, one schedule after the last of them has.
    pub fn drop_leftover_stacks(&mut self)
        ensures
            final(self)@ == old(self)@.stacks_dropped(),
    {
        if self.flip_flop {
            self.flip_flop = false;
        } else {
            self.leftover_stack = Vec::new();
        }
    }

    pub fn can_sleep(&self) -> (r: bool)
        ensures
            r == self@.can_sleep(),
    {
        !self.flip_flop && self.timer_list.len() == 0
    }
}

impl Queue {
    /// The core's task must not be taken off it, once more than before.
    pub open spec fn preemption_disabled(self) -> Queue {
        Queue { preemption_count: (self.preemption_count + 1) as u64, ..self }
    }

    pub open spec fn preemption_enabled(self) -> Queue {
        Queue { preemption_count: (self.preemption_count - 1) as u64, ..self }
    }

    /// Preemption has been disabled `n` times in a row.
    pub open spec fn disabled_often(self, n: nat) -> Queue
        decreases n,
    {
        if n == 0 { self } else { self.disabled_often((n - 1) as nat).preemption_disabled() }
    }

    /// Preemption has been enabled `n` times in a row.
    pub open spec fn enabled_often(self, n: nat) -> Queue
        decreases n,
    {
        if n == 0 { self } else { self.enabled_often((n - 1) as nat).preemption_enabled() }
    }

    /// The oldest piece of work has been taken. The core is in worker mode if there was one.
    pub open spec fn work_taken(self) -> (Queue, Option<DriverWorker>) {
        if self.dw_queue.len() == 0 {
            (Queue { is_dw_mode: false, ..self }, None)
        } else {
            (Queue { dw_queue: self.dw_queue.skip(1), is_dw_mode: true, ..self }, Some(self.dw_queue[0]))
        }
    }

    /// The core's work once `n` routines have been called, if `queued[i]` is what is put off while the
    /// `i`th runs: the core with the next routine begun, if there is one, and all routines begun so far.
    pub open spec fn work_done(self, queued: Seq<Seq<DriverWorker>>, n: nat) -> (Queue, Seq<DriverWorker>)
        decreases n,
    {
        let (q, begun) = if n == 0 {
            (self, Seq::empty())
        } else {
            let (p, c) = self.work_done(queued, (n - 1) as nat);
            (Queue { dw_queue: p.dw_queue + queued[n - 1], ..p }, c)
        };
        let (r, w) = q.work_taken();
        (r, match w { Some(d) => begun.push(d), None => begun })
    }
}

proof fn lemma_disabled_often(q: Queue, n: nat)
    requires
        q.preemption_count + n <= u64::MAX,
    ensures
        q.disabled_often(n) == (Queue { preemption_count: (q.preemption_count + n) as u64, ..q }),
    decreases n,
{
    if n > 0 {
        lemma_disabled_often(q, (n - 1) as nat);
    }
}

proof fn lemma_enabled_often(q: Queue, n: nat)
    requires
        n <= q.preemption_count,
    ensures
        q.enabled_often(n) == (Queue { preemption_count: (q.preemption_count - n) as u64, ..q }),
    decreases n,
{
    if n > 0 {
        lemma_enabled_often(q, (n - 1) as nat);
    }
}

/// Disabling preemption nests. A core with preemption on that has it disabled `n` times has it off, and
/// off it stays until it has been enabled as often; then the core is as it was before. To enable it once
/// more than that is not allowed, since there is nothing to undo.
pub proof fn law_preemption_nests(q: Queue, n: nat, k: nat)
    requires
        q.preemption_count == 0,
        1 <= n <= u64::MAX,
        k <= n,
    ensures
        ({
            let off = q.disabled_often(n);
            let r = off.enabled_often(k);
            &&& off.preemption_count == n
            &&& r.preemption_count == 0 <==> k == n
            &&& k == n ==> r == q
        }),
{
    lemma_disabled_often(q, n);
    lemma_enabled_often(q.disabled_often(n), k);
}

/// Pieces of work, one list after the other.
pub open spec fn joined(queued: Seq<Seq<DriverWorker>>, n: nat) -> Seq<DriverWorker>
    decreases n,
{
    if n == 0 { Seq::empty() } else { joined(queued, (n - 1) as nat) + queued[n - 1] }
}

/// Every piece of work that was put off, and every one that is put off meanwhile, is done once, in the
/// order in which they were put off and with the core in worker mode. When the work is over nothing
/// is left, and the core is in worker mode no longer.
pub proof fn law_put_off_work_is_done(q: Queue, queued: Seq<Seq<DriverWorker>>, n: nat)
    requires
        !q.is_dw_mode,
        n <= queued.len(),
        n > 0 ==> q.work_done(queued, (n - 1) as nat).1.len() == n,
    ensures
        ({
            let (r, begun) = q.work_done(queued, n);
            let all = q.dw_queue + joined(queued, n);
            let over = begun.len() == n;
            &&& n <= begun.len() <= n + 1
            &&& begun + r.dw_queue == all
            &&& r.is_dw_mode == !over
            &&& over ==> r.dw_queue.len() == 0 && begun == all
        }),
    decreases n,
{
    if n == 0 {
        assert(joined(queued, 0) =~= Seq::empty());
        let (r, begun) = q.work_done(queued, 0);
        assert(begun + r.dw_queue =~= q.dw_queue + joined(queued, 0));
    } else {
        let m = (n - 1) as nat;
        if m > 0 {
            lemma_begun(q, queued, m);
        }
        law_put_off_work_is_done(q, queued, m);
        let (p, c) = q.work_done(queued, m);
        let (r, begun) = q.work_done(queued, n);
        let w = p.dw_queue + queued[m as int];
        assert(begun + r.dw_queue =~= c + w);
        assert(c + w =~= (c + p.dw_queue) + queued[m as int]);
        assert((q.dw_queue + joined(queued, m)) + queued[m as int] =~= q.dw_queue + joined(queued, n));
        if begun.len() == n {
            assert(r.dw_queue.len() == 0);
            assert(begun + r.dw_queue =~= begun);
        }
    }
}

/// At most one routine is begun each time.
proof fn lemma_begun(q: Queue, queued: Seq<Seq<DriverWorker>>, n: nat)
    requires
        n > 0,
        q.work_done(queued, n).1.len() == n + 1,
    ensures
        q.work_done(queued, (n - 1) as nat).1.len() == n,
    decreases n,
{
    lemma_begun_bound(q, queued, (n - 1) as nat);
}

proof fn lemma_begun_bound(q: Queue, queued: Seq<Seq<DriverWorker>>, n: nat)
    ensures
        q.work_done(queued, n).1.len() <= n + 1,
    decreases n,
{
    if n > 0 {
        lemma_begun_bound(q, queued, (n - 1) as nat);
    }
}

/// A tick neither loses a timer nor adds one.
pub proof fn law_timers_kept(s: Seq<TimerInfo>, n: nat)
    requires
        n <= s.len(),
    ensures
        still_running(s, n).len() + run_out(s, n).len() == n,
    decreases n,
{
    if n > 0 {
        law_timers_kept(s, (n - 1) as nat);
    }
}

} // verus!
