use vstd::prelude::*;
use crate::util;
use crate::util::{PAGE_SIZE, align_down};

verus! {

/// How long a task runs at a time, in milliseconds.
pub const QUANTUM: u64 = 10;

/// How many times in a row a task may run.
pub const INIT_QUANTA: u64 = 10;

/// Signals are numbered from zero on. Higher ones come first.
pub const MAX_SIGNALS: u8 = 6;

/// Why a wait ended.
#[derive(Clone, Copy, Debug, PartialEq, Eq, Structural)]
pub enum SignalCause {
    Normal,
    TimerExpiry,
    Interruption,
}

/// What a task is doing.
#[derive(Clone, Copy, Debug, PartialEq, Eq, Structural)]
pub enum TaskStatus {
    Running,
    Active,
    Waiting,
    WaitingInterruptible,
    Terminated,
    Suspended,
}

/// What a signal handler of a task needs to run, apart from the task itself.
#[derive(Clone, Copy, Debug, PartialEq, Eq, Structural)]
pub struct SignalFrame {
    pub signal: u8,
    pub is_kernel_mode: bool,
    pub is_in_syscall: bool,
    pub syscall_gs: u64,
    pub syscall_rsp: u64,
    pub handler: u64,
    pub user_ctx: u64,
    pub context: u64,
    pub mapped_base: u64,
    pub kernel_stack_base: u64,
    pub last_signal_cause: SignalCause,
    pub per_cpu_base: u64,
}

impl SignalFrame {
    pub open spec fn fresh(signal: u8, user_ctx: u64, handler: u64) -> SignalFrame {
        SignalFrame {
            signal,
            is_kernel_mode: false,
            is_in_syscall: false,
            syscall_gs: 0,
            syscall_rsp: 0,
            handler,
            user_ctx,
            context: 0,
            mapped_base: 0,
            kernel_stack_base: 0,
            last_signal_cause: SignalCause::Normal,
            per_cpu_base: 0,
        }
    }

    pub fn new(signal: u8, user_ctx: u64, handler: u64) -> (r: SignalFrame)
        ensures
            r == SignalFrame::fresh(signal, user_ctx, handler),
    {
        SignalFrame {
            signal,
            is_kernel_mode: false,
            is_in_syscall: false,
            syscall_gs: 0,
            syscall_rsp: 0,
            handler,
            user_ctx,
            context: 0,
            mapped_base: 0,
            kernel_stack_base: 0,
            last_signal_cause: SignalCause::Normal,
            per_cpu_base: 0,
        }
    }
}

/// One frame per signal.
#[derive(Clone, Copy, Debug)]
pub struct FrameTable {
    pub f0: Option<SignalFrame>,
    pub f1: Option<SignalFrame>,
    pub f2: Option<SignalFrame>,
    pub f3: Option<SignalFrame>,
    pub f4: Option<SignalFrame>,
    pub f5: Option<SignalFrame>,
}

impl FrameTable {
    pub open spec fn at(self, i: u8) -> Option<SignalFrame> {
        if i == 0 { self.f0 }
        else if i == 1 { self.f1 }
        else if i == 2 { self.f2 }
        else if i == 3 { self.f3 }
        else if i == 4 { self.f4 }
        else if i == 5 { self.f5 }
        else { None }
    }

    pub open spec fn with(self, i: u8, f: Option<SignalFrame>) -> FrameTable {
        if i == 0 { FrameTable { f0: f, ..self } }
        else if i == 1 { FrameTable { f1: f, ..self } }
        else if i == 2 { FrameTable { f2: f, ..self } }
        else if i == 3 { FrameTable { f3: f, ..self } }
        else if i == 4 { FrameTable { f4: f, ..self } }
        else if i == 5 { FrameTable { f5: f, ..self } }
        else { self }
    }

    pub fn empty() -> (r: FrameTable)
        ensures
            forall|i: u8| r.at(i) is None,
    {
        FrameTable { f0: None, f1: None, f2: None, f3: None, f4: None, f5: None }
    }

    pub fn get(&self, i: u8) -> (r: Option<SignalFrame>)
        ensures
            r == self.at(i),
    {
        match i {
            0 => self.f0,
            1 => self.f1,
            2 => self.f2,
            3 => self.f3,
            4 => self.f4,
            5 => self.f5,
            _ => None,
        }
    }

    pub fn put(&mut self, i: u8, f: Option<SignalFrame>)
        ensures
            *final(self) == old(self).with(i, f),
    {
        match i {
            0 => { self.f0 = f; },
            1 => { self.f1 = f; },
            2 => { self.f2 = f; },
            3 => { self.f3 = f; },
            4 => { self.f4 = f; },
            5 => { self.f5 = f; },
            _ => {},
        }
    }
}

/// A set of signals as bits.
pub open spec fn has_bit(mask: u8, i: u8) -> bool {
    mask & (1u8 << i) != 0
}

pub open spec fn set_bit(mask: u8, i: u8) -> u8 {
    mask | (1u8 << i)
}

pub open spec fn clear_bit(mask: u8, i: u8) -> u8 {
    mask & !(1u8 << i)
}

/// The highest of the signals below `n` in a set.
pub open spec fn highest_below(mask: u8, n: u8) -> Option<u8>
    decreases n,
{
    if n == 0 {
        None
    } else if has_bit(mask, (n - 1) as u8) {
        Some((n - 1) as u8)
    } else {
        highest_below(mask, (n - 1) as u8)
    }
}

/// The most urgent signal in a set.
pub open spec fn highest(mask: u8) -> Option<u8> {
    highest_below(mask, 8)
}

/// The highest bit that is set.
pub fn get_highest_set_bit(mask: u8) -> (r: Option<u8>)
    ensures
        r == highest(mask),
        r matches Some(i) ==> i < 8 && has_bit(mask, i),
{
    let mut n: u8 = 8;
    while n > 0
        invariant
            n <= 8,
            highest_below(mask, 8) == highest_below(mask, n),
        decreases n,
    {
        if mask & (1u8 << (n - 1)) != 0 {
            return Some(n - 1);
        }
        n = n - 1;
    }
    None
}

pub proof fn lemma_highest_below(mask: u8, n: u8)
    ensures
        match highest_below(mask, n) {
            Some(i) => i < n && has_bit(mask, i) && forall|j: u8| i < j < n ==> !has_bit(mask, j),
            None => forall|j: u8| j < n ==> !has_bit(mask, j),
        },
    decreases n,
{
    if n > 0 && !has_bit(mask, (n - 1) as u8) {
        lemma_highest_below(mask, (n - 1) as u8);
    }
}

/// A set that has a signal at its top has that one as its most urgent.
proof fn lemma_highest_is(mask: u8, i: u8, n: u8)
    requires
        i < n,
        has_bit(mask, i),
        forall|j: u8| i < j < n ==> !has_bit(mask, j),
    ensures
        highest_below(mask, n) == Some(i),
    decreases n,
{
    if n - 1 > i {
        assert(!has_bit(mask, (n - 1) as u8));
        lemma_highest_is(mask, i, (n - 1) as u8);
    }
}

pub proof fn lemma_bits(mask: u8, i: u8)
    requires
        i < 8,
    ensures
        has_bit(set_bit(mask, i), i),
        !has_bit(clear_bit(mask, i), i),
        !has_bit(mask, i) ==> clear_bit(set_bit(mask, i), i) == mask,
        forall|j: u8| j < 8 && j != i ==> #[trigger] has_bit(set_bit(mask, i), j) == has_bit(mask, j),
        forall|j: u8| j < 8 && j != i ==> #[trigger] has_bit(clear_bit(mask, i), j) == has_bit(mask, j),
{
    assert((mask | (1u8 << i)) & (1u8 << i) != 0) by (bit_vector)
        requires
            i < 8,
    ;
    assert((mask & !(1u8 << i)) & (1u8 << i) == 0) by (bit_vector)
        requires
            i < 8,
    ;
    assert(mask & (1u8 << i) == 0 ==> (mask | (1u8 << i)) & !(1u8 << i) == mask) by (bit_vector)
        requires
            i < 8,
    ;
    assert forall|j: u8| j < 8 && j != i implies #[trigger] has_bit(set_bit(mask, i), j) == has_bit(mask, j) by {
        assert(((mask | (1u8 << i)) & (1u8 << j) != 0) == (mask & (1u8 << j) != 0)) by (bit_vector)
            requires
                i < 8,
                j < 8,
                j != i,
        ;
    }
    assert forall|j: u8| j < 8 && j != i implies #[trigger] has_bit(clear_bit(mask, i), j) == has_bit(mask, j) by {
        assert(((mask & !(1u8 << i)) & (1u8 << j) != 0) == (mask & (1u8 << j) != 0)) by (bit_vector)
            requires
                i < 8,
                j < 8,
                j != i,
        ;
    }
}

/// A thread.
#[derive(Clone, Copy, Debug)]
pub struct Task {
    pub id: u64,
    pub is_kernel_mode: bool,
    pub is_in_syscall: bool,
    pub syscall_gs: u64,
    pub syscall_rsp: u64,
    pub core: usize,
    pub stack: Option<u64>,
    pub user_stack: Option<u64>,
    pub status: TaskStatus,
    pub context: u64,
    pub quanta: u64,
    pub panic_base: u64,
    pub user_fn: Option<u64>,
    pub last_signal_cause: SignalCause,
    /// What the task waits for.
    pub wait_sem: Option<usize>,
    /// What is signalled once the task has ended.
    pub term_notify: usize,
    /// Signals that have been issued and whose handlers have not begun.
    pub in_signal_init: u8,
    pub process: Option<u64>,
    pub vcb: Option<u64>,
    pub arg_context: u64,
    pub exit_code: i64,
    /// Signals whose handlers have begun.
    pub pending_signals: u8,
    /// Signals whose handlers are done and still have to be cleared away.
    pub completed_signals: u8,
    pub frames_pending: FrameTable,
    pub frames_init: FrameTable,
    pub per_cpu_base: u64,
}

/// The part of a task's machine state that a switch saves and restores.
#[derive(Clone, Copy, Debug, PartialEq, Eq, Structural)]
pub struct Saved {
    pub context: u64,
    pub per_cpu_base: u64,
}

/// How a task that is about to run goes on.
#[derive(Clone, Copy, Debug, PartialEq, Eq, Structural)]
pub enum SignalStep {
    /// As usual.
    Plain,
    /// With a handler that has begun before.
    Resume(u8),
    /// With a new handler, if one can begin.
    Begin(u8),
}

/// Which of the handlers that have begun and those that wait to runs: the most urgent one.
pub open spec fn signal_choice(pending: u8, init: u8) -> SignalStep {
    match (highest(pending), highest(init)) {
        (None, None) => SignalStep::Plain,
        (Some(p), None) => SignalStep::Resume(p),
        (None, Some(i)) => SignalStep::Begin(i),
        (Some(p), Some(i)) => if p < i { SignalStep::Begin(i) } else { SignalStep::Resume(p) },
    }
}

/// What is to be done to the machine for the handlers of a task.
#[derive(Clone, Copy, Debug, PartialEq, Eq, Structural)]
pub struct SignalRun {
    /// The stack of a handler that is done, to be unmapped.
    pub unmap: Option<u64>,
    /// The state that such a handler gives way to.
    pub restore: Option<Saved>,
    /// The state of the handler that runs next, where it is not loaded already.
    pub state: Option<Saved>,
    /// Whether a handler runs next.
    pub handles: bool,
}

/// What a handler that begins is given.
#[derive(Clone, Copy, Debug, PartialEq, Eq, Structural)]
pub struct HandlerSetup {
    pub context: u64,
    pub per_cpu_base: u64,
    pub mapped_base: u64,
    pub kernel_stack_base: u64,
}

impl Task {
    /// Signals that have begun have frames, and so have those that wait to.
    pub open spec fn well_formed(self) -> bool {
        &&& forall|i: u8| i < 8 && #[trigger] has_bit(self.pending_signals, i) ==> self.frames_pending.at(i) is Some
        &&& forall|i: u8| i < 8 && #[trigger] has_bit(self.completed_signals, i) ==> self.frames_pending.at(i) is Some
        &&& forall|i: u8| i < 8 && #[trigger] has_bit(self.in_signal_init, i) ==> self.frames_init.at(i) is Some
    }

    /// The handler that runs for the task now, if any.
    pub open spec fn handler(self) -> Option<u8> {
        highest(self.pending_signals)
    }

    /// The frame of that handler.
    pub open spec fn frame(self) -> SignalFrame {
        self.frames_pending.at(self.handler()->0)->0
    }

    pub open spec fn with_frame(self, i: u8, f: SignalFrame) -> Task {
        Task { frames_pending: self.frames_pending.with(i, Some(f)), ..self }
    }

    pub open spec fn cause(self) -> SignalCause {
        if self.handler() is Some { self.frame().last_signal_cause } else { self.last_signal_cause }
    }

    pub open spec fn with_cause(self, cause: SignalCause) -> Task {
        match self.handler() {
            Some(i) => self.with_frame(i, SignalFrame { last_signal_cause: cause, ..self.frame() }),
            None => Task { last_signal_cause: cause, ..self },
        }
    }

    /// Where the machine state of the task, or of its handler, is kept.
    pub open spec fn saved(self) -> Saved {
        if self.handler() is Some {
            Saved { context: self.frame().context, per_cpu_base: self.frame().per_cpu_base }
        } else {
            Saved { context: self.context, per_cpu_base: self.per_cpu_base }
        }
    }

    pub open spec fn with_saved(self, s: Saved) -> Task {
        match self.handler() {
            Some(i) => self.with_frame(i, SignalFrame {
                context: s.context,
                per_cpu_base: s.per_cpu_base,
                ..self.frame()
            }),
            None => Task { context: s.context, per_cpu_base: s.per_cpu_base, ..self },
        }
    }

    pub open spec fn in_syscall(self) -> bool {
        if self.handler() is Some { self.frame().is_in_syscall } else { self.is_in_syscall }
    }

    /// The task as it is when it is switched out. A handler that is done and has not been cleared
    /// away is what has been running.
    pub open spec fn switched_out(self, s: Saved) -> Task {
        match highest(self.completed_signals) {
            Some(i) => self.with_frame(i, SignalFrame {
                context: s.context,
                per_cpu_base: s.per_cpu_base,
                ..self.frames_pending.at(i)->0
            }),
            None => self.with_saved(s),
        }
    }

    /// A signal has been issued to the task.
    pub open spec fn signalled(self, signal: u8, user_ctx: u64, handler: u64) -> Task {
        Task {
            in_signal_init: set_bit(self.in_signal_init, signal),
            frames_init: self.frames_init.with(signal, Some(SignalFrame::fresh(signal, user_ctx, handler))),
            ..self
        }
    }

    /// A handler has begun. What it interrupts has been saved, unless that has been done before.
    pub open spec fn begun(self, signal: u8, setup: HandlerSetup, interrupted: Option<Saved>) -> Task {
        let f = SignalFrame {
            context: setup.context,
            per_cpu_base: setup.per_cpu_base,
            mapped_base: setup.mapped_base,
            kernel_stack_base: setup.kernel_stack_base,
            ..self.frames_init.at(signal)->0
        };
        let t = Task {
            frames_pending: self.frames_pending.with(signal, Some(f)),
            frames_init: self.frames_init.with(signal, None),
            ..self
        };
        let u = match interrupted { Some(s) => t.with_saved(s), None => t };
        Task {
            in_signal_init: clear_bit(u.in_signal_init, signal),
            pending_signals: set_bit(u.pending_signals, signal),
            ..u
        }
    }

    /// A handler has said that it is done.
    pub open spec fn completed(self, signal: u8) -> Task {
        Task {
            completed_signals: set_bit(self.completed_signals, signal),
            pending_signals: clear_bit(self.pending_signals, signal),
            ..self
        }
    }

    /// At most one handler is done and has not been cleared away, and it is not counted as running.
    pub open spec fn one_completed(self) -> bool {
        highest(self.completed_signals) matches Some(c) ==> !has_bit(self.pending_signals, c)
            && clear_bit(self.completed_signals, c) == 0
    }

    /// The task without a handler that is done.
    pub open spec fn tidied(self) -> Task {
        match highest(self.completed_signals) { Some(c) => self.cleared(c), None => self }
    }

    /// The task and the machine once the handlers of the task have been seen to.
    pub open spec fn signals_run(self, fresh: bool, now: Saved, is_user_context: bool, setup: HandlerSetup) -> (Task, SignalRun) {
        let done = highest(self.completed_signals);
        let t = self.tidied();
        let unmap = match done { Some(c) => Some(self.frames_pending.at(c)->0.mapped_base), None => None };
        let restore = match done { Some(_) => Some(self.saved()), None => None };
        let current = match done { Some(_) => self.saved(), None => now };
        match signal_choice(t.pending_signals, t.in_signal_init) {
            SignalStep::Plain => (t, SignalRun { unmap, restore, state: None, handles: false }),
            SignalStep::Resume(_) => (
                t,
                SignalRun { unmap, restore, state: if fresh { Some(t.saved()) } else { None }, handles: true },
            ),
            SignalStep::Begin(i) => if is_user_context || t.in_syscall() {
                let state = Some(Saved { context: setup.context, per_cpu_base: setup.per_cpu_base });
                (
                    t.begun(i, setup, if fresh { None } else { Some(current) }),
                    SignalRun { unmap, restore, state, handles: true },
                )
            } else {
                (t, SignalRun { unmap, restore, state: None, handles: false })
            },
        }
    }

    /// A handler that is done has been cleared away.
    pub open spec fn cleared(self, signal: u8) -> Task {
        Task {
            completed_signals: clear_bit(self.completed_signals, signal),
            frames_pending: self.frames_pending.with(signal, None),
            ..self
        }
    }

    pub fn get_id(&self) -> (r: u64)
        ensures
            r == self.id,
    {
        self.id
    }

    pub fn get_status(&self) -> (r: TaskStatus)
        ensures
            r == self.status,
    {
        self.status
    }

    pub fn get_core(&self) -> (r: usize)
        ensures
            r == self.core,
    {
        self.core
    }

    pub fn get_process(&self) -> (r: Option<u64>)
        ensures
            r == self.process,
    {
        self.process
    }

    pub fn get_exit_code(&self) -> (r: i64)
        ensures
            r == self.exit_code,
    {
        self.exit_code
    }

    pub fn get_user_fn(&self) -> (r: Option<u64>)
        ensures
            r == self.user_fn,
    {
        self.user_fn
    }

    pub fn get_arg_context(&self) -> (r: u64)
        ensures
            r == self.arg_context,
    {
        self.arg_context
    }

    /// Whether the task begins in user code.
    pub fn is_user_thread(&self) -> (r: bool)
        ensures
            r == (self.user_fn is Some),
    {
        self.user_fn.is_some()
    }

    pub fn get_signal_cause(&self) -> (r: SignalCause)
        requires
            self.well_formed(),
        ensures
            r == self.cause(),
    {
        match get_highest_set_bit(self.pending_signals) {
            None => self.last_signal_cause,
            Some(i) => match self.frames_pending.get(i) {
                Some(f) => f.last_signal_cause,
                None => self.last_signal_cause,
            },
        }
    }

    pub fn set_signal_cause(&mut self, cause: SignalCause)
        requires
            old(self).well_formed(),
        ensures
            *final(self) == old(self).with_cause(cause),
            final(self).well_formed(),
    {
        match get_highest_set_bit(self.pending_signals) {
            None => {
                self.last_signal_cause = cause;
            },
            Some(i) => {
                if let Some(f) = self.frames_pending.get(i) {
                    let mut g: SignalFrame = f;
                    g.last_signal_cause = cause;
                    self.frames_pending.put(i, Some(g));
                }
            },
        }
    }

    /// The kernel stack that the task, or its handler, uses.
    pub fn get_stack(&self) -> (r: Option<u64>)
        requires
            self.well_formed(),
        ensures
            r == (if self.handler() is Some { Some(self.frame().kernel_stack_base) } else { self.stack }),
    {
        match get_highest_set_bit(self.pending_signals) {
            None => self.stack,
            Some(i) => match self.frames_pending.get(i) {
                Some(f) => Some(f.kernel_stack_base),
                None => None,
            },
        }
    }

    pub fn is_in_syscall(&self) -> (r: bool)
        requires
            self.well_formed(),
        ensures
            r == self.in_syscall(),
    {
        match get_highest_set_bit(self.pending_signals) {
            None => self.is_in_syscall,
            Some(i) => match self.frames_pending.get(i) {
                Some(f) => f.is_in_syscall,
                None => false,
            },
        }
    }

    /// The user stack pointer and base that the running system call came with.
    pub fn syscall_params(&self) -> (r: (u64, u64))
        requires
            self.well_formed(),
        ensures
            r == (if self.handler() is Some {
                (self.frame().syscall_rsp, self.frame().syscall_gs)
            } else {
                (self.syscall_rsp, self.syscall_gs)
            }),
    {
        match get_highest_set_bit(self.pending_signals) {
            None => (self.syscall_rsp, self.syscall_gs),
            Some(i) => match self.frames_pending.get(i) {
                Some(f) => (f.syscall_rsp, f.syscall_gs),
                None => (0, 0),
            },
        }
    }

    pub fn set_kernel_mode_and_syscall_params(
        &mut self,
        is_kernel_mode: bool,
        is_in_syscall: bool,
        user_gs: u64,
        user_rsp: u64,
    )
        requires
            old(self).well_formed(),
        ensures
            *final(self) == (match old(self).handler() {
                Some(i) => old(self).with_frame(i, SignalFrame {
                    is_kernel_mode,
                    is_in_syscall,
                    syscall_gs: user_gs,
                    syscall_rsp: user_rsp,
                    ..old(self).frame()
                }),
                None => (Task {
                    is_kernel_mode,
                    is_in_syscall,
                    syscall_gs: user_gs,
                    syscall_rsp: user_rsp,
                    ..*old(self)
                }),
            }),
            final(self).well_formed(),
    {
        match get_highest_set_bit(self.pending_signals) {
            None => {
                self.is_kernel_mode = is_kernel_mode;
                self.is_in_syscall = is_in_syscall;
                self.syscall_gs = user_gs;
                self.syscall_rsp = user_rsp;
            },
            Some(i) => {
                if let Some(f) = self.frames_pending.get(i) {
                    let mut g: SignalFrame = f;
                    g.is_kernel_mode = is_kernel_mode;
                    g.is_in_syscall = is_in_syscall;
                    g.syscall_gs = user_gs;
                    g.syscall_rsp = user_rsp;
                    self.frames_pending.put(i, Some(g));
                }
            },
        }
    }

    pub fn toggle_cur_task_kernel_mode(&mut self)
        requires
            old(self).well_formed(),
        ensures
            *final(self) == (match old(self).handler() {
                Some(i) => old(self).with_frame(i, SignalFrame {
                    is_kernel_mode: !old(self).frame().is_kernel_mode,
                    ..old(self).frame()
                }),
                None => (Task { is_kernel_mode: !old(self).is_kernel_mode, ..*old(self) }),
            }),
            final(self).well_formed(),
    {
        match get_highest_set_bit(self.pending_signals) {
            None => {
                self.is_kernel_mode = !self.is_kernel_mode;
            },
            Some(i) => {
                if let Some(f) = self.frames_pending.get(i) {
                    let mut g: SignalFrame = f;
                    g.is_kernel_mode = !f.is_kernel_mode;
                    self.frames_pending.put(i, Some(g));
                }
            },
        }
    }

    /// The machine state that the task, or its handler, goes on with.
    pub fn restore_task_context(&self) -> (r: Saved)
        requires
            self.well_formed(),
        ensures
            r == self.saved(),
    {
        match get_highest_set_bit(self.pending_signals) {
            None => Saved { context: self.context, per_cpu_base: self.per_cpu_base },
            Some(i) => match self.frames_pending.get(i) {
                Some(f) => Saved { context: f.context, per_cpu_base: f.per_cpu_base },
                None => Saved { context: 0, per_cpu_base: 0 },
            },
        }
    }

    /// Keeps the machine state of the task, or of its handler.
    pub fn save_task_context(&mut self, s: Saved)
        requires
            old(self).well_formed(),
        ensures
            *final(self) == old(self).with_saved(s),
            final(self).well_formed(),
    {
        match get_highest_set_bit(self.pending_signals) {
            None => {
                self.context = s.context;
                self.per_cpu_base = s.per_cpu_base;
            },
            Some(i) => {
                self.save_frame(i, s);
            },
        }
    }

    fn save_frame(&mut self, i: u8, s: Saved)
        requires
            old(self).well_formed(),
            old(self).frames_pending.at(i) is Some,
        ensures
            *final(self) == old(self).with_frame(i, SignalFrame {
                context: s.context,
                per_cpu_base: s.per_cpu_base,
                ..old(self).frames_pending.at(i)->0
            }),
            final(self).well_formed(),
    {
        if let Some(f) = self.frames_pending.get(i) {
            let mut g: SignalFrame = f;
            g.context = s.context;
            g.per_cpu_base = s.per_cpu_base;
            self.frames_pending.put(i, Some(g));
        }
    }

    /// Keeps the machine state of a task that is switched out.
    pub fn switch_out(&mut self, s: Saved)
        requires
            old(self).well_formed(),
        ensures
            *final(self) == old(self).switched_out(s),
            final(self).well_formed(),
    {
        match get_highest_set_bit(self.completed_signals) {
            Some(i) => {
                self.save_frame(i, s);
            },
            None => {
                self.save_task_context(s);
            },
        }
    }

    /// Whether a signal can be issued: it neither waits to be handled nor is being handled.
    pub fn check_signal_validity(&self, signal: u8) -> (r: bool)
        requires
            signal < 8,
        ensures
            r == (!has_bit(self.in_signal_init, signal) && !has_bit(self.pending_signals, signal)),
    {
        (self.in_signal_init & (1u8 << signal) == 0) && (self.pending_signals & (1u8 << signal) == 0)
    }

    /// Issues a signal to the task.
    pub fn setup_signal_handler(&mut self, signal: u8, user_ctx: u64, handler: u64)
        requires
            old(self).well_formed(),
            signal < MAX_SIGNALS,
        ensures
            *final(self) == old(self).signalled(signal, user_ctx, handler),
            final(self).well_formed(),
    {
        proof {
            lemma_bits(self.in_signal_init, signal);
        }
        self.in_signal_init = self.in_signal_init | (1u8 << signal);
        let f: SignalFrame = SignalFrame::new(signal, user_ctx, handler);
        self.frames_init.put(signal, Some(f));
    }

    /// Clears away a handler that is done. Gives the base of its mapped stack and the state to go on
    /// with.
    pub fn uninit_signal_handler(&mut self, signal: u8) -> (r: (u64, Saved))
        requires
            old(self).well_formed(),
            signal < 8,
            old(self).frames_pending.at(signal) is Some,
            !has_bit(old(self).pending_signals, signal),
        ensures
            *final(self) == old(self).cleared(signal),
            final(self).well_formed(),
            r.0 == old(self).frames_pending.at(signal)->0.mapped_base,
            r.1 == old(self).saved(),
            final(self).saved() == old(self).saved(),
    {
        proof {
            lemma_bits(self.completed_signals, signal);
            lemma_highest_below(self.pending_signals, 8);
        }
        let base: u64 = match self.frames_pending.get(signal) { Some(f) => f.mapped_base, None => 0 };
        let s: Saved = self.restore_task_context();
        let ghost mask = self.completed_signals;
        self.completed_signals = self.completed_signals & !(1u8 << signal);
        self.frames_pending.put(signal, None);
        assert(self.completed_signals == clear_bit(mask, signal));
        (base, s)
    }

    /// How the task goes on, once handlers that are done have been cleared away.
    pub fn signal_step(&self) -> (r: SignalStep)
        requires
            self.well_formed(),
        ensures
            r == signal_choice(self.pending_signals, self.in_signal_init),
            r matches SignalStep::Begin(i) ==> self.frames_init.at(i) is Some,
            r matches SignalStep::Resume(i) ==> self.frames_pending.at(i) is Some,
    {
        let pend: Option<u8> = get_highest_set_bit(self.pending_signals);
        let init: Option<u8> = get_highest_set_bit(self.in_signal_init);
        match pend {
            None => match init {
                None => SignalStep::Plain,
                Some(i) => SignalStep::Begin(i),
            },
            Some(p) => match init {
                None => SignalStep::Resume(p),
                Some(i) => if p < i { SignalStep::Begin(i) } else { SignalStep::Resume(p) },
            },
        }
    }

    /// Whether a handler can begin: only on the way back to user mode.
    pub fn can_begin_handler(&self, is_user_context: bool) -> (r: bool)
        requires
            self.well_formed(),
        ensures
            r == (is_user_context || self.in_syscall()),
    {
        is_user_context || self.is_in_syscall()
    }

    /// Begins a handler.
    pub fn init_signal_handler(&mut self, signal: u8, setup: HandlerSetup, interrupted: Option<Saved>)
        requires
            old(self).well_formed(),
            signal < MAX_SIGNALS,
            old(self).frames_init.at(signal) is Some,
            old(self).frames_pending.at(signal) is None,
        ensures
            *final(self) == old(self).begun(signal, setup, interrupted),
            final(self).well_formed(),
    {
        proof {
            lemma_bits(self.in_signal_init, signal);
            lemma_bits(self.pending_signals, signal);
        }
        if let Some(f) = self.frames_init.get(signal) {
            let mut g: SignalFrame = f;
            g.context = setup.context;
            g.per_cpu_base = setup.per_cpu_base;
            g.mapped_base = setup.mapped_base;
            g.kernel_stack_base = setup.kernel_stack_base;
            self.in_signal_init = self.in_signal_init & !(1u8 << signal);
            self.frames_pending.put(signal, Some(g));
            self.frames_init.put(signal, None);
            assert(self.well_formed());
            if let Some(s) = interrupted {
                self.save_task_context(s);
            }
            self.pending_signals = self.pending_signals | (1u8 << signal);
        }
    }

    /// Clears away a handler that is done and then lets the most urgent handler run, if there is one:
    /// one that has begun goes on, and a new one begins if the task is on its way back to user mode.
    /// `now` is the state of the machine, and `is_user_context` and `setup` are what the machine makes
    /// of the state that a new handler would interrupt. With `fresh` the task has just been chosen to
    /// run, and its state has been saved.
    pub fn check_and_execute_signal_handler(&mut self, fresh: bool, now: Saved, is_user_context: bool, setup: HandlerSetup)
        -> (r: SignalRun)
        requires
            old(self).well_formed(),
            old(self).one_completed(),
            signal_choice(old(self).pending_signals, old(self).in_signal_init) matches SignalStep::Begin(i) ==> {
                &&& i < MAX_SIGNALS
                &&& old(self).tidied().frames_pending.at(i) is None
                &&& is_user_context || old(self).tidied().in_syscall() || old(self).handler() is None
            },
        ensures
            (*final(self), r) == old(self).signals_run(fresh, now, is_user_context, setup),
            final(self).well_formed(),
    {
        let mut run: SignalRun = SignalRun { unmap: None, restore: None, state: None, handles: false };
        let mut current: Saved = now;
        if let Some(c) = get_highest_set_bit(self.completed_signals) {
            let (base, s) = self.uninit_signal_handler(c);
            run.unmap = Some(base);
            run.restore = Some(s);
            current = s;
        }
        match self.signal_step() {
            SignalStep::Plain => {},
            SignalStep::Resume(_) => {
                run.handles = true;
                if fresh {
                    run.state = Some(self.restore_task_context());
                }
            },
            SignalStep::Begin(i) => {
                if self.can_begin_handler(is_user_context) {
                    self.init_signal_handler(i, setup, if fresh { None } else { Some(current) });
                    run.handles = true;
                    run.state = Some(Saved { context: setup.context, per_cpu_base: setup.per_cpu_base });
                }
            },
        }
        run
    }

    /// Marks the running handler as done, and says which it was.
    pub fn complete_signal(&mut self) -> (r: Option<u8>)
        requires
            old(self).well_formed(),
        ensures
            r == old(self).handler(),
            *final(self) == (match r { Some(i) => old(self).completed(i), None => *old(self) }),
            final(self).well_formed(),
    {
        match get_highest_set_bit(self.pending_signals) {
            None => None,
            Some(i) => {
                proof {
                    lemma_bits(self.completed_signals, i);
                    lemma_bits(self.pending_signals, i);
                }
                self.completed_signals = self.completed_signals | (1u8 << i);
                self.pending_signals = self.pending_signals & !(1u8 << i);
                Some(i)
            },
        }
    }
}

/// Where a handler's first frame goes: the page below the one that the user stack pointer is in, and
/// the two pages from there on are mapped into the kernel.
pub fn handler_stack(user_rsp: u64) -> (r: (u64, u64))
    requires
        user_rsp >= 2 * PAGE_SIZE,
    ensures
        r.0 == util::align_down_spec(user_rsp as int, PAGE_SIZE as int),
        r.1 == r.0 - PAGE_SIZE,
{
    let base: u64 = align_down(user_rsp, PAGE_SIZE);
    (base, base - PAGE_SIZE)
}

/// A handler that is more urgent than the running one runs at once, and a less urgent one waits.
pub proof fn law_most_urgent(pending: u8, init: u8)
    ensures
        match signal_choice(pending, init) {
            SignalStep::Plain => highest(pending) is None && highest(init) is None,
            SignalStep::Resume(p) => has_bit(pending, p) && (forall|j: u8| j < 8 && has_bit(pending, j) ==> j <= p)
                && forall|j: u8| j < 8 && has_bit(init, j) ==> j <= p,
            SignalStep::Begin(i) => has_bit(init, i) && (forall|j: u8| j < 8 && has_bit(init, j) ==> j <= i)
                && forall|j: u8| j < 8 && has_bit(pending, j) ==> j < i,
        },
{
    lemma_highest_below(pending, 8);
    lemma_highest_below(init, 8);
}

/// Once a handler is done and cleared away, the task goes on where the handler interrupted it.
pub proof fn law_handler_returns(t: Task, signal: u8, setup: HandlerSetup, interrupted: Saved)
    requires
        t.well_formed(),
        signal < MAX_SIGNALS,
        signal_choice(t.pending_signals, t.in_signal_init) == SignalStep::Begin(signal),
        !has_bit(t.completed_signals, signal),
    ensures
        ({
            let u = t.begun(signal, setup, Some(interrupted));
            &&& u.handler() == Some(signal)
            &&& u.saved() == (Saved { context: setup.context, per_cpu_base: setup.per_cpu_base })
            &&& u.completed(signal).cleared(signal).handler() == t.handler()
            &&& u.completed(signal).cleared(signal).saved() == interrupted
        }),
{
    lemma_bits(t.pending_signals, signal);
    lemma_highest_below(t.pending_signals, 8);
    lemma_highest_below(t.in_signal_init, 8);
    let m = set_bit(t.pending_signals, signal);
    assert forall|j: u8| signal < j < 8 implies !has_bit(m, j) by {
        assert(has_bit(m, j) == has_bit(t.pending_signals, j));
    }
    lemma_highest_is(m, signal, 8);
    assert(!has_bit(t.pending_signals, signal));
}

} // verus!
