use vstd::prelude::*;
use crate::error::KError;

verus! {

/// What a task can wait for.
#[derive(Clone, Copy, Debug, PartialEq, Eq, Structural)]
pub enum SemState {
    /// A count of units. Below zero it counts the tasks that wait for one.
    Semaphore { max_count: i64, counter: i64 },
    /// A flag. An automatic one lets a single task through per signal, a manual one stays raised.
    Event { signalled: bool, is_auto_reset: bool },
}

/// Whom a signal wakes.
#[derive(Clone, Copy, Debug, PartialEq, Eq, Structural)]
pub enum Wake {
    Nobody,
    One,
    All,
}

pub open spec fn min(a: int, b: int) -> int {
    if a < b { a } else { b }
}

impl SemState {
    /// There is room for one more unit, whatever is signalled.
    pub open spec fn well_formed(self) -> bool {
        self matches SemState::Semaphore { max_count, counter } ==> counter < i64::MAX && max_count < i64::MAX
    }

    /// There is room for one more waiter.
    pub open spec fn can_wait(self) -> bool {
        self matches SemState::Semaphore { counter, .. } ==> counter > i64::MIN
    }

    /// Whether a task gets through without waiting.
    pub open spec fn available(self) -> bool {
        match self {
            SemState::Semaphore { counter, .. } => counter >= 1,
            SemState::Event { signalled, .. } => signalled,
        }
    }

    /// A task has entered a wait.
    pub open spec fn entered(self) -> SemState {
        match self {
            SemState::Semaphore { max_count, counter } =>
                SemState::Semaphore { max_count, counter: (counter - 1) as i64 },
            SemState::Event { signalled, is_auto_reset } =>
                SemState::Event { signalled: signalled && !is_auto_reset, is_auto_reset },
        }
    }

    /// A task has left a wait without having got through.
    pub open spec fn left(self) -> SemState {
        match self {
            SemState::Semaphore { max_count, counter } =>
                SemState::Semaphore { max_count, counter: (counter + 1) as i64 },
            SemState::Event { .. } => self,
        }
    }

    /// A unit has come back, as far as there is room for it.
    pub open spec fn restored(self) -> SemState {
        match self {
            SemState::Semaphore { max_count, counter } =>
                SemState::Semaphore { max_count, counter: min(max_count as int, counter + 1) as i64 },
            SemState::Event { .. } => self,
        }
    }

    /// Whom a signal wakes, once the count has gone up.
    pub open spec fn wakes(self) -> Wake {
        match self {
            SemState::Semaphore { max_count, counter } =>
                if min(max_count as int, counter + 1) <= 0 { Wake::One } else { Wake::Nobody },
            SemState::Event { is_auto_reset, .. } => if is_auto_reset { Wake::One } else { Wake::All },
        }
    }

    pub open spec fn raised(self) -> SemState {
        match self {
            SemState::Semaphore { .. } => self,
            SemState::Event { is_auto_reset, .. } => SemState::Event { signalled: true, is_auto_reset },
        }
    }

    pub open spec fn lowered(self) -> SemState {
        match self {
            SemState::Semaphore { .. } => self,
            SemState::Event { is_auto_reset, .. } => SemState::Event { signalled: false, is_auto_reset },
        }
    }

    /// A semaphore with some units.
    pub fn semaphore(init_count: i64, max_count: i64) -> (r: SemState)
        ensures
            r == (SemState::Semaphore { max_count, counter: init_count }),
    {
        SemState::Semaphore { max_count, counter: init_count }
    }

    /// An event that has not been signalled.
    pub fn event(is_auto_reset: bool) -> (r: SemState)
        ensures
            r == (SemState::Event { signalled: false, is_auto_reset }),
    {
        SemState::Event { signalled: false, is_auto_reset }
    }

    /// Gets through if that takes no waiting. Failure changes nothing.
    pub fn try_wait(&mut self) -> (r: Result<(), KError>)
        ensures
            r == (if old(self).available() { Ok(()) } else { Err(KError::WaitTimedOut) }),
            *final(self) == (if old(self).available() { old(self).entered() } else { *old(self) }),
    {
        match *self {
            SemState::Semaphore { max_count, counter } => {
                if counter >= 1 {
                    *self = SemState::Semaphore { max_count, counter: counter - 1 };
                    Ok(())
                } else {
                    Err(KError::WaitTimedOut)
                }
            },
            SemState::Event { signalled, is_auto_reset } => {
                if signalled {
                    if is_auto_reset {
                        *self = SemState::Event { signalled: false, is_auto_reset };
                    }
                    Ok(())
                } else {
                    Err(KError::WaitTimedOut)
                }
            },
        }
    }

    /// Enters a wait and says whether the task has to block.
    pub fn enter(&mut self) -> (r: bool)
        requires
            old(self).can_wait(),
        ensures
            r == !old(self).available(),
            *final(self) == old(self).entered(),
    {
        match *self {
            SemState::Semaphore { max_count, counter } => {
                *self = SemState::Semaphore { max_count, counter: counter - 1 };
                counter - 1 < 0
            },
            SemState::Event { signalled, is_auto_reset } => {
                if signalled {
                    if is_auto_reset {
                        *self = SemState::Event { signalled: false, is_auto_reset };
                    }
                    false
                } else {
                    true
                }
            },
        }
    }

    /// Takes an entry back.
    pub fn leave(&mut self)
        requires
            old(self).well_formed(),
        ensures
            *final(self) == old(self).left(),
    {
        if let SemState::Semaphore { max_count, counter } = *self {
            *self = SemState::Semaphore { max_count, counter: counter + 1 };
        }
    }

    /// Gives a unit back.
    pub fn restore(&mut self)
        requires
            old(self).well_formed(),
        ensures
            *final(self) == old(self).restored(),
    {
        if let SemState::Semaphore { max_count, counter } = *self {
            let up: i64 = counter + 1;
            *self = SemState::Semaphore { max_count, counter: if max_count < up { max_count } else { up } };
        }
    }

    /// Counts a signal and says whom it wakes.
    pub fn signal(&mut self) -> (r: Wake)
        requires
            old(self).well_formed(),
        ensures
            r == old(self).wakes(),
            *final(self) == old(self).restored(),
    {
        match *self {
            SemState::Semaphore { .. } => {
                self.restore();
                match *self {
                    SemState::Semaphore { counter, .. } => if counter <= 0 { Wake::One } else { Wake::Nobody },
                    SemState::Event { .. } => Wake::Nobody,
                }
            },
            SemState::Event { is_auto_reset, .. } => if is_auto_reset { Wake::One } else { Wake::All },
        }
    }

    /// Raises the flag of an event.
    pub fn raise(&mut self)
        ensures
            *final(self) == old(self).raised(),
    {
        if let SemState::Event { is_auto_reset, .. } = *self {
            *self = SemState::Event { signalled: true, is_auto_reset };
        }
    }

    /// Lowers the flag of an event.
    pub fn reset(&mut self)
        ensures
            *final(self) == old(self).lowered(),
    {
        if let SemState::Event { is_auto_reset, .. } = *self {
            *self = SemState::Event { signalled: false, is_auto_reset };
        }
    }
}

/// A semaphore never holds more units than its limit, whatever is signalled.
pub proof fn law_counter_limit(s: SemState)
    requires
        s.well_formed(),
    ensures
        s.restored() matches SemState::Semaphore { max_count, counter } ==> counter <= max_count,
{
}

/// A signal gives back what a wait has taken.
pub proof fn law_wait_then_signal(s: SemState)
    requires
        s.can_wait(),
        s matches SemState::Semaphore { max_count, counter } && counter <= max_count,
    ensures
        s.entered().restored() == s,
        s.entered().left() == s,
{
}

/// A manual event that has been signalled lets every task through until it is reset.
pub proof fn law_manual_event(s: SemState)
    requires
        s matches SemState::Event { is_auto_reset, .. } && !is_auto_reset,
    ensures
        s.raised().available(),
        s.raised().entered() == s.raised(),
        !s.raised().lowered().available(),
{
}

/// An automatic event lets one task through per signal.
pub proof fn law_auto_event(s: SemState)
    requires
        s matches SemState::Event { is_auto_reset, .. } && is_auto_reset,
    ensures
        s.raised().available(),
        !s.raised().entered().available(),
{
}

} // verus!
