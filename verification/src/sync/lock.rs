use vstd::prelude::*;

verus! {

/// Whether a core takes interrupts.
pub struct Interrupts {
    pub enabled: bool,
}

impl Interrupts {
    /// Masks interrupts and says whether they were taken before.
    pub fn disable_interrupts(&mut self) -> (r: bool)
        ensures
            r == old(self).enabled,
            !final(self).enabled,
    {
        let before: bool = self.enabled;
        self.enabled = false;
        before
    }

    pub fn enable_interrupts(&mut self, enabled: bool)
        ensures
            final(self).enabled == enabled,
    {
        self.enabled = enabled;
    }
}

/// A value for one core at a time. While it is held, its core takes no interrupts.
pub struct Spinlock<T> {
    pub held: bool,
    pub data: T,
}

/// What the holder of a lock gives back: how interrupts were before.
pub struct SpinlockGuard {
    pub int_status: bool,
}

impl<T> Spinlock<T> {
    pub fn new(data: T) -> (r: Spinlock<T>)
        ensures
            r.data == data,
            !r.held,
    {
        Spinlock { held: false, data }
    }

    /// One try to take the lock. While another holds it, nothing comes of it.
    pub fn try_lock(&mut self, cpu: &mut Interrupts) -> (r: Option<SpinlockGuard>)
        ensures
            old(self).held ==> r is None && *final(self) == *old(self) && *final(cpu) == *old(cpu),
            !old(self).held ==> {
                &&& final(self).held
                &&& final(self).data == old(self).data
                &&& !final(cpu).enabled
                &&& r == Some(SpinlockGuard { int_status: old(cpu).enabled })
            },
            forall|s: Shared<T>, c: int| #[trigger] shows(s, c, *old(self), *old(cpu)) ==> {
                let t = after(s, LockStep::Try(c));
                &&& shows(t, c, *final(self), *final(cpu))
                &&& r is Some <==> s.holder is None
                &&& r matches Some(g) ==> holds(t, c, g)
            },
    {
        if self.held {
            return None;
        }
        Some(self.lock(cpu))
    }

    /// What the holder of the lock reads.
    pub fn get(&self, _guard: &SpinlockGuard) -> (r: &T)
        requires
            self.held,
        ensures
            *r == self.data,
    {
        &self.data
    }

    /// What the holder of the lock leaves there.
    pub fn set(&mut self, _guard: &SpinlockGuard, data: T)
        requires
            old(self).held,
        ensures
            final(self).data == data,
            final(self).held,
            forall|s: Shared<T>, c: int, cpu: Interrupts| #[trigger] shows(s, c, *old(self), cpu) && holds(s, c, *_guard)
                ==> shows(after(s, LockStep::Leave(c, data)), c, *final(self), cpu) && holds(
                after(s, LockStep::Leave(c, data)), c, *_guard),
    {
        self.data = data;
    }

    /// Takes the lock. A core that spins on a lock of its own would never go on.
    pub fn lock(&mut self, cpu: &mut Interrupts) -> (r: SpinlockGuard)
        requires
            !old(self).held,
        ensures
            final(self).held,
            final(self).data == old(self).data,
            !final(cpu).enabled,
            r == (SpinlockGuard { int_status: old(cpu).enabled }),
            forall|s: Shared<T>, c: int| #[trigger] shows(s, c, *old(self), *old(cpu)) ==> {
                let t = after(s, LockStep::Try(c));
                shows(t, c, *final(self), *final(cpu)) && holds(t, c, r)
            },
    {
        let int_status: bool = cpu.disable_interrupts();
        self.held = true;
        SpinlockGuard { int_status }
    }

    /// Releases the lock. Interrupts are as they were when it was taken.
    pub fn unlock(&mut self, cpu: &mut Interrupts, guard: SpinlockGuard)
        requires
            old(self).held,
        ensures
            !final(self).held,
            final(self).data == old(self).data,
            final(cpu).enabled == guard.int_status,
            forall|s: Shared<T>, c: int| #[trigger] shows(s, c, *old(self), *old(cpu)) && holds(s, c, guard) ==> {
                let t = after(s, LockStep::Unlock(c));
                shows(t, c, *final(self), *final(cpu)) && t.holder is None
            },
    {
        self.held = false;
        cpu.enable_interrupts(guard.int_status);
    }
}

/// A lock and the cores that use it.
#[verifier::ext_equal]
pub struct Shared<T> {
    /// The core that holds it, and how interrupts were on that core before.
    pub holder: Option<(int, bool)>,
    pub data: T,
    /// Which cores take interrupts.
    pub enabled: Seq<bool>,
}

/// What a lock and one of the cores look like in the eyes of that core.
pub open spec fn shows<T>(s: Shared<T>, core: int, lock: Spinlock<T>, cpu: Interrupts) -> bool {
    &&& 0 <= core < s.enabled.len()
    &&& lock.held == (s.holder is Some)
    &&& lock.data == s.data
    &&& cpu.enabled == s.enabled[core]
}

/// A core holds a lock, and this is what it gives back.
pub open spec fn holds<T>(s: Shared<T>, core: int, guard: SpinlockGuard) -> bool {
    s.holder == Some((core, guard.int_status))
}

/// What a core does with a lock: `try_lock` and `lock`, `set`, and `unlock`.
pub enum LockStep<T> {
    /// It tries to take it.
    Try(int),
    /// As the holder, it leaves something there.
    Leave(int, T),
    Unlock(int),
}

/// What comes of a step. Only the holder writes and unlocks.
pub open spec fn after<T>(s: Shared<T>, step: LockStep<T>) -> Shared<T> {
    match step {
        LockStep::Try(c) => if s.holder is Some {
            s
        } else {
            Shared { holder: Some((c, s.enabled[c])), enabled: s.enabled.update(c, false), ..s }
        },
        LockStep::Leave(c, v) => if s.holder matches Some((h, _)) && h == c { Shared { data: v, ..s } } else { s },
        LockStep::Unlock(c) => match s.holder {
            Some((h, before)) => if h == c {
                Shared { holder: None, enabled: s.enabled.update(c, before), ..s }
            } else {
                s
            },
            None => s,
        },
    }
}

pub open spec fn after_all<T>(s: Shared<T>, steps: Seq<LockStep<T>>, n: nat) -> Shared<T>
    decreases n,
{
    if n == 0 { s } else { after(after_all(s, steps, (n - 1) as nat), steps[n - 1]) }
}

/// What a core has left in the first `n` steps, if it has left anything.
pub open spec fn last_set<T>(steps: Seq<LockStep<T>>, n: nat, core: int, first: T) -> T
    decreases n,
{
    if n == 0 {
        first
    } else {
        match steps[n - 1] {
            LockStep::Leave(c, v) => if c == core { v } else { last_set(steps, (n - 1) as nat, core, first) },
            _ => last_set(steps, (n - 1) as nat, core, first),
        }
    }
}

/// From when a core has taken a lock until it unlocks it, no other core gets it, whatever they try. What
/// the holder finds there is what was there, or what it has left last. With its unlocking, its
/// interrupts are as they were before, and the lock can be taken.
pub proof fn law_one_holder<T>(s: Shared<T>, core: int, steps: Seq<LockStep<T>>, n: nat)
    requires
        s.holder is None,
        0 <= core < s.enabled.len(),
        n <= steps.len(),
        forall|i: int| 0 <= i < n ==> (#[trigger] steps[i]) != LockStep::<T>::Unlock(core),
    ensures
        ({
            let t = after(s, LockStep::Try(core));
            let u = after_all(t, steps, n);
            let v = after(u, LockStep::Unlock(core));
            &&& t.holder == Some((core, s.enabled[core])) && t.data == s.data && !t.enabled[core]
            &&& u.holder == t.holder
            &&& u.enabled == t.enabled
            &&& u.data == last_set(steps, n, core, s.data)
            &&& v.holder is None && v.data == u.data && v.enabled == s.enabled
        }),
    decreases n,
{
    let t = after(s, LockStep::Try(core));
    assert(t.enabled.update(core, s.enabled[core]) =~= s.enabled);
    if n > 0 {
        law_one_holder(s, core, steps, (n - 1) as nat);
        assert(steps[n - 1] != LockStep::<T>::Unlock(core));
    }
}

} // verus!
