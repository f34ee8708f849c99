//! The steps in which the system goes down. What a step does is done elsewhere.

use vstd::prelude::*;

verus! {

/// What is to be done next on the way down.
#[derive(Clone, Copy, Debug, PartialEq, Eq, Structural)]
pub enum ShutdownStep {
    StopFs,
    /// Open the device that stands for the platform.
    OpenPlatform,
    /// Stop a device and everything below it.
    StopDevice(u64),
    /// Wait until the device manager has caught up.
    Fence,
    /// Reset the machine by way of the platform.
    Reset,
    /// Reset the machine by way of the keyboard controller: a byte to a port.
    OutB { port: u16, value: u8 },
    /// Switch the machine off.
    EnterSleep,
    /// Nothing took effect.
    Halt,
}

/// What came of a step.
#[derive(Clone, Copy, Debug, PartialEq, Eq, Structural)]
pub enum StepOutcome {
    Done,
    Failed,
    Opened(u64),
}

/// The machine, and what is wanted of it.
#[derive(Clone, Copy, Debug, PartialEq, Eq, Structural)]
pub struct Shutdown {
    pub restart: bool,
    pub has_acpi: bool,
}

/// The keyboard controller pulses the reset line.
pub open spec fn keyboard_reset() -> ShutdownStep {
    ShutdownStep::OutB { port: 0x64, value: 0xfe }
}

impl Shutdown {
    /// The power action for which the devices have been stopped.
    pub open spec fn power_action(self) -> ShutdownStep {
        if self.restart {
            if self.has_acpi { ShutdownStep::Reset } else { keyboard_reset() }
        } else if self.has_acpi {
            ShutdownStep::EnterSleep
        } else {
            ShutdownStep::Halt
        }
    }

    pub open spec fn next(self, step: ShutdownStep, outcome: StepOutcome) -> ShutdownStep {
        match step {
            ShutdownStep::StopFs => ShutdownStep::OpenPlatform,
            ShutdownStep::OpenPlatform => match outcome {
                StepOutcome::Opened(id) => ShutdownStep::StopDevice(id),
                _ => self.power_action(),
            },
            ShutdownStep::StopDevice(_) => ShutdownStep::Fence,
            ShutdownStep::Fence => self.power_action(),
            ShutdownStep::Reset => if outcome == StepOutcome::Done { ShutdownStep::Halt } else { keyboard_reset() },
            _ => ShutdownStep::Halt,
        }
    }

    fn action(&self) -> (r: ShutdownStep)
        ensures
            r == self.power_action(),
    {
        if self.restart {
            if self.has_acpi {
                ShutdownStep::Reset
            } else {
                ShutdownStep::OutB { port: 0x64, value: 0xfe }
            }
        } else if self.has_acpi {
            ShutdownStep::EnterSleep
        } else {
            ShutdownStep::Halt
        }
    }

    /// The step that follows a step. The file system is stopped first, and every device below the
    /// platform before the machine is reset or switched off.
    pub fn system_shutdown(&self, step: ShutdownStep, outcome: StepOutcome) -> (r: ShutdownStep)
        ensures
            r == self.next(step, outcome),
    {
        match step {
            ShutdownStep::StopFs => ShutdownStep::OpenPlatform,
            ShutdownStep::OpenPlatform => match outcome {
                StepOutcome::Opened(id) => ShutdownStep::StopDevice(id),
                _ => self.action(),
            },
            ShutdownStep::StopDevice(_) => ShutdownStep::Fence,
            ShutdownStep::Fence => self.action(),
            ShutdownStep::Reset => match outcome {
                StepOutcome::Done => ShutdownStep::Halt,
                _ => ShutdownStep::OutB { port: 0x64, value: 0xfe },
            },
            _ => ShutdownStep::Halt,
        }
    }
}

/// The way down that begins with the file system ends after six steps at the latest.
pub proof fn law_shutdown_ends(s: Shutdown, o: Seq<StepOutcome>)
    requires
        o.len() == 6,
    ensures
        ({
            let a = s.next(ShutdownStep::StopFs, o[0]);
            let b = s.next(a, o[1]);
            let c = s.next(b, o[2]);
            let d = s.next(c, o[3]);
            let e = s.next(d, o[4]);
            s.next(e, o[5]) == ShutdownStep::Halt
        }),
{
}

/// What the machine is told at last. To restart it is reset by way of the platform, and by way of the keyboard
/// controller, with the byte 254 to port 100, if that does not work or there is no platform; else it is
/// switched off if there is a platform.
pub proof fn law_power(s: Shutdown, o: StepOutcome)
    ensures
        ({
            let r = s.next(ShutdownStep::Fence, o);
            let by_keyboard = ShutdownStep::OutB { port: 100, value: 254 };
            &&& s.restart && s.has_acpi ==> r == ShutdownStep::Reset
            &&& s.restart && !s.has_acpi ==> r == by_keyboard
            &&& !s.restart && s.has_acpi ==> r == ShutdownStep::EnterSleep
            &&& !s.restart && !s.has_acpi ==> r == ShutdownStep::Halt
            &&& s.next(ShutdownStep::Reset, StepOutcome::Failed) == by_keyboard
            &&& s.next(ShutdownStep::Reset, StepOutcome::Done) == ShutdownStep::Halt
        }),
{
}

/// The file system is stopped first, then the device of the platform is opened and stopped, and what waits is
/// waited for, before anything is told to the machine; without such a device that is told at once.
pub proof fn law_order_of_shutdown(s: Shutdown, o: StepOutcome, id: u64)
    ensures
        s.next(ShutdownStep::StopFs, o) == ShutdownStep::OpenPlatform,
        s.next(ShutdownStep::OpenPlatform, StepOutcome::Opened(id)) == ShutdownStep::StopDevice(id),
        s.next(ShutdownStep::StopDevice(id), o) == ShutdownStep::Fence,
        !(o is Opened) ==> s.next(ShutdownStep::OpenPlatform, o) == s.next(ShutdownStep::Fence, o),
{
}

} // verus!
