use vstd::prelude::*;

verus! {

/// Where messages go.
#[derive(Clone, Copy, Debug, PartialEq, Eq, Structural)]
pub struct Route {
    pub to_ring: bool,
    /// To the serial port and the screen.
    pub to_screen: bool,
}

/// What decides where messages go.
#[derive(Clone, Copy, Debug, PartialEq, Eq, Structural)]
pub struct Logger {
    pub panic_mode: bool,
    pub panic_core: u8,
    /// The screen belongs to a terminal.
    pub tty_mode: bool,
}

impl Logger {
    pub fn new() -> (r: Logger)
        ensures
            r == (Logger { panic_mode: false, panic_core: 0, tty_mode: false }),
    {
        Logger { panic_mode: false, panic_core: 0, tty_mode: false }
    }

    /// From now on only one core's messages are shown.
    pub fn set_panic_mode(&mut self, core: u8)
        ensures
            *final(self) == (Logger { panic_mode: true, panic_core: core, ..*old(self) }),
    {
        self.panic_mode = true;
        self.panic_core = core;
    }

    /// Gives the screen to a terminal, or takes it back. Not during a panic. Whether the screen is to
    /// be cleared for it.
    pub fn set_tty_mode(&mut self, on: bool) -> (r: bool)
        ensures
            *final(self) == (if old(self).panic_mode { *old(self) } else { Logger { tty_mode: on, ..*old(self) } }),
            r == !old(self).panic_mode,
    {
        if self.panic_mode {
            return false;
        }
        self.tty_mode = on;
        true
    }

    /// Where a kernel message of a core goes.
    pub fn route(&self, core: u8) -> (r: Route)
        ensures
            r.to_ring == !self.panic_mode,
            r.to_screen == (if self.panic_mode { core == self.panic_core } else { !self.tty_mode }),
    {
        if self.panic_mode && core != self.panic_core {
            return Route { to_ring: false, to_screen: false };
        }
        Route { to_ring: !self.panic_mode, to_screen: self.panic_mode || !self.tty_mode }
    }

    /// Whether a terminal's text is shown.
    pub fn shows_tty(&self) -> (r: bool)
        ensures
            r == (!self.panic_mode && self.tty_mode),
    {
        !self.panic_mode && self.tty_mode
    }
}

} // verus!
