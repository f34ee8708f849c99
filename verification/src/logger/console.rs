//! Everything that shows messages, and who gets to see which.

use vstd::prelude::*;
use crate::logger::framebuffer_logger;
use crate::logger::framebuffer_logger::{FramebufferLogger, Screen};
use crate::logger::kring::{KernelRingBuf, Ring};
use crate::logger::route::{Logger, Route};
use crate::logger::serial_logger::SerialLogger;

verus! {

/// The last messages, the serial port and the screen.
pub struct Console {
    pub logger: Logger,
    pub ring: KernelRingBuf,
    pub port: SerialLogger,
    /// What has been sent over the port.
    pub sent: Vec<u8>,
    pub screen: FramebufferLogger,
    /// What is on the screen.
    pub fb: Vec<u32>,
}

/// The model of a `Console`.
#[verifier::ext_equal]
pub struct Output {
    pub logger: Logger,
    pub ring: Ring,
    pub port: bool,
    pub sent: Seq<u8>,
    pub screen: Screen,
    pub fb: Seq<u32>,
}

impl View for Console {
    type V = Output;

    open spec fn view(&self) -> Output {
        Output {
            logger: self.logger,
            ring: self.ring@,
            port: self.port.0,
            sent: self.sent@,
            screen: self.screen@,
            fb: self.fb@,
        }
    }
}

impl Output {
    /// A text has been drawn, and what has changed is on the screen.
    pub open spec fn drawn(self, text: Seq<char>, len: u64) -> Output {
        let s = self.screen.text_put(text, len as int, text.len());
        Output {
            screen: if s.dirty_max <= s.dirty_min { s } else { Screen { dirty_min: u64::MAX, dirty_max: 0, ..s } },
            fb: s.flushed(self.fb),
            ..self
        }
    }

    /// A kernel message of a core has gone where it belongs. It is kept unless there is a panic, and
    /// shown unless a terminal has the screen; in a panic only one core has a say.
    pub open spec fn serial_printed(self, core: u8, text: Seq<char>, bytes: Seq<u8>) -> Output {
        let p = self.logger.panic_mode;
        let kept = if p { self } else { Output { ring: self.ring.pushed(bytes), ..self } };
        let shows = if p { core == self.logger.panic_core } else { !self.logger.tty_mode };
        if shows {
            (Output { sent: if self.port { self.sent + bytes } else { self.sent }, ..kept }).drawn(text, bytes.len() as u64)
        } else {
            kept
        }
    }

    /// A terminal's text has been shown, if it has the screen.
    pub open spec fn tty_printed(self, text: Seq<char>, len: u64) -> Output {
        if self.logger.panic_mode || !self.logger.tty_mode { self } else { self.drawn(text, len) }
    }

    /// There is nothing on the screen, nor in what is drawn for it.
    pub open spec fn screen_cleared(self) -> Output {
        Output { screen: self.screen.cleared(), fb: framebuffer_logger::blank(self.fb.len()), ..self }
    }

    /// The screen has gone to a terminal or come back, cleared. Not during a panic.
    pub open spec fn tty_switched(self, on: bool) -> Output {
        if self.logger.panic_mode {
            self
        } else {
            Output { logger: Logger { tty_mode: on, ..self.logger }, ..self.screen_cleared() }
        }
    }

    /// There is a panic on a core: the screen is cleared, without a cursor.
    pub open spec fn panicked(self, core: u8) -> Output {
        let s = Output { screen: Screen { cursor_disabled: true, ..self.screen }, ..self };
        Output { logger: Logger { panic_mode: true, panic_core: core, ..self.logger }, ..s.screen_cleared() }
    }
}

impl Console {
    pub open spec fn well_formed(self) -> bool {
        &&& self.ring.well_formed()
        &&& self.screen@.well_formed()
        &&& self.fb@.len() == self.screen@.pixels.len()
    }

    fn draw(&mut self, text: &Vec<char>, len: u64)
        requires
            old(self).well_formed(),
        ensures
            final(self)@ == old(self)@.drawn(text@, len),
            final(self).well_formed(),
    {
        proof {
            lemma_same_size(self.screen@, text@, len as int, text@.len());
        }
        self.screen.write(text, len);
        self.screen.flush_log(&mut self.fb);
    }

    /// Puts a kernel message of a core out, of which `bytes` are the bytes.
    pub fn serial_print(&mut self, core: u8, text: &Vec<char>, bytes: &Vec<u8>)
        requires
            old(self).well_formed(),
        ensures
            final(self)@ == old(self)@.serial_printed(core, text@, bytes@),
            final(self).well_formed(),
    {
        let r: Route = self.logger.route(core);
        if r.to_ring {
            self.ring.push_str(bytes);
        }
        if r.to_screen {
            let mut out: Vec<u8> = self.port.write(bytes);
            let ghost before = self@;
            self.sent.append(&mut out);
            assert(before.sent + Seq::<u8>::empty() =~= before.sent);
            self.draw(text, bytes.len() as u64);
        }
    }

    /// Shows a terminal's text, `len` bytes long.
    pub fn tty_print(&mut self, text: &Vec<char>, len: u64)
        requires
            old(self).well_formed(),
        ensures
            final(self)@ == old(self)@.tty_printed(text@, len),
            final(self).well_formed(),
    {
        if self.logger.shows_tty() {
            self.draw(text, len);
        }
    }

    /// Gives the screen to a terminal, or takes it back.
    pub fn set_tty_mode(&mut self, on: bool)
        requires
            old(self).well_formed(),
        ensures
            final(self)@ == old(self)@.tty_switched(on),
            final(self).well_formed(),
    {
        if self.logger.set_tty_mode(on) {
            self.screen.clear_screen(&mut self.fb);
        }
    }

    /// There is a panic on a core.
    pub fn set_panic_mode(&mut self, core: u8)
        requires
            old(self).well_formed(),
        ensures
            final(self)@ == old(self)@.panicked(core),
            final(self).well_formed(),
    {
        self.logger.set_panic_mode(core);
        self.screen.disable_cursor();
        self.screen.clear_screen(&mut self.fb);
    }
}

/// A screen is as large as another, and has a cursor if that has one.
spec fn alike(s: Screen, t: Screen) -> bool {
    t.pixels.len() == s.pixels.len() && t.cursor_disabled == s.cursor_disabled
}

proof fn lemma_moved_alike(s: Screen, x: int)
    ensures
        alike(s, s.next_line()),
        alike(s, s.moved_to(x)),
{
    assert(alike(s, s.scrolled()));
}

proof fn lemma_char_alike(s: Screen, c: char)
    ensures
        alike(s, s.char_put(c)),
{
    let fw = s.font.width as int;
    lemma_moved_alike(s, s.x + (4 * fw - s.x as int % (4 * fw)));
    let d = s.char_drawn(c as int);
    assert(alike(s, d));
    lemma_moved_alike(d, s.x + fw);
}

/// Drawing changes neither the size of the screen nor whether there is a cursor.
proof fn lemma_same_size(s: Screen, text: Seq<char>, len: int, n: nat)
    ensures
        s.text_put(text, len, n).pixels.len() == s.pixels.len(),
        s.text_put(text, len, n).cursor_disabled == s.cursor_disabled,
    decreases n,
{
    if n > 0 {
        lemma_same_size(s, text, len, (n - 1) as nat);
        let a = s.text_put(text, len, (n - 1) as nat);
        let b = if n == 1 { a.cursor_drawn(false) } else { a };
        assert(alike(a, b));
        let d = b.char_put(text[n - 1]);
        lemma_char_alike(b, text[n - 1]);
        assert(alike(d, d.cursor_drawn(true)));
    }
}

/// A call that shows something or decides what is shown.
pub enum ConsoleCall {
    SerialPrint(u8, Seq<char>, Seq<u8>),
    TtyPrint(Seq<char>, u64),
    SetTty(bool),
}

pub open spec fn after(o: Output, call: ConsoleCall) -> Output {
    match call {
        ConsoleCall::SerialPrint(core, text, bytes) => o.serial_printed(core, text, bytes),
        ConsoleCall::TtyPrint(text, len) => o.tty_printed(text, len),
        ConsoleCall::SetTty(on) => o.tty_switched(on),
    }
}

pub open spec fn after_all(o: Output, calls: Seq<ConsoleCall>, n: nat) -> Output
    decreases n,
{
    if n == 0 { o } else { after(after_all(o, calls, (n - 1) as nat), calls[n - 1]) }
}

/// With a panic the screen goes blank. From then on, whatever is called: the panic is not over and is this core's, the screen has no
/// cursor, and no message is kept. Switching to a terminal and back, what a terminal prints, and what
/// another core prints changes nothing.
pub proof fn law_panic_stays(o: Output, core: u8, calls: Seq<ConsoleCall>, n: nat)
    requires
        n <= calls.len(),
    ensures
        ({
            let p = o.panicked(core);
            let r = after_all(p, calls, n);
            &&& p.screen.x == 0 && p.screen.y == 0 && p.screen.cursor_disabled
            &&& forall|i: int| 0 <= i < p.screen.pixels.len() ==> p.screen.pixels[i] == 0
            &&& p.fb.len() == o.fb.len()
            &&& forall|i: int| 0 <= i < p.fb.len() ==> p.fb[i] == 0
            &&& r.logger == p.logger && r.logger.panic_mode && r.logger.panic_core == core
            &&& r.screen.cursor_disabled
            &&& r.ring == o.ring
            &&& forall|c: ConsoleCall| (c is SetTty || c is TtyPrint || (c matches ConsoleCall::SerialPrint(k, _, _) && k != core))
                ==> #[trigger] after(r, c) == r
        }),
    decreases n,
{
    if n > 0 {
        law_panic_stays(o, core, calls, (n - 1) as nat);
        let q = after_all(o.panicked(core), calls, (n - 1) as nat);
        if let ConsoleCall::SerialPrint(_, text, bytes) = calls[n - 1] {
            lemma_same_size(q.screen, text, bytes.len() as u64 as int, text.len());
        }
    }
}

/// A message is kept in the ring and goes to the serial port, if there is one, and to the screen, unless
/// the screen belongs to a terminal. After a panic nothing is kept, and only the core that panicked is
/// heard.
pub proof fn law_message_goes(o: Output, core: u8, text: Seq<char>, bytes: Seq<u8>)
    ensures
        ({
            let r = o.serial_printed(core, text, bytes);
            let s = o.screen.text_put(text, bytes.len() as u64 as int, text.len());
            let heard = if o.logger.panic_mode { core == o.logger.panic_core } else { !o.logger.tty_mode };
            &&& r.logger == o.logger && r.port == o.port
            &&& r.ring == (if o.logger.panic_mode { o.ring } else { o.ring.pushed(bytes) })
            &&& r.sent == (if heard && o.port { o.sent + bytes } else { o.sent })
            &&& heard ==> r.fb == s.flushed(o.fb) && r.screen.pixels == s.pixels && r.screen.x == s.x && r.screen.y == s.y
                && r.screen.dirty_max <= r.screen.dirty_min
            &&& !heard ==> r.screen == o.screen && r.fb == o.fb
        }),
{
}

/// A terminal draws on the screen while it has it and there has been no panic, and leaves no other trace.
pub proof fn law_terminal_draws(o: Output, text: Seq<char>, len: u64)
    ensures
        ({
            let r = o.tty_printed(text, len);
            let s = o.screen.text_put(text, len as int, text.len());
            &&& r.ring == o.ring && r.sent == o.sent && r.logger == o.logger
            &&& o.logger.tty_mode && !o.logger.panic_mode ==> r.fb == s.flushed(o.fb) && r.screen.pixels == s.pixels
            &&& !o.logger.tty_mode || o.logger.panic_mode ==> r == o
        }),
{
}

/// The screen is handed over empty, to a terminal or back; not after a panic, which takes the screen, wipes
/// it and takes the cursor off.
pub proof fn law_screen_handed_over(o: Output, on: bool, core: u8, i: int)
    requires
        0 <= i < o.fb.len(),
    ensures
        o.logger.panic_mode ==> o.tty_switched(on) == o,
        !o.logger.panic_mode ==> {
            let r = o.tty_switched(on);
            r.logger.tty_mode == on && !r.logger.panic_mode && r.fb[i] == 0 && r.fb.len() == o.fb.len()
                && r.screen.x == 0 && r.screen.y == 0 && r.ring == o.ring && r.sent == o.sent
        },
        ({
            let r = o.panicked(core);
            r.logger.panic_mode && r.logger.panic_core == core && r.fb[i] == 0 && r.screen.cursor_disabled
                && r.screen.x == 0 && r.screen.y == 0 && r.ring == o.ring && r.sent == o.sent
        }),
{
}

} // verus!
