//! Terminal line-discipline state, modelled as its flag words, and a
//! reversible guard over it.
//!
//! The guard holds the attributes captured when it was created and a
//! working copy.  `cbreak` and `raw` rewrite the working copy and hand it
//! back so the caller can commit it to the terminal; `restore` hands back
//! the captured original.  Reading attributes from and committing them to a
//! real terminal is the caller's business.

use vstd::prelude::*;

verus! {

// Input-mode flag bits, as POSIX termios has them on the common platform.
pub const BRKINT: u32 = 0x00002;
pub const PARMRK: u32 = 0x00008;
pub const INPCK: u32 = 0x00010;
pub const ISTRIP: u32 = 0x00020;
pub const INLCR: u32 = 0x00040;
pub const IGNCR: u32 = 0x00080;
pub const ICRNL: u32 = 0x00100;
pub const IXON: u32 = 0x00400;

// Output-mode flag bits.
pub const OPOST: u32 = 0x00001;
pub const ONLCR: u32 = 0x00004;

// Control-mode flag bits.
pub const CSIZE: u32 = 0x00030;
pub const CS8: u32 = 0x00030;
pub const PARENB: u32 = 0x00100;

// Local-mode flag bits.
pub const ISIG: u32 = 0x00001;
pub const ICANON: u32 = 0x00002;
pub const ECHO: u32 = 0x00008;
pub const IEXTEN: u32 = 0x08000;

/// Terminal attributes: the four flag words, the line discipline, the
/// control characters and the two speeds, held as plain values.
#[allow(non_camel_case_types)]
#[derive(Clone, Copy, Debug, PartialEq, Eq)]
pub struct termios {
    pub c_iflag: u32,
    pub c_oflag: u32,
    pub c_cflag: u32,
    pub c_lflag: u32,
    pub c_line: u32,
    pub c_cc: [u32; 32],
    pub c_ispeed: u32,
    pub c_ospeed: u32,
}

/// Attribute values that are all zero.
pub fn blank_termios() -> (t: termios)
    ensures
        t.c_iflag == 0,
        t.c_oflag == 0,
        t.c_cflag == 0,
        t.c_lflag == 0,
        t.c_line == 0,
        forall|i: int| 0 <= i < 32 ==> t.c_cc@[i] == 0,
        t.c_ispeed == 0,
        t.c_ospeed == 0,
{
    termios {
        c_iflag: 0,
        c_oflag: 0,
        c_cflag: 0,
        c_lflag: 0,
        c_line: 0,
        c_cc: [0; 32],
        c_ispeed: 0,
        c_ospeed: 0,
    }
}

/// What `cbreak` does to a working attribute set: switch off flow control,
/// bit stripping, parity checking and CR/NL translation on input; keep
/// output post-processing and NL-to-CRNL on; force 8-bit frames with no
/// parity generation; switch off canonical input, extended processing and
/// local echo.
pub open spec fn spec_cbreak(t: termios) -> termios {
    termios {
        c_iflag: t.c_iflag & !(IXON | ISTRIP | INPCK | ICRNL | INLCR | IGNCR | PARMRK),
        c_oflag: t.c_oflag | OPOST | ONLCR,
        c_cflag: ((t.c_cflag & !PARENB) & !CSIZE) | CS8,
        c_lflag: t.c_lflag & !(ICANON | IEXTEN | ECHO),
        ..t
    }
}

/// What `raw` does: everything `cbreak` does, and additionally switch off
/// break-triggered interrupts and signal-key interpretation.
pub open spec fn spec_raw(t: termios) -> termios {
    spec_cbreak(termios { c_iflag: t.c_iflag & !BRKINT, c_lflag: t.c_lflag & !ISIG, ..t })
}

/// A reversible view of one terminal's attributes: the captured original
/// and the working copy that mode changes rewrite.
pub struct TidyTerminalState {
    pub orig: termios,
    pub cur: termios,
}

/// Bind a guard to the attributes just captured from a terminal.
#[allow(non_snake_case)]
pub fn TidyTerminalState(captured: termios) -> (g: TidyTerminalState)
    ensures
        g.orig == captured,
        g.cur == captured,
{
    TidyTerminalState { orig: captured, cur: captured }
}

impl TidyTerminalState {
    /// The working attribute set as it stands.
    pub fn current(&self) -> (t: termios)
        ensures
            t == self.cur,
    {
        self.cur
    }

    /// The attributes captured when the guard was created.
    pub fn original(&self) -> (t: termios)
        ensures
            t == self.orig,
    {
        self.orig
    }

    /// Reset the working copy to the captured original and hand the
    /// original back, for committing to the terminal.
    pub fn restore(&mut self) -> (t: termios)
        ensures
            t == old(self).orig,
            final(self).cur == old(self).orig,
            final(self).orig == old(self).orig,
    {
        self.cur = self.orig;
        self.cur
    }

    /// Rewrite the working copy for cbreak mode and hand it back, for
    /// committing to the terminal.
    pub fn cbreak(&mut self) -> (t: termios)
        ensures
            final(self).cur == spec_cbreak(old(self).cur),
            t == final(self).cur,
            final(self).orig == old(self).orig,
    {
        self.cur.c_iflag = self.cur.c_iflag & !(IXON | ISTRIP | INPCK | ICRNL | INLCR | IGNCR
            | PARMRK);
        self.cur.c_oflag = self.cur.c_oflag | OPOST | ONLCR;
        self.cur.c_cflag = ((self.cur.c_cflag & !PARENB) & !CSIZE) | CS8;
        self.cur.c_lflag = self.cur.c_lflag & !(ICANON | IEXTEN | ECHO);
        self.cur
    }

    /// Rewrite the working copy for raw mode and hand it back, for
    /// committing to the terminal.
    pub fn raw(&mut self) -> (t: termios)
        ensures
            final(self).cur == spec_raw(old(self).cur),
            t == final(self).cur,
            final(self).orig == old(self).orig,
    {
        self.cur.c_iflag = self.cur.c_iflag & !BRKINT;
        self.cur.c_lflag = self.cur.c_lflag & !ISIG;
        self.cbreak()
    }
}

} // verus!
