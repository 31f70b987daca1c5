//! The mode guard: cbreak and raw flag arithmetic, and restoration.

use amulet::termios::{
    blank_termios, TidyTerminalState, BRKINT, CS8, CSIZE, ECHO, ICANON, ICRNL, IEXTEN, IGNCR,
    INLCR, INPCK, ISIG, ISTRIP, IXON, ONLCR, OPOST, PARENB, PARMRK,
};
use amulet::style::Style;

#[test]
fn guard_lifecycle_restores_captured_attributes() {
    let mut t = blank_termios();
    t.c_iflag = 0x1234_5678;
    t.c_oflag = 0x0f0f_0f0f;
    t.c_cflag = 0xdead_beef;
    t.c_lflag = 0xffff_ffff;
    t.c_line = 7;
    t.c_cc[4] = 21;
    t.c_ispeed = 38400;
    t.c_ospeed = 19200;

    let mut guard = TidyTerminalState(t);
    guard.cbreak();
    let committed = guard.restore();

    // Bit for bit what was captured.
    assert_eq!(committed, t);
    assert_eq!(guard.current(), t);
    assert_eq!(guard.original(), t);
}

#[test]
fn cbreak_rewrites_exactly_the_documented_flags() {
    let mut t = blank_termios();
    t.c_iflag = 0xffff_ffff;
    t.c_oflag = 0;
    t.c_cflag = 0xffff_ffff;
    t.c_lflag = 0xffff_ffff;

    let mut guard = TidyTerminalState(t);
    let cur = guard.cbreak();

    assert_eq!(
        cur.c_iflag,
        0xffff_ffff & !(IXON | ISTRIP | INPCK | ICRNL | INLCR | IGNCR | PARMRK)
    );
    assert_eq!(cur.c_oflag, OPOST | ONLCR);
    assert_eq!(cur.c_cflag, ((0xffff_ffff & !PARENB) & !CSIZE) | CS8);
    assert_eq!(cur.c_lflag, 0xffff_ffff & !(ICANON | IEXTEN | ECHO));
    // Everything else untouched.
    assert_eq!(cur.c_line, t.c_line);
    assert_eq!(cur.c_cc, t.c_cc);
    assert_eq!(cur.c_ispeed, t.c_ispeed);
    assert_eq!(cur.c_ospeed, t.c_ospeed);
}

#[test]
fn raw_additionally_disables_signals() {
    let mut t = blank_termios();
    t.c_iflag = 0xffff_ffff;
    t.c_lflag = 0xffff_ffff;

    let mut guard = TidyTerminalState(t);
    let cur = guard.raw();

    assert_eq!(cur.c_iflag & BRKINT, 0);
    assert_eq!(cur.c_lflag & ISIG, 0);
    // And everything cbreak does.
    assert_eq!(cur.c_iflag & IXON, 0);
    assert_eq!(cur.c_lflag & ICANON, 0);
    assert_eq!(cur.c_lflag & ECHO, 0);
    assert_eq!(cur.c_cflag & CSIZE, CS8);
}

#[test]
fn blank_termios_is_all_zero() {
    let t = blank_termios();
    assert_eq!(t.c_iflag, 0);
    assert_eq!(t.c_oflag, 0);
    assert_eq!(t.c_cflag, 0);
    assert_eq!(t.c_lflag, 0);
    assert_eq!(t.c_line, 0);
    assert_eq!(t.c_cc, [0u32; 32]);
    assert_eq!(t.c_ispeed, 0);
    assert_eq!(t.c_ospeed, 0);
}

#[test]
fn style_builders_set_exactly_one_field() {
    let s = Style();
    assert!(!s.is_bold);
    assert!(!s.is_underline);
    assert_eq!(s.fg_color, -1);
    assert_eq!(s.bg_color, -1);

    let b = s.bold();
    assert!(b.is_bold);
    assert!(!b.is_underline);
    assert_eq!(b.fg_color, -1);

    let u = s.underline();
    assert!(u.is_underline);
    assert!(!u.is_bold);

    let f = s.fg(4);
    assert_eq!(f.fg_color, 4);
    assert_eq!(f.bg_color, -1);

    let g = s.bg(6);
    assert_eq!(g.bg_color, 6);
    assert_eq!(g.fg_color, -1);

    let all = Style().bold().underline().fg(1).bg(2);
    assert!(all.is_bold && all.is_underline);
    assert_eq!(all.fg_color, 1);
    assert_eq!(all.bg_color, 2);
}
