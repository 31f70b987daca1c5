//! The grid: writes, wrapping, dirty spans, repaint emissions.

use amulet::canvas::{Canvas, Emission};
use amulet::errors::AmuletError;
use amulet::style::Style;

#[test]
fn fresh_canvas_is_clean() {
    let c = Canvas(0, 0, 24, 80);
    assert_eq!(c.size(), (24, 80));
    assert_eq!(c.position(), (0, 0));
    for row in &c.rows {
        assert!(!row.is_dirty);
        assert_eq!(row.cells.len(), 80);
        for cell in &row.cells {
            assert_eq!(cell.glyph, ' ');
            assert!(!cell.dirty);
        }
    }
}

#[test]
fn write_marks_dirty_span() {
    let mut c = Canvas(0, 0, 24, 80);
    c.reposition(3, 10);
    c.write("abc").unwrap();
    assert_eq!(c.position(), (3, 13));
    assert!(c.rows[3].is_dirty);
    // A fresh row starts with first_dirty at 0, so the span start is
    // inherited from it; only the end tracks the written columns.
    assert_eq!(c.rows[3].first_dirty, 0);
    assert_eq!(c.rows[3].last_dirty, 12);
    assert_eq!(c.rows[3].cells[10].glyph, 'a');
    assert_eq!(c.rows[3].cells[11].glyph, 'b');
    assert_eq!(c.rows[3].cells[12].glyph, 'c');
    assert!(c.rows[3].cells[10].dirty);
    assert!(!c.rows[2].is_dirty);
}

#[test]
fn write_after_repaint_has_exact_span() {
    let mut c = Canvas(0, 0, 24, 80);
    c.write("seed").unwrap();
    c.repaint();
    // After a repaint the row holds the empty-span sentinel, so a new
    // write's span covers exactly the written columns.
    c.reposition(0, 10);
    c.write("abc").unwrap();
    assert!(c.rows[0].is_dirty);
    assert_eq!(c.rows[0].first_dirty, 10);
    assert_eq!(c.rows[0].last_dirty, 12);
}

#[test]
fn newline_moves_to_next_row() {
    let mut c = Canvas(0, 0, 4, 10);
    c.write("ab\ncd").unwrap();
    assert_eq!(c.position(), (1, 2));
    assert_eq!(c.rows[0].cells[0].glyph, 'a');
    assert_eq!(c.rows[1].cells[0].glyph, 'c');
    assert_eq!(c.rows[1].cells[1].glyph, 'd');
}

#[test]
fn write_wraps_across_rows() {
    let mut c = Canvas(0, 0, 5, 4);
    c.write("0123456789").unwrap();
    assert_eq!(c.position(), (2, 2));
    // Two full rows and one partial: each span covers exactly the
    // written columns.
    assert!(c.rows[0].is_dirty);
    assert_eq!(c.rows[0].first_dirty, 0);
    assert_eq!(c.rows[0].last_dirty, 3);
    assert!(c.rows[1].is_dirty);
    assert_eq!(c.rows[1].first_dirty, 0);
    assert_eq!(c.rows[1].last_dirty, 3);
    assert!(c.rows[2].is_dirty);
    assert_eq!(c.rows[2].first_dirty, 0);
    assert_eq!(c.rows[2].last_dirty, 1);
    assert!(!c.rows[3].is_dirty);
    assert_eq!(c.rows[0].cells[3].glyph, '3');
    assert_eq!(c.rows[1].cells[0].glyph, '4');
    assert_eq!(c.rows[2].cells[1].glyph, '9');
}

#[test]
fn write_past_bottom_fails() {
    let mut c = Canvas(0, 0, 1, 2);
    assert_eq!(c.write("abc"), Err(AmuletError::GridOverflow));
    // The glyphs written before the failure stay.
    assert_eq!(c.rows[0].cells[0].glyph, 'a');
    assert_eq!(c.rows[0].cells[1].glyph, 'b');
}

#[test]
fn newline_past_bottom_fails() {
    let mut c = Canvas(0, 0, 1, 10);
    assert_eq!(c.write("x\ny"), Err(AmuletError::GridOverflow));
    assert_eq!(c.rows[0].cells[0].glyph, 'x');
}

#[test]
fn clear_blanks_and_dirties_everything() {
    let mut c = Canvas(0, 0, 3, 5);
    c.write("hello").unwrap();
    c.clear();
    for row in &c.rows {
        assert!(row.is_dirty);
        assert_eq!(row.first_dirty, 0);
        assert_eq!(row.last_dirty, 4);
        for cell in &row.cells {
            assert_eq!(cell.glyph, ' ');
            assert!(cell.dirty);
        }
    }
}

#[test]
fn restyle_touches_only_style() {
    let mut c = Canvas(0, 0, 2, 4);
    c.write("hi").unwrap();
    c.repaint();
    c.reposition(0, 1);
    c.restyle(Style().bold());
    assert_eq!(c.rows[0].cells[1].glyph, 'i');
    assert!(c.rows[0].cells[1].style.is_bold);
    assert!(c.rows[0].is_dirty);
    assert_eq!(c.rows[0].first_dirty, 1);
    assert_eq!(c.rows[0].last_dirty, 1);
    assert_eq!(c.position(), (0, 1));
}

#[test]
fn hello_world_repaint_scenario() {
    let mut c = Canvas(0, 0, 24, 80);
    c.write("Hello World !!!").unwrap();
    assert!(c.rows[0].is_dirty);
    assert_eq!(c.rows[0].first_dirty, 0);
    assert_eq!(c.rows[0].last_dirty, 14);

    let out = c.repaint();

    // Afterwards row 0 is clean with the empty-span sentinel.
    assert!(!c.rows[0].is_dirty);
    assert_eq!(c.rows[0].first_dirty, 80);
    assert_eq!(c.rows[0].last_dirty, 0);

    // Exactly one cursor-position emission, for row 0.
    let moves: Vec<&Emission> = out
        .iter()
        .filter(|e| matches!(e, Emission::MoveCursor(_, _)))
        .collect();
    assert_eq!(moves.len(), 1);
    assert_eq!(*moves[0], Emission::MoveCursor(0, 0));

    // The glyphs go out in order.
    let glyphs: String = out
        .iter()
        .filter_map(|e| match e {
            Emission::PutGlyph(g) => Some(*g),
            _ => None,
        })
        .collect();
    assert_eq!(glyphs, "Hello World !!!");
}

#[test]
fn repaint_twice_emits_nothing_and_changes_nothing() {
    let mut c = Canvas(0, 0, 4, 10);
    c.write("abc\ndef").unwrap();
    c.repaint();
    let before: Vec<char> = c.rows.iter().flat_map(|r| r.cells.iter().map(|x| x.glyph)).collect();
    let out = c.repaint();
    assert!(out.is_empty());
    let after: Vec<char> = c.rows.iter().flat_map(|r| r.cells.iter().map(|x| x.glyph)).collect();
    assert_eq!(before, after);
}

#[test]
fn repaint_emits_bold_changes_minimally() {
    let mut c = Canvas(0, 0, 1, 8);
    c.attrwrite("ab", Style().bold()).unwrap();
    c.write("cd").unwrap();
    let out = c.repaint();
    let bold_on = out.iter().filter(|e| matches!(e, Emission::EnterBold)).count();
    let resets = out
        .iter()
        .filter(|e| matches!(e, Emission::ResetAttributes))
        .count();
    // Bold switched on once for the first two cells, reset once when the
    // plain cells follow; bold is off at the end, so no final reset.
    assert_eq!(bold_on, 1);
    assert_eq!(resets, 1);
}

#[test]
fn repaint_resets_bold_left_on_at_end() {
    let mut c = Canvas(0, 0, 1, 8);
    c.attrwrite("ab", Style().bold()).unwrap();
    let out = c.repaint();
    assert_eq!(out.last(), Some(&Emission::ResetAttributes));
}

#[test]
fn repaint_maps_default_colour_out_of_band() {
    let mut c = Canvas(0, 0, 1, 8);
    c.write("a").unwrap();
    let out = c.repaint();
    // The foreground tracker starts at 0; the default colour -1 is sent
    // as the out-of-band palette index.
    assert!(out.contains(&Emission::SetForeground(65535)));
}

#[test]
fn repaint_emits_colour_number() {
    let mut c = Canvas(0, 0, 1, 8);
    c.attrwrite("a", Style().fg(3)).unwrap();
    let out = c.repaint();
    assert!(out.contains(&Emission::SetForeground(3)));
}

#[test]
fn repaint_offsets_cursor_moves() {
    let mut c = Canvas(5, 7, 2, 10);
    c.reposition(1, 2);
    c.write("z").unwrap();
    let out = c.repaint();
    // The move goes to the span start (0, inherited from the fresh row)
    // offset by the canvas's place on the terminal.
    assert!(out.contains(&Emission::MoveCursor(6, 7)));
}

#[test]
fn styled_write_keeps_style_in_cells() {
    let mut c = Canvas(0, 0, 1, 4);
    c.attrwrite("x", Style().underline().fg(2).bg(5)).unwrap();
    let s = c.rows[0].cells[0].style;
    assert!(s.is_underline);
    assert!(!s.is_bold);
    assert_eq!(s.fg_color, 2);
    assert_eq!(s.bg_color, 5);
}
