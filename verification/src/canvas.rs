//! The character grid: cells with glyph and style, a dirty span per row,
//! and a repaint that walks only the dirty spans and emits the least
//! cursor and style traffic it can.

use vstd::prelude::*;

verus! {

use crate::errors::AmuletError;
use crate::style::{normal_style, Style};

/// One cell of the grid.
#[derive(Clone, Copy, Debug, PartialEq, Eq, Structural)]
pub struct CanvasCell {
    pub dirty: bool,
    pub glyph: char,
    pub style: Style,
}

/// One row of the grid, with its dirty-span bookkeeping.
pub struct CanvasRow {
    pub is_dirty: bool,
    pub first_dirty: usize,
    pub last_dirty: usize,
    pub cells: Vec<CanvasCell>,
}

/// The abstract value of a row.
pub struct RowV {
    pub is_dirty: bool,
    pub first_dirty: int,
    pub last_dirty: int,
    pub cells: Seq<CanvasCell>,
}

/// The abstract value of a canvas.
pub struct CanvasV {
    pub start_row: int,
    pub start_col: int,
    pub cur_row: int,
    pub cur_col: int,
    pub height: int,
    pub width: int,
    pub rows: Seq<RowV>,
}

/// One unit of output that a repaint asks the terminal for.  The caller
/// turns each into the corresponding capability write: a cursor move, the
/// bold attribute on, all attributes reset, a foreground colour change, or
/// one glyph.
#[derive(Clone, Copy, Debug, PartialEq, Eq, Structural)]
pub enum Emission {
    MoveCursor(usize, usize),
    EnterBold,
    ResetAttributes,
    SetForeground(i32),
    PutGlyph(char),
}

impl View for CanvasRow {
    type V = RowV;

    open spec fn view(&self) -> RowV {
        RowV {
            is_dirty: self.is_dirty,
            first_dirty: self.first_dirty as int,
            last_dirty: self.last_dirty as int,
            cells: self.cells@,
        }
    }
}

/// The grid itself: start offsets on the terminal, the cursor, the size,
/// and the rows.
pub struct Canvas {
    pub start_row: usize,
    pub start_col: usize,
    pub cur_row: usize,
    pub cur_col: usize,
    pub height: usize,
    pub width: usize,
    pub rows: Vec<CanvasRow>,
}

impl View for Canvas {
    type V = CanvasV;

    open spec fn view(&self) -> CanvasV {
        CanvasV {
            start_row: self.start_row as int,
            start_col: self.start_col as int,
            cur_row: self.cur_row as int,
            cur_col: self.cur_col as int,
            height: self.height as int,
            width: self.width as int,
            rows: Seq::new(self.rows@.len(), |i: int| self.rows@[i]@),
        }
    }
}

impl RowV {
    /// Row bookkeeping within bounds: as many cells as the grid is wide,
    /// and a meaningful span whenever the row is dirty.
    pub open spec fn wf(self, width: int) -> bool {
        &&& self.cells.len() == width
        &&& 0 <= self.first_dirty <= width
        &&& 0 <= self.last_dirty < width
        &&& (self.is_dirty ==> self.first_dirty <= self.last_dirty)
    }
}

impl CanvasV {
    /// Grid invariant.  The cursor column is always in range; the cursor
    /// row may stand one past the last row, the state left behind by a
    /// write that ran past the bottom edge.
    pub open spec fn wf(self) -> bool {
        &&& self.height >= 1
        &&& self.width >= 1
        &&& self.rows.len() == self.height
        &&& (forall|i: int| 0 <= i < self.height ==> (#[trigger] self.rows[i]).wf(self.width))
        &&& 0 <= self.cur_row <= self.height
        &&& 0 <= self.cur_col < self.width
        &&& 0 <= self.start_row
        &&& 0 <= self.start_col
        &&& self.start_row + self.height <= usize::MAX
        &&& self.start_col + self.width <= usize::MAX
    }
}

impl Canvas {
    /// Grid invariant, stated of the abstract value.
    pub open spec fn wf(self) -> bool {
        self@.wf()
    }

    /// Returns the size of the canvas as (rows, columns).
    pub fn size(&self) -> (r: (usize, usize))
        ensures
            r.0 == self.height,
            r.1 == self.width,
    {
        (self.height, self.width)
    }

    /// The cursor position as (row, column).
    pub fn position(&self) -> (r: (usize, usize))
        ensures
            r.0 == self.cur_row,
            r.1 == self.cur_col,
    {
        (self.cur_row, self.cur_col)
    }

    /// Move the logical cursor without writing anything.
    pub fn reposition(&mut self, row: usize, col: usize)
        requires
            old(self).wf(),
            row < old(self).height,
            col < old(self).width,
        ensures
            final(self).wf(),
            final(self)@ == (CanvasV { cur_row: row as int, cur_col: col as int, ..old(self)@ }),
    {
        self.cur_row = row;
        self.cur_col = col;
        proof {
            assert(self@.rows =~= old(self)@.rows);
        }
    }
}

/// A row touched at `col`: marked dirty, the span widened to reach `col`,
/// and the cell there replaced.
pub open spec fn touch(r: RowV, col: int, cell: CanvasCell) -> RowV {
    RowV {
        is_dirty: true,
        first_dirty: if col < r.first_dirty {
            col
        } else {
            r.first_dirty
        },
        last_dirty: if col > r.last_dirty {
            col
        } else {
            r.last_dirty
        },
        cells: r.cells.update(col, cell),
    }
}

/// What `restyle` does: replace the style of the cell under the cursor,
/// with the same dirty bookkeeping as a write, moving nothing.
pub open spec fn spec_restyle(v: CanvasV, style: Style) -> CanvasV {
    let row = v.rows[v.cur_row];
    let cell = CanvasCell { style: style, ..row.cells[v.cur_col] };
    CanvasV { rows: v.rows.update(v.cur_row, touch(row, v.cur_col, cell)), ..v }
}

impl Canvas {
    /// Re-style the cell under the cursor, leaving its glyph and the
    /// cursor where they are.
    pub fn restyle(&mut self, style: Style)
        requires
            old(self).wf(),
            old(self).cur_row < old(self).height,
        ensures
            final(self).wf(),
            final(self)@ == spec_restyle(old(self)@, style),
    {
        let r = self.cur_row;
        let c = self.cur_col;
        proof {
            assert(self@.rows[r as int].wf(self@.width));
            assert(self.rows@.len() == self.height);
            assert(self.rows@[r as int].cells@.len() == self.width);
        }
        let old_cell = self.rows[r].cells[c];
        self.rows[r].cells[c] = CanvasCell { style, ..old_cell };
        self.rows[r].is_dirty = true;
        if c > self.rows[r].last_dirty {
            self.rows[r].last_dirty = c;
        }
        if c < self.rows[r].first_dirty {
            self.rows[r].first_dirty = c;
        }
        proof {
            let v0 = old(self)@;
            let vr = spec_restyle(v0, style);
            assert(self@.rows[r as int].cells =~= vr.rows[r as int].cells);
            assert(self@.rows =~= vr.rows);
        }
    }

    /// Blank every cell and mark every row dirty over its full width; the
    /// cursor stays where it was.
    #[verifier::loop_isolation(false)]
    pub fn clear(&mut self)
        requires
            old(self).wf(),
        ensures
            final(self).wf(),
            final(self).cur_row == old(self).cur_row,
            final(self).cur_col == old(self).cur_col,
            final(self).height == old(self).height,
            final(self).width == old(self).width,
            final(self).start_row == old(self).start_row,
            final(self).start_col == old(self).start_col,
            forall|i: int|
                0 <= i < old(self).height ==> (#[trigger] final(self)@.rows[i]) == (RowV {
                    is_dirty: true,
                    first_dirty: 0,
                    last_dirty: old(self)@.width - 1,
                    cells: Seq::new(old(self)@.width as nat, |j: int| blank_cell()),
                }),
    {
        let width = self.width;
        let height = self.height;
        let ghost blank_cells = Seq::new(width as nat, |j: int| blank_cell());
        let mut i: usize = 0;
        while i < height
            invariant
                0 <= i <= height,
                self.height == old(self).height,
                self.width == old(self).width,
                self.start_row == old(self).start_row,
                self.start_col == old(self).start_col,
                self.cur_row == old(self).cur_row,
                self.cur_col == old(self).cur_col,
                self.rows@.len() == height,
                forall|m: int|
                    0 <= m < i ==> (#[trigger] self.rows@[m])@ == (RowV {
                        is_dirty: true,
                        first_dirty: 0,
                        last_dirty: width - 1,
                        cells: blank_cells,
                    }),
                forall|m: int| i <= m < height ==> (#[trigger] self.rows@[m])@ == old(self)@.rows[m],
            decreases height - i,
        {
            let mut cells: Vec<CanvasCell> = Vec::new();
            let mut j: usize = 0;
            while j < width
                invariant
                    0 <= j <= width,
                    cells@.len() == j,
                    forall|m: int| 0 <= m < j ==> (#[trigger] cells@[m]) == blank_cell(),
                decreases width - j,
            {
                cells.push(CanvasCell { dirty: true, glyph: ' ', style: crate::style::Style() });
                j = j + 1;
            }
            proof {
                assert(cells@ =~= blank_cells);
            }
            let mut row = self.rows.remove(i);
            row.is_dirty = true;
            row.last_dirty = width - 1;
            row.first_dirty = 0;
            row.cells = cells;
            self.rows.insert(i, row);
            i = i + 1;
        }
    }
}

/// What writing one glyph does: overwrite the cell under the cursor with
/// the glyph and style, mark it and its row dirty, widen the row's dirty
/// span to the column, advance the cursor, and wrap to the next row at the
/// width boundary.  A wrap or a write past the bottom edge fails, and the
/// cursor row rests one past the last row.
pub open spec fn spec_put(v: CanvasV, glyph: char, style: Style) -> (CanvasV, bool) {
    if v.cur_row >= v.height {
        (v, false)
    } else {
        let cell = CanvasCell { dirty: true, glyph: glyph, style: style };
        let v2 = CanvasV {
            rows: v.rows.update(v.cur_row, touch(v.rows[v.cur_row], v.cur_col, cell)),
            ..v
        };
        if v.cur_col + 1 < v.width {
            (CanvasV { cur_col: v.cur_col + 1, ..v2 }, true)
        } else if v.cur_row + 1 < v.height {
            (CanvasV { cur_row: v.cur_row + 1, cur_col: 0, ..v2 }, true)
        } else {
            (CanvasV { cur_row: v.height, cur_col: 0, ..v2 }, false)
        }
    }
}

/// What a newline does: advance to the next row at column zero, failing
/// when that leaves the grid.
pub open spec fn spec_newline(v: CanvasV) -> (CanvasV, bool) {
    if v.cur_row + 1 < v.height {
        (CanvasV { cur_row: v.cur_row + 1, cur_col: 0, ..v }, true)
    } else {
        (CanvasV { cur_row: v.height, cur_col: 0, ..v }, false)
    }
}

/// What writing a string does: one glyph or newline at a time, stopping
/// at the first failure with the cells already written kept.
pub open spec fn spec_write(v: CanvasV, s: Seq<char>, style: Style) -> (CanvasV, bool)
    decreases s.len(),
{
    if s.len() == 0 {
        (v, true)
    } else {
        let step = if s[0] == '\n' {
            spec_newline(v)
        } else {
            spec_put(v, s[0], style)
        };
        if !step.1 {
            (step.0, false)
        } else {
            spec_write(step.0, s.drop_first(), style)
        }
    }
}

impl Canvas {
    /// Write `text` at the cursor in the given style, wrapping at the
    /// right edge.  A write that would pass the bottom edge fails with
    /// `GridOverflow`; the glyphs written before the failure stay.
    #[verifier::loop_isolation(false)]
    pub fn attrwrite(&mut self, text: &str, style: Style) -> (r: Result<(), AmuletError>)
        requires
            old(self).wf(),
        ensures
            final(self).wf(),
            final(self)@ == spec_write(old(self)@, text@, style).0,
            (r is Ok) == spec_write(old(self)@, text@, style).1,
            r is Err ==> r == Err::<(), AmuletError>(AmuletError::GridOverflow),
    {
        let n = text.unicode_len();
        proof {
            assert(text@.skip(0) =~= text@);
        }
        let mut i: usize = 0;
        while i < n
            invariant
                0 <= i <= n,
                n == text@.len(),
                self.wf(),
                spec_write(old(self)@, text@, style) == spec_write(
                    self@,
                    text@.skip(i as int),
                    style,
                ),
            decreases n - i,
        {
            let ch = text.get_char(i);
            let ghost pre = self@;
            let ghost rest = text@.skip(i as int);
            proof {
                assert(rest[0] == ch);
                assert(rest.drop_first() =~= text@.skip(i as int + 1));
            }
            if ch == '\n' {
                if self.cur_row < self.height - 1 {
                    self.cur_row = self.cur_row + 1;
                    self.cur_col = 0;
                    proof {
                        assert(self@.rows =~= pre.rows);
                        assert(self@ == spec_newline(pre).0);
                    }
                } else {
                    self.cur_row = self.height;
                    self.cur_col = 0;
                    proof {
                        assert(self@.rows =~= pre.rows);
                        assert(self@ == spec_newline(pre).0);
                    }
                    return Err(AmuletError::GridOverflow);
                }
            } else {
                if self.cur_row >= self.height {
                    proof {
                        assert(self@ == spec_put(pre, ch, style).0);
                    }
                    return Err(AmuletError::GridOverflow);
                }
                let r0 = self.cur_row;
                let c0 = self.cur_col;
                proof {
                    assert(self@.rows[r0 as int].wf(self@.width));
                    assert(self.rows@.len() == self.height);
                    assert(self.rows@[r0 as int].cells@.len() == self.width);
                }
                self.rows[r0].cells[c0] = CanvasCell { dirty: true, glyph: ch, style };
                self.rows[r0].is_dirty = true;
                if c0 > self.rows[r0].last_dirty {
                    self.rows[r0].last_dirty = c0;
                }
                if c0 < self.rows[r0].first_dirty {
                    self.rows[r0].first_dirty = c0;
                }
                let ghost cell = CanvasCell { dirty: true, glyph: ch, style: style };
                proof {
                    assert(self@.rows[r0 as int].cells =~= touch(
                        pre.rows[r0 as int],
                        c0 as int,
                        cell,
                    ).cells);
                    assert(self@.rows =~= pre.rows.update(
                        r0 as int,
                        touch(pre.rows[r0 as int], c0 as int, cell),
                    ));
                }
                if self.cur_col < self.width - 1 {
                    self.cur_col = self.cur_col + 1;
                    proof {
                        assert(self@.rows =~= spec_put(pre, ch, style).0.rows);
                        assert(self@ == spec_put(pre, ch, style).0);
                    }
                } else if self.cur_row < self.height - 1 {
                    self.cur_row = self.cur_row + 1;
                    self.cur_col = 0;
                    proof {
                        assert(self@.rows =~= spec_put(pre, ch, style).0.rows);
                        assert(self@ == spec_put(pre, ch, style).0);
                    }
                } else {
                    self.cur_row = self.height;
                    self.cur_col = 0;
                    proof {
                        assert(self@.rows =~= spec_put(pre, ch, style).0.rows);
                        assert(self@ == spec_put(pre, ch, style).0);
                    }
                    return Err(AmuletError::GridOverflow);
                }
            }
            i = i + 1;
        }
        proof {
            assert(text@.skip(n as int) =~= Seq::<char>::empty());
        }
        Ok(())
    }

    /// Write `text` at the cursor in the default style.
    pub fn write(&mut self, text: &str) -> (r: Result<(), AmuletError>)
        requires
            old(self).wf(),
        ensures
            final(self).wf(),
            final(self)@ == spec_write(old(self)@, text@, normal_style()).0,
            (r is Ok) == spec_write(old(self)@, text@, normal_style()).1,
            r is Err ==> r == Err::<(), AmuletError>(AmuletError::GridOverflow),
    {
        let style = crate::style::Style();
        self.attrwrite(text, style)
    }
}

/// What one cell of a dirty span emits, given the bold and foreground
/// state already on the wire: a style change only where the cell differs
/// from that state, then the glyph.  Resetting bold resets all attributes,
/// the capability set offering nothing finer.  A foreground of `-1` is
/// sent as an out-of-band palette index, which the colour capability
/// takes as "default".
pub open spec fn cell_out(cell: CanvasCell, bold: bool, fg: i32) -> (Seq<Emission>, bool, i32) {
    let (eb, bold2): (Seq<Emission>, bool) = if cell.style.is_bold && !bold {
        (seq![Emission::EnterBold], true)
    } else if bold && !cell.style.is_bold {
        (seq![Emission::ResetAttributes], false)
    } else {
        (Seq::<Emission>::empty(), bold)
    };
    let (ef, fg2): (Seq<Emission>, i32) = if cell.style.fg_color != fg {
        (
            seq![
                Emission::SetForeground(
                    if cell.style.fg_color == -1i32 {
                        65535i32
                    } else {
                        cell.style.fg_color
                    },
                )
            ],
            cell.style.fg_color,
        )
    } else {
        (Seq::<Emission>::empty(), fg)
    };
    (eb + ef + seq![Emission::PutGlyph(cell.glyph)], bold2, fg2)
}

/// What the span `[lo, hi]` of a row emits, threading the bold and
/// foreground state through the cells.
pub open spec fn span_out(cells: Seq<CanvasCell>, lo: int, hi: int, bold: bool, fg: i32) -> (
    Seq<Emission>,
    bool,
    i32,
)
    decreases hi + 1 - lo,
{
    if lo > hi {
        (Seq::<Emission>::empty(), bold, fg)
    } else {
        let c = cell_out(cells[lo], bold, fg);
        let rest = span_out(cells, lo + 1, hi, c.1, c.2);
        (c.0 + rest.0, rest.1, rest.2)
    }
}

/// The cells of a row with the span `[lo, hi]` marked clean.
pub open spec fn span_clean(cells: Seq<CanvasCell>, lo: int, hi: int) -> Seq<CanvasCell> {
    Seq::new(
        cells.len(),
        |j: int|
            if lo <= j <= hi {
                CanvasCell { dirty: false, ..cells[j] }
            } else {
                cells[j]
            },
    )
}

/// What the rows from `i` on emit: clean rows nothing; a dirty row one
/// cursor move to the start of its span, then the span's cells.  The bold
/// and foreground state threads across rows, never resetting per row.
pub open spec fn rows_out(v: CanvasV, i: int, bold: bool, fg: i32) -> (Seq<Emission>, bool, i32)
    decreases v.height - i,
{
    if i < 0 || i >= v.height {
        (Seq::<Emission>::empty(), bold, fg)
    } else {
        let row = v.rows[i];
        if !row.is_dirty {
            rows_out(v, i + 1, bold, fg)
        } else {
            let mv = seq![
                Emission::MoveCursor(
                    (v.start_row + i) as usize,
                    (v.start_col + row.first_dirty) as usize,
                )
            ];
            let sp = span_out(row.cells, row.first_dirty, row.last_dirty, bold, fg);
            let rest = rows_out(v, i + 1, sp.1, sp.2);
            (mv + sp.0 + rest.0, rest.1, rest.2)
        }
    }
}

/// Everything one repaint emits: the dirty rows' spans, and a final
/// attribute reset if bold was left on.
pub open spec fn spec_repaint_out(v: CanvasV) -> Seq<Emission> {
    let r = rows_out(v, 0, false, 0i32);
    if r.1 {
        r.0 + seq![Emission::ResetAttributes]
    } else {
        r.0
    }
}

/// A row after its repaint: glyphs and styles untouched, the span's cells
/// clean, the row clean, and the span reset to the empty sentinel.
pub open spec fn clean_row(row: RowV, width: int) -> RowV {
    if !row.is_dirty {
        row
    } else {
        RowV {
            is_dirty: false,
            first_dirty: width,
            last_dirty: 0,
            cells: span_clean(row.cells, row.first_dirty, row.last_dirty),
        }
    }
}

/// The grid after a repaint: every row clean, nothing else changed.
pub open spec fn spec_repaint_state(v: CanvasV) -> CanvasV {
    CanvasV { rows: Seq::new(v.rows.len(), |i: int| clean_row(v.rows[i], v.width)), ..v }
}

impl Canvas {
    #[verifier::loop_isolation(false)]
    #[verifier::rlimit(60)]
    fn repaint_row(&mut self, ri: usize, out: &mut Vec<Emission>, bold: &mut bool, fg: &mut i32)
        requires
            old(self).wf(),
            ri < old(self).height,
            old(self)@.rows[ri as int].is_dirty,
        ensures
            final(self).wf(),
            final(self).height == old(self).height,
            final(self).width == old(self).width,
            final(self).start_row == old(self).start_row,
            final(self).start_col == old(self).start_col,
            final(self).cur_row == old(self).cur_row,
            final(self).cur_col == old(self).cur_col,
            forall|m: int|
                0 <= m < old(self)@.height && m != ri ==> (#[trigger] final(self)@.rows[m]) == old(
                    self,
                )@.rows[m],
            final(self)@.rows[ri as int] == clean_row(old(self)@.rows[ri as int], old(self)@.width),
            ({
                let row = old(self)@.rows[ri as int];
                let mv = seq![
                    Emission::MoveCursor(
                        (old(self)@.start_row + ri) as usize,
                        (old(self)@.start_col + row.first_dirty) as usize,
                    )
                ];
                let sp = span_out(row.cells, row.first_dirty, row.last_dirty, *old(bold), *old(fg));
                &&& final(out)@ == old(out)@ + mv + sp.0
                &&& *final(bold) == sp.1
                &&& *final(fg) == sp.2
            }),
    {
        let ghost v0 = old(self)@;
        let ghost bold_in = *bold;
        let ghost fg_in = *fg;
        let ghost out_pre = out@;
        let ghost cells0 = v0.rows[ri as int].cells;
        let ghost sp = span_out(
            cells0,
            v0.rows[ri as int].first_dirty,
            v0.rows[ri as int].last_dirty,
            bold_in,
            fg_in,
        );
        proof {
            assert(self@.rows[ri as int].wf(self@.width));
        }
        let first = self.rows[ri].first_dirty;
        let last = self.rows[ri].last_dirty;
        out.push(Emission::MoveCursor(self.start_row + ri, self.start_col + first));
        let ghost mv = Emission::MoveCursor(
            (v0.start_row + ri as int) as usize,
            (v0.start_col + v0.rows[ri as int].first_dirty) as usize,
        );
        let mut col = first;
        proof {
            assert(span_clean(cells0, first as int, col as int - 1) =~= cells0);
            assert(self@.rows[ri as int].cells =~= span_clean(cells0, first as int, col as int - 1));
        }
        while col <= last
            invariant
                first <= col <= last + 1,
                last < self.width,
                ri < self.height,
                self.height == old(self).height,
                self.width == old(self).width,
                self.start_row == old(self).start_row,
                self.start_col == old(self).start_col,
                self.cur_row == old(self).cur_row,
                self.cur_col == old(self).cur_col,
                self.wf(),
                first == v0.rows[ri as int].first_dirty,
                last == v0.rows[ri as int].last_dirty,
                self@.rows[ri as int].is_dirty == v0.rows[ri as int].is_dirty,
                self@.rows[ri as int].first_dirty == v0.rows[ri as int].first_dirty,
                self@.rows[ri as int].last_dirty == v0.rows[ri as int].last_dirty,
                self@.rows[ri as int].cells == span_clean(cells0, first as int, col as int - 1),
                forall|m: int|
                    0 <= m < v0.height && m != ri ==> (#[trigger] self@.rows[m]) == v0.rows[m],
                span_out(cells0, col as int, last as int, *bold, *fg).1 == sp.1,
                span_out(cells0, col as int, last as int, *bold, *fg).2 == sp.2,
                out@ + span_out(cells0, col as int, last as int, *bold, *fg).0 == out_pre
                    + seq![mv] + sp.0,
            decreases last + 1 - col,
        {
            let ghost out_c = out@;
            let ghost b0 = *bold;
            let ghost f0 = *fg;
            let ghost selfpre = self@;
            let cell = self.rows[ri].cells[col];
            proof {
                assert(cell == cells0[col as int]);
            }
            if cell.style.is_bold && !*bold {
                out.push(Emission::EnterBold);
                *bold = true;
            } else if *bold && !cell.style.is_bold {
                out.push(Emission::ResetAttributes);
                *bold = false;
            }
            if cell.style.fg_color != *fg {
                *fg = cell.style.fg_color;
                let actual: i32 = if *fg == -1i32 {
                    65535
                } else {
                    *fg
                };
                out.push(Emission::SetForeground(actual));
            }
            out.push(Emission::PutGlyph(cell.glyph));
            proof {
                assert(out@ =~= out_c + cell_out(cells0[col as int], b0, f0).0);
            }
            self.rows[ri].cells[col] = CanvasCell { dirty: false, ..cell };
            proof {
                assert forall|m: int|
                    0 <= m < v0.height && m != ri implies (#[trigger] self@.rows[m])
                    == selfpre.rows[m] by {
                    assert(self@.rows[m] == self.rows@[m]@);
                }
                assert(self@.rows[ri as int].cells =~= span_clean(
                    cells0,
                    first as int,
                    col as int,
                ));
                assert forall|m: int|
                    0 <= m < self@.height implies (#[trigger] self@.rows[m]).wf(self@.width) by {
                    if m != ri {
                        assert(self@.rows[m] == selfpre.rows[m]);
                        assert(selfpre.rows[m].wf(selfpre.width));
                    } else {
                        assert(self@.rows[ri as int].cells.len() == v0.width);
                    }
                }
                assert(out@ + span_out(cells0, col as int + 1, last as int, *bold, *fg).0 =~=
                    out_pre + seq![mv] + sp.0);
            }
            col = col + 1;
        }
        let ghost selfmid = self@;
        self.rows[ri].is_dirty = false;
        self.rows[ri].first_dirty = self.width;
        self.rows[ri].last_dirty = 0;
        proof {
            assert forall|m: int|
                0 <= m < v0.height && m != ri implies (#[trigger] self@.rows[m]) == selfmid.rows[m] by {
                assert(self@.rows[m] == self.rows@[m]@);
            }
            assert(self@.rows[ri as int].cells == span_clean(cells0, first as int, last as int));
            assert(self@.rows[ri as int] == clean_row(v0.rows[ri as int], v0.width));
            assert forall|m: int|
                0 <= m < self@.height implies (#[trigger] self@.rows[m]).wf(self@.width) by {
                if m != ri {
                    assert(self@.rows[m] == selfmid.rows[m]);
                    assert(selfmid.rows[m].wf(selfmid.width));
                } else {
                    assert(self@.rows[ri as int].cells.len() == v0.width);
                }
            }
        }
    }

    /// Repaint the dirty spans: walk the rows, and for each dirty one
    /// emit one cursor move to the span's start and then its cells,
    /// changing bold and foreground state only where a cell differs from
    /// what is already in force.  Returns the emissions for the caller to
    /// write out; afterwards every row is clean.
    #[verifier::loop_isolation(false)]
    pub fn repaint(&mut self) -> (out: Vec<Emission>)
        requires
            old(self).wf(),
        ensures
            final(self).wf(),
            final(self)@ == spec_repaint_state(old(self)@),
            out@ == spec_repaint_out(old(self)@),
    {
        let ghost v0 = old(self)@;
        let mut out: Vec<Emission> = Vec::new();
        let mut is_bold = false;
        let mut fg: i32 = 0;
        let height = self.height;
        let mut ri: usize = 0;
        while ri < height
            invariant
                0 <= ri <= height,
                self.height == old(self).height,
                self.width == old(self).width,
                self.start_row == old(self).start_row,
                self.start_col == old(self).start_col,
                self.cur_row == old(self).cur_row,
                self.cur_col == old(self).cur_col,
                self.wf(),
                forall|m: int|
                    0 <= m < ri ==> (#[trigger] self@.rows[m]) == clean_row(v0.rows[m], v0.width),
                forall|m: int| ri <= m < height ==> (#[trigger] self@.rows[m]) == v0.rows[m],
                rows_out(v0, 0, false, 0i32) == ({
                    let rest = rows_out(v0, ri as int, is_bold, fg);
                    (out@ + rest.0, rest.1, rest.2)
                }),
            decreases height - ri,
        {
            let ghost bold_in = is_bold;
            let ghost fg_in = fg;
            let ghost out_pre = out@;
            if self.rows[ri].is_dirty {
                self.repaint_row(ri, &mut out, &mut is_bold, &mut fg);
                proof {
                    let row = v0.rows[ri as int];
                    let mv = seq![
                        Emission::MoveCursor(
                            (v0.start_row + ri) as usize,
                            (v0.start_col + row.first_dirty) as usize,
                        )
                    ];
                    let sp = span_out(row.cells, row.first_dirty, row.last_dirty, bold_in, fg_in);
                    assert(out@ + rows_out(v0, ri as int + 1, is_bold, fg).0 =~= out_pre + (mv
                        + sp.0 + rows_out(v0, ri as int + 1, is_bold, fg).0));
                    assert(rows_out(v0, ri as int, bold_in, fg_in).0 == mv + sp.0 + rows_out(
                        v0,
                        ri as int + 1,
                        sp.1,
                        sp.2,
                    ).0);
                }
            } else {
                proof {
                    assert(self@.rows[ri as int] == v0.rows[ri as int]);
                    assert(self@.rows[ri as int] == clean_row(v0.rows[ri as int], v0.width));
                }
            }
            ri = ri + 1;
        }
        proof {
            assert(out@ + Seq::<Emission>::empty() =~= out@);
        }
        if is_bold {
            out.push(Emission::ResetAttributes);
        }
        proof {
            assert(self@.rows =~= spec_repaint_state(v0).rows);
            assert(self@ == spec_repaint_state(v0));
        }
        out
    }
}

proof fn lemma_rows_out_all_clean(v: CanvasV, i: int, bold: bool, fg: i32)
    requires
        forall|m: int| 0 <= m < v.height ==> !(#[trigger] v.rows[m]).is_dirty,
    ensures
        rows_out(v, i, bold, fg) == (Seq::<Emission>::empty(), bold, fg),
    decreases v.height - i,
{
    if i < 0 || i >= v.height {
    } else {
        lemma_rows_out_all_clean(v, i + 1, bold, fg);
    }
}

/// Repainting twice in a row, with nothing written in between, emits
/// nothing the second time and leaves the grid exactly as the first
/// repaint left it: after a repaint every row is clean, a clean row emits
/// nothing, and cleaning a clean row changes nothing.
pub proof fn lemma_repaint_idempotent(v: CanvasV)
    requires
        v.wf(),
    ensures
        spec_repaint_out(spec_repaint_state(v)) == Seq::<Emission>::empty(),
        spec_repaint_state(spec_repaint_state(v)) == spec_repaint_state(v),
{
    let v1 = spec_repaint_state(v);
    assert forall|m: int| 0 <= m < v1.height implies !(#[trigger] v1.rows[m]).is_dirty by {
        if 0 <= m < v1.rows.len() {
            assert(v1.rows[m] == clean_row(v.rows[m], v.width));
        }
    }
    lemma_rows_out_all_clean(v1, 0, false, 0i32);
    assert(spec_repaint_state(v1).rows =~= v1.rows);
}

/// Writing a concatenation is writing the parts in turn, stopping at the
/// first failure.
proof fn lemma_write_append(v: CanvasV, s1: Seq<char>, s2: Seq<char>, style: Style)
    ensures
        ({
            let w1 = spec_write(v, s1, style);
            spec_write(v, s1 + s2, style) == (if !w1.1 {
                (w1.0, false)
            } else {
                spec_write(w1.0, s2, style)
            })
        }),
    decreases s1.len(),
{
    if s1.len() == 0 {
        assert(s1 + s2 =~= s2);
    } else {
        assert((s1 + s2)[0] == s1[0]);
        assert((s1 + s2).drop_first() =~= s1.drop_first() + s2);
        assert((s1 + s2).len() > 0);
        let step = if s1[0] == '\n' {
            spec_newline(v)
        } else {
            spec_put(v, s1[0], style)
        };
        if step.1 {
            lemma_write_append(step.0, s1.drop_first(), s2, style);
        }
    }
}

/// The cells the `i`-th touched row holds after `text` is written from
/// the left edge of row `v.cur_row` of `v`, wrapping at the width: the
/// written glyphs in the given style up to where the text ran out, the
/// cells beyond them as they were.
pub open spec fn wrapped_cell_at(
    v: CanvasV,
    text: Seq<char>,
    style: Style,
    i: int,
    j: int,
) -> CanvasCell {
    let r0 = v.cur_row;
    let len = text.len() as int;
    let lo = i * v.width;
    let hi = if lo + v.width <= len {
        lo + v.width
    } else {
        len
    };
    if j < hi - lo {
        CanvasCell { dirty: true, glyph: text[lo + j], style: style }
    } else {
        v.rows[r0 + i].cells[j]
    }
}

pub open spec fn wrapped_cells(v: CanvasV, text: Seq<char>, style: Style, i: int) -> Seq<
    CanvasCell,
> {
    Seq::new(v.width as nat, |j: int| wrapped_cell_at(v, text, style, i, j))
}

/// The state the `i`-th touched row reaches when `text` is written from
/// the left edge of row `v.cur_row` of `v`, wrapping at the width: dirty
/// over exactly the written columns, holding `wrapped_cells`.
pub open spec fn wrapped_row_ok(
    v: CanvasV,
    v2: CanvasV,
    text: Seq<char>,
    style: Style,
    i: int,
) -> bool {
    let r0 = v.cur_row;
    let len = text.len() as int;
    let lo = i * v.width;
    let hi = if lo + v.width <= len {
        lo + v.width
    } else {
        len
    };
    v2.rows[r0 + i] == (RowV {
        is_dirty: true,
        first_dirty: 0,
        last_dirty: hi - lo - 1,
        cells: wrapped_cells(v, text, style, i),
    })
}

/// The state that writing `text` with no embedded newline from the left
/// edge of row `v.cur_row` reaches, stated in closed form: the cursor has
/// advanced by exactly `text.len()` cells row-major, every touched row is
/// as `wrapped_row_ok` says, and every other row is untouched.
pub open spec fn wrapped_state_ok(v: CanvasV, v2: CanvasV, text: Seq<char>, style: Style) -> bool {
    let r0 = v.cur_row;
    let len = text.len() as int;
    &&& v2.height == v.height
    &&& v2.width == v.width
    &&& v2.rows.len() == v.rows.len()
    &&& v2.start_row == v.start_row
    &&& v2.start_col == v.start_col
    &&& (v2.cur_row - r0) * v.width + v2.cur_col == len
    &&& 0 <= v2.cur_col < v.width
    &&& r0 <= v2.cur_row < v.height
    &&& (forall|m: int|
        0 <= m < v.height && !(r0 <= m && (m - r0) * v.width < len) ==> (#[trigger] v2.rows[m])
            == v.rows[m])
    &&& (forall|i: int|
        0 <= i && i * v.width < len ==> #[trigger] wrapped_row_ok(v, v2, text, style, i))
}

proof fn lemma_touch_is(r: RowV, col: int, cell: CanvasCell)
    ensures
        touch(r, col, cell) == (RowV {
            is_dirty: true,
            first_dirty: if col < r.first_dirty {
                col
            } else {
                r.first_dirty
            },
            last_dirty: if col > r.last_dirty {
                col
            } else {
                r.last_dirty
            },
            cells: r.cells.update(col, cell),
        }),
{
}

proof fn lemma_write_one(v1: CanvasV, ch: char, style: Style)
    requires
        ch != '\n',
    ensures
        spec_write(v1, seq![ch], style) == (spec_put(v1, ch, style).0, spec_put(v1, ch, style).1),
{
    let one = seq![ch];
    assert(one.len() == 1 && one[0] == ch);
    assert(one.drop_first() =~= Seq::<char>::empty());
    let step = spec_put(v1, ch, style);
    assert(spec_write(step.0, Seq::<char>::empty(), style) == (step.0, true));
}

proof fn lemma_wrapped_row_intro(v: CanvasV, v2: CanvasV, text: Seq<char>, style: Style, i: int)
    requires
        ({
            let lo = i * v.width;
            let hi = if lo + v.width <= text.len() {
                lo + v.width
            } else {
                text.len() as int
            };
            v2.rows[v.cur_row + i] == (RowV {
                is_dirty: true,
                first_dirty: 0,
                last_dirty: hi - lo - 1,
                cells: wrapped_cells(v, text, style, i),
            })
        }),
    ensures
        wrapped_row_ok(v, v2, text, style, i),
{
}

proof fn lemma_wrapped_cells_full(
    v: CanvasV,
    s0: Seq<char>,
    text: Seq<char>,
    style: Style,
    i: int,
)
    requires
        text.len() >= 1,
        s0 == text.take(text.len() as int - 1),
        0 <= i * v.width,
        i * v.width + v.width <= text.len() - 1,
        v.width >= 1,
    ensures
        wrapped_cells(v, s0, style, i) == wrapped_cells(v, text, style, i),
{
    let w = v.width;
    let len = text.len() as int;
    let lo = i * w;
    assert(wrapped_cells(v, s0, style, i).len() == w);
    assert(wrapped_cells(v, text, style, i).len() == w);
    assert forall|j: int|
        0 <= j < w implies wrapped_cells(v, s0, style, i)[j] == wrapped_cells(
        v,
        text,
        style,
        i,
    )[j] by {
        assert(0 <= lo + j < len - 1);
        assert(s0[lo + j] == text[lo + j]);
        assert(wrapped_cells(v, s0, style, i)[j] == (CanvasCell {
            dirty: true,
            glyph: s0[lo + j],
            style: style,
        }));
        assert(wrapped_cells(v, text, style, i)[j] == (CanvasCell {
            dirty: true,
            glyph: text[lo + j],
            style: style,
        }));
    }
    assert(wrapped_cells(v, s0, style, i) =~= wrapped_cells(v, text, style, i));
}

proof fn lemma_wrapped_cells_last(
    v: CanvasV,
    s0: Seq<char>,
    text: Seq<char>,
    style: Style,
    i: int,
    c1: int,
    cell: CanvasCell,
)
    requires
        text.len() >= 1,
        s0 == text.take(text.len() as int - 1),
        0 <= i * v.width,
        i * v.width + c1 == text.len() - 1,
        0 < c1 < v.width,
        cell == (CanvasCell { dirty: true, glyph: text[text.len() - 1], style: style }),
        v.rows[v.cur_row + i].cells.len() == v.width,
    ensures
        wrapped_cells(v, s0, style, i).update(c1, cell) == wrapped_cells(v, text, style, i),
{
    let w = v.width;
    let len = text.len() as int;
    let lo = i * w;
    assert(wrapped_cells(v, s0, style, i).len() == w);
    assert(wrapped_cells(v, text, style, i).len() == w);
    assert forall|j: int|
        0 <= j < w implies #[trigger] wrapped_cells(v, s0, style, i).update(c1, cell)[j]
        == wrapped_cells(v, text, style, i)[j] by {
        if j == c1 {
            assert(lo + c1 == len - 1);
            assert(wrapped_cells(v, text, style, i)[j] == (CanvasCell {
                dirty: true,
                glyph: text[lo + j],
                style: style,
            }));
        } else if j < c1 {
            assert(0 <= lo + j < len - 1);
            assert(s0[lo + j] == text[lo + j]);
            assert(wrapped_cells(v, s0, style, i)[j] == (CanvasCell {
                dirty: true,
                glyph: s0[lo + j],
                style: style,
            }));
            assert(wrapped_cells(v, text, style, i)[j] == (CanvasCell {
                dirty: true,
                glyph: text[lo + j],
                style: style,
            }));
        } else {
            assert(wrapped_cells(v, s0, style, i)[j] == v.rows[v.cur_row + i].cells[j]);
            assert(wrapped_cells(v, text, style, i)[j] == v.rows[v.cur_row + i].cells[j]);
        }
    }
    assert(wrapped_cells(v, s0, style, i).update(c1, cell) =~= wrapped_cells(v, text, style, i));
}

proof fn lemma_wrapped_cells_fresh(v: CanvasV, text: Seq<char>, style: Style, i: int, cell: CanvasCell)
    requires
        text.len() >= 1,
        0 <= i * v.width,
        i * v.width == text.len() - 1,
        v.width >= 1,
        cell == (CanvasCell { dirty: true, glyph: text[text.len() - 1], style: style }),
        v.rows[v.cur_row + i].cells.len() == v.width,
    ensures
        v.rows[v.cur_row + i].cells.update(0, cell) == wrapped_cells(v, text, style, i),
{
    let w = v.width;
    let len = text.len() as int;
    let lo = i * w;
    assert(wrapped_cells(v, text, style, i).len() == w);
    assert forall|j: int|
        0 <= j < w implies #[trigger] v.rows[v.cur_row + i].cells.update(0, cell)[j]
        == wrapped_cells(v, text, style, i)[j] by {
        if j == 0 {
            assert(wrapped_cells(v, text, style, i)[j] == (CanvasCell {
                dirty: true,
                glyph: text[lo],
                style: style,
            }));
            assert(lo == len - 1);
        } else {
            assert(wrapped_cells(v, text, style, i)[j] == v.rows[v.cur_row + i].cells[j]);
        }
    }
    assert(v.rows[v.cur_row + i].cells.update(0, cell) =~= wrapped_cells(v, text, style, i));
}

proof fn lemma_write_wrap_step(
    v: CanvasV,
    v1: CanvasV,
    s0: Seq<char>,
    text: Seq<char>,
    style: Style,
)
    requires
        v.wf(),
        v.cur_col == 0,
        v.cur_row < v.height,
        text.len() >= 1,
        s0 == text.take(text.len() as int - 1),
        forall|j: int| 0 <= j < text.len() ==> text[j] != '\n',
        text.len() < (v.height - v.cur_row) * v.width,
        forall|m: int|
            v.cur_row <= m < v.height ==> !(#[trigger] v.rows[m]).is_dirty && (
            #[trigger] v.rows[m]).last_dirty == 0,
        wrapped_state_ok(v, v1, s0, style),
    ensures
        spec_put(v1, text[text.len() - 1], style).1,
        wrapped_state_ok(v, spec_put(v1, text[text.len() - 1], style).0, text, style),
{
    let r0 = v.cur_row;
    let w = v.width;
    let len = text.len() as int;
    let ch = text[len - 1];
    let r1 = v1.cur_row;
    let c1 = v1.cur_col;
    let i1 = r1 - r0;
    assert(i1 * w + c1 == len - 1);
    assert(i1 * w <= len - 1);
    assert(i1 * w < (v.height - r0) * w);
    assert(i1 < v.height - r0) by (nonlinear_arith)
        requires
            i1 * w < (v.height - r0) * w,
            w >= 1,
    ;
    let cell = CanvasCell { dirty: true, glyph: ch, style: style };
    let v2 = spec_put(v1, ch, style).0;
    let ok = spec_put(v1, ch, style).1;
    // Success of the step, and the cursor equation.
    if c1 + 1 < w {
        assert(ok);
        assert((v2.cur_row - r0) * w + v2.cur_col == len);
    } else {
        assert(c1 == w - 1);
        assert((i1 + 1) * w == i1 * w + w) by (nonlinear_arith);
        assert((i1 + 1) * w == len);
        assert(i1 + 1 < v.height - r0) by (nonlinear_arith)
            requires
                (i1 + 1) * w < (v.height - r0) * w,
                w >= 1,
        ;
        assert(ok);
        assert((v2.cur_row - r0) * w + v2.cur_col == len);
    }
    // The step only rewrites row r1.
    assert(v2.rows == v1.rows.update(r1, touch(v1.rows[r1], c1, cell)));
    lemma_touch_is(v1.rows[r1], c1, cell);
    // Rows the write never reaches.
    assert forall|m: int|
        0 <= m < v.height && !(r0 <= m && (m - r0) * w < len) implies (#[trigger] v2.rows[m])
        == v.rows[m] by {
        assert(m != r1);
        assert(!(r0 <= m && (m - r0) * w < len - 1));
    }
    // The touched rows.
    assert forall|i: int| 0 <= i && i * w < len implies #[trigger] wrapped_row_ok(
        v,
        v2,
        text,
        style,
        i,
    ) by {
        assert(i <= i1) by (nonlinear_arith)
            requires
                i * w < len,
                len == i1 * w + c1 + 1,
                0 <= c1 < w,
                w >= 1,
        ;
        assert(0 <= i * w) by (nonlinear_arith)
            requires
                0 <= i,
                0 <= w,
        ;
        let lo = i * w;
        let hi = if lo + w <= len {
            lo + w
        } else {
            len
        };
        if i < i1 {
            assert((i + 1) * w <= i1 * w) by (nonlinear_arith)
                requires
                    i + 1 <= i1,
                    w >= 1,
            ;
            assert((i + 1) * w == i * w + w) by (nonlinear_arith);
            assert(hi == lo + w);
            assert(i * w < len - 1);
            assert(wrapped_row_ok(v, v1, s0, style, i));
            assert(v2.rows[r0 + i] == v1.rows[r0 + i]);
            lemma_wrapped_cells_full(v, s0, text, style, i);
            assert(v2.rows[r0 + i] == (RowV {
                is_dirty: true,
                first_dirty: 0,
                last_dirty: hi - lo - 1,
                cells: wrapped_cells(v, text, style, i),
            }));
            lemma_wrapped_row_intro(v, v2, text, style, i);
        } else {
            assert(i == i1);
            assert(lo == i1 * w);
            assert(hi == len);
            if c1 > 0 {
                assert(i1 * w < len - 1);
                assert(wrapped_row_ok(v, v1, s0, style, i1));
                assert(v1.rows[r0 + i1] == (RowV {
                    is_dirty: true,
                    first_dirty: 0,
                    last_dirty: c1 - 1,
                    cells: wrapped_cells(v, s0, style, i1),
                }));
                assert(v2.rows[r1] == touch(v1.rows[r1], c1, cell));
                assert(wrapped_cells(v, s0, style, i1).len() == w);
                lemma_wrapped_cells_last(v, s0, text, style, i1, c1, cell);
                assert(v2.rows[r0 + i1] == (RowV {
                    is_dirty: true,
                    first_dirty: 0,
                    last_dirty: c1,
                    cells: wrapped_cells(v, text, style, i1),
                }));
                lemma_wrapped_row_intro(v, v2, text, style, i1);
            } else {
                assert(i1 * w == len - 1);
                assert(!(i1 * w < len - 1));
                assert(v1.rows[r1] == v.rows[r1]);
                assert(!v.rows[r1].is_dirty && v.rows[r1].last_dirty == 0);
                assert(v.rows[r1].wf(w));
                assert(hi - lo == 1);
                assert(v2.rows[r1] == touch(v.rows[r1], 0, cell));
                lemma_touch_is(v.rows[r1], 0, cell);
                lemma_wrapped_cells_fresh(v, text, style, i1, cell);
                assert(v2.rows[r0 + i1] == (RowV {
                    is_dirty: true,
                    first_dirty: 0,
                    last_dirty: 0,
                    cells: wrapped_cells(v, text, style, i1),
                }));
                lemma_wrapped_row_intro(v, v2, text, style, i1);
            }
        }
    }
}

/// Writing text with no embedded newline from the left edge of a row,
/// over rows that are clean with the empty-span sentinel, wraps exactly:
/// the write succeeds when it fits above the bottom edge, the glyphs land
/// row-major, each touched row's dirty span covers exactly the written
/// columns, and every other row is untouched.
pub proof fn lemma_write_wrap(v: CanvasV, text: Seq<char>, style: Style)
    requires
        v.wf(),
        v.cur_col == 0,
        v.cur_row < v.height,
        forall|j: int| 0 <= j < text.len() ==> text[j] != '\n',
        text.len() < (v.height - v.cur_row) * v.width,
        forall|m: int|
            v.cur_row <= m < v.height ==> !(#[trigger] v.rows[m]).is_dirty && (
            #[trigger] v.rows[m]).last_dirty == 0,
    ensures
        spec_write(v, text, style).1,
        wrapped_state_ok(v, spec_write(v, text, style).0, text, style),
    decreases text.len(),
{
    let len = text.len() as int;
    if len == 0 {
    } else {
        let s0 = text.take(len - 1);
        let ch = text[len - 1];
        lemma_write_wrap(v, s0, style);
        let v1 = spec_write(v, s0, style).0;
        assert(text =~= s0 + seq![ch]);
        lemma_write_append(v, s0, seq![ch], style);
        assert(ch != '\n');
        lemma_write_one(v1, ch, style);
        lemma_write_wrap_step(v, v1, s0, text, style);
        assert(spec_write(v, text, style) == (spec_put(v1, ch, style).0, spec_put(
            v1,
            ch,
            style,
        ).1));
    }
}

/// A blank cell: a space in the default style, marked dirty.
pub open spec fn blank_cell() -> CanvasCell {
    CanvasCell { dirty: true, glyph: ' ', style: normal_style() }
}

/// Create a canvas of `height` rows by `width` columns of blank cells,
/// placed at the given offsets on the terminal, with every row clean and
/// the cursor at the origin.
#[allow(non_snake_case)]
#[verifier::loop_isolation(false)]
pub fn Canvas(start_row: usize, start_col: usize, height: usize, width: usize) -> (c: Canvas)
    requires
        height >= 1,
        width >= 1,
        start_row + height <= usize::MAX,
        start_col + width <= usize::MAX,
    ensures
        c.wf(),
        c.start_row == start_row,
        c.start_col == start_col,
        c.height == height,
        c.width == width,
        c.cur_row == 0,
        c.cur_col == 0,
        forall|i: int|
            0 <= i < height ==> (#[trigger] c@.rows[i]) == (RowV {
                is_dirty: false,
                first_dirty: 0,
                last_dirty: 0,
                cells: Seq::new(width as nat, |j: int| CanvasCell {
                    dirty: false,
                    glyph: ' ',
                    style: normal_style(),
                }),
            }),
{
    let mut rows: Vec<CanvasRow> = Vec::new();
    let ghost blank_row_cells = Seq::new(width as nat, |j: int| CanvasCell {
        dirty: false,
        glyph: ' ',
        style: normal_style(),
    });
    let mut i: usize = 0;
    while i < height
        invariant
            0 <= i <= height,
            rows@.len() == i,
            forall|m: int|
                0 <= m < i ==> (#[trigger] rows@[m])@ == (RowV {
                    is_dirty: false,
                    first_dirty: 0,
                    last_dirty: 0,
                    cells: blank_row_cells,
                }),
        decreases height - i,
    {
        let mut cells: Vec<CanvasCell> = Vec::new();
        let mut j: usize = 0;
        while j < width
            invariant
                0 <= j <= width,
                cells@.len() == j,
                forall|m: int|
                    0 <= m < j ==> (#[trigger] cells@[m]) == (CanvasCell {
                        dirty: false,
                        glyph: ' ',
                        style: normal_style(),
                    }),
            decreases width - j,
        {
            cells.push(CanvasCell { dirty: false, glyph: ' ', style: crate::style::Style() });
            j = j + 1;
        }
        proof {
            assert(cells@ =~= blank_row_cells);
        }
        rows.push(CanvasRow { is_dirty: false, first_dirty: 0, last_dirty: 0, cells });
        i = i + 1;
    }
    Canvas { start_row, start_col, cur_row: 0, cur_col: 0, height, width, rows }
}

} // verus!
