//! The double-buffered screen: game code draws into the current grid, and a
//! flush diffs it against the last-flushed grid and emits a minimal command
//! stream for the terminal sink — a cursor move only where the next changed
//! cell does not directly follow the previous one, a style change only where
//! the style differs from the one last sent.
//!
//! The screen itself performs no device I/O: `flush` returns the commands in
//! order, and the caller hands them to the terminal.

use vstd::prelude::*;

use crate::buffer::{diff_of, lemma_equal_buffers_empty_diff, Buffer};
use crate::cell::{default_cell, Attrs, BufCell, Color};

verus! {

/// One output operation for the terminal sink, to be performed in order.
#[derive(Copy, Clone, PartialEq, Eq, Structural, Debug)]
pub enum Command {
    /// Put the cursor at `(col, row)`.
    MoveTo(usize, usize),
    /// Switch the foreground colour.
    SetFg(Color),
    /// Switch the background colour.
    SetBg(Color),
    /// Switch the attribute set.
    SetAttrs(Attrs),
    /// Print one glyph at the cursor, which then advances one column.
    Print(char),
}

/// The running state of the emitter: the style last sent and the position
/// last printed, if any.
pub struct EmitState {
    pub fg: Color,
    pub bg: Color,
    pub attrs: Attrs,
    pub last: Option<(usize, usize)>,
}

/// The emitter's state at the start of a flush: default style, no position.
pub open spec fn init_state() -> EmitState {
    EmitState { fg: Color::Reset, bg: Color::Reset, attrs: Attrs { bits: 0 }, last: None }
}

/// A cursor move is needed unless the cell directly follows the last
/// printed one on the same row.
pub open spec fn needs_move(e: EmitState, col: usize, row: usize) -> bool {
    !match e.last {
        Some(p) => col == p.0 + 1 && row == p.1,
        None => false,
    }
}

/// The commands one changed cell adds to the stream, given the emitter's
/// state: an optional cursor move, a style command for each component that
/// differs from the running style, then the glyph.
pub open spec fn step_cmds(e: EmitState, t: (usize, usize, BufCell)) -> Seq<Command> {
    (if needs_move(e, t.0, t.1) {
        seq![Command::MoveTo(t.0, t.1)]
    } else {
        Seq::empty()
    }) + (if t.2.fg != e.fg {
        seq![Command::SetFg(t.2.fg)]
    } else {
        Seq::empty()
    }) + (if t.2.bg != e.bg {
        seq![Command::SetBg(t.2.bg)]
    } else {
        Seq::empty()
    }) + (if t.2.attrs != e.attrs {
        seq![Command::SetAttrs(t.2.attrs)]
    } else {
        Seq::empty()
    }) + seq![Command::Print(t.2.content)]
}

/// The emitter's state after one changed cell.
pub open spec fn step_state(e: EmitState, t: (usize, usize, BufCell)) -> EmitState {
    EmitState { fg: t.2.fg, bg: t.2.bg, attrs: t.2.attrs, last: Some((t.0, t.1)) }
}

/// The emitter's state after a whole diff.
pub open spec fn state_after(d: Seq<(usize, usize, BufCell)>, e: EmitState) -> EmitState
    decreases d.len(),
{
    if d.len() == 0 {
        e
    } else {
        step_state(state_after(d.drop_last(), e), d.last())
    }
}

/// Every command the diff makes the emitter send, in order.
pub open spec fn emitted(d: Seq<(usize, usize, BufCell)>, e: EmitState) -> Seq<Command>
    decreases d.len(),
{
    if d.len() == 0 {
        Seq::empty()
    } else {
        emitted(d.drop_last(), e) + step_cmds(state_after(d.drop_last(), e), d.last())
    }
}

/// The fixed tail of every flush: reset the style, park the cursor.
pub open spec fn trailing(cursor: (usize, usize)) -> Seq<Command> {
    seq![
        Command::SetFg(Color::Reset),
        Command::SetBg(Color::Reset),
        Command::SetAttrs(Attrs { bits: 0 }),
        Command::MoveTo(cursor.0, cursor.1),
    ]
}

/// The emitter sends at most five commands per changed cell, so a flush
/// costs O(changed cells), never O(grid area).
pub proof fn lemma_emitted_len(d: Seq<(usize, usize, BufCell)>, e: EmitState)
    ensures
        emitted(d, e).len() <= 5 * d.len(),
    decreases d.len(),
{
    if d.len() > 0 {
        lemma_emitted_len(d.drop_last(), e);
    }
}

/// A flush of two grids that agree emits nothing before the trailing
/// commands: the diff is empty, so no style or print command is sent.
pub proof fn lemma_noop_flush(cur: Seq<BufCell>, prev: Seq<BufCell>, w: usize, len: int, e: EmitState)
    requires
        forall|i: int| 0 <= i < len ==> cur[i] == prev[i],
    ensures
        emitted(diff_of(cur, prev, w, len), e) == Seq::<Command>::empty(),
{
    lemma_equal_buffers_empty_diff(cur, prev, w, len);
}

/// Calling `flush` twice with no writes in between: the first flush leaves a
/// blank current grid and the flushed frame as the previous grid, so when
/// the flushed frame was itself blank, the second flush's diff is empty and
/// it emits exactly the trailing reset and cursor move. (With a non-blank
/// frame the second flush instead repaints those cells blank: one non-blank
/// cell is enough to make it emit a print.)
pub proof fn lemma_flush_twice_blank(
    frame: Seq<BufCell>,
    blank: Seq<BufCell>,
    w: usize,
    len: int,
    cursor: (usize, usize),
)
    requires
        forall|i: int| 0 <= i < len ==> frame[i] == default_cell(),
        forall|i: int| 0 <= i < len ==> blank[i] == default_cell(),
    ensures
        emitted(diff_of(blank, frame, w, len), init_state()) + trailing(cursor) == trailing(
            cursor,
        ),
{
    lemma_noop_flush(blank, frame, w, len, init_state());
    assert(emitted(diff_of(blank, frame, w, len), init_state()) + trailing(cursor) =~= trailing(
        cursor,
    ));
}

/// Writing a cell and reading that position back returns exactly the
/// written cell.
pub proof fn lemma_set_roundtrip(cells: Seq<BufCell>, i: int, x: BufCell)
    requires
        0 <= i < cells.len(),
    ensures
        cells.update(i, x)[i] == x,
{
}

/// The double buffer: the current grid is drawn into, the previous grid
/// holds what was last flushed.
pub struct Screen {
    pub size: (usize, usize),
    pub current: Buffer,
    pub previous: Buffer,
}

impl Screen {
    /// Both grids match the screen's dimensions.
    pub open spec fn wf(self) -> bool {
        &&& self.current.wf()
        &&& self.previous.wf()
        &&& self.current.size == self.size
        &&& self.previous.size == self.size
        &&& self.size.0 > 0
    }

    /// What is currently drawn.
    pub open spec fn cur(self) -> Seq<BufCell> {
        self.current.cells@
    }

    /// What was last flushed.
    pub open spec fn prev(self) -> Seq<BufCell> {
        self.previous.cells@
    }

    /// The row-major index of `(col, row)`.
    pub open spec fn idx(self, col: usize, row: usize) -> int {
        col + row * self.size.0
    }

    /// A blank screen of the given size.
    pub fn new(size: (usize, usize)) -> (r: Screen)
        requires
            size.0 > 0,
            size.0 * size.1 <= usize::MAX,
        ensures
            r.wf(),
            r.size == size,
            r.cur().len() == size.0 * size.1,
            forall|i: int| 0 <= i < r.cur().len() ==> r.cur()[i] == default_cell(),
            forall|i: int| 0 <= i < r.prev().len() ==> r.prev()[i] == default_cell(),
    {
        Screen { size, current: Buffer::empty(size), previous: Buffer::empty(size) }
    }

    /// Blanks the previous grid, forcing the next flush to repaint every
    /// non-blank cell of the current grid.
    pub fn reset(&mut self)
        ensures
            final(self).size == old(self).size,
            final(self).current == old(self).current,
            final(self).prev().len() == old(self).prev().len(),
            forall|i: int|
                0 <= i < final(self).prev().len() ==> final(self).prev()[i] == default_cell(),
    {
        self.previous.reset();
    }

    /// Fills the whole current grid with one cell.
    pub fn fill(&mut self, with: BufCell)
        requires
            old(self).wf(),
        ensures
            final(self).wf(),
            final(self).size == old(self).size,
            final(self).previous == old(self).previous,
            final(self).cur().len() == old(self).cur().len(),
            forall|i: int| 0 <= i < final(self).cur().len() ==> final(self).cur()[i] == with,
    {
        let n = self.current.cells.len();
        let mut k: usize = 0;
        while k < n
            invariant
                k <= n,
                self.current.cells.len() == n,
                self.current.size == old(self).current.size,
                self.size == old(self).size,
                self.previous == old(self).previous,
                forall|i: int| 0 <= i < k ==> self.current.cells@[i] == with,
        decreases n - k,
        {
            self.current.cells.set(k, with);
            k = k + 1;
        }
    }

    /// Overwrites the glyph of one cell of the current grid, keeping its
    /// colours and attributes.
    pub fn set_content(&mut self, col: usize, row: usize, to: char)
        requires
            old(self).wf(),
            col < old(self).size.0,
            row < old(self).size.1,
        ensures
            final(self).wf(),
            final(self).size == old(self).size,
            final(self).previous == old(self).previous,
            final(self).cur() == old(self).cur().update(
                old(self).idx(col, row),
                (BufCell {
                    content: to,
                    fg: old(self).cur()[old(self).idx(col, row)].fg,
                    bg: old(self).cur()[old(self).idx(col, row)].bg,
                    attrs: old(self).cur()[old(self).idx(col, row)].attrs,
                }),
            ),
    {
        proof {
            crate::board::lemma_index_in_range(
                self.size.0 as int,
                self.size.1 as int,
                col as int,
                row as int,
            );
        }
        let i = col + row * self.size.0;
        let old_cell = self.current.cells[i];
        self.current.cells.set(
            i,
            BufCell { content: to, fg: old_cell.fg, bg: old_cell.bg, attrs: old_cell.attrs },
        );
    }

    /// Overwrites one full cell of the current grid.
    pub fn set(&mut self, col: usize, row: usize, to: BufCell)
        requires
            old(self).wf(),
            col < old(self).size.0,
            row < old(self).size.1,
        ensures
            final(self).wf(),
            final(self).size == old(self).size,
            final(self).previous == old(self).previous,
            final(self).cur() == old(self).cur().update(old(self).idx(col, row), to),
    {
        proof {
            crate::board::lemma_index_in_range(
                self.size.0 as int,
                self.size.1 as int,
                col as int,
                row as int,
            );
        }
        let i = col + row * self.size.0;
        self.current.cells.set(i, to);
    }

    /// Reads one cell of the current grid back.
    pub fn get(&self, col: usize, row: usize) -> (r: BufCell)
        requires
            self.wf(),
            col < self.size.0,
            row < self.size.1,
        ensures
            r == self.cur()[self.idx(col, row)],
    {
        proof {
            crate::board::lemma_index_in_range(
                self.size.0 as int,
                self.size.1 as int,
                col as int,
                row as int,
            );
        }
        self.current.cells[col + row * self.size.0]
    }

    /// Writes consecutive glyphs left to right starting at `pos`, keeping
    /// each cell's colours. The text must fit on the row.
    pub fn write_text(&mut self, pos: (usize, usize), text: &str)
        requires
            old(self).wf(),
            pos.0 + text@.len() <= old(self).size.0,
            pos.1 < old(self).size.1,
        ensures
            final(self).wf(),
            final(self).size == old(self).size,
            final(self).previous == old(self).previous,
            final(self).cur().len() == old(self).cur().len(),
            forall|k: int|
                0 <= k < text@.len() ==> (#[trigger] final(self).cur()[old(self).idx(
                    (pos.0 + k) as usize,
                    pos.1,
                )]).content == text@[k],
            forall|i: int|
                0 <= i < final(self).cur().len() ==> ((#[trigger] final(self).cur()[i]).fg == old(self).cur()[i].fg && final(self).cur()[i].bg == old(self).cur()[i].bg && final(self).cur()[i].attrs == old(self).cur()[i].attrs),
            forall|i: int|
                0 <= i < final(self).cur().len() ==> ((#[trigger] final(self).cur()[i]) == old(self).cur()[i] || exists|k: int|
                    0 <= k < text@.len() && i == #[trigger] old(self).idx((pos.0 + k) as usize, pos.1)),
    {
        let n = text.unicode_len();
        let mut k: usize = 0;
        while k < n
            invariant
                k <= n,
                n == text@.len(),
                self.wf(),
                self.size == old(self).size,
                self.previous == old(self).previous,
                self.cur().len() == old(self).cur().len(),
                pos.0 + n <= self.size.0,
                pos.1 < self.size.1,
                forall|j: int|
                    0 <= j < k ==> (#[trigger] self.cur()[old(self).idx(
                        (pos.0 + j) as usize,
                        pos.1,
                    )]).content == text@[j],
                forall|i: int|
                    0 <= i < self.cur().len() ==> ((#[trigger] self.cur()[i]).fg == old(self).cur()[i].fg && self.cur()[i].bg == old(self).cur()[i].bg && self.cur()[i].attrs
                        == old(self).cur()[i].attrs),
                forall|i: int|
                    0 <= i < self.cur().len() ==> ((#[trigger] self.cur()[i]) == old(self).cur()[i]
                        || exists|j: int|
                        0 <= j < k && i == #[trigger] old(self).idx((pos.0 + j) as usize, pos.1)),
            decreases n - k,
        {
            proof {
                crate::board::lemma_index_in_range(
                    self.size.0 as int,
                    self.size.1 as int,
                    pos.0 + k as int,
                    pos.1 as int,
                );
            }
            let ch = text.get_char(k);
            self.set_content(pos.0 + k, pos.1, ch);
            proof {
                assert forall|j: int| 0 <= j < k + 1 implies (#[trigger] self.cur()[old(self).idx(
                    (pos.0 + j) as usize,
                    pos.1,
                )]).content == text@[j] by {
                    crate::board::lemma_index_in_range(
                        self.size.0 as int,
                        self.size.1 as int,
                        pos.0 + j,
                        pos.1 as int,
                    );
                }
                assert forall|i: int|
                    0 <= i < self.cur().len() implies ((#[trigger] self.cur()[i]) == old(
                    self,
                ).cur()[i] || exists|j: int|
                    0 <= j < k + 1 && i == #[trigger] old(self).idx((pos.0 + j) as usize, pos.1))
                    by {
                    if self.cur()[i] != old(self).cur()[i] {
                        if i == old(self).idx((pos.0 + k) as usize, pos.1) {
                            assert(0 <= k < k + 1 && i == old(self).idx(
                                (pos.0 + k as int) as usize,
                                pos.1,
                            ));
                        } else {
                            let j = choose|j: int|
                                0 <= j < k && i == #[trigger] old(self).idx(
                                    (pos.0 + j) as usize,
                                    pos.1,
                                );
                            assert(0 <= j < k + 1 && i == old(self).idx(
                                (pos.0 + j) as usize,
                                pos.1,
                            ));
                        }
                    }
                }
            }
            k = k + 1;
        }
    }

    /// The flush: diff the two grids, emit the coalesced command stream plus
    /// the trailing style reset and cursor move, then rotate the buffers —
    /// the drawn frame becomes the previous grid and the current grid comes
    /// back blank.
    pub fn flush(&mut self, cursor: (usize, usize)) -> (out: Vec<Command>)
        requires
            old(self).wf(),
        ensures
            final(self).wf(),
            final(self).size == old(self).size,
            out@ == emitted(
                diff_of(old(self).cur(), old(self).prev(), old(self).size.0, old(self).cur().len() as int),
                init_state(),
            ) + trailing(cursor),
            final(self).prev() == old(self).cur(),
            final(self).cur().len() == old(self).cur().len(),
            forall|i: int|
                0 <= i < final(self).cur().len() ==> final(self).cur()[i] == default_cell(),
    {
        let d = self.current.diff(&self.previous);
        let mut out: Vec<Command> = Vec::new();
        let mut fg = Color::Reset;
        let mut bg = Color::Reset;
        let mut attrs = Attrs::none();
        let mut last: Option<(usize, usize)> = None;
        let mut i: usize = 0;
        while i < d.len()
            invariant
                i <= d.len(),
                out@ == emitted(d@.take(i as int), init_state()),
                fg == state_after(d@.take(i as int), init_state()).fg,
                bg == state_after(d@.take(i as int), init_state()).bg,
                attrs == state_after(d@.take(i as int), init_state()).attrs,
                last == state_after(d@.take(i as int), init_state()).last,
            decreases d.len() - i,
        {
            let ghost st = state_after(d@.take(i as int), init_state());
            let (col, row, cell) = d[i];
            let needs = match last {
                Some((pc, pr)) => !(col > 0 && pc == col - 1 && pr == row),
                None => true,
            };
            proof {
                assert(needs == needs_move(st, col, row));
            }
            if needs {
                out.push(Command::MoveTo(col, row));
            }
            if cell.fg != fg {
                fg = cell.fg;
                out.push(Command::SetFg(fg));
            }
            if cell.bg != bg {
                bg = cell.bg;
                out.push(Command::SetBg(bg));
            }
            if cell.attrs != attrs {
                attrs = cell.attrs;
                out.push(Command::SetAttrs(attrs));
            }
            last = Some((col, row));
            out.push(Command::Print(cell.content));
            proof {
                assert(d@.take(i as int + 1).drop_last() =~= d@.take(i as int));
                assert(d@.take(i as int + 1).last() == d@[i as int]);
                assert(out@ =~= emitted(d@.take(i as int), init_state()) + step_cmds(
                    st,
                    d@[i as int],
                ));
            }
            i = i + 1;
        }
        proof {
            assert(d@.take(d@.len() as int) =~= d@);
        }
        out.push(Command::SetFg(Color::Reset));
        out.push(Command::SetBg(Color::Reset));
        out.push(Command::SetAttrs(Attrs { bits: 0 }));
        out.push(Command::MoveTo(cursor.0, cursor.1));
        proof {
            assert(out@ =~= emitted(d@, init_state()) + trailing(cursor));
        }
        self.previous.reset();
        core::mem::swap(&mut self.current, &mut self.previous);
        out
    }
}

} // verus!
