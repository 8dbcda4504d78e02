//! The game driver state: a board, the screen it is drawn into, the
//! selection cursor and the status line. The event loop itself lives with
//! the terminal I/O; this module supplies the verified pieces it calls: how
//! a frame is painted, which commands a flush emits, and how an input event
//! changes the state.

use vstd::arithmetic::div_mod::{lemma_div_is_ordered, lemma_fundamental_div_mod};
use vstd::prelude::*;
use vstd::string::StrSliceExecFns;

use crate::board::{
    cell_of_square, flag_transition, square_at, uncover_transition, Board, Difficulty,
};
use crate::buffer::diff_of;
use crate::cell::BufCell;
use crate::screen::{emitted, init_state, trailing, Command, Screen};

verus! {

/// A recognised key, after the terminal's own key codes are mapped: quit,
/// the four directions (arrow or letter bindings), flag toggle and reveal.
#[derive(Copy, Clone, PartialEq, Eq, Structural, Debug)]
pub enum Key {
    Quit,
    Up,
    Down,
    Left,
    Right,
    Flag,
    Reveal,
    Other,
}

/// An input event: a key press, a terminal resize (which ends the session),
/// or anything else (ignored).
#[derive(Copy, Clone, PartialEq, Eq, Structural, Debug)]
pub enum Event {
    Key(Key),
    Resize,
    Other,
}

/// Where a board position lands on the screen: one blank column between
/// board columns, and a one-cell border all around.
pub open spec fn spec_board_to_screen_coords(board: (usize, usize)) -> (usize, usize) {
    (((board.0 * 2 + 1) as usize), ((board.1 + 1) as usize))
}

/// Maps board coordinates to screen coordinates.
#[verifier::when_used_as_spec(spec_board_to_screen_coords)]
pub fn board_to_screen_coords(board: (usize, usize)) -> (r: (usize, usize))
    requires
        board.0 <= (usize::MAX - 1) / 2,
        board.1 < usize::MAX,
    ensures
        r == spec_board_to_screen_coords(board),
{
    (board.0 * 2 + 1, board.1 + 1)
}

/// What a flag toggle at the selection leaves behind: the flag state
/// machine applied to the selected square, with whichever answer it gave.
pub open spec fn flag_outcome(g0: Game, g1: Game) -> bool {
    exists|committed: bool| flag_transition(g0.board, g1.board, g0.selection, committed)
}

/// What a reveal at the selection leaves behind: the session goes on
/// exactly when no bomb was uncovered.
pub open spec fn uncover_outcome(g0: Game, g1: Game, go_on: bool) -> bool {
    uncover_transition(g0.board, g1.board, g0.selection, !go_on)
}

/// The glyph the frame paints over a cell outside the board area: the
/// status line along the top, then the corners and edges of the border.
/// `None` where nothing is painted.
pub open spec fn border_glyph(status: Seq<char>, w: int, h: int, c: int, r: int) -> Option<char> {
    if r == 0 && 1 <= c < 1 + status.len() {
        Some(status[c - 1])
    } else if c == 0 && r == 0 {
        Some('┏')
    } else if c == w - 1 && r == 0 {
        Some('┓')
    } else if c == 0 && r == h - 1 {
        Some('┗')
    } else if c == w - 1 && r == h - 1 {
        Some('┛')
    } else if c == 0 || c == w - 1 {
        Some('┃')
    } else if r == 0 || r == h - 1 {
        Some('━')
    } else {
        None
    }
}

/// True of the screen positions that show a board square.
pub open spec fn is_board_pos(bw: int, bh: int, c: int, r: int) -> bool {
    1 <= r <= bh && c >= 1 && (c - 1) % 2 == 0 && (c - 1) / 2 < bw
}

/// What one frame leaves in the cell at `(c, r)`: the visual form of the
/// board square shown there, a border or status glyph over the cell's old
/// colours, or the old cell untouched.
pub open spec fn frame_cell(
    b: Board,
    status: Seq<char>,
    w: int,
    h: int,
    old_cell: BufCell,
    c: int,
    r: int,
) -> BufCell {
    if is_board_pos(b.size.0 as int, b.size.1 as int, c, r) {
        cell_of_square(square_at(b.squares@, b.size.0 as int, (c - 1) / 2, r - 1))
    } else {
        match border_glyph(status, w, h, c, r) {
            Some(g) => BufCell {
                content: g,
                fg: old_cell.fg,
                bg: old_cell.bg,
                attrs: old_cell.attrs,
            },
            None => old_cell,
        }
    }
}

/// The driver state: the board, the screen it is drawn into, the status
/// line, the selection cursor and the terminal size.
pub struct Game {
    pub board: Board,
    pub screen: Screen,
    pub status_message: String,
    pub selection: (usize, usize),
    pub term_size: (usize, usize),
}

impl Game {
    /// The driver invariant: board and screen are well formed, the board
    /// fills the terminal inside a one-cell border with a blank column
    /// between board columns, the selection is on the board, and the status
    /// line fits the top border.
    pub open spec fn wf(self) -> bool {
        &&& self.board.wf()
        &&& self.screen.wf()
        &&& self.term_size == self.screen.size
        &&& self.term_size.0 >= 4
        &&& self.term_size.1 >= 3
        &&& self.board.size.0 == (self.term_size.0 - 2) / 2
        &&& self.board.size.1 == self.term_size.1 - 2
        &&& self.selection.0 < self.board.size.0
        &&& self.selection.1 < self.board.size.1
        &&& self.status_message@.len() <= self.term_size.0 - 2
    }

    /// A fresh game for a terminal of the given size: a generated board
    /// sized to fit, a blank screen, the selection at the board's centre.
    pub fn new(
        term_size: (usize, usize),
        difficulty: Difficulty,
        rng: &mut tinyrand::StdRand,
    ) -> (g: Game)
        requires
            term_size.0 >= 4,
            term_size.1 >= 3,
            term_size.0 * term_size.1 <= usize::MAX / 100,
        ensures
            g.wf(),
            g.term_size == term_size,
            g.board.size == (((term_size.0 - 2) / 2) as usize, (term_size.1 - 2) as usize),
            g.board.num_bombs as int == (g.board.size.0 * g.board.size.1
                * difficulty.spec_percentage_bombs()) as int / 100,
            g.board.flagged_squares == 0,
            g.board.flagged_bombs == 0,
            g.selection == ((g.board.size.0 / 2) as usize, (g.board.size.1 / 2) as usize),
            g.status_message@.len() == 0,
    {
        let (w, h) = term_size;
        let board_w = (w - 2) / 2;
        let board_h = h - 2;
        proof {
            assert(board_w >= 1) by {
                lemma_div_is_ordered(2, w as int - 2, 2);
            }
            assert(board_w * board_h <= w * h) by (nonlinear_arith)
                requires
                    0 < board_w <= w,
                    0 < board_h <= h,
            ;
            assert(w * h <= usize::MAX / 100);
        }
        let board = Board::generate((board_w, board_h), difficulty, rng);
        let screen = Screen::new(term_size);
        proof {
            assert(board_w / 2 < board_w) by {
                assert(board_w >= 1);
                lemma_fundamental_div_mod(board_w as int, 2);
            }
            assert(board_h / 2 < board_h) by {
                lemma_fundamental_div_mod(board_h as int, 2);
            }
        }
        Game {
            board,
            screen,
            status_message: String::new(),
            selection: (board_w / 2, board_h / 2),
            term_size,
        }
    }

    /// Paints the whole frame into the current grid, one row-major pass:
    /// every board square's visual form at its screen position, the border
    /// and the status line as glyphs over the cells' old colours, and every
    /// other cell untouched. The previous grid is not touched.
    #[verifier::rlimit(100)]
    pub fn render(&mut self)
        requires
            old(self).wf(),
        ensures
            final(self).wf(),
            final(self).board == old(self).board,
            final(self).status_message == old(self).status_message,
            final(self).selection == old(self).selection,
            final(self).term_size == old(self).term_size,
            final(self).screen.size == old(self).screen.size,
            final(self).screen.prev() == old(self).screen.prev(),
            final(self).screen.cur().len() == old(self).screen.cur().len(),
            forall|k: int|
                0 <= k < old(self).screen.cur().len() ==> #[trigger] final(self).screen.cur()[k]
                    == frame_cell(
                    old(self).board,
                    old(self).status_message@,
                    old(self).term_size.0 as int,
                    old(self).term_size.1 as int,
                    old(self).screen.cur()[k],
                    k % (old(self).term_size.0 as int),
                    k / (old(self).term_size.0 as int),
                ),
    {
        let w = self.term_size.0;
        let h = self.term_size.1;
        let bw = self.board.size.0;
        let bh = self.board.size.1;
        let status_len = self.status_message.as_str().unicode_len();
        let n = self.screen.current.cells.len();
        proof {
            assert(n == w * h);
        }
        let mut k: usize = 0;
        while k < n
            invariant
                self.wf(),
                n == w * h,
                w == self.term_size.0,
                h == self.term_size.1,
                bw == self.board.size.0,
                bh == self.board.size.1,
                status_len == self.status_message@.len(),
                k <= n,
                self.board == old(self).board,
                self.status_message == old(self).status_message,
                self.selection == old(self).selection,
                self.term_size == old(self).term_size,
                self.screen.size == old(self).screen.size,
                self.screen.prev() == old(self).screen.prev(),
                self.screen.cur().len() == n,
                old(self).screen.cur().len() == n,
                forall|j: int|
                    0 <= j < k ==> #[trigger] self.screen.cur()[j] == frame_cell(
                        old(self).board,
                        old(self).status_message@,
                        w as int,
                        h as int,
                        old(self).screen.cur()[j],
                        j % (w as int),
                        j / (w as int),
                    ),
                forall|j: int| k <= j < n ==> #[trigger] self.screen.cur()[j] == old(self).screen.cur()[j],
            decreases n - k,
        {
            let c = k % w;
            let r = k / w;
            proof {
                lemma_fundamental_div_mod(k as int, w as int);
                assert(k as int == (w as int) * (r as int) + c as int);
                assert(r < h) by (nonlinear_arith)
                    requires
                        k < n,
                        n == w * h,
                        w > 0,
                        h > 0,
                        0 <= c < w,
                        k == w * r + c,
                ;
                assert(k as int == c as int + r as int * (w as int)) by (nonlinear_arith)
                    requires
                        k == w * r + c,
                ;
            }
            if r >= 1 && r <= bh && c >= 1 && (c - 1) % 2 == 0 && (c - 1) / 2 < bw {
                let sq = self.board.square(((c - 1) / 2, r - 1));
                let cell = BufCell::from(sq);
                self.screen.set(c, r, cell);
            } else {
                let g: Option<char> = if r == 0 && c >= 1 && c < 1 + status_len {
                    Some(self.status_message.as_str().get_char(c - 1))
                } else if c == 0 && r == 0 {
                    Some('┏')
                } else if c == w - 1 && r == 0 {
                    Some('┓')
                } else if c == 0 && r == h - 1 {
                    Some('┗')
                } else if c == w - 1 && r == h - 1 {
                    Some('┛')
                } else if c == 0 || c == w - 1 {
                    Some('┃')
                } else if r == 0 || r == h - 1 {
                    Some('━')
                } else {
                    None
                };
                match g {
                    Some(gl) => {
                        self.screen.set_content(c, r, gl);
                    },
                    None => {},
                }
            }
            k = k + 1;
        }
    }

    /// Flushes the drawn frame: emits the coalesced command stream with the
    /// cursor parked on the selection, and rotates the screen's buffers.
    pub fn flush_screen(&mut self) -> (out: Vec<Command>)
        requires
            old(self).wf(),
        ensures
            final(self).wf(),
            final(self).board == old(self).board,
            final(self).status_message == old(self).status_message,
            final(self).selection == old(self).selection,
            final(self).term_size == old(self).term_size,
            out@ == emitted(
                diff_of(
                    old(self).screen.cur(),
                    old(self).screen.prev(),
                    old(self).term_size.0,
                    old(self).screen.cur().len() as int,
                ),
                init_state(),
            ) + trailing(spec_board_to_screen_coords(old(self).selection)),
            final(self).screen.prev() == old(self).screen.cur(),
            forall|i: int|
                0 <= i < final(self).screen.cur().len() ==> final(self).screen.cur()[i]
                    == crate::cell::default_cell(),
    {
        proof {
            assert(self.selection.0 * 2 + 1 < self.term_size.0) by (nonlinear_arith)
                requires
                    self.selection.0 < self.board.size.0,
                    self.board.size.0 == (self.term_size.0 - 2) / 2,
                    self.term_size.0 >= 4,
                    (self.term_size.0 - 2) / 2 * 2 <= self.term_size.0 - 2,
            ;
            assert((self.term_size.0 as int - 2) / 2 * 2 <= self.term_size.0 - 2) by {
                lemma_fundamental_div_mod(self.term_size.0 as int - 2, 2);
            }
        }
        let cursor = board_to_screen_coords(self.selection);
        self.screen.flush(cursor)
    }

    /// Applies one input event: quit and resize end the session, the
    /// movement keys wrap the selection around the board, flag and reveal
    /// act on the selected square — revealing a bomb ends the session too.
    /// Returns whether the session goes on.
    pub fn handle_event(&mut self, ev: Event) -> (go_on: bool)
        requires
            old(self).wf(),
        ensures
            final(self).wf(),
            final(self).term_size == old(self).term_size,
            final(self).status_message == old(self).status_message,
            final(self).screen == old(self).screen,
            final(self).board.size == old(self).board.size,
            final(self).board.num_bombs == old(self).board.num_bombs,
            ({
                let sel = old(self).selection;
                let bw = old(self).board.size.0;
                let bh = old(self).board.size.1;
                match ev {
                    Event::Resize => !go_on && *final(self) == *old(self),
                    Event::Other => go_on && *final(self) == *old(self),
                    Event::Key(k) => match k {
                        Key::Quit => !go_on && *final(self) == *old(self),
                        Key::Up => go_on && final(self).board == old(self).board && final(self).selection == (sel.0, (if sel.1 == 0 {
                            (bh - 1) as usize
                        } else {
                            (sel.1 - 1) as usize
                        })),
                        Key::Down => go_on && final(self).board == old(self).board && final(self).selection == (sel.0, (if sel.1 + 1 == bh {
                            0usize
                        } else {
                            (sel.1 + 1) as usize
                        })),
                        Key::Left => go_on && final(self).board == old(self).board && final(self).selection == ((if sel.0 == 0 {
                            (bw - 1) as usize
                        } else {
                            (sel.0 - 1) as usize
                        }), sel.1),
                        Key::Right => go_on && final(self).board == old(self).board && final(self).selection == ((if sel.0 + 1 == bw {
                            0usize
                        } else {
                            (sel.0 + 1) as usize
                        }), sel.1),
                        Key::Flag => go_on && final(self).selection == sel && flag_outcome(
                            *old(self),
                            *final(self),
                        ),
                        Key::Reveal => final(self).selection == sel && uncover_outcome(
                            *old(self),
                            *final(self),
                            go_on,
                        ),
                        Key::Other => go_on && *final(self) == *old(self),
                    },
                }
            }),
    {
        match ev {
            Event::Resize => false,
            Event::Other => true,
            Event::Key(k) => match k {
                Key::Quit => false,
                Key::Up => {
                    if self.selection.1 == 0 {
                        self.selection.1 = self.board.size.1 - 1;
                    } else {
                        self.selection.1 = self.selection.1 - 1;
                    }
                    true
                },
                Key::Down => {
                    if self.selection.1 + 1 == self.board.size.1 {
                        self.selection.1 = 0;
                    } else {
                        self.selection.1 = self.selection.1 + 1;
                    }
                    true
                },
                Key::Left => {
                    if self.selection.0 == 0 {
                        self.selection.0 = self.board.size.0 - 1;
                    } else {
                        self.selection.0 = self.selection.0 - 1;
                    }
                    true
                },
                Key::Right => {
                    if self.selection.0 + 1 == self.board.size.0 {
                        self.selection.0 = 0;
                    } else {
                        self.selection.0 = self.selection.0 + 1;
                    }
                    true
                },
                Key::Flag => {
                    let committed = self.board.flag_square(self.selection);
                    proof {
                        assert(flag_transition(
                            old(self).board,
                            self.board,
                            old(self).selection,
                            committed,
                        ));
                    }
                    true
                },
                Key::Reveal => {
                    let bomb = self.board.uncover_square(self.selection);
                    !bomb
                },
                Key::Other => true,
            },
        }
    }
}

} // verus!
