//! A terminal Minesweeper core: a double-buffered character-cell screen that
//! diffs successive frames and emits a minimal command stream, together with
//! the board state machine (mine placement, flag accounting, flood-fill
//! reveal) that is drawn into it.

pub mod board;
pub mod buffer;
pub mod cell;
pub mod game;
pub mod rng;
pub mod screen;
