//! A falling-block puzzle core: a bordered board, a table of polyomino
//! shapes, collision-checked placement, a per-tick piece state machine,
//! line clearing, and game-over detection.

pub mod board;
pub mod cells;
pub mod game;
pub mod place;
pub mod rng;
pub mod shapes;

use vstd::prelude::*;

verus! {

/// Board width in cells, including the two wall columns.
pub const BOARD_W: usize = 12;

/// Board height in cells, including the floor row.
pub const BOARD_H: usize = 25;

/// The piece falls one row every `TICK` ticks of its own counter.
pub const TICK: usize = 10;

} // verus!
