//! A falling-block game on a grid of fixed size.
//!
//! The board and the blocks are both [`Grid`]s: matrices of cells in which a
//! cell is either empty (it holds the empty value of its type) or occupied
//! (it holds any other value). Grids combine and move as the game needs:
//!
//! - `a & b` lays one grid over another, and fails where both are occupied.
//! - `g >> n` moves a grid to the right; what passes the right edge is lost.
//! - [`Grid::try_bump_down`] and [`Grid::try_shift_down`] move a grid down,
//!   and fail where an occupied cell would pass the floor.
//! - [`Grid::drop`] lets one grid fall on another until it comes to rest.
//! - [`Grid::with_solid_rows_cleared`] takes out the rows that are full.
//!
//! On top of these, [`game`] plays sequences of blocks, which [`shapes`]
//! names and [`parse`] reads from text.
//!
//! Every function states what it returns over the view of a grid, the
//! sequence of its rows, and is proved to return just that.
//!
//! The operations on whole grids are marked `#[inline(never)]`. Inlined into
//! one another they grow, for each pair of dimensions, into functions that
//! take the compiler minutes.

pub mod cell;
pub mod clear;
pub mod count;
pub mod fall;
pub mod game;
pub mod grid;
pub mod parse;
pub mod shapes;

pub use cell::{is_empty, is_occupied, Cell, CellState};
pub use grid::{Grid, WouldClobber};
