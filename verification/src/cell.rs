//! The cell model: a value type with one designated empty value.

use vstd::prelude::*;

verus! {

/// A value that can sit in one position of a grid.
///
/// Exactly one value of the type, `empty_value()`, marks a position as empty;
/// every other value marks it as occupied. The grid operations only ever copy
/// cells and ask whether they are empty, so a richer cell type (one that
/// carries a colour, say) changes nothing in how grids combine.
pub trait Cell: Copy {
    /// The value of an empty cell.
    spec fn empty_value() -> Self;

    /// Makes an empty cell.
    fn empty() -> (c: Self)
        ensures
            c == Self::empty_value(),
    ;

    /// Tells whether this cell is the empty one.
    fn holds_nothing(&self) -> (b: bool)
        ensures
            b == (*self == Self::empty_value()),
    ;
}

/// A cell is occupied when it differs from the empty value.
pub open spec fn occupied<T: Cell>(c: T) -> bool {
    c != T::empty_value()
}

/// Whether `t` is the empty value of its type.
pub fn is_empty<T: Cell>(t: &T) -> (b: bool)
    ensures
        b == !occupied(*t),
{
    t.holds_nothing()
}

/// Whether `t` is anything but the empty value of its type.
pub fn is_occupied<T: Cell>(t: &T) -> (b: bool)
    ensures
        b == occupied(*t),
{
    !is_empty(t)
}

/// The two-valued cell: a position holds a block or it does not.
#[derive(Debug, Clone, Copy, PartialEq, Eq, Structural)]
pub enum CellState {
    Occupied,
    Unoccupied,
}

impl Cell for CellState {
    open spec fn empty_value() -> Self {
        CellState::Unoccupied
    }

    fn empty() -> (c: Self) {
        CellState::Unoccupied
    }

    fn holds_nothing(&self) -> (b: bool) {
        match self {
            CellState::Occupied => false,
            CellState::Unoccupied => true,
        }
    }
}

impl Default for CellState {
    fn default() -> (c: Self)
        ensures
            c == CellState::Unoccupied,
    {
        CellState::Unoccupied
    }
}

impl CellState {
    /// The character that stands for this cell when a grid is drawn:
    /// `#` for an occupied cell and `.` for an empty one.
    pub fn symbol(&self) -> (ch: char)
        ensures
            ch == (if *self == CellState::Occupied { '#' } else { '.' }),
    {
        match self {
            CellState::Occupied => '#',
            CellState::Unoccupied => '.',
        }
    }
}

} // verus!
