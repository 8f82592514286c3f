//! Playing a sequence of blocks on a field, and reading off how high the
//! blocks then stand.

use vstd::prelude::*;
use crate::cell::{occupied, Cell, CellState};
use crate::clear::cleared;
use crate::fall::dropped;
use crate::grid::{row_is_empty, shifted_right, Grid};
use crate::parse::{parse_line, parsed_line, ParseError};
use crate::shapes::{all_inside, grid_for, shape_cells, shape_grid, BlockShape, InputBlock};

verus! {

/// A block found no room on the field: where it starts, the field is
/// already occupied.
#[derive(Debug, Clone, Copy, PartialEq, Eq, Structural)]
pub struct PlacementImpossible {
    /// The position, in the sequence played, of the block that found no room.
    pub block_ix: usize,
}

/// The field after one block: the block's shape is set at its starting
/// column, dropped on the field, and the rows that it completes are cleared.
/// Nothing where the block finds no room.
pub open spec fn placed(field: Seq<Seq<CellState>>, block: InputBlock, width: nat, height: nat) -> Option<
    Seq<Seq<CellState>>,
> {
    match dropped(
        field,
        shifted_right(shape_grid(block.shape, width, height), block.starting_column as nat),
    ) {
        Some(rested) => Some(cleared(rested)),
        None => None,
    }
}

/// The field after all of `blocks`, placed in their order, or the position
/// of the first block that finds no room.
pub open spec fn played(
    field: Seq<Seq<CellState>>,
    blocks: Seq<InputBlock>,
    width: nat,
    height: nat,
) -> Result<Seq<Seq<CellState>>, nat>
    decreases blocks.len(),
{
    if blocks.len() == 0 {
        Ok(field)
    } else {
        match played(field, blocks.drop_last(), width, height) {
            Ok(before) => match placed(before, blocks.last(), width, height) {
                Some(after) => Ok(after),
                None => Err((blocks.len() - 1) as nat),
            },
            Err(at) => Err(at),
        }
    }
}

/// A grid of the given dimensions has room for the shape of every block.
pub open spec fn all_fit(blocks: Seq<InputBlock>, width: nat, height: nat) -> bool {
    forall|i: int|
        0 <= i < blocks.len() ==> all_inside(shape_cells((#[trigger] blocks[i]).shape), width, height)
}

/// A block that finds no room among the first blocks of a sequence is the
/// one that stops the whole sequence.
pub proof fn lemma_played_stops(
    field: Seq<Seq<CellState>>,
    blocks: Seq<InputBlock>,
    n: int,
    width: nat,
    height: nat,
)
    requires
        0 <= n <= blocks.len(),
        played(field, blocks.take(n), width, height) is Err,
    ensures
        played(field, blocks, width, height) == played(field, blocks.take(n), width, height),
    decreases blocks.len() - n,
{
    if n == blocks.len() {
        assert(blocks.take(n) =~= blocks);
    } else {
        assert(blocks.take(n + 1).drop_last() =~= blocks.take(n));
        lemma_played_stops(field, blocks, n + 1, width, height);
    }
}

/// Drops each block on the grid in turn, and clears the solid rows after
/// each.
///
/// Gives the grid after the last block. Stops at the first block that finds
/// no room, and says which it was.
#[inline(never)]
pub fn process_blocks<const WIDTH: usize, const HEIGHT: usize>(
    grid: Grid<WIDTH, HEIGHT>,
    blocks: &[InputBlock],
) -> (ret: Result<Grid<WIDTH, HEIGHT>, PlacementImpossible>)
    requires
        all_fit(blocks@, WIDTH as nat, HEIGHT as nat),
    ensures
        match ret {
            Ok(end) => played(grid@, blocks@, WIDTH as nat, HEIGHT as nat) == Ok::<
                Seq<Seq<CellState>>,
                nat,
            >(end@),
            Err(e) => played(grid@, blocks@, WIDTH as nat, HEIGHT as nat) == Err::<
                Seq<Seq<CellState>>,
                nat,
            >(e.block_ix as nat),
        },
{
    let mut cur = grid;
    let mut i: usize = 0;
    while i < blocks.len()
        invariant
            i <= blocks.len(),
            all_fit(blocks@, WIDTH as nat, HEIGHT as nat),
            played(grid@, blocks@.take(i as int), WIDTH as nat, HEIGHT as nat) == Ok::<
                Seq<Seq<CellState>>,
                nat,
            >(cur@),
        decreases blocks.len() - i,
    {
        let block = blocks[i];
        let new_shape = grid_for::<WIDTH, HEIGHT>(block.shape) >> block.starting_column;
        proof {
            assert(blocks@.take(i + 1).drop_last() =~= blocks@.take(i as int));
            assert(blocks@.take(i + 1).last() == block);
        }
        match cur.drop(new_shape) {
            Some(rested) => {
                cur = rested.with_solid_rows_cleared();
            },
            None => {
                proof {
                    lemma_played_stops(
                        grid@,
                        blocks@,
                        i + 1,
                        WIDTH as nat,
                        HEIGHT as nat,
                    );
                }
                return Err(PlacementImpossible { block_ix: i });
            },
        }
        i = i + 1;
    }
    proof {
        assert(blocks@.take(blocks@.len() as int) =~= blocks@);
    }
    Ok(cur)
}

/// The number of rows from the highest row that holds an occupied cell down
/// to the floor; 0 for a grid without an occupied cell.
pub open spec fn stack_height<T: Cell>(g: Seq<Seq<T>>) -> nat
    decreases g.len(),
{
    if g.len() == 0 {
        0
    } else if !row_is_empty(g.first()) {
        g.len()
    } else {
        stack_height(g.skip(1))
    }
}

/// Below `r` empty rows at the top, the stack is as high as the first row
/// that is not empty leaves room for.
pub proof fn lemma_stack_height_below<T: Cell>(g: Seq<Seq<T>>, r: int)
    requires
        0 <= r <= g.len(),
        forall|r2: int| 0 <= r2 < r ==> row_is_empty(#[trigger] g[r2]),
        r < g.len() ==> !row_is_empty(g[r]),
    ensures
        stack_height(g) == g.len() - r,
    decreases r,
{
    if r > 0 {
        let rest = g.skip(1);
        assert(row_is_empty(g[0]));
        assert forall|r2: int| 0 <= r2 < r - 1 implies row_is_empty(#[trigger] rest[r2]) by {
            assert(rest[r2] == g[r2 + 1]);
        }
        if r < g.len() {
            assert(rest[r - 1] == g[r]);
        }
        lemma_stack_height_below(rest, r - 1);
    }
}

/// Finds the highest row that holds an occupied cell: the first one from the
/// top. `None` for a grid without an occupied cell.
#[inline(never)]
pub fn first_occupied_row_ix<const WIDTH: usize, const HEIGHT: usize, CellT: Cell>(
    grid: &Grid<WIDTH, HEIGHT, CellT>,
) -> (ret: Option<usize>)
    ensures
        match ret {
            Some(row_ix) => {
                &&& row_ix < HEIGHT
                &&& !row_is_empty(grid@[row_ix as int])
                &&& forall|r: int| 0 <= r < row_ix ==> row_is_empty(#[trigger] grid@[r])
            },
            None => forall|r: int| 0 <= r < HEIGHT ==> row_is_empty(#[trigger] grid@[r]),
        },
{
    let mut r: usize = 0;
    while r < HEIGHT
        invariant
            r <= HEIGHT,
            forall|r2: int| 0 <= r2 < r ==> row_is_empty(#[trigger] grid@[r2]),
        decreases HEIGHT - r,
    {
        let mut c: usize = 0;
        while c < WIDTH
            invariant
                r < HEIGHT,
                c <= WIDTH,
                forall|r2: int| 0 <= r2 < r ==> row_is_empty(#[trigger] grid@[r2]),
                forall|c2: int| 0 <= c2 < c ==> !occupied(#[trigger] grid.rows[r as int][c2]),
            decreases WIDTH - c,
        {
            if !grid.rows[r][c].holds_nothing() {
                proof {
                    let row = grid@[r as int];
                    assert(row == grid.rows[r as int]@);
                    assert(row.len() == WIDTH);
                    assert(occupied(row[c as int]));
                    assert(!row_is_empty(row));
                }
                return Some(r);
            }
            c = c + 1;
        }
        r = r + 1;
    }
    None
}

/// The height of the stack of blocks on the grid, counted in rows from the
/// floor.
pub fn highest_block<const WIDTH: usize, const HEIGHT: usize, CellT: Cell>(
    grid: &Grid<WIDTH, HEIGHT, CellT>,
) -> (h: usize)
    ensures
        h == stack_height(grid@),
{
    match first_occupied_row_ix(grid) {
        Some(row_ix) => {
            proof {
                lemma_stack_height_below(grid@, row_ix as int);
            }
            HEIGHT - row_ix
        },
        None => {
            proof {
                lemma_stack_height_below(grid@, HEIGHT as int);
            }
            0
        },
    }
}

/// Plays `blocks` on the grid and gives the height of the stack that they
/// leave, or the block that found no room.
pub fn highest_block_after_processing<const WIDTH: usize, const HEIGHT: usize>(
    grid: Grid<WIDTH, HEIGHT>,
    blocks: &[InputBlock],
) -> (ret: Result<usize, PlacementImpossible>)
    requires
        all_fit(blocks@, WIDTH as nat, HEIGHT as nat),
    ensures
        match ret {
            Ok(h) => played(grid@, blocks@, WIDTH as nat, HEIGHT as nat) matches Ok(end) && h
                == stack_height(end),
            Err(e) => played(grid@, blocks@, WIDTH as nat, HEIGHT as nat) == Err::<
                Seq<Seq<CellState>>,
                nat,
            >(e.block_ix as nat),
        },
{
    match process_blocks(grid, blocks) {
        Ok(final_grid) => Ok(highest_block(&final_grid)),
        Err(e) => Err(e),
    }
}

/// Why a line of input could not be played.
#[derive(Debug, Clone, Copy, PartialEq, Eq, Structural)]
pub enum LineError {
    /// The line does not name a sequence of blocks.
    Unreadable(ParseError),
    /// One of its blocks found no room on the field.
    NoRoom(PlacementImpossible),
}

/// What playing a line of input on `field` gives: the field after its
/// blocks and the height of the stack on it, or what stopped the line.
pub open spec fn line_played(field: Seq<Seq<CellState>>, line: Seq<char>, width: nat, height: nat) -> Result<
    (Seq<Seq<CellState>>, nat),
    LineError,
> {
    match parsed_line(line) {
        Err(e) => Err(LineError::Unreadable(e)),
        Ok(blocks) => match played(field, blocks, width, height) {
            Err(at) => Err(LineError::NoRoom(PlacementImpossible { block_ix: at as usize })),
            Ok(end) => Ok((end, stack_height(end))),
        },
    }
}

/// A grid of four columns and three rows, or more, has room for every shape.
pub proof fn lemma_room_for_every_shape(shape: BlockShape, width: nat, height: nat)
    requires
        width >= 4,
        height >= 3,
    ensures
        all_inside(shape_cells(shape), width, height),
{
}

/// Reads one line of input and plays its blocks on the field, in their
/// order.
///
/// Gives the field after the last block, and the height of the stack on it.
/// A line that cannot be read, or a block that finds no room, stops the line
/// and is reported. The grid must have room for every shape: four columns
/// and three rows.
pub fn play_line<const WIDTH: usize, const HEIGHT: usize>(
    field: Grid<WIDTH, HEIGHT>,
    line: &str,
) -> (ret: Result<(Grid<WIDTH, HEIGHT>, usize), LineError>)
    requires
        WIDTH >= 4,
        HEIGHT >= 3,
    ensures
        match ret {
            Ok((end, h)) => line_played(field@, line@, WIDTH as nat, HEIGHT as nat) == Ok::<
                (Seq<Seq<CellState>>, nat),
                LineError,
            >((end@, h as nat)),
            Err(e) => line_played(field@, line@, WIDTH as nat, HEIGHT as nat) == Err::<
                (Seq<Seq<CellState>>, nat),
                LineError,
            >(e),
        },
{
    let blocks = match parse_line(line) {
        Ok(blocks) => blocks,
        Err(e) => {
            return Err(LineError::Unreadable(e));
        },
    };
    proof {
        assert forall|i: int| 0 <= i < blocks@.len() implies all_inside(
            shape_cells((#[trigger] blocks@[i]).shape),
            WIDTH as nat,
            HEIGHT as nat,
        ) by {
            lemma_room_for_every_shape(blocks@[i].shape, WIDTH as nat, HEIGHT as nat);
        }
    }
    match process_blocks(field, blocks.as_slice()) {
        Ok(end) => {
            let h = highest_block(&end);
            Ok((end, h))
        },
        Err(e) => Err(LineError::NoRoom(e)),
    }
}

} // verus!
