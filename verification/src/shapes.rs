//! The seven blocks of the game and the grids that hold them.

use vstd::prelude::*;
use crate::cell::CellState;
use crate::grid::Grid;

verus! {

/// The shape of a block.
#[derive(Debug, Clone, Copy, PartialEq, Eq, Structural)]
pub enum BlockShape {
    Q,
    Z,
    S,
    T,
    I,
    L,
    J,
}

/// A block as the input names it: its shape and the column of its left edge.
#[derive(Debug, Clone, Copy, PartialEq, Eq, Structural)]
pub struct InputBlock {
    pub shape: BlockShape,
    pub starting_column: usize,
}

impl vstd::std_specs::convert::FromSpecImpl<(BlockShape, usize)> for InputBlock {
    open spec fn obeys_from_spec() -> bool {
        true
    }

    open spec fn from_spec(pair: (BlockShape, usize)) -> Self {
        InputBlock { shape: pair.0, starting_column: pair.1 }
    }
}

impl std::convert::From<(BlockShape, usize)> for InputBlock {
    fn from(pair: (BlockShape, usize)) -> (block: Self) {
        InputBlock { shape: pair.0, starting_column: pair.1 }
    }
}

/// The four cells of a shape, each as (row, column), with the shape pushed
/// against the top and the left of its grid.
pub open spec fn shape_cells(shape: BlockShape) -> Seq<(usize, usize)> {
    match shape {
        BlockShape::Q => seq![(0usize, 0usize), (0usize, 1usize), (1usize, 0usize), (1usize, 1usize)],
        BlockShape::Z => seq![(0usize, 0usize), (0usize, 1usize), (1usize, 1usize), (1usize, 2usize)],
        BlockShape::S => seq![(0usize, 1usize), (0usize, 2usize), (1usize, 0usize), (1usize, 1usize)],
        BlockShape::T => seq![(0usize, 0usize), (0usize, 1usize), (0usize, 2usize), (1usize, 1usize)],
        BlockShape::I => seq![(0usize, 0usize), (0usize, 1usize), (0usize, 2usize), (0usize, 3usize)],
        BlockShape::L => seq![(0usize, 0usize), (1usize, 0usize), (2usize, 0usize), (2usize, 1usize)],
        BlockShape::J => seq![(0usize, 1usize), (1usize, 1usize), (2usize, 1usize), (2usize, 0usize)],
    }
}

/// One of `coords` is the position (`r`, `c`).
pub open spec fn covers(coords: Seq<(usize, usize)>, r: int, c: int) -> bool {
    exists|i: int| 0 <= i < coords.len() && (#[trigger] coords[i]).0 == r && coords[i].1 == c
}

/// All of `coords` lie in a grid of the given dimensions.
pub open spec fn all_inside(coords: Seq<(usize, usize)>, width: nat, height: nat) -> bool {
    forall|i: int| 0 <= i < coords.len() ==> (#[trigger] coords[i]).0 < height && coords[i].1 < width
}

/// `g` with `with` at each of `coords`, and as it was elsewhere.
pub open spec fn filled<T>(g: Seq<Seq<T>>, with: T, coords: Seq<(usize, usize)>) -> Seq<Seq<T>> {
    Seq::new(
        g.len(),
        |r: int|
            Seq::new(
                g[r].len(),
                |c: int|
                    if covers(coords, r, c) {
                        with
                    } else {
                        g[r][c]
                    },
            ),
    )
}

/// The grid of the given dimensions that holds `shape` in its top left
/// corner and nothing else.
pub open spec fn shape_grid(shape: BlockShape, width: nat, height: nat) -> Seq<Seq<CellState>> {
    Seq::new(
        height,
        |r: int|
            Seq::new(
                width,
                |c: int|
                    if covers(shape_cells(shape), r, c) {
                        CellState::Occupied
                    } else {
                        CellState::Unoccupied
                    },
            ),
    )
}

/// Puts `with` into each of the cells at `coords`.
pub fn fill<const WIDTH: usize, const HEIGHT: usize, CellT: Copy>(
    grid: &mut Grid<WIDTH, HEIGHT, CellT>,
    with: CellT,
    coords: &[(usize, usize)],
)
    requires
        all_inside(coords@, WIDTH as nat, HEIGHT as nat),
    ensures
        final(grid)@ == filled(old(grid)@, with, coords@),
{
    let ghost before = *grid;
    let mut i: usize = 0;
    proof {
        assert(grid@ =~~= filled(before@, with, coords@.take(0)));
    }
    while i < coords.len()
        invariant
            i <= coords.len(),
            all_inside(coords@, WIDTH as nat, HEIGHT as nat),
            grid@ == filled(before@, with, coords@.take(i as int)),
        decreases coords.len() - i,
    {
        let (row_ix, col_ix) = coords[i];
        let ghost earlier = *grid;
        grid.rows[row_ix][col_ix] = with;
        proof {
            let done = coords@.take(i as int);
            let next = coords@.take(i + 1);
            assert forall|r: int, c: int| 0 <= r < HEIGHT && 0 <= c < WIDTH implies grid@[r][c]
                == #[trigger] filled(before@, with, next)[r][c] by {
                if covers(next, r, c) {
                    let j = choose|j: int|
                        0 <= j < next.len() && (#[trigger] next[j]).0 == r && next[j].1 == c;
                    if j < i {
                        assert(done[j] == next[j]);
                        assert(covers(done, r, c));
                    }
                } else {
                    if covers(done, r, c) {
                        let j = choose|j: int|
                            0 <= j < done.len() && (#[trigger] done[j]).0 == r && done[j].1 == c;
                        assert(next[j] == done[j]);
                    }
                    assert(next[i as int] == coords@[i as int]);
                }
                assert(earlier@[r][c] == filled(before@, with, done)[r][c]);
            }
            assert(grid@ =~~= filled(before@, with, next));
        }
        i = i + 1;
    }
    proof {
        assert(coords@.take(coords@.len() as int) =~= coords@);
    }
}

/// The cells of `shape`, as `shape_cells` lists them.
fn cells_of(shape: BlockShape) -> (cells: [(usize, usize); 4])
    ensures
        cells@ == shape_cells(shape),
{
    let cells: [(usize, usize); 4] = match shape {
        BlockShape::Q => [(0, 0), (0, 1), (1, 0), (1, 1)],
        BlockShape::Z => [(0, 0), (0, 1), (1, 1), (1, 2)],
        BlockShape::S => [(0, 1), (0, 2), (1, 0), (1, 1)],
        BlockShape::T => [(0, 0), (0, 1), (0, 2), (1, 1)],
        BlockShape::I => [(0, 0), (0, 1), (0, 2), (0, 3)],
        BlockShape::L => [(0, 0), (1, 0), (2, 0), (2, 1)],
        BlockShape::J => [(0, 1), (1, 1), (2, 1), (2, 0)],
    };
    proof {
        assert(cells@ =~= shape_cells(shape));
    }
    cells
}

/// Tells whether a grid of the given dimensions has room for `shape`.
pub fn shape_fits(shape: BlockShape, width: usize, height: usize) -> (b: bool)
    ensures
        b == all_inside(shape_cells(shape), width as nat, height as nat),
{
    let cells = cells_of(shape);
    let mut i: usize = 0;
    while i < 4
        invariant
            i <= 4,
            cells@ == shape_cells(shape),
            forall|j: int| 0 <= j < i ==> (#[trigger] cells@[j]).0 < height && cells@[j].1 < width,
        decreases 4 - i,
    {
        let (row_ix, col_ix) = cells[i];
        if row_ix >= height || col_ix >= width {
            return false;
        }
        i = i + 1;
    }
    true
}

/// Makes the grid that holds `shape` in its top left corner.
///
/// The grid must have room for the shape.
#[inline(never)]
pub fn grid_for<const WIDTH: usize, const HEIGHT: usize>(shape: BlockShape) -> (grid: Grid<
    WIDTH,
    HEIGHT,
>)
    requires
        all_inside(shape_cells(shape), WIDTH as nat, HEIGHT as nat),
    ensures
        grid@ == shape_grid(shape, WIDTH as nat, HEIGHT as nat),
{
    let mut grid: Grid<WIDTH, HEIGHT> = Grid::default();
    let cells = cells_of(shape);
    fill(&mut grid, CellState::Occupied, cells.as_slice());
    proof {
        assert(grid@ =~~= shape_grid(shape, WIDTH as nat, HEIGHT as nat));
    }
    grid
}

} // verus!
