//! Moving a grid down: one row at a time, by several rows, and until it rests
//! on what another grid holds.

use vstd::prelude::*;
use crate::cell::{occupied, Cell};
use crate::count::{cell_count, lemma_overlay_count, lemma_shift_down_count};
use crate::grid::{
    clobber_at, clobbers, empty_row, has_shape, overlay, row_is_empty, Grid,
};

verus! {

/// The bottom row of `g` holds an occupied cell: `g` stands on the floor.
pub open spec fn hits_floor<T: Cell>(g: Seq<Seq<T>>) -> bool {
    g.len() > 0 && exists|c: int| 0 <= c < g.last().len() && occupied(#[trigger] g.last()[c])
}

/// The lowest `n` rows of `g` (all rows, where it has fewer) are empty, so
/// that `g` can move down `n` rows without losing a cell.
pub open spec fn can_shift_down<T: Cell>(g: Seq<Seq<T>>, n: nat) -> bool {
    forall|r: int| 0 <= r < g.len() && g.len() - n <= r ==> row_is_empty(#[trigger] g[r])
}

/// `g` moved down by `n` rows: row `r` of `g` becomes row `r + n`, and the
/// top `n` rows are empty.
pub open spec fn shifted_down<T: Cell>(g: Seq<Seq<T>>, n: nat) -> Seq<Seq<T>> {
    Seq::new(
        g.len(),
        |r: int|
            if r < n {
                empty_row::<T>(g[r].len())
            } else {
                g[r - n]
            },
    )
}

/// A grid can move down one row exactly when it does not stand on the floor.
pub proof fn lemma_floor_stops_fall<T: Cell>(g: Seq<Seq<T>>)
    ensures
        can_shift_down(g, 1) <==> !hits_floor(g),
{
    if g.len() > 0 {
        if hits_floor(g) {
            let c = choose|c: int| 0 <= c < g.last().len() && occupied(#[trigger] g.last()[c]);
            assert(!row_is_empty(g[g.len() - 1]));
        } else {
            assert(row_is_empty(g.last()));
        }
    }
}

/// Moving down by nothing changes nothing.
pub proof fn lemma_shift_down_zero<T: Cell>(g: Seq<Seq<T>>)
    ensures
        can_shift_down(g, 0),
        shifted_down(g, 0) == g,
{
    assert(shifted_down(g, 0) =~= g);
}

/// Moving down `n` rows and then one more is moving down `n + 1` rows, and
/// the second step is possible exactly when the whole move is.
pub proof fn lemma_shift_down_step<T: Cell>(g: Seq<Seq<T>>, n: nat, width: nat, height: nat)
    requires
        has_shape(g, width, height),
        can_shift_down(g, n),
    ensures
        can_shift_down(g, n + 1) <==> can_shift_down(shifted_down(g, n), 1),
        shifted_down(shifted_down(g, n), 1) == shifted_down(g, n + 1),
        has_shape(shifted_down(g, n), width, height),
{
    let moved = shifted_down(g, n);
    assert(shifted_down(moved, 1) =~= shifted_down(g, n + 1));
    if height > 0 {
        let last = height - 1;
        if n >= height {
            assert(row_is_empty(moved[last]));
            assert(can_shift_down(moved, 1));
            assert(can_shift_down(g, n + 1));
        } else {
            assert(moved[last] == g[last - n]);
            if can_shift_down(g, n + 1) {
                assert(row_is_empty(g[last - n]));
                assert(can_shift_down(moved, 1));
            }
            if can_shift_down(moved, 1) {
                assert(row_is_empty(moved[last]));
                assert forall|r: int| 0 <= r < g.len() && g.len() - (n + 1) <= r implies row_is_empty(
                    #[trigger] g[r],
                ) by {
                    if r == last - n {
                    } else {
                        assert(g.len() - n <= r);
                    }
                }
            }
        }
    }
}

/// A grid that can move down `n` rows can move down any smaller number.
pub proof fn lemma_shift_down_more<T: Cell>(g: Seq<Seq<T>>, m: nat, n: nat)
    requires
        m <= n,
        can_shift_down(g, n),
    ensures
        can_shift_down(g, m),
{
}

/// Beyond the grid's height a longer move changes nothing more: all rows
/// must be empty, and all rows of the result are.
pub proof fn lemma_shift_down_past_height<T: Cell>(g: Seq<Seq<T>>, n: nat, width: nat, height: nat)
    requires
        has_shape(g, width, height),
        n >= height,
    ensures
        can_shift_down(g, n) <==> can_shift_down(g, height),
        shifted_down(g, n) == shifted_down(g, height),
{
    assert(shifted_down(g, n) =~= shifted_down(g, height));
}

/// `shape`, moved down by `s` rows, loses no cell and clobbers nothing in
/// `field`.
pub open spec fn fits<T: Cell>(field: Seq<Seq<T>>, shape: Seq<Seq<T>>, s: nat) -> bool {
    can_shift_down(shape, s) && !clobbers(field, shifted_down(shape, s))
}

/// The depth at which `shape` comes to rest when it falls on from depth `s`:
/// it goes one row deeper for as long as the next depth is inside the grid
/// and fits, and stops at the first that does not.
pub open spec fn rest_depth_from<T: Cell>(field: Seq<Seq<T>>, shape: Seq<Seq<T>>, s: nat) -> nat
    decreases field.len() - s,
{
    if s + 1 < field.len() && fits(field, shape, s + 1) {
        rest_depth_from(field, shape, s + 1)
    } else {
        s
    }
}

/// The number of rows that `shape` falls on `field` before it rests.
pub open spec fn rest_depth<T: Cell>(field: Seq<Seq<T>>, shape: Seq<Seq<T>>) -> nat {
    rest_depth_from(field, shape, 0)
}

/// What dropping `shape` on `field` gives: nothing where the two clobber
/// each other before any fall, else `field` overlaid with `shape` at the
/// depth where it rests.
pub open spec fn dropped<T: Cell>(field: Seq<Seq<T>>, shape: Seq<Seq<T>>) -> Option<Seq<Seq<T>>> {
    if clobbers(field, shape) {
        None
    } else {
        Some(overlay(field, shifted_down(shape, rest_depth(field, shape))))
    }
}

/// The resting depth is the last of an unbroken run of depths that fit: the
/// shape fits at every depth from the start to the resting depth, and the
/// next depth, if the grid has one, does not fit.
pub proof fn lemma_rest_depth_is_first_stop<T: Cell>(
    field: Seq<Seq<T>>,
    shape: Seq<Seq<T>>,
    s: nat,
)
    requires
        fits(field, shape, s),
    ensures
        s <= rest_depth_from(field, shape, s),
        rest_depth_from(field, shape, s) == s || rest_depth_from(field, shape, s) < field.len(),
        forall|k: nat| s <= k <= rest_depth_from(field, shape, s) ==> fits(field, shape, k),
        rest_depth_from(field, shape, s) + 1 < field.len() ==> !fits(
            field,
            shape,
            rest_depth_from(field, shape, s) + 1,
        ),
    decreases field.len() - s,
{
    if s + 1 < field.len() && fits(field, shape, s + 1) {
        lemma_rest_depth_is_first_stop(field, shape, s + 1);
    }
}

/// No cell vanishes in a drop, and none is made: the result holds as many
/// occupied cells as the field and the shape together.
pub proof fn lemma_drop_keeps_cells<T: Cell>(
    field: Seq<Seq<T>>,
    shape: Seq<Seq<T>>,
    width: nat,
    height: nat,
)
    requires
        has_shape(field, width, height),
        has_shape(shape, width, height),
        !clobbers(field, shape),
    ensures
        dropped(field, shape) matches Some(rested) && cell_count(rested) == cell_count(field)
            + cell_count(shape),
{
    lemma_shift_down_zero(shape);
    lemma_rest_depth_is_first_stop(field, shape, 0);
    let depth = rest_depth(field, shape);
    assert(fits(field, shape, depth));
    lemma_shift_down_count(shape, depth, width, height);
    lemma_shift_down_step(shape, depth, width, height);
    lemma_overlay_count(field, shifted_down(shape, depth), width, height);
}

/// A shape that touches the top row finds no room on a field whose top row
/// is occupied in every column that the shape touches.
pub proof fn lemma_no_room_under_full_top<T: Cell>(field: Seq<Seq<T>>, shape: Seq<Seq<T>>)
    requires
        field.len() == shape.len(),
        field.len() > 0,
        field[0].len() == shape[0].len(),
        exists|c: int| 0 <= c < shape[0].len() && occupied(#[trigger] shape[0][c]),
        forall|r: int, c: int|
            0 <= r < shape.len() && 0 <= c < shape[r].len() && occupied(#[trigger] shape[r][c])
                ==> occupied(field[0][c]),
    ensures
        dropped(field, shape) is None,
{
    let c = choose|c: int| 0 <= c < shape[0].len() && occupied(#[trigger] shape[0][c]);
    assert(clobber_at(field, shape, 0, c));
}

impl<const WIDTH: usize, const HEIGHT: usize, CellT: Cell> Grid<WIDTH, HEIGHT, CellT> {
    /// Moves the grid down by one row, unless it stands on the floor.
    ///
    /// Returns `None` exactly when the bottom row holds an occupied cell.
    /// Otherwise every row moves down by one and the top row is empty.
    #[inline(never)]
    pub fn try_bump_down(self) -> (ret: Option<Self>)
        ensures
            ret is None <==> hits_floor(self@),
            ret matches Some(g) ==> g@ == shifted_down(self@, 1),
    {
        if HEIGHT == 0 {
            proof {
                assert(shifted_down(self@, 1) =~= self@);
            }
            return Some(self);
        }
        let last: usize = HEIGHT - 1;
        let mut c: usize = 0;
        while c < WIDTH
            invariant
                last == HEIGHT - 1,
                c <= WIDTH,
                forall|c2: int| 0 <= c2 < c ==> !occupied(#[trigger] self.rows[last as int][c2]),
            decreases WIDTH - c,
        {
            if !self.rows[last][c].holds_nothing() {
                proof {
                    assert(self@.last() == self.rows[last as int]@);
                    assert(occupied(self@.last()[c as int]));
                }
                return None;
            }
            c = c + 1;
        }
        proof {
            assert(self@.last() == self.rows[last as int]@);
            assert(!hits_floor(self@));
        }
        let mut out = self;
        let mut r: usize = last;
        while r > 0
            invariant
                r <= last,
                last == HEIGHT - 1,
                forall|r2: int| r < r2 <= last ==> #[trigger] out.rows[r2] == self.rows[r2 - 1],
                forall|r2: int| 0 <= r2 <= r ==> #[trigger] out.rows[r2] == self.rows[r2],
            decreases r,
        {
            out.rows[r] = self.rows[r - 1];
            r = r - 1;
        }
        out.rows[0] = [CellT::empty(); WIDTH];
        proof {
            assert(out.rows[0]@ =~= empty_row::<CellT>(WIDTH as nat));
            assert(out@ =~= shifted_down(self@, 1));
        }
        Some(out)
    }

    /// Moves the grid down by `by` rows, one row at a time, and gives up as
    /// soon as it stands on the floor.
    ///
    /// Succeeds exactly when the lowest `by` rows (all rows, where the grid
    /// has fewer) are empty.
    #[inline(never)]
    pub fn try_shift_down(self, by: usize) -> (ret: Option<Self>)
        ensures
            ret is Some <==> can_shift_down(self@, by as nat),
            ret matches Some(g) ==> g@ == shifted_down(self@, by as nat),
    {
        // past HEIGHT rows the grid is empty and stays as it is
        let steps: usize = if by < HEIGHT {
            by
        } else {
            HEIGHT
        };
        let mut cur = self;
        let mut done: usize = 0;
        proof {
            lemma_shift_down_zero(self@);
            if by >= HEIGHT {
                lemma_shift_down_past_height(self@, by as nat, WIDTH as nat, HEIGHT as nat);
            }
        }
        while done < steps
            invariant
                done <= steps <= by,
                steps == by || (can_shift_down(self@, by as nat) <==> can_shift_down(
                    self@,
                    steps as nat,
                )),
                steps == by || shifted_down(self@, by as nat) == shifted_down(
                    self@,
                    steps as nat,
                ),
                can_shift_down(self@, done as nat),
                cur@ == shifted_down(self@, done as nat),
            decreases steps - done,
        {
            proof {
                lemma_shift_down_step(self@, done as nat, WIDTH as nat, HEIGHT as nat);
                lemma_floor_stops_fall(cur@);
            }
            match cur.try_bump_down() {
                Some(lower) => {
                    cur = lower;
                },
                None => {
                    proof {
                        if can_shift_down(self@, by as nat) {
                            lemma_shift_down_more(self@, (done + 1) as nat, by as nat);
                        }
                    }
                    return None;
                },
            }
            done = done + 1;
        }
        Some(cur)
    }

    /// Places `rhs` on this grid and lets it fall until it would hit an
    /// occupied cell of this grid or leave through the floor.
    ///
    /// Returns `None` exactly when `rhs` clobbers this grid where it starts.
    /// Otherwise the result is this grid overlaid with `rhs` at its resting
    /// depth: the depth before the first one, counted from the start, at
    /// which `rhs` no longer fits.
    #[inline(never)]
    pub fn drop(self, rhs: Self) -> (ret: Option<Self>)
        ensures
            ret is None <==> clobbers(self@, rhs@),
            ret matches Some(g) ==> Some(g@) == dropped(self@, rhs@),
            ret matches Some(g) ==> cell_count(g@) == cell_count(self@) + cell_count(rhs@),
    {
        let mut furthest = match self & rhs {
            Ok(placed) => placed,
            Err(_) => {
                return None;
            },
        };
        proof {
            lemma_shift_down_zero(rhs@);
            lemma_drop_keeps_cells(self@, rhs@, WIDTH as nat, HEIGHT as nat);
        }
        // the scan ends at the floor even where `rhs` is empty
        let mut shift: usize = 1;
        let mut resting = false;
        while shift < HEIGHT && !resting
            invariant
                1 <= shift,
                !resting ==> furthest@ == overlay(
                    self@,
                    shifted_down(rhs@, (shift - 1) as nat),
                ),
                !resting ==> rest_depth(self@, rhs@) == rest_depth_from(
                    self@,
                    rhs@,
                    (shift - 1) as nat,
                ),
                resting ==> furthest@ == overlay(
                    self@,
                    shifted_down(rhs@, rest_depth(self@, rhs@)),
                ),
            decreases HEIGHT - shift, (if resting { 0int } else { 1int }),
        {
            match rhs.try_shift_down(shift) {
                Some(shifted) => match self & shifted {
                    Ok(deeper) => {
                        furthest = deeper;
                        shift = shift + 1;
                    },
                    Err(_) => {
                        resting = true;
                    },
                },
                None => {
                    resting = true;
                },
            }
        }
        Some(furthest)
    }
}

} // verus!
