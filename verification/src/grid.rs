//! The grid: a fixed-size matrix of cells, its mathematical model, and the
//! two operations that combine and position grids (overlay and shift right).

use vstd::prelude::*;
use crate::cell::{occupied, Cell, CellState};

verus! {

/// A matrix of `HEIGHT` rows of `WIDTH` cells each, stored row by row with
/// row 0 at the top.
///
/// In contracts a grid is seen as its view: the sequence of its rows, each a
/// sequence of cells.
#[derive(Debug, Copy, PartialEq, Eq)]
pub struct Grid<const WIDTH: usize, const HEIGHT: usize, CellT = CellState> {
    pub rows: [[CellT; WIDTH]; HEIGHT],
}

impl<const WIDTH: usize, const HEIGHT: usize, CellT: Copy> Clone for Grid<WIDTH, HEIGHT, CellT> {
    fn clone(&self) -> (g: Self)
        ensures
            g == *self,
    {
        *self
    }
}

impl<const WIDTH: usize, const HEIGHT: usize, CellT> View for Grid<WIDTH, HEIGHT, CellT> {
    type V = Seq<Seq<CellT>>;

    open spec fn view(&self) -> Seq<Seq<CellT>> {
        Seq::new(HEIGHT as nat, |r: int| self.rows[r]@)
    }
}

/// The position of the first cell that is occupied in both operands of an
/// overlay, in reading order (rows from the top, each from the left).
#[derive(Debug, Clone, Copy, PartialEq, Eq, Structural)]
pub struct WouldClobber {
    pub row_ix: usize,
    pub col_ix: usize,
}

/// A row of `width` empty cells.
pub open spec fn empty_row<T: Cell>(width: nat) -> Seq<T> {
    Seq::new(width, |c: int| T::empty_value())
}

/// A grid of `height` rows of `width` empty cells.
pub open spec fn empty_grid<T: Cell>(width: nat, height: nat) -> Seq<Seq<T>> {
    Seq::new(height, |r: int| empty_row::<T>(width))
}

/// Every row of `g` has `width` cells and there are `height` of them.
pub open spec fn has_shape<T>(g: Seq<Seq<T>>, width: nat, height: nat) -> bool {
    &&& g.len() == height
    &&& forall|r: int| 0 <= r < g.len() ==> (#[trigger] g[r]).len() == width
}

/// No cell of the row is occupied.
pub open spec fn row_is_empty<T: Cell>(row: Seq<T>) -> bool {
    forall|c: int| 0 <= c < row.len() ==> !occupied(#[trigger] row[c])
}

/// Position (`r`, `c`) lies in `a` and is occupied both in `a` and in `b`.
pub open spec fn clobber_at<T: Cell>(a: Seq<Seq<T>>, b: Seq<Seq<T>>, r: int, c: int) -> bool {
    &&& 0 <= r < a.len()
    &&& 0 <= c < a[r].len()
    &&& occupied(a[r][c])
    &&& occupied(b[r][c])
}

/// Some position is occupied in both grids.
pub open spec fn clobbers<T: Cell>(a: Seq<Seq<T>>, b: Seq<Seq<T>>) -> bool {
    exists|r: int, c: int| clobber_at(a, b, r, c)
}

/// Position (`r`, `c`) comes before (`r2`, `c2`) in reading order.
pub open spec fn reads_before(r: int, c: int, r2: int, c2: int) -> bool {
    r < r2 || (r == r2 && c < c2)
}

/// (`r`, `c`) is occupied in both grids, and no position before it in
/// reading order is.
pub open spec fn first_clobber_at<T: Cell>(a: Seq<Seq<T>>, b: Seq<Seq<T>>, r: int, c: int) -> bool {
    &&& clobber_at(a, b, r, c)
    &&& forall|r2: int, c2: int|
        reads_before(r2, c2, r, c) ==> !#[trigger] clobber_at(a, b, r2, c2)
}

/// One cell of an overlay: `x` where `x` is occupied, else `y`.
pub open spec fn overlay_cell<T: Cell>(x: T, y: T) -> T {
    if occupied(x) {
        x
    } else {
        y
    }
}

/// The overlay of two rows of equal length, cell by cell.
pub open spec fn overlay_row<T: Cell>(x: Seq<T>, y: Seq<T>) -> Seq<T> {
    Seq::new(x.len(), |c: int| overlay_cell(x[c], y[c]))
}

/// The overlay of two grids of equal dimensions, row by row. It is the merge
/// of the two wherever they do not clobber each other.
pub open spec fn overlay<T: Cell>(a: Seq<Seq<T>>, b: Seq<Seq<T>>) -> Seq<Seq<T>> {
    Seq::new(a.len(), |r: int| overlay_row(a[r], b[r]))
}

/// `g` with every row moved `n` columns to the right: what passes the right
/// edge is lost, and empty cells come in from the left.
pub open spec fn shifted_right<T: Cell>(g: Seq<Seq<T>>, n: nat) -> Seq<Seq<T>> {
    Seq::new(
        g.len(),
        |r: int|
            Seq::new(
                g[r].len(),
                |c: int|
                    if c >= n {
                        g[r][c - n]
                    } else {
                        T::empty_value()
                    },
            ),
    )
}

/// At most one position is the first that both grids occupy.
pub proof fn lemma_first_clobber_unique<T: Cell>(
    a: Seq<Seq<T>>,
    b: Seq<Seq<T>>,
    r: int,
    c: int,
    r2: int,
    c2: int,
)
    requires
        first_clobber_at(a, b, r, c),
        first_clobber_at(a, b, r2, c2),
    ensures
        r == r2,
        c == c2,
{
    if reads_before(r, c, r2, c2) {
        assert(!clobber_at(a, b, r, c));
    }
    if reads_before(r2, c2, r, c) {
        assert(!clobber_at(a, b, r2, c2));
    }
}

/// The order of the operands does not matter to an overlay: the two grids
/// clobber each other in the same positions whichever comes first, and where
/// they do not, the merge is the same.
pub proof fn lemma_overlay_commutes<T: Cell>(a: Seq<Seq<T>>, b: Seq<Seq<T>>, width: nat, height: nat)
    requires
        has_shape(a, width, height),
        has_shape(b, width, height),
    ensures
        forall|r: int, c: int| #[trigger] clobber_at(a, b, r, c) == clobber_at(b, a, r, c),
        forall|r: int, c: int| #[trigger]
            first_clobber_at(a, b, r, c) == first_clobber_at(b, a, r, c),
        clobbers(a, b) == clobbers(b, a),
        !clobbers(a, b) ==> overlay(a, b) == overlay(b, a),
{
    assert forall|r: int, c: int| #[trigger] clobber_at(a, b, r, c) == clobber_at(b, a, r, c) by {}
    assert forall|r: int, c: int| #[trigger]
        first_clobber_at(a, b, r, c) == first_clobber_at(b, a, r, c) by {
        if first_clobber_at(a, b, r, c) {
            assert forall|r2: int, c2: int| reads_before(r2, c2, r, c) implies !#[trigger] clobber_at(
                b,
                a,
                r2,
                c2,
            ) by {
                assert(!clobber_at(a, b, r2, c2));
            }
        }
        if first_clobber_at(b, a, r, c) {
            assert forall|r2: int, c2: int| reads_before(r2, c2, r, c) implies !#[trigger] clobber_at(
                a,
                b,
                r2,
                c2,
            ) by {
                assert(!clobber_at(b, a, r2, c2));
            }
        }
    }
    if clobbers(a, b) {
        let (r, c) = choose|r: int, c: int| clobber_at(a, b, r, c);
        assert(clobber_at(b, a, r, c));
    }
    if clobbers(b, a) {
        let (r, c) = choose|r: int, c: int| clobber_at(b, a, r, c);
        assert(clobber_at(a, b, r, c));
    }
    if !clobbers(a, b) {
        assert forall|r: int| 0 <= r < height implies #[trigger] overlay(a, b)[r] == overlay(
            b,
            a,
        )[r] by {
            assert forall|c: int| 0 <= c < width implies #[trigger] overlay(a, b)[r][c] == overlay(
                b,
                a,
            )[r][c] by {
                assert(!clobber_at(a, b, r, c));
            }
            assert(overlay(a, b)[r] =~= overlay(b, a)[r]);
        }
        assert(overlay(a, b) =~= overlay(b, a));
    }
}

/// Laying the empty grid over a grid changes nothing, and always succeeds.
pub proof fn lemma_overlay_empty<T: Cell>(g: Seq<Seq<T>>, width: nat, height: nat)
    requires
        has_shape(g, width, height),
    ensures
        !clobbers(g, empty_grid::<T>(width, height)),
        overlay(g, empty_grid::<T>(width, height)) == g,
{
    let e = empty_grid::<T>(width, height);
    assert forall|r: int, c: int| !#[trigger] clobber_at(g, e, r, c) by {}
    assert forall|r: int| 0 <= r < height implies #[trigger] overlay(g, e)[r] == g[r] by {
        assert(overlay(g, e)[r] =~= g[r]);
    }
    assert(overlay(g, e) =~= g);
}

/// A grid moved right by its width or more is empty.
pub proof fn lemma_shift_right_past_width<T: Cell>(g: Seq<Seq<T>>, n: nat, width: nat, height: nat)
    requires
        has_shape(g, width, height),
        n >= width,
    ensures
        shifted_right(g, n) == empty_grid::<T>(width, height),
{
    assert forall|r: int| 0 <= r < height implies #[trigger] shifted_right(g, n)[r] == empty_row::<
        T,
    >(width) by {
        assert(shifted_right(g, n)[r] =~= empty_row::<T>(width));
    }
    assert(shifted_right(g, n) =~= empty_grid::<T>(width, height));
}

/// A grid moved right by no column is as it was.
pub proof fn lemma_shift_right_zero<T: Cell>(g: Seq<Seq<T>>)
    ensures
        shifted_right(g, 0) == g,
{
    assert forall|r: int| 0 <= r < g.len() implies #[trigger] shifted_right(g, 0)[r] == g[r] by {
        assert(shifted_right(g, 0)[r] =~= g[r]);
    }
    assert(shifted_right(g, 0) =~= g);
}

impl<const WIDTH: usize, const HEIGHT: usize, CellT> Grid<WIDTH, HEIGHT, CellT> {
    /// A grid is determined by its view.
    pub proof fn lemma_view_injective(self, other: Self)
        requires
            self@ == other@,
        ensures
            self == other,
    {
        assert forall|r: int| 0 <= r < HEIGHT implies self.rows[r] == other.rows[r] by {
            assert(self@[r] == other@[r]);
            assert(self.rows[r]@ == other.rows[r]@);
            assert(self.rows[r] =~= other.rows[r]);
        }
        assert(self.rows =~= other.rows);
    }
}

impl<const WIDTH: usize, const HEIGHT: usize, CellT: Cell> vstd::std_specs::ops::BitAndSpecImpl for Grid<WIDTH, HEIGHT, CellT> {
    open spec fn obeys_bitand_spec() -> bool {
        true
    }

    open spec fn bitand_req(self, rhs: Self) -> bool {
        true
    }

    /// The overlay of the two grids where no position is occupied in both,
    /// else the first such position.
    open spec fn bitand_spec(self, rhs: Self) -> Result<Self, WouldClobber> {
        if clobbers(self@, rhs@) {
            Err(
                choose|e: WouldClobber|
                    first_clobber_at(self@, rhs@, e.row_ix as int, e.col_ix as int),
            )
        } else {
            Ok(choose|g: Self| g@ == overlay(self@, rhs@))
        }
    }
}

impl<const WIDTH: usize, const HEIGHT: usize, CellT: Cell> std::ops::BitAnd for Grid<WIDTH, HEIGHT, CellT> {
    type Output = Result<Grid<WIDTH, HEIGHT, CellT>, WouldClobber>;

    /// Lays `rhs` over `self`. Succeeds exactly when no position is occupied
    /// in both, and then gives the merge of the two; otherwise reports the
    /// first position, in reading order, that both occupy.
    #[inline(never)]
    fn bitand(self, rhs: Self) -> (ret: Self::Output)
        ensures
            match ret {
                Ok(g) => !clobbers(self@, rhs@) && g@ == overlay(self@, rhs@),
                Err(e) => first_clobber_at(self@, rhs@, e.row_ix as int, e.col_ix as int),
            },
            rhs@ == empty_grid::<CellT>(WIDTH as nat, HEIGHT as nat) ==> ret == Ok::<
                Self,
                WouldClobber,
            >(self),
    {
        let mut out = self;
        let mut r: usize = 0;
        while r < HEIGHT
            invariant
                r <= HEIGHT,
                forall|r2: int, c2: int| r2 < r ==> !#[trigger] clobber_at(self@, rhs@, r2, c2),
                forall|r2: int|
                    0 <= r2 < r ==> (#[trigger] out.rows[r2])@ == overlay(self@, rhs@)[r2],
                forall|r2: int| r <= r2 < HEIGHT ==> #[trigger] out.rows[r2] == self.rows[r2],
            decreases HEIGHT - r,
        {
            let mut c: usize = 0;
            while c < WIDTH
                invariant
                    r < HEIGHT,
                    c <= WIDTH,
                    forall|r2: int, c2: int|
                        reads_before(r2, c2, r as int, c as int) ==> !#[trigger] clobber_at(
                            self@,
                            rhs@,
                            r2,
                            c2,
                        ),
                    forall|r2: int|
                        0 <= r2 < r ==> (#[trigger] out.rows[r2])@ == overlay(self@, rhs@)[r2],
                    forall|r2: int| r < r2 < HEIGHT ==> #[trigger] out.rows[r2] == self.rows[r2],
                    forall|c2: int|
                        0 <= c2 < c ==> #[trigger] out.rows[r as int][c2] == overlay_cell(
                            self.rows[r as int][c2],
                            rhs.rows[r as int][c2],
                        ),
                    forall|c2: int|
                        c <= c2 < WIDTH ==> #[trigger] out.rows[r as int][c2]
                            == self.rows[r as int][c2],
                decreases WIDTH - c,
            {
                let lhs_empty = self.rows[r][c].holds_nothing();
                let rhs_empty = rhs.rows[r][c].holds_nothing();
                if !lhs_empty && !rhs_empty {
                    let clobber = WouldClobber { row_ix: r, col_ix: c };
                    proof {
                        assert(clobber_at(self@, rhs@, r as int, c as int));
                        if rhs@ == empty_grid::<CellT>(WIDTH as nat, HEIGHT as nat) {
                            lemma_overlay_empty(self@, WIDTH as nat, HEIGHT as nat);
                        }
                        assert(first_clobber_at(
                            self@,
                            rhs@,
                            clobber.row_ix as int,
                            clobber.col_ix as int,
                        ));
                        let chosen = choose|e: WouldClobber|
                            first_clobber_at(self@, rhs@, e.row_ix as int, e.col_ix as int);
                        lemma_first_clobber_unique(
                            self@,
                            rhs@,
                            r as int,
                            c as int,
                            chosen.row_ix as int,
                            chosen.col_ix as int,
                        );
                    }
                    return Err(clobber);
                }
                if lhs_empty && !rhs_empty {
                    out.rows[r][c] = rhs.rows[r][c];
                }
                c = c + 1;
            }
            proof {
                assert(out.rows[r as int]@ =~= overlay(self@, rhs@)[r as int]);
            }
            r = r + 1;
        }
        proof {
            assert(out@ =~= overlay(self@, rhs@));
            assert(!clobbers(self@, rhs@));
            let chosen = choose|g: Self| g@ == overlay(self@, rhs@);
            out.lemma_view_injective(chosen);
            if rhs@ == empty_grid::<CellT>(WIDTH as nat, HEIGHT as nat) {
                lemma_overlay_empty(self@, WIDTH as nat, HEIGHT as nat);
                out.lemma_view_injective(self);
            }
        }
        Ok(out)
    }
}

impl<const WIDTH: usize, const HEIGHT: usize, CellT: Cell> Default for Grid<WIDTH, HEIGHT, CellT> {
    /// The grid in which every cell is empty.
    fn default() -> (g: Self)
        ensures
            g@ == empty_grid::<CellT>(WIDTH as nat, HEIGHT as nat),
    {
        let g = Grid { rows: [[CellT::empty(); WIDTH]; HEIGHT] };
        proof {
            assert forall|r: int| 0 <= r < HEIGHT implies #[trigger] g@[r] == empty_row::<CellT>(
                WIDTH as nat,
            ) by {
                assert(g.rows[r]@ =~= empty_row::<CellT>(WIDTH as nat));
            }
            assert(g@ =~= empty_grid::<CellT>(WIDTH as nat, HEIGHT as nat));
        }
        g
    }
}

impl<const WIDTH: usize, const HEIGHT: usize, CellT: Cell> vstd::std_specs::ops::ShrSpecImpl<usize> for Grid<WIDTH, HEIGHT, CellT> {
    open spec fn obeys_shr_spec() -> bool {
        true
    }

    open spec fn shr_req(self, rhs: usize) -> bool {
        true
    }

    /// The grid whose view is this one's, moved `rhs` columns to the right.
    open spec fn shr_spec(self, rhs: usize) -> Self {
        choose|g: Self| g@ == shifted_right(self@, rhs as nat)
    }
}

impl<const WIDTH: usize, const HEIGHT: usize, CellT: Cell> std::ops::Shr<usize> for Grid<WIDTH, HEIGHT, CellT> {
    type Output = Self;

    /// Moves every row `rhs` columns to the right. The cells that pass the
    /// right edge are lost, and empty cells fill the columns on the left.
    #[inline(never)]
    fn shr(self, rhs: usize) -> (ret: Self)
        ensures
            ret@ == shifted_right(self@, rhs as nat),
            rhs == 0 ==> ret == self,
            rhs >= WIDTH ==> ret@ == empty_grid::<CellT>(WIDTH as nat, HEIGHT as nat),
    {
        let mut out = self;
        let mut r: usize = 0;
        while r < HEIGHT
            invariant
                r <= HEIGHT,
                forall|r2: int|
                    0 <= r2 < r ==> (#[trigger] out.rows[r2])@ == shifted_right(
                        self@,
                        rhs as nat,
                    )[r2],
            decreases HEIGHT - r,
        {
            let mut c: usize = 0;
            while c < WIDTH
                invariant
                    r < HEIGHT,
                    c <= WIDTH,
                    forall|r2: int|
                        0 <= r2 < r ==> (#[trigger] out.rows[r2])@ == shifted_right(
                            self@,
                            rhs as nat,
                        )[r2],
                    forall|c2: int|
                        0 <= c2 < c ==> #[trigger] out.rows[r as int][c2] == shifted_right(
                            self@,
                            rhs as nat,
                        )[r as int][c2],
                decreases WIDTH - c,
            {
                if c >= rhs {
                    out.rows[r][c] = self.rows[r][c - rhs];
                } else {
                    out.rows[r][c] = CellT::empty();
                }
                c = c + 1;
            }
            proof {
                assert(out.rows[r as int]@ =~= shifted_right(self@, rhs as nat)[r as int]);
            }
            r = r + 1;
        }
        proof {
            assert(out@ =~= shifted_right(self@, rhs as nat));
            let chosen = choose|g: Self| g@ == shifted_right(self@, rhs as nat);
            out.lemma_view_injective(chosen);
            if rhs == 0 {
                lemma_shift_right_zero(self@);
                out.lemma_view_injective(self);
            }
            if rhs >= WIDTH {
                lemma_shift_right_past_width(self@, rhs as nat, WIDTH as nat, HEIGHT as nat);
            }
        }
        out
    }
}

} // verus!
