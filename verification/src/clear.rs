//! Clearing the rows that are full, and moving what stands above them down.

use vstd::prelude::*;
use crate::cell::{occupied, Cell};
use crate::grid::{empty_grid, empty_row, has_shape, Grid};

verus! {

/// Every cell of the row is occupied.
pub open spec fn row_is_solid<T: Cell>(row: Seq<T>) -> bool {
    forall|c: int| 0 <= c < row.len() ==> occupied(#[trigger] row[c])
}

/// The number of solid rows of `g`.
pub open spec fn solid_count<T: Cell>(g: Seq<Seq<T>>) -> nat
    decreases g.len(),
{
    if g.len() == 0 {
        0
    } else {
        solid_count(g.drop_last()) + if row_is_solid(g.last()) {
            1nat
        } else {
            0nat
        }
    }
}

/// The rows of `g` that are not solid, in the order in which they stand.
pub open spec fn unsolid_rows<T: Cell>(g: Seq<Seq<T>>) -> Seq<Seq<T>>
    decreases g.len(),
{
    if g.len() == 0 {
        Seq::empty()
    } else if row_is_solid(g.last()) {
        unsolid_rows(g.drop_last())
    } else {
        unsolid_rows(g.drop_last()).push(g.last())
    }
}

/// The width of the rows of `g`, taken from its first row.
pub open spec fn width_of<T>(g: Seq<Seq<T>>) -> nat {
    if g.len() > 0 {
        g[0].len()
    } else {
        0
    }
}

/// `g` with its solid rows cleared: the rows that are not solid stand at the
/// bottom, in their order, below as many empty rows as rows were solid.
pub open spec fn cleared<T: Cell>(g: Seq<Seq<T>>) -> Seq<Seq<T>> {
    empty_grid::<T>(width_of(g), solid_count(g)) + unsolid_rows(g)
}

/// `g` without its row `k`: the rows above `k` stand one row lower, and the
/// top row is empty.
pub open spec fn without_row<T: Cell>(g: Seq<Seq<T>>, k: int) -> Seq<Seq<T>> {
    seq![empty_row::<T>(width_of(g))] + g.subrange(0, k) + g.subrange(k + 1, g.len() as int)
}

/// Counting solid rows goes part by part.
pub proof fn lemma_solid_count_concat<T: Cell>(a: Seq<Seq<T>>, b: Seq<Seq<T>>)
    ensures
        solid_count(a + b) == solid_count(a) + solid_count(b),
    decreases b.len(),
{
    if b.len() == 0 {
        assert(a + b =~= a);
    } else {
        assert((a + b).drop_last() =~= a + b.drop_last());
        assert((a + b).last() == b.last());
        lemma_solid_count_concat(a, b.drop_last());
    }
}

/// Picking the rows that are not solid goes part by part.
pub proof fn lemma_unsolid_rows_concat<T: Cell>(a: Seq<Seq<T>>, b: Seq<Seq<T>>)
    ensures
        unsolid_rows(a + b) == unsolid_rows(a) + unsolid_rows(b),
    decreases b.len(),
{
    if b.len() == 0 {
        assert(a + b =~= a);
        assert(unsolid_rows(a) + unsolid_rows(b) =~= unsolid_rows(a));
    } else {
        assert((a + b).drop_last() =~= a + b.drop_last());
        assert((a + b).last() == b.last());
        lemma_unsolid_rows_concat(a, b.drop_last());
        if !row_is_solid(b.last()) {
            assert((unsolid_rows(a) + unsolid_rows(b.drop_last())).push(b.last()) =~= unsolid_rows(
                a,
            ) + unsolid_rows(b.drop_last()).push(b.last()));
        }
    }
}

/// Every row is either solid or kept.
pub proof fn lemma_rows_split<T: Cell>(g: Seq<Seq<T>>)
    ensures
        solid_count(g) + unsolid_rows(g).len() == g.len(),
    decreases g.len(),
{
    if g.len() > 0 {
        lemma_rows_split(g.drop_last());
    }
}

/// The rows that are kept are rows of `g`, and none of them is solid.
pub proof fn lemma_unsolid_rows_are_unsolid<T: Cell>(g: Seq<Seq<T>>)
    ensures
        forall|i: int|
            0 <= i < unsolid_rows(g).len() ==> !row_is_solid(#[trigger] unsolid_rows(g)[i])
                && g.contains(unsolid_rows(g)[i]),
    decreases g.len(),
{
    if g.len() > 0 {
        lemma_unsolid_rows_are_unsolid(g.drop_last());
        assert forall|i: int| 0 <= i < unsolid_rows(g).len() implies !row_is_solid(
            #[trigger] unsolid_rows(g)[i],
        ) && g.contains(unsolid_rows(g)[i]) by {
            if i < unsolid_rows(g.drop_last()).len() {
                let row = unsolid_rows(g.drop_last())[i];
                assert(g.drop_last().contains(row));
                let j = choose|j: int| 0 <= j < g.drop_last().len() && g.drop_last()[j] == row;
                assert(g[j] == row);
            } else {
                assert(unsolid_rows(g)[i] == g.last());
                assert(g[g.len() - 1] == g.last());
            }
        }
    }
}

/// Where no row is solid, all rows are kept.
pub proof fn lemma_nothing_to_clear<T: Cell>(g: Seq<Seq<T>>)
    requires
        forall|r: int| 0 <= r < g.len() ==> !row_is_solid(#[trigger] g[r]),
    ensures
        solid_count(g) == 0,
        unsolid_rows(g) == g,
        cleared(g) == g,
    decreases g.len(),
{
    if g.len() > 0 {
        lemma_nothing_to_clear(g.drop_last());
        assert(g.drop_last().push(g.last()) =~= g);
    } else {
        assert(unsolid_rows(g) =~= g);
    }
    assert(cleared(g) =~= g);
}

/// Where every row is solid, none is kept.
pub proof fn lemma_everything_to_clear<T: Cell>(g: Seq<Seq<T>>)
    requires
        forall|r: int| 0 <= r < g.len() ==> row_is_solid(#[trigger] g[r]),
    ensures
        solid_count(g) == g.len(),
        unsolid_rows(g) == Seq::<Seq<T>>::empty(),
        cleared(g) == empty_grid::<T>(width_of(g), g.len()),
    decreases g.len(),
{
    if g.len() > 0 {
        lemma_everything_to_clear(g.drop_last());
    }
    assert(cleared(g) =~= empty_grid::<T>(width_of(g), g.len()));
}

/// A grid of one row has one solid row or one row to keep.
pub proof fn lemma_single_row<T: Cell>(row: Seq<T>)
    ensures
        solid_count(seq![row]) == if row_is_solid(row) {
            1nat
        } else {
            0nat
        },
        unsolid_rows(seq![row]) == if row_is_solid(row) {
            Seq::<Seq<T>>::empty()
        } else {
            seq![row]
        },
{
    let g = seq![row];
    assert(g.drop_last() =~= Seq::<Seq<T>>::empty());
    assert(g.last() == row);
    assert(solid_count(g.drop_last()) == 0);
    assert(unsolid_rows(g.drop_last()) =~= Seq::<Seq<T>>::empty());
    assert(Seq::<Seq<T>>::empty().push(row) =~= g);
}

/// Taking one solid row out leaves the same grid to be had by clearing, and
/// one solid row fewer.
pub proof fn lemma_without_solid_row<T: Cell>(g: Seq<Seq<T>>, k: int, width: nat, height: nat)
    requires
        has_shape(g, width, height),
        width > 0,
        0 <= k < height,
        row_is_solid(g[k]),
    ensures
        has_shape(without_row(g, k), width, height),
        solid_count(without_row(g, k)) + 1 == solid_count(g),
        cleared(without_row(g, k)) == cleared(g),
{
    let top = seq![empty_row::<T>(width)];
    let above = g.subrange(0, k);
    let row = seq![g[k]];
    let below = g.subrange(k + 1, g.len() as int);
    assert(g =~= above + row + below);
    assert(without_row(g, k) == top + above + below);
    assert(width_of(without_row(g, k)) == width);
    // the row that comes in at the top is not solid
    assert(!occupied(empty_row::<T>(width)[0]));
    assert(!row_is_solid(top.last()));
    lemma_single_row(empty_row::<T>(width));
    lemma_single_row(g[k]);
    lemma_solid_count_concat(above + row, below);
    lemma_solid_count_concat(above, row);
    lemma_solid_count_concat(top + above, below);
    lemma_solid_count_concat(top, above);
    lemma_unsolid_rows_concat(above + row, below);
    lemma_unsolid_rows_concat(above, row);
    lemma_unsolid_rows_concat(top + above, below);
    lemma_unsolid_rows_concat(top, above);
    assert(cleared(without_row(g, k)) =~= cleared(g));
}

/// After clearing, the grid has its dimensions still, and no row of it is
/// solid.
pub proof fn lemma_cleared_has_no_solid_row<T: Cell>(g: Seq<Seq<T>>, width: nat, height: nat)
    requires
        has_shape(g, width, height),
        width > 0,
    ensures
        has_shape(cleared(g), width, height),
        forall|r: int| 0 <= r < height ==> !row_is_solid(#[trigger] cleared(g)[r]),
{
    lemma_rows_split(g);
    lemma_unsolid_rows_are_unsolid(g);
    let gone = solid_count(g);
    assert forall|r: int| 0 <= r < height implies (#[trigger] cleared(g)[r]).len() == width
        && !row_is_solid(cleared(g)[r]) by {
        if r < gone {
            assert(cleared(g)[r] == empty_row::<T>(width));
            assert(!occupied(empty_row::<T>(width)[0]));
        } else {
            let row = unsolid_rows(g)[r - gone];
            assert(cleared(g)[r] == row);
            assert(g.contains(row));
        }
    }
}

/// Clearing keeps each row that is not solid, and moves it down by as many
/// rows as there are solid rows below it; above the rows that are kept, all
/// rows are empty.
pub proof fn lemma_kept_rows_move_down<T: Cell>(g: Seq<Seq<T>>, r: int, width: nat, height: nat)
    requires
        has_shape(g, width, height),
        0 <= r < height,
    ensures
        cleared(g).len() == height,
        r < solid_count(g) ==> cleared(g)[r] == empty_row::<T>(width),
        !row_is_solid(g[r]) ==> cleared(g)[r + solid_count(g.subrange(r + 1, height as int))]
            == g[r],
{
    lemma_rows_split(g);
    let above = g.subrange(0, r);
    let row = seq![g[r]];
    let below = g.subrange(r + 1, height as int);
    assert(g =~= above + row + below);
    lemma_single_row(g[r]);
    lemma_solid_count_concat(above + row, below);
    lemma_solid_count_concat(above, row);
    lemma_unsolid_rows_concat(above + row, below);
    lemma_unsolid_rows_concat(above, row);
    lemma_rows_split(above);
    lemma_rows_split(below);
}

/// Clearing a second time changes nothing.
pub proof fn lemma_clearing_is_idempotent<T: Cell>(g: Seq<Seq<T>>, width: nat, height: nat)
    requires
        has_shape(g, width, height),
    ensures
        cleared(cleared(g)) == cleared(g),
{
    if width > 0 {
        lemma_cleared_has_no_solid_row(g, width, height);
        lemma_nothing_to_clear(cleared(g));
    } else {
        // rows without cells: all of them solid, and all of them empty
        lemma_everything_to_clear(g);
        let once = cleared(g);
        assert(width_of(g) == 0);
        assert(once == empty_grid::<T>(0, height));
        lemma_everything_to_clear(once);
        assert(width_of(once) == 0);
    }
}

impl<const WIDTH: usize, const HEIGHT: usize, CellT: Cell> Grid<WIDTH, HEIGHT, CellT> {
    /// Tells whether every cell of row `r` is occupied.
    fn row_solid(&self, r: usize) -> (b: bool)
        requires
            r < HEIGHT,
        ensures
            b == row_is_solid(self@[r as int]),
    {
        let mut c: usize = 0;
        while c < WIDTH
            invariant
                r < HEIGHT,
                c <= WIDTH,
                forall|c2: int| 0 <= c2 < c ==> occupied(#[trigger] self.rows[r as int][c2]),
            decreases WIDTH - c,
        {
            if self.rows[r][c].holds_nothing() {
                proof {
                    assert(!occupied(self@[r as int][c as int]));
                }
                return false;
            }
            c = c + 1;
        }
        true
    }

    /// Takes row `k` out: the rows above it move down by one, and an empty
    /// row comes in at the top.
    #[inline(never)]
    fn take_row_out(&mut self, k: usize)
        requires
            k < HEIGHT,
        ensures
            final(self)@ == without_row(old(self)@, k as int),
    {
        let ghost before = *self;
        let mut r: usize = k;
        while r > 0
            invariant
                r <= k < HEIGHT,
                forall|r2: int| r < r2 <= k ==> #[trigger] self.rows[r2] == before.rows[r2 - 1],
                forall|r2: int| 0 <= r2 <= r ==> #[trigger] self.rows[r2] == before.rows[r2],
                forall|r2: int| k < r2 < HEIGHT ==> #[trigger] self.rows[r2] == before.rows[r2],
            decreases r,
        {
            self.rows[r] = self.rows[r - 1];
            r = r - 1;
        }
        self.rows[0] = [CellT::empty(); WIDTH];
        proof {
            assert(self.rows[0]@ =~= empty_row::<CellT>(WIDTH as nat));
            assert(self@ =~= without_row(before@, k as int));
        }
    }

    /// Clears the solid rows: each is taken out, and what stood above it
    /// moves down to fill the gap, until no row is solid.
    ///
    /// The rows that are not solid keep their order and stand at the bottom
    /// of the result, below one empty row for each row that was solid.
    #[inline(never)]
    pub fn with_solid_rows_cleared(self) -> (ret: Self)
        ensures
            ret@ == cleared(self@),
            WIDTH > 0 ==> forall|r: int| 0 <= r < HEIGHT ==> !row_is_solid(#[trigger] ret@[r]),
    {
        if WIDTH == 0 {
            // a row without cells is solid and empty at once
            proof {
                lemma_everything_to_clear(self@);
                assert forall|r: int| 0 <= r < HEIGHT implies #[trigger] self@[r] == empty_row::<
                    CellT,
                >(0) by {
                    assert(self@[r] =~= empty_row::<CellT>(0));
                }
                assert(self@ =~= empty_grid::<CellT>(0, HEIGHT as nat));
            }
            return self;
        }
        let mut cur = self;
        // rows `unseen` and below hold no solid row
        let mut unseen: usize = HEIGHT;
        while unseen > 0
            invariant
                WIDTH > 0,
                unseen <= HEIGHT,
                cleared(cur@) == cleared(self@),
                forall|r: int| unseen <= r < HEIGHT ==> !row_is_solid(#[trigger] cur@[r]),
            decreases solid_count(cur@) + unseen,
        {
            let k: usize = unseen - 1;
            if cur.row_solid(k) {
                proof {
                    lemma_without_solid_row(cur@, k as int, WIDTH as nat, HEIGHT as nat);
                }
                let ghost before = cur;
                cur.take_row_out(k);
                proof {
                    assert forall|r: int| unseen <= r < HEIGHT implies !row_is_solid(
                        #[trigger] cur@[r],
                    ) by {
                        assert(cur@[r] == before@[r]);
                    }
                }
            } else {
                unseen = k;
            }
        }
        proof {
            lemma_nothing_to_clear(cur@);
        }
        cur
    }
}

} // verus!
