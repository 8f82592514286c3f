//! Counting the occupied cells of a grid, and the operations that keep the
//! count.

use vstd::prelude::*;
use crate::cell::{occupied, Cell};
use crate::fall::{
    can_shift_down, lemma_shift_down_more, lemma_shift_down_step, lemma_shift_down_zero,
    shifted_down,
};
use crate::grid::{
    clobber_at, clobbers, empty_row, has_shape, overlay, overlay_row, row_is_empty,
};

verus! {

/// The number of occupied cells of a row.
pub open spec fn row_count<T: Cell>(row: Seq<T>) -> nat
    decreases row.len(),
{
    if row.len() == 0 {
        0
    } else {
        row_count(row.drop_last()) + if occupied(row.last()) {
            1nat
        } else {
            0nat
        }
    }
}

/// The number of occupied cells of a grid.
pub open spec fn cell_count<T: Cell>(g: Seq<Seq<T>>) -> nat
    decreases g.len(),
{
    if g.len() == 0 {
        0
    } else {
        cell_count(g.drop_last()) + row_count(g.last())
    }
}

/// An empty row counts for nothing.
pub proof fn lemma_empty_row_count<T: Cell>(row: Seq<T>)
    requires
        row_is_empty(row),
    ensures
        row_count(row) == 0,
    decreases row.len(),
{
    if row.len() > 0 {
        let rest = row.drop_last();
        assert forall|c: int| 0 <= c < rest.len() implies !occupied(#[trigger] rest[c]) by {
            assert(rest[c] == row[c]);
        }
        lemma_empty_row_count(rest);
        assert(!occupied(row[row.len() - 1]));
    }
}

/// The cells of a grid are those of its parts.
pub proof fn lemma_cell_count_concat<T: Cell>(a: Seq<Seq<T>>, b: Seq<Seq<T>>)
    ensures
        cell_count(a + b) == cell_count(a) + cell_count(b),
    decreases b.len(),
{
    if b.len() == 0 {
        assert(a + b =~= a);
    } else {
        assert((a + b).drop_last() =~= a + b.drop_last());
        assert((a + b).last() == b.last());
        lemma_cell_count_concat(a, b.drop_last());
    }
}

/// Two rows that share no occupied position have, overlaid, the cells of
/// both.
pub proof fn lemma_overlay_row_count<T: Cell>(x: Seq<T>, y: Seq<T>)
    requires
        x.len() == y.len(),
        forall|c: int| 0 <= c < x.len() ==> !(occupied(#[trigger] x[c]) && occupied(y[c])),
    ensures
        row_count(overlay_row(x, y)) == row_count(x) + row_count(y),
    decreases x.len(),
{
    if x.len() > 0 {
        let last = x.len() - 1;
        assert(overlay_row(x, y).drop_last() =~= overlay_row(x.drop_last(), y.drop_last()));
        assert forall|c: int| 0 <= c < x.drop_last().len() implies !(occupied(
            #[trigger] x.drop_last()[c],
        ) && occupied(y.drop_last()[c])) by {
            assert(x.drop_last()[c] == x[c]);
        }
        lemma_overlay_row_count(x.drop_last(), y.drop_last());
        assert(!(occupied(x[last]) && occupied(y[last])));
    }
}

/// Two grids that do not clobber each other have, overlaid, the cells of
/// both: none is lost and none is made.
pub proof fn lemma_overlay_count<T: Cell>(a: Seq<Seq<T>>, b: Seq<Seq<T>>, width: nat, height: nat)
    requires
        has_shape(a, width, height),
        has_shape(b, width, height),
        !clobbers(a, b),
    ensures
        cell_count(overlay(a, b)) == cell_count(a) + cell_count(b),
    decreases height,
{
    if height > 0 {
        let last = height - 1;
        let a0 = a.drop_last();
        let b0 = b.drop_last();
        assert(overlay(a, b).drop_last() =~= overlay(a0, b0));
        assert(overlay(a, b).last() == overlay_row(a.last(), b.last()));
        assert forall|r: int, c: int| !#[trigger] clobber_at(a0, b0, r, c) by {
            if clobber_at(a0, b0, r, c) {
                assert(clobber_at(a, b, r, c));
            }
        }
        assert(has_shape(a0, width, (height - 1) as nat)) by {
            assert forall|r: int| 0 <= r < a0.len() implies (#[trigger] a0[r]).len() == width by {
                assert(a0[r] == a[r]);
            }
        }
        assert(has_shape(b0, width, (height - 1) as nat)) by {
            assert forall|r: int| 0 <= r < b0.len() implies (#[trigger] b0[r]).len() == width by {
                assert(b0[r] == b[r]);
            }
        }
        lemma_overlay_count(a0, b0, width, (height - 1) as nat);
        assert forall|c: int| 0 <= c < a.last().len() implies !(occupied(#[trigger] a.last()[c])
            && occupied(b.last()[c])) by {
            assert(!clobber_at(a, b, last, c));
        }
        lemma_overlay_row_count(a.last(), b.last());
    }
}

/// A grid that moves down by rows that it can spare keeps all its cells.
pub proof fn lemma_shift_down_count<T: Cell>(g: Seq<Seq<T>>, n: nat, width: nat, height: nat)
    requires
        has_shape(g, width, height),
        can_shift_down(g, n),
    ensures
        cell_count(shifted_down(g, n)) == cell_count(g),
    decreases n,
{
    if n == 0 {
        lemma_shift_down_zero(g);
    } else {
        let m = (n - 1) as nat;
        lemma_shift_down_more(g, m, n);
        lemma_shift_down_count(g, m, width, height);
        lemma_shift_down_step(g, m, width, height);
        let moved = shifted_down(g, m);
        // one more row: the bottom row leaves, an empty row comes in on top
        if height > 0 {
            let top = seq![empty_row::<T>(width)];
            assert(shifted_down(moved, 1) =~= top + moved.drop_last());
            lemma_cell_count_concat(top, moved.drop_last());
            assert(top.drop_last() =~= Seq::<Seq<T>>::empty());
            assert(cell_count(top.drop_last()) == 0);
            lemma_empty_row_count(empty_row::<T>(width));
            assert(top.last() == empty_row::<T>(width));
            assert(row_is_empty(moved[height - 1]));
            lemma_empty_row_count(moved.last());
        } else {
            assert(shifted_down(moved, 1) =~= moved);
        }
    }
}

} // verus!
