use std::ops::{BitAnd, Shr};

use tetris::{CellState, Grid, WouldClobber};

const X: CellState = CellState::Occupied;
const O: CellState = CellState::Unoccupied;

#[test]
fn shr_empty() {
    let _: Grid<0, 0, CellState> = Grid { rows: [] } >> 1;
    let _: Grid<0, 1, CellState> = Grid { rows: [[]] } >> 1;
    let _: Grid<1, 0, CellState> = Grid { rows: [] } >> 1;
}

#[test]
fn bitand() {
    assert_eq!(
        Grid { rows: [[X]] }.bitand(Grid { rows: [[O]] }),
        Ok(Grid { rows: [[X]] })
    );
}

#[test]
fn cant_shift_off_edge() {
    assert_eq!(Grid { rows: [[X]] }.try_shift_down(1), None)
}

#[test]
fn clobbering() {
    assert_eq!(
        Grid {
            rows: [
                [O, O, O, O], // row 0
                [O, X, X, O], // row 1
                [O, O, O, O], // row 2
            ]
        }
        .bitand(Grid {
            rows: [
                [O, O, O, O],
                [O, O, X, O],
                [O, O, O, O],
            ]
        }),
        Err(WouldClobber {
            row_ix: 1,
            col_ix: 2
        })
    )
}

#[test]
fn drop_single() {
    assert_eq!(
        Grid { rows: [[O]] }.drop(Grid { rows: [[X]] }),
        Some(Grid { rows: [[X]] })
    )
}

#[test]
fn drop_through_air() {
    assert_eq!(
        Grid { rows: [[O], [O], [O]] }.drop(Grid { rows: [[X], [O], [O]] }),
        Some(Grid { rows: [[O], [O], [X]] })
    )
}

#[test]
fn drop_with_no_solution() {
    assert_eq!(Grid { rows: [[X]] }.drop(Grid { rows: [[X]] }), None)
}

#[test]
fn drop_onto_another_block() {
    assert_eq!(
        Grid { rows: [[O], [O], [X]] }.drop(Grid { rows: [[X], [O], [O]] }),
        Some(Grid { rows: [[O], [X], [X]] })
    )
}

#[test]
fn drop_onto_another_block_with_overhang() {
    assert_eq!(
        Grid {
            rows: [
                [O, O],
                [O, O],
                [O, X],
            ]
        }
        .drop(Grid {
            rows: [
                [X, X],
                [O, O],
                [O, O],
            ]
        }),
        Some(Grid {
            rows: [
                [O, O],
                [X, X],
                [O, X],
            ]
        })
    )
}

#[test]
fn drop_does_not_warp_past_overhang() {
    assert_eq!(
        Grid {
            rows: [
                [O, O],
                [X, X],
                [O, O],
            ]
        }
        .drop(Grid {
            rows: [
                [X, X],
                [O, O],
                [O, O],
            ]
        }),
        Some(Grid {
            rows: [
                [X, X],
                [X, X],
                [O, O],
            ]
        })
    )
}

#[test]
fn shift_right_empty() {
    let _: Grid<0, 0, CellState> = Grid { rows: [] }.shr(1);
}

#[test]
fn shift_right_clears_single_column() {
    assert_eq!(Grid { rows: [[X]] }.shr(1), Grid { rows: [[O]] });
}

#[test]
fn shift_right_pushes_shifted_column_off_edge() {
    assert_eq!(Grid { rows: [[X, X]] }.shr(1), Grid { rows: [[O, X]] })
}

#[test]
fn solid_row_is_cleared() {
    assert_eq!(
        Grid {
            rows: [
                [X, O, O],
                [X, X, X],
                [O, X, O],
            ]
        }
        .with_solid_rows_cleared(),
        Grid {
            rows: [
                [O, O, O],
                [X, O, O],
                [O, X, O],
            ]
        }
    )
}

#[test]
fn multiple_solid_rows_cleared() {
    assert_eq!(
        Grid {
            rows: [
                [X, O, O],
                [X, X, X],
                [X, X, X],
                [O, X, O],
                [X, X, X],
                [O, O, X],
            ]
        }
        .with_solid_rows_cleared(),
        Grid {
            rows: [
                [O, O, O],
                [O, O, O],
                [O, O, O],
                [X, O, O],
                [O, X, O],
                [O, O, X],
            ]
        }
    )
}

#[test]
fn final_addition_example1() {
    assert_eq!(
        Grid {
            rows: [
                [O, O, O, O, O, O, O, O, O, O],
                [O, O, O, O, O, O, O, O, O, O],
                [X, X, X, X, X, X, X, X, O, O],
            ]
        }
        .bitand(Grid {
            rows: [
                [O, O, O, O, O, O, O, O, X, X],
                [O, O, O, O, O, O, O, O, X, X],
                [O, O, O, O, O, O, O, O, O, O],
            ]
        })
        .unwrap(),
        Grid {
            rows: [
                [O, O, O, O, O, O, O, O, X, X],
                [O, O, O, O, O, O, O, O, X, X],
                [X, X, X, X, X, X, X, X, O, O],
            ]
        },
    )
}

#[test]
fn final_drop_example1() {
    assert_eq!(
        Grid {
            rows: [
                [O, O, O, O, O, O, O, O, O, O],
                [O, O, O, O, O, O, O, O, O, O],
                [X, X, X, X, X, X, X, X, O, O],
            ]
        }
        .drop(Grid {
            rows: [
                [O, O, O, O, O, O, O, O, X, X],
                [O, O, O, O, O, O, O, O, X, X],
                [O, O, O, O, O, O, O, O, O, O],
            ]
        })
        .unwrap(),
        Grid {
            rows: [
                [O, O, O, O, O, O, O, O, O, O],
                [O, O, O, O, O, O, O, O, X, X],
                [X, X, X, X, X, X, X, X, X, X],
            ]
        },
    )
}
