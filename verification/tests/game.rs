use tetris::game::{
    first_occupied_row_ix, highest_block, highest_block_after_processing, play_line,
    process_blocks, LineError, PlacementImpossible,
};
use tetris::parse::{ParseError, TokenError};
use tetris::shapes::BlockShape::{I, J, L, Q, S, T, Z};
use tetris::shapes::{fill, grid_for, shape_fits, BlockShape, InputBlock};
use tetris::{CellState, Grid};

const X: CellState = CellState::Occupied;
const O: CellState = CellState::Unoccupied;

/// The columns of the playing field
const WIDTH: usize = 10;
/// A hundred rows to play on, and room above them for the tallest block
const HEIGHT: usize = 100 + 3;

fn blocks_of(pairs: &[(BlockShape, usize)]) -> Vec<InputBlock> {
    pairs.iter().map(|&pair| InputBlock::from(pair)).collect()
}

#[test]
fn shapes() {
    assert_eq!(
        grid_for(I),
        Grid {
            rows: [
                [X, X, X, X, O],
                [O, O, O, O, O],
            ]
        }
    );
    assert_eq!(
        grid_for(J),
        Grid {
            rows: [
                [O, X, O],
                [O, X, O],
                [X, X, O],
                [O, O, O],
            ]
        }
    );
    assert_eq!(
        grid_for(L),
        Grid {
            rows: [
                [X, O, O],
                [X, O, O],
                [X, X, O],
                [O, O, O],
            ]
        }
    );
    assert_eq!(
        grid_for(Q),
        Grid {
            rows: [
                [X, X, O],
                [X, X, O],
                [O, O, O],
            ]
        }
    );
    assert_eq!(
        grid_for(S),
        Grid {
            rows: [
                [O, X, X, O],
                [X, X, O, O],
                [O, O, O, O],
            ]
        }
    );
    assert_eq!(
        grid_for(T),
        Grid {
            rows: [
                [X, X, X, O],
                [O, X, O, O],
                [O, O, O, O],
            ]
        }
    );
    assert_eq!(
        grid_for(Z),
        Grid {
            rows: [
                [X, X, O, O],
                [O, X, X, O],
                [O, O, O, O],
            ]
        }
    );
}

const EXAMPLE1: [(BlockShape, usize); 3] = [(I, 0), (I, 4), (Q, 8)];
const EXAMPLE2: [(BlockShape, usize); 3] = [(T, 1), (Z, 3), (I, 4)];
const EXAMPLE3: [(BlockShape, usize); 8] = [
    (Q, 0),
    (I, 2),
    (I, 6),
    (I, 0),
    (I, 6),
    (I, 6),
    (Q, 2),
    (Q, 4),
];

#[test]
fn process_example1() -> Result<(), PlacementImpossible> {
    assert_eq!(
        process_blocks(Grid::default(), &blocks_of(&EXAMPLE1))?,
        Grid {
            rows: [
                [O, O, O, O, O, O, O, O, O, O],
                [O, O, O, O, O, O, O, O, O, O],
                [O, O, O, O, O, O, O, O, X, X],
            ]
        }
    );
    Ok(())
}

#[test]
fn process_example2() -> Result<(), PlacementImpossible> {
    assert_eq!(
        process_blocks(Grid::default(), &blocks_of(&EXAMPLE2))?,
        Grid {
            rows: [
                [O, O, O, O, X, X, X, X, O, O],
                [O, O, O, X, X, O, O, O, O, O],
                [O, X, X, X, X, X, O, O, O, O],
                [O, O, X, O, O, O, O, O, O, O],
            ]
        }
    );
    Ok(())
}

#[test]
fn process_example3() -> Result<(), PlacementImpossible> {
    assert_eq!(
        process_blocks(Grid::default(), &blocks_of(&EXAMPLE3))?,
        Grid {
            rows: [
                [O, O, O, O, O, O, O, O, O, O],
                [O, O, O, O, O, O, O, O, O, O],
                [O, O, X, X, O, O, O, O, O, O],
                [O, O, X, X, O, O, O, O, O, O],
                [X, X, O, O, X, X, X, X, X, X],
            ]
        }
    );
    Ok(())
}

#[test]
fn highest_block_example1() -> Result<(), PlacementImpossible> {
    assert_eq!(
        highest_block_after_processing(Grid::<WIDTH, HEIGHT>::default(), &blocks_of(&EXAMPLE1))?,
        1
    );
    Ok(())
}

#[test]
fn highest_block_example2() -> Result<(), PlacementImpossible> {
    assert_eq!(
        highest_block_after_processing(Grid::<WIDTH, HEIGHT>::default(), &blocks_of(&EXAMPLE2))?,
        4
    );
    Ok(())
}

#[test]
fn highest_block_example3() -> Result<(), PlacementImpossible> {
    assert_eq!(
        highest_block_after_processing(Grid::<WIDTH, HEIGHT>::default(), &blocks_of(&EXAMPLE3))?,
        3
    );
    Ok(())
}

#[test]
fn shapes_need_room() {
    for shape in [Q, Z, S, T, I, L, J] {
        assert!(shape_fits(shape, 4, 3));
        assert!(shape_fits(shape, WIDTH, HEIGHT));
        assert!(!shape_fits(shape, 0, 0));
        assert!(!shape_fits(shape, 1, 103));
    }
    assert!(shape_fits(I, 4, 1));
    assert!(!shape_fits(I, 3, 1));
    assert!(shape_fits(Q, 2, 2));
    assert!(!shape_fits(Q, 2, 1));
    assert!(shape_fits(L, 2, 3));
    assert!(!shape_fits(L, 2, 2));
    assert!(shape_fits(J, 2, 3));
    assert!(!shape_fits(J, 1, 3));
    assert!(shape_fits(Z, 3, 2));
    assert!(!shape_fits(Z, 2, 2));
    assert!(shape_fits(S, 3, 2));
    assert!(shape_fits(T, 3, 2));
    assert!(!shape_fits(T, 3, 1));
}

#[test]
fn fill_sets_the_named_cells_only() {
    let mut grid: Grid<3, 2> = Grid { rows: [[X, O, O], [O, O, O]] };
    fill(&mut grid, X, &[(1, 2), (0, 1), (1, 2)]);
    assert_eq!(grid, Grid { rows: [[X, X, O], [O, O, X]] });
    fill(&mut grid, O, &[(0, 0)]);
    assert_eq!(grid, Grid { rows: [[O, X, O], [O, O, X]] });
    fill(&mut grid, X, &[]);
    assert_eq!(grid, Grid { rows: [[O, X, O], [O, O, X]] });
}

#[test]
fn first_occupied_row() {
    let empty: Grid<2, 3> = Grid::default();
    assert_eq!(first_occupied_row_ix(&empty), None);
    assert_eq!(highest_block(&empty), 0);
    let low: Grid<2, 3> = Grid { rows: [[O, O], [O, O], [O, X]] };
    assert_eq!(first_occupied_row_ix(&low), Some(2));
    assert_eq!(highest_block(&low), 1);
    let high: Grid<2, 3> = Grid { rows: [[X, O], [O, O], [O, X]] };
    assert_eq!(first_occupied_row_ix(&high), Some(0));
    assert_eq!(highest_block(&high), 3);
    let none: Grid<2, 0> = Grid { rows: [] };
    assert_eq!(first_occupied_row_ix(&none), None);
    assert_eq!(highest_block(&none), 0);
}

#[test]
fn process_no_blocks() {
    let grid: Grid<4, 3> = Grid { rows: [[O, O, O, O], [O, O, O, O], [X, O, O, X]] };
    assert_eq!(process_blocks(grid, &[]), Ok(grid));
}

#[test]
fn process_clears_completed_rows() {
    let grid: Grid<4, 3> = Grid::default();
    assert_eq!(
        process_blocks(grid, &blocks_of(&[(Q, 0), (Q, 2)])),
        Ok(Grid::default())
    );
    let taller: Grid<4, 4> = Grid::default();
    assert_eq!(
        process_blocks(taller, &blocks_of(&[(L, 0), (I, 0)])),
        Ok(Grid {
            rows: [[O, O, O, O], [X, O, O, O], [X, O, O, O], [X, X, O, O]]
        })
    );
    assert_eq!(
        process_blocks(taller, &blocks_of(&[(L, 0), (T, 1)])),
        Ok(Grid {
            rows: [[O, O, O, O], [O, O, O, O], [X, O, O, O], [X, X, X, O]]
        })
    );
}

#[test]
fn process_shape_pushed_over_the_edge() {
    let grid: Grid<4, 3> = Grid::default();
    assert_eq!(
        process_blocks(grid, &blocks_of(&[(I, 2)])),
        Ok(Grid { rows: [[O, O, O, O], [O, O, O, O], [O, O, X, X]] })
    );
    assert_eq!(process_blocks(grid, &blocks_of(&[(I, 4)])), Ok(grid));
    assert_eq!(process_blocks(grid, &blocks_of(&[(I, usize::MAX)])), Ok(grid));
}

#[test]
fn process_fails_on_a_congested_grid() {
    let grid: Grid<4, 3> = Grid::default();
    assert_eq!(
        process_blocks(grid, &blocks_of(&[(Q, 0), (Q, 0)])),
        Err(PlacementImpossible { block_ix: 1 })
    );
    assert_eq!(
        process_blocks(grid, &blocks_of(&[(L, 0), (Q, 2), (J, 0), (I, 0)])),
        Err(PlacementImpossible { block_ix: 2 })
    );
    assert_eq!(
        highest_block_after_processing(grid, &blocks_of(&[(L, 2), (L, 2)])),
        Err(PlacementImpossible { block_ix: 1 })
    );
    let full_top: Grid<4, 3> = Grid { rows: [[X, X, X, O], [O, O, O, O], [O, O, O, O]] };
    for shape in [Q, Z, S, T, I, L, J] {
        assert_eq!(
            process_blocks(full_top, &blocks_of(&[(shape, 0)])),
            Err(PlacementImpossible { block_ix: 0 })
        );
    }
}

#[test]
fn lines_on_an_empty_field() {
    let empty = Grid::<WIDTH, HEIGHT>::default();
    let heights: Vec<usize> = [LINE1, LINE2, LINE3]
        .iter()
        .map(|line| play_line(empty, line).unwrap().1)
        .collect();
    assert_eq!(heights, vec![1, 4, 3]);
}

#[test]
fn lines_on_one_field() {
    let mut field = Grid::<WIDTH, HEIGHT>::default();
    let mut heights = Vec::new();
    for line in [LINE1, LINE2, LINE3] {
        let (after, height) = play_line(field, line).unwrap();
        assert_eq!(height, highest_block(&after));
        field = after;
        heights.push(height);
    }
    assert_eq!(heights, vec![1, 4, 7]);
}

#[test]
fn line_errors() {
    let field: Grid<4, 3> = Grid::default();
    assert_eq!(
        play_line(field, "Q0,Q"),
        Err(LineError::Unreadable(ParseError { token_ix: 1, reason: TokenError::BadColumn }))
    );
    assert_eq!(
        play_line(field, "Q0,K1"),
        Err(LineError::Unreadable(ParseError { token_ix: 1, reason: TokenError::UnknownShape }))
    );
    assert_eq!(
        play_line(field, "Q0,Q0"),
        Err(LineError::NoRoom(PlacementImpossible { block_ix: 1 }))
    );
    assert_eq!(
        play_line(field, " Q0,Q2\n"),
        Ok((Grid::default(), 0))
    );
}

const LINE1: &str = "I0,I4,Q8";
const LINE2: &str = "T1,Z3,I4";
const LINE3: &str = "Q0,I2,I6,I0,I6,I6,Q2,Q4";

/// Plays the lines of `input` on one field, and writes the height after each.
fn heights_of(input: &str) -> Result<String, LineError> {
    let mut field = Grid::<WIDTH, HEIGHT>::default();
    let mut output = String::new();
    for line in input.lines() {
        let (after, height) = play_line(field, line)?;
        field = after;
        output.push_str(&format!("{}\n", height));
    }
    Ok(output)
}

#[test]
fn example1() {
    assert_eq!(heights_of(LINE1), Ok("1\n".to_string()));
}

#[test]
fn example2() {
    assert_eq!(heights_of(LINE2), Ok("4\n".to_string()));
}

#[test]
fn example3() {
    assert_eq!(heights_of(LINE3), Ok("3\n".to_string()));
}

#[test]
fn given_input_txt_parses() {
    let lines = [
        "Q0",
        "Q0,Q1",
        "Q0,Q2,Q4,Q6,Q8",
        "Q0,Q2,Q4,Q6,Q8,Q1",
        "Q0,Q2,Q4,Q6,Q8,Q1,Q1",
        "I0,I4,Q8",
        "I0,I4,Q8,I0,I4",
        "L0,J2,L4,J6,Q8",
        "T0,T3",
        "T0,T3,I6,I6",
        "I0,I6,S4",
        "T1,Z3,I4",
        "L0,J3,L5,J8,T1",
        "L0,J3,L5,J8,T1,T6",
        "L0,J3,L5,J8,T1,T6,J2,L6,T0,T7",
        "L0,J3,L5,J8,T1,T6,J2,L6,T0,T7,Q4",
        "S0,S2,S4,S6",
        "S0,S2,S4,S5,Q8,Q8,Q8,Q8,T1,Q1,I0,Q4",
        "L0,J3,L5,J8,T1,T6,S2,Z5,T0,T7",
        "Q0,I2,I6,I0,I6,I6,Q2,Q4",
    ];
    let mut input = String::new();
    for line in lines {
        input.push_str(line);
        input.push('\n');
    }
    assert!(heights_of(&input).is_ok());
}

#[test]
fn each_given_line_on_an_empty_field() {
    let lines = [
        ("Q0", 2),
        ("Q0,Q1", 4),
        ("Q0,Q2,Q4,Q6,Q8", 0),
        ("Q0,Q2,Q4,Q6,Q8,Q1", 2),
        ("Q0,Q2,Q4,Q6,Q8,Q1,Q1", 4),
        ("I0,I4,Q8", 1),
        ("I0,I4,Q8,I0,I4", 0),
        ("L0,J2,L4,J6,Q8", 2),
        ("T0,T3", 2),
        ("T0,T3,I6,I6", 1),
        ("I0,I6,S4", 1),
        ("T1,Z3,I4", 4),
        ("L0,J3,L5,J8,T1", 3),
        ("L0,J3,L5,J8,T1,T6", 1),
        ("L0,J3,L5,J8,T1,T6,J2,L6,T0,T7", 2),
        ("L0,J3,L5,J8,T1,T6,J2,L6,T0,T7,Q4", 1),
        ("S0,S2,S4,S6", 8),
        ("S0,S2,S4,S5,Q8,Q8,Q8,Q8,T1,Q1,I0,Q4", 8),
        ("L0,J3,L5,J8,T1,T6,S2,Z5,T0,T7", 0),
        ("Q0,I2,I6,I0,I6,I6,Q2,Q4", 3),
    ];
    for (line, height) in lines {
        assert_eq!(heights_of(line), Ok(format!("{}\n", height)));
    }
}
