use tetris::parse::{parse_line, parse_token, ParseError, TokenError};
use tetris::shapes::BlockShape::{I, Q};
use tetris::shapes::{BlockShape, InputBlock};

fn token(text: &str) -> Vec<char> {
    text.chars().collect()
}

#[test]
fn parse1() -> Result<(), ParseError> {
    assert_eq!(
        parse_line("I0,I4,Q8")?,
        vec![
            InputBlock::from((I, 0)),
            InputBlock::from((I, 4)),
            InputBlock::from((Q, 8))
        ]
    );
    Ok(())
}

#[test]
fn parse_every_shape_letter() {
    assert_eq!(
        parse_line("Q0,Z1,S2,T3,I4,L5,J6"),
        Ok(vec![
            InputBlock { shape: BlockShape::Q, starting_column: 0 },
            InputBlock { shape: BlockShape::Z, starting_column: 1 },
            InputBlock { shape: BlockShape::S, starting_column: 2 },
            InputBlock { shape: BlockShape::T, starting_column: 3 },
            InputBlock { shape: BlockShape::I, starting_column: 4 },
            InputBlock { shape: BlockShape::L, starting_column: 5 },
            InputBlock { shape: BlockShape::J, starting_column: 6 },
        ])
    );
}

#[test]
fn parse_single_block() {
    assert_eq!(
        parse_line("T12"),
        Ok(vec![InputBlock { shape: BlockShape::T, starting_column: 12 }])
    );
}

#[test]
fn parse_trims_white_space_around_the_line() {
    let expected = Ok(vec![
        InputBlock { shape: BlockShape::Q, starting_column: 0 },
        InputBlock { shape: BlockShape::I, starting_column: 4 },
    ]);
    assert_eq!(parse_line("  Q0,I4\r\n"), expected);
    assert_eq!(parse_line("\tQ0,I4 "), expected);
    assert_eq!(parse_line("\u{a0}Q0,I4\u{3000}"), expected);
}

#[test]
fn parse_keeps_white_space_inside_the_line() {
    assert_eq!(
        parse_line("Q0, I4"),
        Err(ParseError { token_ix: 1, reason: TokenError::UnknownShape })
    );
    assert_eq!(
        parse_line("Q0 ,I4"),
        Err(ParseError { token_ix: 0, reason: TokenError::BadColumn })
    );
}

#[test]
fn parse_leading_zeros() {
    assert_eq!(
        parse_line("I007"),
        Ok(vec![InputBlock { shape: BlockShape::I, starting_column: 7 }])
    );
    assert_eq!(
        parse_line("I0000000000000000000000000000000000000001"),
        Ok(vec![InputBlock { shape: BlockShape::I, starting_column: 1 }])
    );
}

#[test]
fn parse_largest_column() {
    let line = format!("L{}", usize::MAX);
    assert_eq!(
        parse_line(&line),
        Ok(vec![InputBlock { shape: BlockShape::L, starting_column: usize::MAX }])
    );
}

#[test]
fn parse_column_too_large() {
    let line = format!("Q1,L{}0", usize::MAX);
    assert_eq!(
        parse_line(&line),
        Err(ParseError { token_ix: 1, reason: TokenError::BadColumn })
    );
    assert_eq!(
        parse_line("L340282366920938463463374607431768211456"),
        Err(ParseError { token_ix: 0, reason: TokenError::BadColumn })
    );
}

#[test]
fn parse_empty_line() {
    assert_eq!(
        parse_line(""),
        Err(ParseError { token_ix: 0, reason: TokenError::UnknownShape })
    );
    assert_eq!(
        parse_line("   "),
        Err(ParseError { token_ix: 0, reason: TokenError::UnknownShape })
    );
}

#[test]
fn parse_empty_piece() {
    assert_eq!(
        parse_line("Q0,,I4"),
        Err(ParseError { token_ix: 1, reason: TokenError::UnknownShape })
    );
    assert_eq!(
        parse_line("Q0,"),
        Err(ParseError { token_ix: 1, reason: TokenError::UnknownShape })
    );
    assert_eq!(
        parse_line(",Q0"),
        Err(ParseError { token_ix: 0, reason: TokenError::UnknownShape })
    );
}

#[test]
fn parse_unknown_shape() {
    assert_eq!(
        parse_line("Q0,X1"),
        Err(ParseError { token_ix: 1, reason: TokenError::UnknownShape })
    );
    assert_eq!(
        parse_line("q0"),
        Err(ParseError { token_ix: 0, reason: TokenError::UnknownShape })
    );
    assert_eq!(
        parse_line("10"),
        Err(ParseError { token_ix: 0, reason: TokenError::UnknownShape })
    );
}

#[test]
fn parse_bad_column() {
    assert_eq!(
        parse_line("Q"),
        Err(ParseError { token_ix: 0, reason: TokenError::BadColumn })
    );
    assert_eq!(
        parse_line("Q0,I4x"),
        Err(ParseError { token_ix: 1, reason: TokenError::BadColumn })
    );
    assert_eq!(
        parse_line("Q-1"),
        Err(ParseError { token_ix: 0, reason: TokenError::BadColumn })
    );
    assert_eq!(
        parse_line("Q+1"),
        Err(ParseError { token_ix: 0, reason: TokenError::BadColumn })
    );
    assert_eq!(
        parse_line("Q\u{663}"),
        Err(ParseError { token_ix: 0, reason: TokenError::BadColumn })
    );
}

#[test]
fn parse_reports_the_first_bad_piece() {
    assert_eq!(
        parse_line("Q0,I,X3,Z"),
        Err(ParseError { token_ix: 1, reason: TokenError::BadColumn })
    );
}

#[test]
fn parse_token_reads_one_block() {
    assert_eq!(
        parse_token(&token("Z3")),
        Ok(InputBlock { shape: BlockShape::Z, starting_column: 3 })
    );
    assert_eq!(parse_token(&token("")), Err(TokenError::UnknownShape));
    assert_eq!(parse_token(&token("3Z")), Err(TokenError::UnknownShape));
    assert_eq!(parse_token(&token("ZZ")), Err(TokenError::BadColumn));
    assert_eq!(parse_token(&token("Z3,")), Err(TokenError::BadColumn));
}

#[test]
fn input_block_from_pair() {
    assert_eq!(
        InputBlock::from((BlockShape::J, 9)),
        InputBlock { shape: BlockShape::J, starting_column: 9 }
    );
}
