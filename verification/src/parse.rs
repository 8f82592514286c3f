//! Reading a line of input: blocks, each a shape letter and a column,
//! separated by commas.

use vstd::prelude::*;
use crate::shapes::{BlockShape, InputBlock};

verus! {

/// What is wrong with one block of a line.
#[derive(Debug, Clone, Copy, PartialEq, Eq, Structural)]
pub enum TokenError {
    /// The block does not begin with one of the seven shape letters.
    UnknownShape,
    /// What follows the shape letter is not a column: it is empty, holds a
    /// character that is no digit, or names a number too large for `usize`.
    BadColumn,
}

/// The first block of a line that cannot be read, and why.
#[derive(Debug, Clone, Copy, PartialEq, Eq, Structural)]
pub struct ParseError {
    /// The position of the block among the blocks of the line.
    pub token_ix: usize,
    pub reason: TokenError,
}

/// White space: the characters that Unicode gives the property White_Space.
pub open spec fn is_space(c: char) -> bool {
    let u = c as u32;
    ||| 0x09 <= u <= 0x0d
    ||| u == 0x20
    ||| u == 0x85
    ||| u == 0xa0
    ||| u == 0x1680
    ||| 0x2000 <= u <= 0x200a
    ||| u == 0x2028
    ||| u == 0x2029
    ||| u == 0x202f
    ||| u == 0x205f
    ||| u == 0x3000
}

/// `s` without the white space at its start.
pub open spec fn trimmed_start(s: Seq<char>) -> Seq<char>
    decreases s.len(),
{
    if s.len() > 0 && is_space(s[0]) {
        trimmed_start(s.skip(1))
    } else {
        s
    }
}

/// `s` without the white space at its end.
pub open spec fn trimmed_end(s: Seq<char>) -> Seq<char>
    decreases s.len(),
{
    if s.len() > 0 && is_space(s.last()) {
        trimmed_end(s.drop_last())
    } else {
        s
    }
}

/// `s` without the white space at its start and at its end.
pub open spec fn trimmed(s: Seq<char>) -> Seq<char> {
    trimmed_end(trimmed_start(s))
}

/// The pieces of `s` between its commas, in order. There is one piece more
/// than there are commas, and a piece may be empty.
pub open spec fn split_at_commas(s: Seq<char>) -> Seq<Seq<char>>
    decreases s.len(),
{
    if s.len() == 0 {
        seq![Seq::<char>::empty()]
    } else {
        let before = split_at_commas(s.drop_last());
        if s.last() == ',' {
            before.push(Seq::<char>::empty())
        } else {
            before.drop_last().push(before.last().push(s.last()))
        }
    }
}

/// The shape that a letter names.
pub open spec fn shape_of(c: char) -> Option<BlockShape> {
    if c == 'Q' {
        Some(BlockShape::Q)
    } else if c == 'Z' {
        Some(BlockShape::Z)
    } else if c == 'S' {
        Some(BlockShape::S)
    } else if c == 'T' {
        Some(BlockShape::T)
    } else if c == 'I' {
        Some(BlockShape::I)
    } else if c == 'L' {
        Some(BlockShape::L)
    } else if c == 'J' {
        Some(BlockShape::J)
    } else {
        None
    }
}

/// One of the digits `0` to `9`.
pub open spec fn is_digit(c: char) -> bool {
    0x30 <= c as u32 <= 0x39
}

/// The number that a sequence of digits writes in base ten.
pub open spec fn number(digits: Seq<char>) -> nat
    decreases digits.len(),
{
    if digits.len() == 0 {
        0
    } else {
        number(digits.drop_last()) * 10 + (digits.last() as u32 - 0x30) as nat
    }
}

/// A column: one digit or more, and a number that `usize` holds.
pub open spec fn is_column(s: Seq<char>) -> bool {
    &&& s.len() > 0
    &&& forall|i: int| 0 <= i < s.len() ==> is_digit(#[trigger] s[i])
    &&& number(s) <= usize::MAX
}

/// The block that one piece of a line names: a shape letter, then a column.
pub open spec fn parsed_token(token: Seq<char>) -> Result<InputBlock, TokenError> {
    if token.len() == 0 {
        Err(TokenError::UnknownShape)
    } else {
        match shape_of(token[0]) {
            None => Err(TokenError::UnknownShape),
            Some(shape) => if is_column(token.skip(1)) {
                Ok(InputBlock { shape, starting_column: number(token.skip(1)) as usize })
            } else {
                Err(TokenError::BadColumn)
            },
        }
    }
}

/// The blocks that the pieces name, or the first piece that names none.
pub open spec fn parsed_tokens(tokens: Seq<Seq<char>>) -> Result<Seq<InputBlock>, ParseError>
    decreases tokens.len(),
{
    if tokens.len() == 0 {
        Ok(Seq::empty())
    } else {
        match parsed_tokens(tokens.drop_last()) {
            Err(e) => Err(e),
            Ok(blocks) => match parsed_token(tokens.last()) {
                Ok(block) => Ok(blocks.push(block)),
                Err(reason) => Err(
                    ParseError { token_ix: (tokens.len() - 1) as usize, reason },
                ),
            },
        }
    }
}

/// The blocks that a line names: the line is trimmed of white space, split
/// at its commas, and each piece is read as a block.
pub open spec fn parsed_line(line: Seq<char>) -> Result<Seq<InputBlock>, ParseError> {
    parsed_tokens(split_at_commas(trimmed(line)))
}

/// White space at the start can be taken off in one piece.
pub proof fn lemma_trimmed_start_skip(s: Seq<char>, k: int)
    requires
        0 <= k <= s.len(),
        forall|i: int| 0 <= i < k ==> is_space(#[trigger] s[i]),
    ensures
        trimmed_start(s) == trimmed_start(s.skip(k)),
    decreases k,
{
    if k == 0 {
        assert(s.skip(0) =~= s);
    } else {
        let rest = s.skip(1);
        assert forall|i: int| 0 <= i < k - 1 implies is_space(#[trigger] rest[i]) by {
            assert(rest[i] == s[i + 1]);
        }
        lemma_trimmed_start_skip(rest, k - 1);
        assert(rest.skip(k - 1) =~= s.skip(k));
    }
}

/// White space at the end can be taken off in one piece.
pub proof fn lemma_trimmed_end_take(s: Seq<char>, k: int)
    requires
        0 <= k <= s.len(),
        forall|i: int| k <= i < s.len() ==> is_space(#[trigger] s[i]),
    ensures
        trimmed_end(s) == trimmed_end(s.take(k)),
    decreases s.len() - k,
{
    if k == s.len() {
        assert(s.take(k) =~= s);
    } else {
        let rest = s.drop_last();
        assert(is_space(s[s.len() - 1]));
        lemma_trimmed_end_take(rest, k);
        assert(rest.take(k) =~= s.take(k));
    }
}

/// A longer sequence of digits writes no smaller number.
pub proof fn lemma_number_grows(digits: Seq<char>, k: int)
    requires
        0 <= k <= digits.len(),
    ensures
        number(digits.take(k)) <= number(digits),
    decreases digits.len() - k,
{
    if k == digits.len() {
        assert(digits.take(k) =~= digits);
    } else {
        lemma_number_grows(digits.drop_last(), k);
        assert(digits.drop_last().take(k) =~= digits.take(k));
    }
}

/// A piece that cannot be read among the first pieces of a line is the one
/// that the whole line fails on.
pub proof fn lemma_parsed_tokens_stops(tokens: Seq<Seq<char>>, n: int)
    requires
        0 <= n <= tokens.len(),
        parsed_tokens(tokens.take(n)) is Err,
    ensures
        parsed_tokens(tokens) == parsed_tokens(tokens.take(n)),
    decreases tokens.len() - n,
{
    if n == tokens.len() {
        assert(tokens.take(n) =~= tokens);
    } else {
        assert(tokens.take(n + 1).drop_last() =~= tokens.take(n));
        lemma_parsed_tokens_stops(tokens, n + 1);
    }
}

/// The character sequences that the vectors hold.
pub open spec fn pieces(tokens: Seq<Vec<char>>) -> Seq<Seq<char>> {
    Seq::new(tokens.len(), |i: int| tokens[i]@)
}

/// The characters of `line`, one by one.
fn chars_of(line: &str) -> (chars: Vec<char>)
    ensures
        chars@ == line@,
{
    let mut chars: Vec<char> = Vec::new();
    for ch in it: line.chars()
        invariant
            it.seq() == line@,
            chars@ == it.seq().take(it.index()),
    {
        chars.push(ch);
        proof {
            assert(it.seq().take(it.index() + 1) =~= it.seq().take(it.index()).push(ch));
        }
    }
    proof {
        assert(line@.take(line@.len() as int) =~= line@);
    }
    chars
}

/// Tells whether `c` is white space.
fn space(c: char) -> (b: bool)
    ensures
        b == is_space(c),
{
    let u: u32 = c as u32;
    (0x09 <= u && u <= 0x0d) || u == 0x20 || u == 0x85 || u == 0xa0 || u == 0x1680 || (0x2000 <= u
        && u <= 0x200a) || u == 0x2028 || u == 0x2029 || u == 0x202f || u == 0x205f || u == 0x3000
}

/// Finds where `chars` begins and ends once its white space is trimmed.
fn trim(chars: &Vec<char>) -> (bounds: (usize, usize))
    ensures
        bounds.0 <= bounds.1 <= chars.len(),
        chars@.subrange(bounds.0 as int, bounds.1 as int) == trimmed(chars@),
{
    let mut start: usize = 0;
    while start < chars.len() && space(chars[start])
        invariant
            start <= chars.len(),
            forall|i: int| 0 <= i < start ==> is_space(#[trigger] chars@[i]),
        decreases chars.len() - start,
    {
        start = start + 1;
    }
    let ghost body = chars@.skip(start as int);
    proof {
        lemma_trimmed_start_skip(chars@, start as int);
        assert(trimmed_start(chars@) == body);
    }
    let mut end: usize = chars.len();
    while end > start && space(chars[end - 1])
        invariant
            start <= end <= chars.len(),
            body == chars@.skip(start as int),
            forall|i: int| end - start <= i < body.len() ==> is_space(#[trigger] body[i]),
        decreases end,
    {
        end = end - 1;
    }
    proof {
        lemma_trimmed_end_take(body, end - start);
        assert(body.take(end - start) =~= chars@.subrange(start as int, end as int));
        let kept = body.take(end - start);
        if kept.len() > 0 {
            assert(kept.last() == chars@[end - 1]);
        }
        assert(trimmed_end(kept) == kept);
    }
    (start, end)
}

/// Splits the characters from `start` to `end` at the commas.
fn split(chars: &Vec<char>, start: usize, end: usize) -> (tokens: Vec<Vec<char>>)
    requires
        start <= end <= chars.len(),
    ensures
        pieces(tokens@) == split_at_commas(chars@.subrange(start as int, end as int)),
{
    let ghost body = chars@.subrange(start as int, end as int);
    let mut tokens: Vec<Vec<char>> = Vec::new();
    let mut cur: Vec<char> = Vec::new();
    let mut i: usize = start;
    proof {
        assert(body.take(0) =~= Seq::<char>::empty());
        assert(pieces(tokens@).push(cur@) =~= split_at_commas(body.take(0)));
    }
    while i < end
        invariant
            start <= i <= end <= chars.len(),
            body == chars@.subrange(start as int, end as int),
            pieces(tokens@).push(cur@) == split_at_commas(body.take(i - start)),
        decreases end - i,
    {
        let c = chars[i];
        proof {
            let seen = body.take(i - start + 1);
            assert(seen.drop_last() =~= body.take(i - start));
            assert(seen.last() == c);
        }
        let ghost before = pieces(tokens@).push(cur@);
        if c == ',' {
            tokens.push(cur);
            cur = Vec::new();
            proof {
                assert(pieces(tokens@).push(cur@) =~= before.push(Seq::<char>::empty()));
            }
        } else {
            cur.push(c);
            proof {
                assert(pieces(tokens@).push(cur@) =~= before.drop_last().push(
                    before.last().push(c),
                ));
            }
        }
        i = i + 1;
    }
    let ghost before = pieces(tokens@).push(cur@);
    tokens.push(cur);
    proof {
        assert(body.take(end - start) =~= body);
        assert(pieces(tokens@) =~= before);
    }
    tokens
}

/// Reads a shape letter.
fn shape_from(c: char) -> (shape: Option<BlockShape>)
    ensures
        shape == shape_of(c),
{
    if c == 'Q' {
        Some(BlockShape::Q)
    } else if c == 'Z' {
        Some(BlockShape::Z)
    } else if c == 'S' {
        Some(BlockShape::S)
    } else if c == 'T' {
        Some(BlockShape::T)
    } else if c == 'I' {
        Some(BlockShape::I)
    } else if c == 'L' {
        Some(BlockShape::L)
    } else if c == 'J' {
        Some(BlockShape::J)
    } else {
        None
    }
}

/// Reads one block: a shape letter and, right after it, the digits of a
/// column.
pub fn parse_token(token: &[char]) -> (ret: Result<InputBlock, TokenError>)
    ensures
        ret == parsed_token(token@),
{
    if token.len() == 0 {
        return Err(TokenError::UnknownShape);
    }
    let shape = match shape_from(token[0]) {
        Some(shape) => shape,
        None => {
            return Err(TokenError::UnknownShape);
        },
    };
    let ghost digits = token@.skip(1);
    if token.len() == 1 {
        return Err(TokenError::BadColumn);
    }
    let mut value: usize = 0;
    let mut i: usize = 1;
    proof {
        assert(digits.take(0) =~= Seq::<char>::empty());
    }
    while i < token.len()
        invariant
            1 <= i <= token.len(),
            shape_of(token@[0]) == Some(shape),
            digits == token@.skip(1),
            forall|j: int| 0 <= j < i - 1 ==> is_digit(#[trigger] digits[j]),
            value == number(digits.take(i - 1)),
        decreases token.len() - i,
    {
        let u: u32 = token[i] as u32;
        proof {
            assert(digits[i - 1] == token@[i as int]);
            assert(digits.take(i as int).drop_last() =~= digits.take(i - 1));
            assert(digits.take(i as int).last() == digits[i - 1]);
            lemma_number_grows(digits, i as int);
        }
        if u < 0x30 || u > 0x39 {
            proof {
                assert(!is_digit(digits[i - 1]));
            }
            return Err(TokenError::BadColumn);
        }
        let digit: usize = (u - 0x30) as usize;
        let tens = match value.checked_mul(10) {
            Some(tens) => tens,
            None => {
                return Err(TokenError::BadColumn);
            },
        };
        value = match tens.checked_add(digit) {
            Some(sum) => sum,
            None => {
                return Err(TokenError::BadColumn);
            },
        };
        i = i + 1;
    }
    proof {
        assert(digits.take(digits.len() as int) =~= digits);
    }
    Ok(InputBlock { shape, starting_column: value })
}

/// Reads a line of blocks.
///
/// White space around the line is ignored. What is left is split at its
/// commas, and each piece must be a block: one of the letters `Q`, `Z`, `S`,
/// `T`, `I`, `L`, `J`, followed by the column in decimal digits. The result
/// holds the blocks in the order of the line, or names the first piece that
/// is no block.
pub fn parse_line(s: &str) -> (ret: Result<Vec<InputBlock>, ParseError>)
    ensures
        match ret {
            Ok(blocks) => parsed_line(s@) == Ok::<Seq<InputBlock>, ParseError>(blocks@),
            Err(e) => parsed_line(s@) == Err::<Seq<InputBlock>, ParseError>(e),
        },
{
    let chars = chars_of(s);
    let (start, end) = trim(&chars);
    let tokens = split(&chars, start, end);
    let ghost all = pieces(tokens@);
    let mut blocks: Vec<InputBlock> = Vec::new();
    let mut k: usize = 0;
    proof {
        assert(all.take(0) =~= Seq::<Seq<char>>::empty());
    }
    while k < tokens.len()
        invariant
            k <= tokens.len(),
            all == pieces(tokens@),
            all == split_at_commas(trimmed(s@)),
            parsed_tokens(all.take(k as int)) == Ok::<Seq<InputBlock>, ParseError>(blocks@),
        decreases tokens.len() - k,
    {
        proof {
            assert(all.take(k + 1).drop_last() =~= all.take(k as int));
            assert(all.take(k + 1).last() == tokens@[k as int]@);
        }
        match parse_token(tokens[k].as_slice()) {
            Ok(block) => {
                blocks.push(block);
            },
            Err(reason) => {
                proof {
                    lemma_parsed_tokens_stops(all, k + 1);
                }
                return Err(ParseError { token_ix: k, reason });
            },
        }
        k = k + 1;
    }
    proof {
        assert(all.take(tokens.len() as int) =~= all);
    }
    Ok(blocks)
}

} // verus!
