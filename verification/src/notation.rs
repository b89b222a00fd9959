//! The textual notation of a position: six rows from top to bottom,
//! separated by `/`. Within a row, a digit `1` to `7` stands for that many
//! empty cells, `r` for a red piece and `y` for a yellow one. Each row
//! describes exactly seven cells.

use vstd::prelude::*;
use crate::board::Color;
use crate::grid::{empty_grid, Grid};

verus! {

/// Why a text is not the notation of a position.
#[derive(Debug, Clone, Copy, PartialEq, Eq, Structural)]
pub enum ParseError {
    /// A row does not describe exactly seven cells: it goes on past its
    /// seventh cell, it ends with no cell at all, a seventh row begins, or
    /// the text ends before the forty-second cell. `offset` is the number of
    /// cells described before the fault.
    RowLength { offset: usize },
    /// A `/` stands inside a row. `offset` is the number of cells described
    /// before it, which is not a multiple of seven.
    Separator { offset: usize },
    /// A character that the notation does not know.
    Character { found: char },
}

/// What one character of the notation stands for.
#[derive(Debug, Clone, Copy, PartialEq, Eq, Structural)]
pub enum Token {
    /// A run of empty cells, one to seven of them.
    Gap(usize),
    /// One piece.
    Piece(Color),
    /// The end of a row.
    Separator,
    /// Not part of the notation.
    Unknown,
}

/// The meaning of a character.
pub open spec fn token(ch: char) -> Token {
    if ch == '1' {
        Token::Gap(1)
    } else if ch == '2' {
        Token::Gap(2)
    } else if ch == '3' {
        Token::Gap(3)
    } else if ch == '4' {
        Token::Gap(4)
    } else if ch == '5' {
        Token::Gap(5)
    } else if ch == '6' {
        Token::Gap(6)
    } else if ch == '7' {
        Token::Gap(7)
    } else if ch == 'r' {
        Token::Piece(Color::Red)
    } else if ch == 'y' {
        Token::Piece(Color::Yellow)
    } else if ch == '/' {
        Token::Separator
    } else {
        Token::Unknown
    }
}

/// Reads one character.
pub fn classify(ch: char) -> (t: Token)
    ensures
        t == token(ch),
{
    match ch {
        '1' => Token::Gap(1),
        '2' => Token::Gap(2),
        '3' => Token::Gap(3),
        '4' => Token::Gap(4),
        '5' => Token::Gap(5),
        '6' => Token::Gap(6),
        '7' => Token::Gap(7),
        'r' => Token::Piece(Color::Red),
        'y' => Token::Piece(Color::Yellow),
        '/' => Token::Separator,
        _ => Token::Unknown,
    }
}

/// How far a reading of the notation has come.
pub struct Progress {
    /// The cells described so far; the rest is empty.
    pub grid: Grid,
    /// The number of cells described so far.
    pub cursor: int,
    /// A row has just been completed and its `/` has not been read yet.
    pub due: bool,
}

/// The state before the first character.
pub open spec fn start() -> Progress {
    Progress { grid: empty_grid(), cursor: 0, due: false }
}

/// The state after one more character, or the fault that the character is.
pub open spec fn step(p: Progress, ch: char) -> Result<Progress, ParseError> {
    let here = p.cursor as usize;
    if p.cursor >= 42 {
        Err(ParseError::RowLength { offset: here })
    } else {
        match token(ch) {
            Token::Gap(n) => {
                if p.due || p.cursor % 7 + n > 7 {
                    Err(ParseError::RowLength { offset: here })
                } else {
                    Ok(
                        Progress {
                            grid: p.grid,
                            cursor: p.cursor + n,
                            due: (p.cursor + n) % 7 == 0,
                        },
                    )
                }
            },
            Token::Piece(color) => {
                if p.due {
                    Err(ParseError::RowLength { offset: here })
                } else {
                    Ok(
                        Progress {
                            grid: p.grid.update(p.cursor, Some(color)),
                            cursor: p.cursor + 1,
                            due: (p.cursor + 1) % 7 == 0,
                        },
                    )
                }
            },
            Token::Separator => {
                if p.cursor % 7 != 0 {
                    Err(ParseError::Separator { offset: here })
                } else if !p.due {
                    Err(ParseError::RowLength { offset: here })
                } else {
                    Ok(Progress { grid: p.grid, cursor: p.cursor, due: false })
                }
            },
            Token::Unknown => Err(ParseError::Character { found: ch }),
        }
    }
}

/// The state after the first `n` characters of `text`, or the first fault
/// among them.
pub open spec fn read(text: Seq<char>, n: int) -> Result<Progress, ParseError>
    decreases n,
{
    if n <= 0 {
        Ok(start())
    } else {
        match read(text, n - 1) {
            Ok(p) => step(p, text[n - 1]),
            Err(e) => Err(e),
        }
    }
}

/// The position that `text` describes, or the first fault in it. A text
/// without a fault that ends before the forty-second cell is too short.
pub open spec fn parsed(text: Seq<char>) -> Result<Grid, ParseError> {
    match read(text, text.len() as int) {
        Ok(p) => {
            if p.cursor == 42 {
                Ok(p.grid)
            } else {
                Err(ParseError::RowLength { offset: p.cursor as usize })
            }
        },
        Err(e) => Err(e),
    }
}

/// A fault stays: reading on after it changes nothing.
pub proof fn lemma_fault_stays(text: Seq<char>, n: int, m: int)
    requires
        0 <= n <= m,
    ensures
        read(text, n) is Err ==> read(text, m) == read(text, n),
    decreases m - n,
{
    if n < m {
        lemma_fault_stays(text, n, m - 1);
    }
}

/// While no fault is met, the cursor stays within the board, a `/` is due
/// only at the end of a row, and the cells from the cursor on are empty.
pub proof fn lemma_read_bounds(text: Seq<char>, n: int)
    requires
        0 <= n,
    ensures
        read(text, n) matches Ok(p) ==> {
            &&& 0 <= p.cursor <= 42
            &&& p.due ==> p.cursor % 7 == 0 && p.cursor > 0
            &&& p.grid.len() == 42
            &&& forall|i: int| p.cursor <= i < 42 ==> p.grid[i] is None
        },
    decreases n,
{
    if n > 0 {
        lemma_read_bounds(text, n - 1);
    }
}

/// A text that is read without a fault describes all forty-two cells.
pub proof fn lemma_parsed_is_grid(text: Seq<char>)
    ensures
        parsed(text) matches Ok(grid) ==> grid.len() == 42,
{
    lemma_read_bounds(text, text.len() as int);
}

} // verus!
