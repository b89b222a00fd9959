//! Lines of four cells, found on whole masks at once. A line runs from a
//! start cell in one of four directions; one word operation advances every
//! candidate line on the board by one cell.

use vstd::prelude::*;
use crate::bits::{bit, lemma_bit_and, lemma_bit_not, lemma_bit_or, lemma_bit_shl, lemma_bit_shr};
use crate::constants::{lemma_file, lemma_row, FILE, ROW};
use crate::grid::{cell, on_board};

verus! {

/// The four directions in which a line of four can run, each from its start
/// cell towards higher cell indices.
#[derive(Debug, Clone, Copy, PartialEq, Eq, Structural)]
pub enum Direction {
    /// Along a row, to the right.
    Horizontal,
    /// Down a column.
    Vertical,
    /// Down and to the left.
    Diagonal,
    /// Down and to the right.
    Antidiagonal,
}

impl Direction {
    /// Rows gained per step.
    pub open spec fn dr(self) -> int {
        match self {
            Direction::Horizontal => 0,
            _ => 1,
        }
    }

    /// Columns gained per step.
    pub open spec fn dc(self) -> int {
        match self {
            Direction::Horizontal => 1,
            Direction::Vertical => 0,
            Direction::Diagonal => -1,
            Direction::Antidiagonal => 1,
        }
    }

    /// The direction that a mirror set beside the board shows in place of
    /// this one: the two diagonals change places.
    pub open spec fn reflected(self) -> Direction {
        match self {
            Direction::Horizontal => Direction::Horizontal,
            Direction::Vertical => Direction::Vertical,
            Direction::Diagonal => Direction::Antidiagonal,
            Direction::Antidiagonal => Direction::Diagonal,
        }
    }

    /// Distance in cell indices between neighbours on a line.
    pub fn stride(self) -> (s: u64)
        ensures
            s == 7 * self.dr() + self.dc(),
            1 <= s <= 8,
    {
        match self {
            Direction::Horizontal => 1,
            Direction::Vertical => 7,
            Direction::Diagonal => 6,
            Direction::Antidiagonal => 8,
        }
    }

    /// Cell `i` must not be entered by a step in this direction: a step
    /// that lands there has left the board on one side and come back on the
    /// other.
    pub open spec fn on_edge(self, i: int) -> bool {
        0 <= i < 49 && match self {
            Direction::Horizontal => i % 7 == 0,
            Direction::Vertical => i < 7,
            Direction::Diagonal => i < 7 || i % 7 == 6,
            Direction::Antidiagonal => i < 7 || i % 7 == 0,
        }
    }

    /// The mask of the cells that a step in this direction must not enter.
    pub fn edge(self) -> (e: u64)
        ensures
            forall|i: int| bit(e, i) <==> self.on_edge(i),
    {
        let top = ROW[0];
        let first = FILE[0];
        let last = FILE[6];
        proof {
            assert forall|i: int| #[trigger] bit(top, i) <==> 0 <= i < 7 by {
                lemma_row(0, i);
            }
            assert forall|i: int| #[trigger] bit(first, i) <==> 0 <= i < 49 && i % 7 == 0 by {
                lemma_file(0, i);
            }
            assert forall|i: int| #[trigger] bit(last, i) <==> 0 <= i < 49 && i % 7 == 6 by {
                lemma_file(6, i);
            }
            assert forall|i: int| #[trigger]
                bit(top | last, i) <==> bit(top, i) || bit(last, i) by {
                lemma_bit_or(top, last, i);
            }
            assert forall|i: int| #[trigger]
                bit(top | first, i) <==> bit(top, i) || bit(first, i) by {
                lemma_bit_or(top, first, i);
            }
        }
        match self {
            Direction::Horizontal => first,
            Direction::Vertical => top,
            Direction::Diagonal => top | last,
            Direction::Antidiagonal => top | first,
        }
    }
}

/// `(row, col)` is a cell of the board and `cells` holds it.
pub open spec fn member(cells: u64, row: int, col: int) -> bool {
    on_board(row, col) && bit(cells, cell(row, col))
}

/// The four cells from `(row, col)` in direction `d` are cells of the board
/// and `cells` holds them all.
pub open spec fn line_in(cells: u64, row: int, col: int, d: Direction) -> bool {
    &&& member(cells, row, col)
    &&& member(cells, row + d.dr(), col + d.dc())
    &&& member(cells, row + 2 * d.dr(), col + 2 * d.dc())
    &&& member(cells, row + 3 * d.dr(), col + 3 * d.dc())
}

/// Advances every candidate line by one cell: a cell stays in the result if
/// `cells` holds it and its neighbour in direction `d` was in `x`.
fn advance(x: u64, cells: u64, edge: u64, stride: u64) -> (r: u64)
    requires
        1 <= stride <= 8,
    ensures
        forall|i: int|
            bit(r, i) <==> bit(cells, i) && bit(x, i + stride) && !bit(edge, i + stride),
{
    let r = ((x & !edge) >> stride) & cells;
    proof {
        assert forall|i: int|
            bit(r, i) <==> bit(cells, i) && bit(x, i + stride) && !bit(edge, i + stride) by {
            lemma_bit_and((x & !edge) >> stride, cells, i);
            lemma_bit_shr(x & !edge, stride, i);
            lemma_bit_and(x, !edge, i + stride);
            lemma_bit_not(edge, i + stride);
        }
    }
    r
}

/// The start cells of all lines of four in direction `d` that lie within
/// `cells`.
pub fn line_starts(cells: u64, d: Direction) -> (r: u64)
    requires
        forall|i: int| bit(cells, i) ==> 0 <= i < 42,
    ensures
        forall|i: int| bit(r, i) <==> 0 <= i < 42 && line_in(cells, i / 7, i % 7, d),
{
    let s = d.stride();
    let e = d.edge();
    let x1 = advance(cells, cells, e, s);
    let x2 = advance(x1, cells, e, s);
    let x3 = advance(x2, cells, e, s);
    proof {
        assert forall|i: int| bit(x3, i) <==> 0 <= i < 42 && line_in(cells, i / 7, i % 7, d) by {
            let r = i / 7;
            let c = i % 7;
            if 0 <= i < 42 {
                assert(i == 7 * r + c);
                assert(cell(r, c) == i);
                assert(cell(r + d.dr(), c + d.dc()) == i + s);
                assert(cell(r + 2 * d.dr(), c + 2 * d.dc()) == i + 2 * s);
                assert(cell(r + 3 * d.dr(), c + 3 * d.dc()) == i + 3 * s);
            }
        }
    }
    x3
}

/// `(row, col)` is one of the four cells of a line in direction `d` whose
/// start cell is in `starts`.
pub open spec fn covered(starts: u64, row: int, col: int, d: Direction) -> bool {
    ||| member(starts, row, col)
    ||| member(starts, row - d.dr(), col - d.dc())
    ||| member(starts, row - 2 * d.dr(), col - 2 * d.dc())
    ||| member(starts, row - 3 * d.dr(), col - 3 * d.dc())
}

/// The cells of all lines of four in direction `d` that start at a cell of
/// `starts`.
pub fn line_cells(starts: u64, d: Direction) -> (r: u64)
    requires
        forall|i: int|
            bit(starts, i) ==> 0 <= i < 42 && on_board(i / 7 + 3 * d.dr(), i % 7 + 3 * d.dc()),
    ensures
        forall|i: int| bit(r, i) <==> 0 <= i < 42 && covered(starts, i / 7, i % 7, d),
{
    let s = d.stride();
    let r = starts | (starts << s) | (starts << (2 * s)) | (starts << (3 * s));
    proof {
        assert forall|i: int| bit(r, i) <==> 0 <= i < 42 && covered(starts, i / 7, i % 7, d) by {
            lemma_bit_or(starts | (starts << s) | (starts << (2 * s)), starts << (3 * s), i);
            lemma_bit_or(starts | (starts << s), starts << (2 * s), i);
            lemma_bit_or(starts, starts << s, i);
            lemma_bit_shl(starts, s, i);
            lemma_bit_shl(starts, (2 * s) as u64, i);
            lemma_bit_shl(starts, (3 * s) as u64, i);
            let row = i / 7;
            let col = i % 7;
            if 0 <= i < 64 {
                assert(i == 7 * row + col);
                assert(cell(row, col) == i);
                assert(cell(row - d.dr(), col - d.dc()) == i - s);
                assert(cell(row - 2 * d.dr(), col - 2 * d.dc()) == i - 2 * s);
                assert(cell(row - 3 * d.dr(), col - 3 * d.dc()) == i - 3 * s);
            }
        }
    }
    r
}

/// `(row, col)` is one of the four cells of a line in direction `d` that
/// lies within `cells`.
pub open spec fn on_line_in(cells: u64, row: int, col: int, d: Direction) -> bool {
    ||| line_in(cells, row, col, d)
    ||| line_in(cells, row - d.dr(), col - d.dc(), d)
    ||| line_in(cells, row - 2 * d.dr(), col - 2 * d.dc(), d)
    ||| line_in(cells, row - 3 * d.dr(), col - 3 * d.dc(), d)
}

/// The cells that lie on some line of four in direction `d` within `cells`.
pub fn cells_on_lines(cells: u64, d: Direction) -> (r: u64)
    requires
        forall|i: int| bit(cells, i) ==> 0 <= i < 42,
    ensures
        forall|i: int| bit(r, i) <==> 0 <= i < 42 && on_line_in(cells, i / 7, i % 7, d),
{
    let starts = line_starts(cells, d);
    let r = line_cells(starts, d);
    proof {
        assert forall|row: int, col: int| #[trigger]
            member(starts, row, col) <==> line_in(cells, row, col, d) by {
            if on_board(row, col) {
                let i = cell(row, col);
                assert(i / 7 == row && i % 7 == col);
            }
        }
    }
    r
}

} // verus!
