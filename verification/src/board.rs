//! The board: two occupancy masks, one per colour, and the operations on
//! them.

use vstd::prelude::*;
use vstd::std_specs::bits::u64_trailing_zeros;
use arrayvec::ArrayVec;
use crate::bits::{
    bit, clear_lowest, lemma_bit_and, lemma_bit_nonzero, lemma_bit_not, lemma_bit_one,
    lemma_bit_or, lemma_bit_shr, lemma_same_bits, lemma_tally_agree, lemma_tally_bounds,
    lemma_tally_rest, lemma_trailing_zeros, lowest, tally,
};
use crate::constants::{
    lemma_empty_board, lemma_file, lemma_game_mask, lemma_row, EMPTY_BOARD, FILE, GAME_MASK, ROW,
};
use crate::files::{files_of, new_files, push_file};
use crate::grid::{
    admits, cell, dropped, empty_grid, four_from, has_four, has_four_along, holds,
    lemma_lift_undoes_drop, lemma_playable_below, lemma_playable_skip, lemma_summit_from,
    lemma_summit_is, lifted, on_board, on_four, playable, playable_below, playable_files, summit,
    Grid,
};
use crate::lines::{cells_on_lines, line_in, line_starts, member, on_line_in, Direction};
use crate::notation::{
    classify, lemma_fault_stays, lemma_read_bounds, parsed, read, ParseError, Progress, Token,
};
use crate::score::{completed, merit, on_open_line, open_from, promising, score, standing};

verus! {

/// The two colours. Red plays for a high score and yellow for a low one.
#[derive(Debug, Clone, Copy, PartialEq, Eq, Structural)]
pub enum Color {
    Red,
    Yellow,
}

impl Color {
    /// The other colour.
    pub open spec fn opponent(self) -> Color {
        match self {
            Color::Red => Color::Yellow,
            Color::Yellow => Color::Red,
        }
    }

    /// The other colour of the other colour is the colour itself.
    pub proof fn lemma_opponent_twice(self)
        ensures
            self.opponent().opponent() == self,
            self.opponent() != self,
    {
    }

    /// The colour that moves after this one.
    pub fn other(&self) -> (r: Color)
        ensures
            r == self.opponent(),
            r != *self,
            r.opponent() == *self,
    {
        match self {
            Color::Red => Color::Yellow,
            Color::Yellow => Color::Red,
        }
    }
}

/// A position. Each mask holds the cells of one colour; both hold the
/// sentinel row.
#[derive(Debug, Clone, Copy, PartialEq, Eq, Structural)]
pub struct Board {
    red: u64,
    yellow: u64,
}

impl View for Board {
    type V = Grid;

    closed spec fn view(&self) -> Grid {
        Seq::new(
            42,
            |i: int|
                if bit(self.red, i) {
                    Some(Color::Red)
                } else if bit(self.yellow, i) {
                    Some(Color::Yellow)
                } else {
                    None
                },
        )
    }
}

impl Board {
    /// No playable cell holds two colours, the sentinel row is set in both
    /// masks, and nothing is set beyond it.
    #[verifier::type_invariant]
    pub closed spec fn wf(self) -> bool {
        forall|i: int|
            #![trigger bit(self.red, i)]
            #![trigger bit(self.yellow, i)]
            {
                &&& 0 <= i < 42 ==> !(bit(self.red, i) && bit(self.yellow, i))
                &&& 42 <= i < 49 ==> bit(self.red, i) && bit(self.yellow, i)
                &&& 49 <= i ==> !bit(self.red, i) && !bit(self.yellow, i)
            }
    }

    /// The view of a board is a grid of 42 cells.
    pub proof fn lemma_view_len(self)
        ensures
            self@.len() == 42,
    {
    }

    /// A board is known by its view: two boards that show the same grid
    /// have the same masks.
    pub proof fn lemma_view_tells_masks(self, other: Board)
        requires
            self.wf(),
            other.wf(),
            self@ == other@,
        ensures
            self == other,
    {
        assert forall|i: int| 0 <= i < 64 implies bit(self.red, i) == bit(other.red, i) by {
            if i < 42 {
                assert(self@[i] == other@[i]);
            }
        }
        assert forall|i: int| 0 <= i < 64 implies bit(self.yellow, i) == bit(other.yellow, i) by {
            if i < 42 {
                assert(self@[i] == other@[i]);
            }
        }
        lemma_same_bits(self.red, other.red);
        lemma_same_bits(self.yellow, other.yellow);
    }

    /// A piece dropped into a column that has room for it and then taken
    /// out again leaves both masks exactly as they were.
    pub proof fn lemma_remove_undoes_insert(
        self,
        file: int,
        color: Color,
        between: Board,
        after: Board,
    )
        requires
            self.wf(),
            between.wf(),
            after.wf(),
            playable(self@, file),
            between@ == dropped(self@, file, color),
            after@ == lifted(between@, file),
        ensures
            after == self,
    {
        lemma_lift_undoes_drop(self@, file, color);
        after.lemma_view_tells_masks(self);
    }

    /// The empty board.
    pub fn new() -> (b: Board)
        ensures
            b@ == empty_grid(),
            b.wf(),
    {
        proof {
            assert forall|i: int| #[trigger] bit(EMPTY_BOARD, i) <==> 42 <= i < 49 by {
                lemma_empty_board(i);
            }
        }
        let b = Board { red: EMPTY_BOARD, yellow: EMPTY_BOARD };
        assert(b@ =~= empty_grid());
        b
    }

    /// Puts a piece of `color` on the empty cell `index`, wherever in its
    /// column that cell is.
    fn place(&mut self, index: usize, color: Color)
        requires
            index < 42,
            old(self)@[index as int] is None,
        ensures
            final(self)@ == old(self)@.update(index as int, Some(color)),
    {
        let piece = 1u64 << index;
        proof {
            use_type_invariant(&*self);
            assert forall|i: int| #[trigger] bit(piece, i) <==> i == index by {
                lemma_bit_one(index as u64, i);
            }
            assert forall|i: int| #[trigger]
                bit(self.red | piece, i) <==> bit(self.red, i) || bit(piece, i) by {
                lemma_bit_or(self.red, piece, i);
            }
            assert forall|i: int| #[trigger]
                bit(self.yellow | piece, i) <==> bit(self.yellow, i) || bit(piece, i) by {
                lemma_bit_or(self.yellow, piece, i);
            }
        }
        match color {
            Color::Red => {
                self.red = self.red | piece;
            },
            Color::Yellow => {
                self.yellow = self.yellow | piece;
            },
        }
        assert(self@ =~= old(self)@.update(index as int, Some(color)));
    }

    /// Reads a position from its notation. The pieces stand where the text
    /// puts them, whether or not they rest on anything.
    pub fn from_notation(notation: &str) -> (r: Result<Board, ParseError>)
        ensures
            r matches Ok(board) ==> parsed(notation@) == Ok::<Grid, ParseError>(board@),
            r matches Err(fault) ==> parsed(notation@) == Err::<Grid, ParseError>(fault),
    {
        let mut board = Board::new();
        let mut index: usize = 0;
        let mut due = false;
        for ch in it: notation.chars()
            invariant
                it.seq() == notation@,
                read(notation@, it.index() as int) == Ok::<Progress, ParseError>(
                    Progress { grid: board@, cursor: index as int, due },
                ),
        {
            proof {
                lemma_read_bounds(notation@, it.index() as int);
                lemma_fault_stays(notation@, it.index() + 1, notation@.len() as int);
            }
            if index >= 42 {
                return Err(ParseError::RowLength { offset: index });
            }
            match classify(ch) {
                Token::Gap(n) => {
                    if due || index % 7 + n > 7 {
                        return Err(ParseError::RowLength { offset: index });
                    }
                    index += n;
                    due = index % 7 == 0;
                },
                Token::Piece(color) => {
                    if due {
                        return Err(ParseError::RowLength { offset: index });
                    }
                    board.place(index, color);
                    index += 1;
                    due = index % 7 == 0;
                },
                Token::Separator => {
                    if index % 7 != 0 {
                        return Err(ParseError::Separator { offset: index });
                    }
                    if !due {
                        return Err(ParseError::RowLength { offset: index });
                    }
                    due = false;
                },
                Token::Unknown => {
                    return Err(ParseError::Character { found: ch });
                },
            }
        }
        if index == 42 {
            Ok(board)
        } else {
            Err(ParseError::RowLength { offset: index })
        }
    }

    /// What the cell at `index` holds, the cells counted row by row from the
    /// top left.
    pub fn piece_at(&self, index: usize) -> (piece: Option<Color>)
        requires
            index < 42,
        ensures
            piece == self@[index as int],
    {
        let cell = 1u64 << index;
        let red = self.red & cell;
        let yellow = self.yellow & cell;
        proof {
            assert forall|i: int| #[trigger] bit(red, i) <==> bit(self.red, i) && i == index by {
                lemma_bit_and(self.red, cell, i);
                lemma_bit_one(index as u64, i);
            }
            assert forall|i: int| #[trigger]
                bit(yellow, i) <==> bit(self.yellow, i) && i == index by {
                lemma_bit_and(self.yellow, cell, i);
                lemma_bit_one(index as u64, i);
            }
            if red != 0 {
                lemma_trailing_zeros(red);
            }
            if yellow != 0 {
                lemma_trailing_zeros(yellow);
            }
            if bit(self.red, index as int) {
                lemma_bit_nonzero(red, index as int);
            }
            if bit(self.yellow, index as int) {
                lemma_bit_nonzero(yellow, index as int);
            }
        }
        if red != 0 {
            Some(Color::Red)
        } else if yellow != 0 {
            Some(Color::Yellow)
        } else {
            None
        }
    }

    /// The mask of red pieces, sentinel row included.
    pub fn red(&self) -> (r: u64)
        ensures
            forall|i: int| 0 <= i < 42 ==> (bit(r, i) <==> self@[i] == Some(Color::Red)),
            forall|i: int| 42 <= i ==> (bit(r, i) <==> i < 49),
    {
        proof {
            use_type_invariant(self);
        }
        self.red
    }

    /// The mask of yellow pieces, sentinel row included.
    pub fn yellow(&self) -> (r: u64)
        ensures
            forall|i: int| 0 <= i < 42 ==> (bit(r, i) <==> self@[i] == Some(Color::Yellow)),
            forall|i: int| 42 <= i ==> (bit(r, i) <==> i < 49),
    {
        proof {
            use_type_invariant(self);
        }
        self.yellow
    }

    /// Every occupied cell, sentinel row included.
    #[inline(always)]
    pub fn all(&self) -> (r: u64)
        ensures
            forall|i: int| 0 <= i < 42 ==> (bit(r, i) <==> self@[i] is Some),
            forall|i: int| 42 <= i ==> (bit(r, i) <==> i < 49),
    {
        proof {
            use_type_invariant(self);
            assert forall|i: int| #[trigger]
                bit(self.red | self.yellow, i) == (bit(self.red, i) || bit(self.yellow, i)) by {
                lemma_bit_or(self.red, self.yellow, i);
            }
        }
        self.red | self.yellow
    }

    /// Every playable cell that holds no piece.
    #[inline(always)]
    pub fn empty(&self) -> (r: u64)
        ensures
            forall|i: int| bit(r, i) <==> 0 <= i < 42 && self@[i] is None,
    {
        let all = self.all();
        proof {
            assert forall|i: int| #[trigger]
                bit(!all & GAME_MASK, i) <==> 0 <= i < 42 && self@[i] is None by {
                lemma_bit_and(!all, GAME_MASK, i);
                lemma_bit_not(all, i);
                lemma_game_mask(i);
            }
        }
        !all & GAME_MASK
    }

    /// The playable cells that hold a piece of `color`.
    fn pieces(&self, color: Color) -> (r: u64)
        ensures
            forall|i: int| bit(r, i) <==> 0 <= i < 42 && self@[i] == Some(color),
    {
        proof {
            use_type_invariant(self);
        }
        let mask = match color {
            Color::Yellow => self.yellow,
            Color::Red => self.red,
        };
        proof {
            assert forall|i: int| #[trigger]
                bit(mask & GAME_MASK, i) <==> 0 <= i < 42 && self@[i] == Some(color) by {
                lemma_bit_and(mask, GAME_MASK, i);
                lemma_game_mask(i);
            }
        }
        mask & GAME_MASK
    }

    /// The one-cell mask of the highest piece in column `file`; of the
    /// column's sentinel cell where the column is empty.
    fn top_of(&self, file: usize) -> (r: u64)
        requires
            file < 7,
        ensures
            forall|i: int| bit(r, i) <==> i == cell(summit(self@, file as int), file as int),
    {
        let all = self.all();
        let column = FILE[file] & all;
        proof {
            let g = self@;
            assert forall|i: int| #[trigger]
                bit(column, i) <==> 0 <= i < 49 && i % 7 == file && (i >= 42 || g[i] is Some) by {
                lemma_bit_and(FILE[file as int], all, i);
                lemma_file(file as int, i);
            }
            assert(bit(column, 42 + file));
            lemma_bit_nonzero(column, 42 + file);
            lemma_trailing_zeros(column);
            let t = u64_trailing_zeros(column) as int;
            let s = t / 7;
            assert(t == cell(s, file as int));
            assert forall|r: int| 0 <= r < s implies g[cell(r, file as int)] is None by {
                assert(!bit(column, cell(r, file as int)));
            }
            lemma_summit_is(g, file as int, s);
        }
        lowest(column)
    }

    /// Drops a piece of `color` into column `file`. The piece comes to rest
    /// on the highest piece of the column, or on the floor. Nothing changes
    /// where the top cell of the column is taken.
    pub fn insert(&mut self, file: usize, color: Color)
        requires
            file < 7,
        ensures
            final(self)@ == dropped(old(self)@, file as int, color),
    {
        let top = self.top_of(file);
        let landing = top >> 7;
        proof {
            use_type_invariant(&*self);
            let g = self@;
            let s = summit(g, file as int);
            lemma_summit_from(g, file as int, 0);
            assert forall|i: int| #[trigger]
                bit(landing, i) <==> s > 0 && i == cell(s - 1, file as int) by {
                lemma_bit_shr(top, 7, i);
            }
            assert forall|i: int| #[trigger]
                bit(self.red | landing, i) <==> bit(self.red, i) || bit(landing, i) by {
                lemma_bit_or(self.red, landing, i);
            }
            assert forall|i: int| #[trigger]
                bit(self.yellow | landing, i) <==> bit(self.yellow, i) || bit(landing, i) by {
                lemma_bit_or(self.yellow, landing, i);
            }
        }
        match color {
            Color::Red => {
                self.red = self.red | landing;
            },
            Color::Yellow => {
                self.yellow = self.yellow | landing;
            },
        }
        assert(self@ =~= dropped(old(self)@, file as int, color));
    }

    /// Takes the highest piece out of column `file`. Nothing changes where
    /// the column is empty.
    pub fn remove(&mut self, file: usize)
        requires
            file < 7,
        ensures
            final(self)@ == lifted(old(self)@, file as int),
    {
        let summit_cell = self.top_of(file);
        let top = summit_cell & GAME_MASK;
        proof {
            use_type_invariant(&*self);
            let g = self@;
            let s = summit(g, file as int);
            lemma_summit_from(g, file as int, 0);
            assert forall|i: int| #[trigger]
                bit(!top, i) <==> 0 <= i < 64 && !(s < 6 && i == cell(s, file as int)) by {
                lemma_bit_not(top, i);
                lemma_bit_and(summit_cell, GAME_MASK, i);
                lemma_game_mask(i);
            }
            assert forall|i: int| #[trigger]
                bit(self.red & !top, i) <==> bit(self.red, i) && bit(!top, i) by {
                lemma_bit_and(self.red, !top, i);
            }
            assert forall|i: int| #[trigger]
                bit(self.yellow & !top, i) <==> bit(self.yellow, i) && bit(!top, i) by {
                lemma_bit_and(self.yellow, !top, i);
            }
        }
        self.red = self.red & !top;
        self.yellow = self.yellow & !top;
        assert(self@ =~= lifted(old(self)@, file as int));
    }

    /// The columns whose top cell is empty, in ascending order.
    pub fn legal_files(&self) -> (files: ArrayVec<usize, 7>)
        ensures
            files_of(files) == playable_files(self@),
    {
        let mut files = new_files();
        let empty = self.empty();
        let mut top_row = empty & ROW[0];
        let ghost g = self@;
        let ghost mut done: int = 0;
        proof {
            assert forall|i: int| #[trigger] bit(top_row, i) <==> 0 <= i < 7 && g[i] is None by {
                lemma_bit_and(empty, ROW[0], i);
                lemma_row(0, i);
            }
        }
        while top_row != 0
            invariant
                0 <= done <= 7,
                g.len() == 42,
                files_of(files) == playable_below(g, done),
                forall|i: int| bit(top_row, i) <==> done <= i < 7 && g[i] is None,
            decreases 7 - done,
        {
            let lsb = lowest(top_row);
            proof {
                lemma_trailing_zeros(top_row);
                lemma_bit_nonzero(lsb, u64_trailing_zeros(top_row) as int);
                lemma_trailing_zeros(lsb);
            }
            let file = lsb.trailing_zeros() as usize;
            proof {
                assert(bit(lsb, file as int));
                assert forall|c: int| done <= c < file implies g[c] is Some by {
                    assert(!bit(top_row, c));
                }
                lemma_playable_skip(g, done, file as int);
                lemma_playable_below(g, file as int);
            }
            push_file(&mut files, file);
            top_row = clear_lowest(top_row);
            proof {
                done = file + 1;
            }
        }
        proof {
            assert forall|c: int| done <= c < 7 implies g[c] is Some by {
                if g[c] is None {
                    lemma_bit_nonzero(top_row, c);
                }
            }
            lemma_playable_skip(g, done, 7);
        }
        files
    }

    /// The number of pieces of `color` that lie on a line of four in
    /// direction `d` within `cells`.
    fn count_on_lines(&self, color: Color, cells: u64, d: Direction) -> (n: i32)
        requires
            forall|i: int| bit(cells, i) ==> 0 <= i < 42,
        ensures
            n == tally(
                |i: int| self@[i] == Some(color) && on_line_in(cells, i / 7, i % 7, d),
                42,
            ),
            0 <= n <= 42,
    {
        let pieces = self.pieces(color);
        let lines = cells_on_lines(cells, d);
        let found = lines & pieces;
        proof {
            let p = |i: int| bit(found, i);
            let q = |i: int| self@[i] == Some(color) && on_line_in(cells, i / 7, i % 7, d);
            assert forall|i: int| 42 <= i < 64 implies !#[trigger] p(i) by {
                lemma_bit_and(lines, pieces, i);
            }
            lemma_tally_rest(p, 42, 64);
            assert forall|i: int| 0 <= i < 42 implies #[trigger] p(i) == q(i) by {
                lemma_bit_and(lines, pieces, i);
            }
            lemma_tally_agree(p, q, 42);
            lemma_tally_bounds(q, 42);
        }
        found.count_ones() as i32
    }

    /// The standing of `color` in one direction.
    fn merit_along(&self, color: Color, d: Direction) -> (n: i32)
        ensures
            n == merit(self@, color, d),
            0 <= n <= 1806,
    {
        let pieces = self.pieces(color);
        let empty = self.empty();
        let open = pieces | empty;
        proof {
            assert forall|i: int| #[trigger]
                bit(open, i) <==> 0 <= i < 42 && self@[i] != Some(color.opponent()) by {
                lemma_bit_or(pieces, empty, i);
            }
        }
        let potential = self.count_on_lines(color, open, d);
        let actual = self.count_on_lines(color, pieces, d);
        proof {
            lemma_tallies(self@, color, pieces, open, d);
        }
        potential + actual * 42
    }

    /// The standing of `color` over the four directions.
    fn standing_of(&self, color: Color) -> (n: i32)
        ensures
            n == standing(self@, color),
            0 <= n <= 7224,
    {
        self.merit_along(color, Direction::Horizontal) + self.merit_along(
            color,
            Direction::Vertical,
        ) + self.merit_along(color, Direction::Diagonal) + self.merit_along(
            color,
            Direction::Antidiagonal,
        )
    }

    /// Scores the position. Each colour gets, in each of the four
    /// directions, one point for every piece on a line of four that it can
    /// still complete and forty-two points for every piece of a line that
    /// it has completed; the score is what red gets less what yellow gets.
    pub fn evaluate(&self) -> (value: i32)
        ensures
            value == score(self@),
    {
        self.standing_of(Color::Red) - self.standing_of(Color::Yellow)
    }

    /// Whether `color` has four of its pieces in a line.
    pub fn has_connect_4(&self, color: Color) -> (r: bool)
        ensures
            r == has_four(self@, color),
    {
        let pieces = self.pieces(color);
        let horizontal = line_starts(pieces, Direction::Horizontal);
        let vertical = line_starts(pieces, Direction::Vertical);
        let diagonal = line_starts(pieces, Direction::Diagonal);
        let antidiagonal = line_starts(pieces, Direction::Antidiagonal);
        let found = horizontal | vertical | diagonal | antidiagonal;
        proof {
            let g = self@;
            assert forall|row: int, col: int, d: Direction|
                four_from(g, color, row, col, d) == line_in(pieces, row, col, d) by {}
            assert forall|i: int| #[trigger]
                bit(found, i) <==> bit(horizontal, i) || bit(vertical, i) || bit(diagonal, i)
                    || bit(antidiagonal, i) by {
                lemma_bit_or(horizontal | vertical | diagonal, antidiagonal, i);
                lemma_bit_or(horizontal | vertical, diagonal, i);
                lemma_bit_or(horizontal, vertical, i);
            }
            if found != 0 {
                lemma_trailing_zeros(found);
                let i = u64_trailing_zeros(found) as int;
                assert(bit(found, i));
                let d = if bit(horizontal, i) {
                    Direction::Horizontal
                } else if bit(vertical, i) {
                    Direction::Vertical
                } else if bit(diagonal, i) {
                    Direction::Diagonal
                } else {
                    Direction::Antidiagonal
                };
                assert(four_from(g, color, i / 7, i % 7, d));
                assert(has_four_along(g, color, d));
            }
            if has_four(g, color) {
                let d = if has_four_along(g, color, Direction::Horizontal) {
                    Direction::Horizontal
                } else if has_four_along(g, color, Direction::Vertical) {
                    Direction::Vertical
                } else if has_four_along(g, color, Direction::Diagonal) {
                    Direction::Diagonal
                } else {
                    Direction::Antidiagonal
                };
                let (row, col) = choose|row: int, col: int| four_from(g, color, row, col, d);
                let i = cell(row, col);
                assert(i / 7 == row && i % 7 == col);
                assert(line_in(pieces, i / 7, i % 7, d));
                assert(bit(found, i));
                lemma_bit_nonzero(found, i);
            }
        }
        found != 0
    }
}

impl Default for Board {
    /// The empty board.
    fn default() -> (b: Board)
        ensures
            b@ == empty_grid(),
    {
        Board::new()
    }
}

/// A mask of the cells that `color` holds or could still take describes
/// what the grid admits, and the mask of its pieces what the grid holds.
proof fn lemma_members(g: Grid, color: Color, pieces: u64, open: u64, row: int, col: int)
    requires
        g.len() == 42,
        forall|i: int| bit(pieces, i) <==> 0 <= i < 42 && g[i] == Some(color),
        forall|i: int| bit(open, i) <==> 0 <= i < 42 && g[i] != Some(color.opponent()),
    ensures
        member(open, row, col) == admits(g, color, row, col),
        member(pieces, row, col) == holds(g, color, row, col),
{
    if on_board(row, col) {
        let i = cell(row, col);
        assert(bit(open, i) <==> g[i] != Some(color.opponent()));
        assert(bit(pieces, i) <==> g[i] == Some(color));
        match g[i] {
            Some(c) => {
                assert(c == color || c == color.opponent());
            },
            None => {},
        }
    }
}

/// The masks describe the same lines of four as the grid does.
proof fn lemma_lines(
    g: Grid,
    color: Color,
    pieces: u64,
    open: u64,
    row: int,
    col: int,
    d: Direction,
)
    requires
        g.len() == 42,
        forall|i: int| bit(pieces, i) <==> 0 <= i < 42 && g[i] == Some(color),
        forall|i: int| bit(open, i) <==> 0 <= i < 42 && g[i] != Some(color.opponent()),
    ensures
        line_in(open, row, col, d) == open_from(g, color, row, col, d),
        line_in(pieces, row, col, d) == four_from(g, color, row, col, d),
{
    let dr = d.dr();
    let dc = d.dc();
    lemma_members(g, color, pieces, open, row, col);
    lemma_members(g, color, pieces, open, row + dr, col + dc);
    lemma_members(g, color, pieces, open, row + 2 * dr, col + 2 * dc);
    lemma_members(g, color, pieces, open, row + 3 * dr, col + 3 * dc);
}

/// A cell counts over the masks exactly when it counts on the grid.
proof fn lemma_counted(g: Grid, color: Color, pieces: u64, open: u64, i: int, d: Direction)
    requires
        g.len() == 42,
        0 <= i < 42,
        forall|i: int| bit(pieces, i) <==> 0 <= i < 42 && g[i] == Some(color),
        forall|i: int| bit(open, i) <==> 0 <= i < 42 && g[i] != Some(color.opponent()),
    ensures
        (g[i] == Some(color) && on_line_in(open, i / 7, i % 7, d)) == on_open_line(
            g,
            color,
            i / 7,
            i % 7,
            d,
        ),
        (g[i] == Some(color) && on_line_in(pieces, i / 7, i % 7, d)) == on_four(
            g,
            color,
            i / 7,
            i % 7,
            d,
        ),
{
    let dr = d.dr();
    let dc = d.dc();
    let row = i / 7;
    let col = i % 7;
    assert(cell(row, col) == i);
    lemma_lines(g, color, pieces, open, row, col, d);
    lemma_lines(g, color, pieces, open, row - dr, col - dc, d);
    lemma_lines(g, color, pieces, open, row - 2 * dr, col - 2 * dc, d);
    lemma_lines(g, color, pieces, open, row - 3 * dr, col - 3 * dc, d);
}

/// Counting over the masks counts what the grid defines.
proof fn lemma_tallies(g: Grid, color: Color, pieces: u64, open: u64, d: Direction)
    requires
        g.len() == 42,
        forall|i: int| bit(pieces, i) <==> 0 <= i < 42 && g[i] == Some(color),
        forall|i: int| bit(open, i) <==> 0 <= i < 42 && g[i] != Some(color.opponent()),
    ensures
        tally(|i: int| g[i] == Some(color) && on_line_in(open, i / 7, i % 7, d), 42) == promising(
            g,
            color,
            d,
        ),
        tally(|i: int| g[i] == Some(color) && on_line_in(pieces, i / 7, i % 7, d), 42) == completed(
            g,
            color,
            d,
        ),
{
    let open_mask = |i: int| g[i] == Some(color) && on_line_in(open, i / 7, i % 7, d);
    let open_grid = |i: int| on_open_line(g, color, i / 7, i % 7, d);
    let four_mask = |i: int| g[i] == Some(color) && on_line_in(pieces, i / 7, i % 7, d);
    let four_grid = |i: int| on_four(g, color, i / 7, i % 7, d);
    assert forall|i: int| 0 <= i < 42 implies #[trigger] open_mask(i) == open_grid(i) by {
        lemma_counted(g, color, pieces, open, i, d);
    }
    assert forall|i: int| 0 <= i < 42 implies #[trigger] four_mask(i) == four_grid(i) by {
        lemma_counted(g, color, pieces, open, i, d);
    }
    lemma_tally_agree(open_mask, open_grid, 42);
    lemma_tally_agree(four_mask, four_grid, 42);
}

} // verus!
