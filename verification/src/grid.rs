//! The board as mathematics: a sequence of 42 cells, each empty or holding
//! one colour, indexed row by row from the top left. Everything the library
//! promises about a position is stated over this model.

use vstd::prelude::*;
use crate::board::Color;
use crate::lines::Direction;

verus! {

/// What the 42 cells hold, cell `(row, column)` at index `row * 7 + column`.
pub type Grid = Seq<Option<Color>>;

/// The position of a cell in a `Grid`.
pub open spec fn cell(row: int, col: int) -> int {
    row * 7 + col
}

/// `(row, col)` is one of the 42 cells.
pub open spec fn on_board(row: int, col: int) -> bool {
    0 <= row < 6 && 0 <= col < 7
}

/// The grid with no piece on it.
pub open spec fn empty_grid() -> Grid {
    Seq::new(42, |i: int| None)
}

/// `(row, col)` is a cell of the board and holds a piece of `color`.
pub open spec fn holds(g: Grid, color: Color, row: int, col: int) -> bool {
    on_board(row, col) && g[cell(row, col)] == Some(color)
}

/// `(row, col)` is a cell of the board and holds no piece.
pub open spec fn vacant(g: Grid, row: int, col: int) -> bool {
    on_board(row, col) && g[cell(row, col)] is None
}

/// `(row, col)` is a cell of the board that `color` holds or could still take.
pub open spec fn admits(g: Grid, color: Color, row: int, col: int) -> bool {
    holds(g, color, row, col) || vacant(g, row, col)
}

/// The four cells from `(row, col)` in direction `d` lie on the board and
/// all hold `color`.
pub open spec fn four_from(g: Grid, color: Color, row: int, col: int, d: Direction) -> bool {
    &&& holds(g, color, row, col)
    &&& holds(g, color, row + d.dr(), col + d.dc())
    &&& holds(g, color, row + 2 * d.dr(), col + 2 * d.dc())
    &&& holds(g, color, row + 3 * d.dr(), col + 3 * d.dc())
}

/// `color` has four in a line in direction `d`.
pub open spec fn has_four_along(g: Grid, color: Color, d: Direction) -> bool {
    exists|row: int, col: int| four_from(g, color, row, col, d)
}

/// `color` has four in a line: in a row, in a column, or on either diagonal.
pub open spec fn has_four(g: Grid, color: Color) -> bool {
    ||| has_four_along(g, color, Direction::Horizontal)
    ||| has_four_along(g, color, Direction::Vertical)
    ||| has_four_along(g, color, Direction::Diagonal)
    ||| has_four_along(g, color, Direction::Antidiagonal)
}

/// `(row, col)` holds a piece of `color` that is part of four in a line in
/// direction `d`.
pub open spec fn on_four(g: Grid, color: Color, row: int, col: int, d: Direction) -> bool {
    ||| four_from(g, color, row, col, d)
    ||| four_from(g, color, row - d.dr(), col - d.dc(), d)
    ||| four_from(g, color, row - 2 * d.dr(), col - 2 * d.dc(), d)
    ||| four_from(g, color, row - 3 * d.dr(), col - 3 * d.dc(), d)
}

/// The row of the highest piece in column `col`, looking from `row` down;
/// 6 where there is none.
pub open spec fn summit_from(g: Grid, col: int, row: int) -> int
    decreases 6 - row,
{
    if row >= 6 {
        6
    } else if g[cell(row, col)] is Some {
        row
    } else {
        summit_from(g, col, row + 1)
    }
}

/// The row of the highest piece in column `col`; 6 where the column is
/// empty.
pub open spec fn summit(g: Grid, col: int) -> int {
    summit_from(g, col, 0)
}

/// A piece can be dropped into column `col`: its top cell is empty.
pub open spec fn playable(g: Grid, col: int) -> bool {
    0 <= col < 7 && g[col] is None
}

/// The playable columns below `n`, in ascending order.
pub open spec fn playable_below(g: Grid, n: int) -> Seq<usize>
    decreases n,
{
    if n <= 0 {
        Seq::empty()
    } else if g[n - 1] is None {
        playable_below(g, n - 1).push((n - 1) as usize)
    } else {
        playable_below(g, n - 1)
    }
}

/// The playable columns, in ascending order.
pub open spec fn playable_files(g: Grid) -> Seq<usize> {
    playable_below(g, 7)
}

/// The grid after a piece of `color` is dropped into column `col`: it comes
/// to rest on the highest piece of the column, or on the floor. A column
/// whose top cell is taken is left as it is.
pub open spec fn dropped(g: Grid, col: int, color: Color) -> Grid {
    let s = summit(g, col);
    if s == 0 {
        g
    } else {
        g.update(cell(s - 1, col), Some(color))
    }
}

/// The grid after the highest piece of column `col` is taken out. An empty
/// column is left as it is.
pub open spec fn lifted(g: Grid, col: int) -> Grid {
    let s = summit(g, col);
    if s == 6 {
        g
    } else {
        g.update(cell(s, col), None)
    }
}

/// `summit_from` returns the first occupied row at or below `row`.
pub proof fn lemma_summit_from(g: Grid, col: int, row: int)
    requires
        0 <= row <= 6,
    ensures
        row <= summit_from(g, col, row) <= 6,
        summit_from(g, col, row) < 6 ==> g[cell(summit_from(g, col, row), col)] is Some,
        forall|r: int| row <= r < summit_from(g, col, row) ==> g[cell(r, col)] is None,
    decreases 6 - row,
{
    if row < 6 && g[cell(row, col)] is None {
        lemma_summit_from(g, col, row + 1);
    }
}

/// The summit is the one row of the column that is occupied, or the floor,
/// with nothing but empty cells above it.
pub proof fn lemma_summit_is(g: Grid, col: int, s: int)
    requires
        0 <= s <= 6,
        s < 6 ==> g[cell(s, col)] is Some,
        forall|r: int| 0 <= r < s ==> g[cell(r, col)] is None,
    ensures
        summit(g, col) == s,
{
    lemma_summit_from(g, col, 0);
}

/// Taking the highest piece out of a column undoes a drop into it, on every
/// grid whose column had room for the piece.
pub proof fn lemma_lift_undoes_drop(g: Grid, col: int, color: Color)
    requires
        g.len() == 42,
        playable(g, col),
    ensures
        lifted(dropped(g, col, color), col) == g,
{
    lemma_summit_from(g, col, 0);
    let s = summit(g, col);
    assert(g[cell(0, col)] is None);
    let h = dropped(g, col, color);
    lemma_summit_is(h, col, s - 1);
    assert(lifted(h, col) =~= g);
}

/// Columns whose top cell is taken add nothing to the list of playable
/// columns.
pub proof fn lemma_playable_skip(g: Grid, from: int, to: int)
    requires
        0 <= from <= to,
        forall|c: int| from <= c < to ==> g[c] is Some,
    ensures
        playable_below(g, to) == playable_below(g, from),
    decreases to - from,
{
    if from < to {
        lemma_playable_skip(g, from, to - 1);
    }
}

/// What the list of playable columns holds: each entry is a playable column
/// below `n`, the entries ascend, and no playable column below `n` is
/// missing.
pub proof fn lemma_playable_below(g: Grid, n: int)
    requires
        0 <= n <= 7,
    ensures
        playable_below(g, n).len() <= n,
        forall|k: int|
            0 <= k < playable_below(g, n).len() ==> playable(
                g,
                #[trigger] playable_below(g, n)[k] as int,
            ) && playable_below(g, n)[k] < n,
        forall|j: int, k: int|
            0 <= j < k < playable_below(g, n).len() ==> playable_below(g, n)[j] < playable_below(
                g,
                n,
            )[k],
        forall|c: int|
            0 <= c < n && playable(g, c) ==> playable_below(g, n).contains(c as usize),
    decreases n,
{
    if n > 0 {
        lemma_playable_below(g, n - 1);
        let before = playable_below(g, n - 1);
        let now = playable_below(g, n);
        assert forall|c: int| 0 <= c < n && playable(g, c) implies now.contains(c as usize) by {
            if c < n - 1 {
                let k = choose|k: int| 0 <= k < before.len() && before[k] == c as usize;
                assert(now[k] == c as usize);
            } else {
                assert(now[now.len() - 1] == c as usize);
            }
        }
    }
}

/// On the empty grid every column is playable.
pub proof fn lemma_playable_of_empty()
    ensures
        playable_files(empty_grid()) == seq![0usize, 1, 2, 3, 4, 5, 6],
{
    let g = empty_grid();
    reveal_with_fuel(playable_below, 8);
    assert(playable_files(g) =~= seq![0usize, 1, 2, 3, 4, 5, 6]);
}

/// Where the top cell of every column is taken, no column is playable.
pub proof fn lemma_playable_of_full(g: Grid)
    requires
        forall|c: int| 0 <= c < 7 ==> g[c] is Some,
    ensures
        playable_files(g) == Seq::<usize>::empty(),
{
    lemma_playable_skip(g, 0, 7);
}

/// The row in which a piece dropped into column `col` comes to rest; -1
/// where the column has no room.
pub open spec fn landing_row(g: Grid, col: int) -> int {
    summit(g, col) - 1
}

/// A drop changes one cell at most, from empty to the colour dropped.
pub proof fn lemma_dropped_cells(g: Grid, col: int, color: Color)
    requires
        g.len() == 42,
        0 <= col < 7,
    ensures
        dropped(g, col, color).len() == 42,
        -1 <= landing_row(g, col) < 6,
        playable(g, col) <==> landing_row(g, col) >= 0,
        forall|i: int|
            #![trigger dropped(g, col, color)[i]]
            #![trigger g[i]]
            0 <= i < 42 ==> dropped(g, col, color)[i] == (if playable(g, col) && i == cell(
                landing_row(g, col),
                col,
            ) {
                Some(color)
            } else {
                g[i]
            }),
        playable(g, col) ==> g[cell(landing_row(g, col), col)] is None,
{
    lemma_summit_from(g, col, 0);
    assert(cell(0, col) == col);
}

/// The empty grid holds no four in a line.
pub proof fn lemma_empty_has_no_four(color: Color)
    ensures
        !has_four(empty_grid(), color),
{
}

/// A drop by one colour neither gives the other colour four in a line nor
/// takes them away.
pub proof fn lemma_drop_leaves_opponent(g: Grid, col: int, color: Color)
    requires
        g.len() == 42,
        0 <= col < 7,
    ensures
        has_four(dropped(g, col, color), color.opponent()) == has_four(g, color.opponent()),
{
    lemma_dropped_cells(g, col, color);
    let h = dropped(g, col, color);
    let other = color.opponent();
    assert forall|row: int, c: int| #[trigger]
        holds(h, other, row, c) == holds(g, other, row, c) by {}
    assert forall|row: int, c: int, d: Direction| #[trigger]
        four_from(h, other, row, c, d) == four_from(g, other, row, c, d) by {}
    assert forall|d: Direction| #[trigger]
        has_four_along(h, other, d) == has_four_along(g, other, d) by {
        if has_four_along(h, other, d) {
            let (row, c) = choose|row: int, c: int| four_from(h, other, row, c, d);
            assert(four_from(g, other, row, c, d));
        }
        if has_four_along(g, other, d) {
            let (row, c) = choose|row: int, c: int| four_from(g, other, row, c, d);
            assert(four_from(h, other, row, c, d));
        }
    }
}

/// Four in a line stay four in a line whatever is dropped.
pub proof fn lemma_drop_keeps_four(g: Grid, col: int, color: Color, winner: Color)
    requires
        g.len() == 42,
        0 <= col < 7,
        has_four(g, winner),
    ensures
        has_four(dropped(g, col, color), winner),
{
    lemma_dropped_cells(g, col, color);
    let h = dropped(g, col, color);
    assert forall|row: int, c: int| #[trigger] holds(g, winner, row, c) implies holds(
        h,
        winner,
        row,
        c,
    ) by {}
    assert forall|d: Direction| #[trigger] has_four_along(g, winner, d) implies has_four_along(
        h,
        winner,
        d,
    ) by {
        let (row, c) = choose|row: int, c: int| four_from(g, winner, row, c, d);
        assert(four_from(h, winner, row, c, d));
    }
}

/// A line of four on a grid that differs from another in one cell either
/// stands on the other grid too or runs through that cell.
proof fn lemma_line_through(
    g: Grid,
    color: Color,
    row: int,
    col: int,
    d: Direction,
    at_row: int,
    at_col: int,
)
    requires
        g.len() == 42,
        on_board(at_row, at_col),
        four_from(g.update(cell(at_row, at_col), Some(color)), color, row, col, d),
    ensures
        four_from(g, color, row, col, d) || on_four(
            g.update(cell(at_row, at_col), Some(color)),
            color,
            at_row,
            at_col,
            d,
        ),
{
    let h = g.update(cell(at_row, at_col), Some(color));
    let dr = d.dr();
    let dc = d.dc();
    if row == at_row && col == at_col {
    } else if row + dr == at_row && col + dc == at_col {
        assert(four_from(h, color, at_row - dr, at_col - dc, d));
    } else if row + 2 * dr == at_row && col + 2 * dc == at_col {
        assert(four_from(h, color, at_row - 2 * dr, at_col - 2 * dc, d));
    } else if row + 3 * dr == at_row && col + 3 * dc == at_col {
        assert(four_from(h, color, at_row - 3 * dr, at_col - 3 * dc, d));
    } else {
        assert(holds(g, color, row, col));
        assert(holds(g, color, row + dr, col + dc));
        assert(holds(g, color, row + 2 * dr, col + 2 * dc));
        assert(holds(g, color, row + 3 * dr, col + 3 * dc));
    }
}

/// A colour without four in a line has four in a line after its drop
/// exactly when the piece dropped is one of four in a line.
pub proof fn lemma_fourth_piece(g: Grid, col: int, color: Color)
    requires
        g.len() == 42,
        playable(g, col),
        !has_four(g, color),
    ensures
        has_four(dropped(g, col, color), color) <==> exists|d: Direction|
            on_four(dropped(g, col, color), color, landing_row(g, col), col, d),
{
    lemma_summit_from(g, col, 0);
    assert(cell(0, col) == col);
    let lr = landing_row(g, col);
    let h = dropped(g, col, color);
    assert(h == g.update(cell(lr, col), Some(color)));
    if has_four(h, color) {
        let d = if has_four_along(h, color, Direction::Horizontal) {
            Direction::Horizontal
        } else if has_four_along(h, color, Direction::Vertical) {
            Direction::Vertical
        } else if has_four_along(h, color, Direction::Diagonal) {
            Direction::Diagonal
        } else {
            Direction::Antidiagonal
        };
        let (row, c) = choose|row: int, c: int| four_from(h, color, row, c, d);
        lemma_line_through(g, color, row, c, d, lr, col);
        if four_from(g, color, row, c, d) {
            assert(has_four_along(g, color, d));
        }
        assert(on_four(h, color, lr, col, d));
    }
    if exists|d: Direction| on_four(h, color, lr, col, d) {
        let d = choose|d: Direction| on_four(h, color, lr, col, d);
        let (row, c) = if four_from(h, color, lr, col, d) {
            (lr, col)
        } else if four_from(h, color, lr - d.dr(), col - d.dc(), d) {
            (lr - d.dr(), col - d.dc())
        } else if four_from(h, color, lr - 2 * d.dr(), col - 2 * d.dc(), d) {
            (lr - 2 * d.dr(), col - 2 * d.dc())
        } else {
            (lr - 3 * d.dr(), col - 3 * d.dc())
        };
        assert(four_from(h, color, row, c, d));
        assert(has_four_along(h, color, d));
    }
}

/// Gravity: in every column the cells from the highest piece down to the
/// floor are all taken.
pub open spec fn settled(g: Grid) -> bool {
    forall|row: int, col: int|
        0 <= col < 7 && summit(g, col) <= row < 6 ==> (#[trigger] g[cell(row, col)]) is Some
}

/// The summit of a column depends on the cells of that column alone.
pub proof fn lemma_summit_of_column(g: Grid, h: Grid, col: int)
    requires
        forall|row: int| 0 <= row < 6 ==> g[cell(row, col)] == h[cell(row, col)],
    ensures
        summit(g, col) == summit(h, col),
{
    lemma_summit_from(g, col, 0);
    lemma_summit_is(h, col, summit(g, col));
}

/// The empty grid is settled.
pub proof fn lemma_empty_is_settled()
    ensures
        settled(empty_grid()),
{
    assert forall|row: int, col: int| 0 <= col < 7 && summit(empty_grid(), col) <= row < 6 implies (
    #[trigger] empty_grid()[cell(row, col)]) is Some by {
        lemma_summit_is(empty_grid(), col, 6);
    }
}

/// On a settled grid a drop fills the lowest empty cell of its column, and
/// the grid stays settled.
pub proof fn lemma_drop_keeps_settled(g: Grid, col: int, color: Color)
    requires
        g.len() == 42,
        0 <= col < 7,
        settled(g),
    ensures
        settled(dropped(g, col, color)),
        playable(g, col) ==> g[cell(landing_row(g, col), col)] is None && forall|row: int|
            landing_row(g, col) < row < 6 ==> (#[trigger] g[cell(row, col)]) is Some,
{
    lemma_summit_from(g, col, 0);
    assert(cell(0, col) == col);
    let h = dropped(g, col, color);
    let s = summit(g, col);
    if s > 0 {
        lemma_summit_is(h, col, s - 1);
    }
    assert forall|row: int, c: int| 0 <= c < 7 && summit(h, c) <= row < 6 implies (
    #[trigger] h[cell(row, c)]) is Some by {
        if c != col {
            lemma_summit_of_column(g, h, c);
        }
        assert(g[cell(row, c)] is Some || (s > 0 && row == s - 1 && c == col));
    }
}

/// On a settled grid, taking out the highest piece of a column leaves the
/// grid settled.
pub proof fn lemma_lift_keeps_settled(g: Grid, col: int)
    requires
        g.len() == 42,
        0 <= col < 7,
        settled(g),
    ensures
        settled(lifted(g, col)),
{
    lemma_summit_from(g, col, 0);
    let h = lifted(g, col);
    let s = summit(g, col);
    if s < 6 {
        assert(s + 1 < 6 ==> g[cell(s + 1, col)] is Some);
        lemma_summit_is(h, col, s + 1);
    }
    assert forall|row: int, c: int| 0 <= c < 7 && summit(h, c) <= row < 6 implies (
    #[trigger] h[cell(row, c)]) is Some by {
        if c != col {
            lemma_summit_of_column(g, h, c);
        }
        assert(g[cell(row, c)] is Some);
    }
}

} // verus!
