//! The score of a position, as mathematics. Each colour is credited, in
//! each of the four directions, with its pieces on lines of four that it can
//! still complete and, forty-two times over, with its pieces on lines that
//! it has completed.

use vstd::prelude::*;
use crate::bits::{
    lemma_tally_agree, lemma_tally_apart, lemma_tally_below, lemma_tally_bounds, lemma_tally_four,
    lemma_tally_rest, tally,
};
use crate::board::Color;
use crate::grid::{
    admits, cell, empty_grid, four_from, has_four, has_four_along, holds, on_board, on_four, Grid,
};
use crate::lines::Direction;

verus! {

/// The four cells from `(row, col)` in direction `d` lie on the board and
/// each of them is empty or holds `color`: a line that `color` can still
/// complete, or has completed.
pub open spec fn open_from(g: Grid, color: Color, row: int, col: int, d: Direction) -> bool {
    &&& admits(g, color, row, col)
    &&& admits(g, color, row + d.dr(), col + d.dc())
    &&& admits(g, color, row + 2 * d.dr(), col + 2 * d.dc())
    &&& admits(g, color, row + 3 * d.dr(), col + 3 * d.dc())
}

/// `(row, col)` holds a piece of `color` that lies on a line of four, in
/// direction `d`, whose other cells are all empty or of the same colour.
pub open spec fn on_open_line(g: Grid, color: Color, row: int, col: int, d: Direction) -> bool {
    holds(g, color, row, col) && {
        ||| open_from(g, color, row, col, d)
        ||| open_from(g, color, row - d.dr(), col - d.dc(), d)
        ||| open_from(g, color, row - 2 * d.dr(), col - 2 * d.dc(), d)
        ||| open_from(g, color, row - 3 * d.dr(), col - 3 * d.dc(), d)
    }
}

/// The number of pieces of `color` on a line in direction `d` that the
/// colour can still complete.
pub open spec fn promising(g: Grid, color: Color, d: Direction) -> int {
    tally(|i: int| on_open_line(g, color, i / 7, i % 7, d), 42)
}

/// The number of pieces of `color` that are part of four in a line in
/// direction `d`.
pub open spec fn completed(g: Grid, color: Color, d: Direction) -> int {
    tally(|i: int| on_four(g, color, i / 7, i % 7, d), 42)
}

/// What one direction adds to the standing of `color`: one for each piece
/// on a line that can still be completed, forty-two for each piece of a
/// completed line.
pub open spec fn merit(g: Grid, color: Color, d: Direction) -> int {
    promising(g, color, d) + 42 * completed(g, color, d)
}

/// The standing of `color`: its merit over the four directions.
pub open spec fn standing(g: Grid, color: Color) -> int {
    merit(g, color, Direction::Horizontal) + merit(g, color, Direction::Vertical) + merit(
        g,
        color,
        Direction::Diagonal,
    ) + merit(g, color, Direction::Antidiagonal)
}

/// The score of a position: the standing of red less that of yellow.
pub open spec fn score(g: Grid) -> int {
    standing(g, Color::Red) - standing(g, Color::Yellow)
}

/// The grid with the two colours exchanged.
pub open spec fn swapped(g: Grid) -> Grid {
    Seq::new(
        g.len(),
        |i: int|
            match g[i] {
                Some(color) => Some(color.opponent()),
                None => None,
            },
    )
}

/// What a colour has on the swapped grid is what the other colour has on
/// the grid itself.
proof fn lemma_swapped_lines(g: Grid, color: Color, row: int, col: int, d: Direction)
    requires
        g.len() == 42,
    ensures
        holds(swapped(g), color, row, col) == holds(g, color.opponent(), row, col),
        open_from(swapped(g), color, row, col, d) == open_from(g, color.opponent(), row, col, d),
        four_from(swapped(g), color, row, col, d) == four_from(g, color.opponent(), row, col, d),
{
}

proof fn lemma_swapped_cell(g: Grid, color: Color, row: int, col: int, d: Direction)
    requires
        g.len() == 42,
    ensures
        on_open_line(swapped(g), color, row, col, d) == on_open_line(
            g,
            color.opponent(),
            row,
            col,
            d,
        ),
        on_four(swapped(g), color, row, col, d) == on_four(g, color.opponent(), row, col, d),
{
    lemma_swapped_lines(g, color, row, col, d);
    lemma_swapped_lines(g, color, row - d.dr(), col - d.dc(), d);
    lemma_swapped_lines(g, color, row - 2 * d.dr(), col - 2 * d.dc(), d);
    lemma_swapped_lines(g, color, row - 3 * d.dr(), col - 3 * d.dc(), d);
}

proof fn lemma_swapped_merit(g: Grid, color: Color, d: Direction)
    requires
        g.len() == 42,
    ensures
        merit(swapped(g), color, d) == merit(g, color.opponent(), d),
{
    let h = swapped(g);
    let other = color.opponent();
    let open_here = |i: int| on_open_line(h, color, i / 7, i % 7, d);
    let open_there = |i: int| on_open_line(g, other, i / 7, i % 7, d);
    let four_here = |i: int| on_four(h, color, i / 7, i % 7, d);
    let four_there = |i: int| on_four(g, other, i / 7, i % 7, d);
    assert forall|i: int| 0 <= i < 42 implies #[trigger] open_here(i) == open_there(i) by {
        lemma_swapped_cell(g, color, i / 7, i % 7, d);
    }
    assert forall|i: int| 0 <= i < 42 implies #[trigger] four_here(i) == four_there(i) by {
        lemma_swapped_cell(g, color, i / 7, i % 7, d);
    }
    lemma_tally_agree(open_here, open_there, 42);
    lemma_tally_agree(four_here, four_there, 42);
}

/// Exchanging the colours negates the score.
pub proof fn lemma_score_swapped(g: Grid)
    requires
        g.len() == 42,
    ensures
        score(swapped(g)) == -score(g),
{
    lemma_swapped_merit(g, Color::Red, Direction::Horizontal);
    lemma_swapped_merit(g, Color::Red, Direction::Vertical);
    lemma_swapped_merit(g, Color::Red, Direction::Diagonal);
    lemma_swapped_merit(g, Color::Red, Direction::Antidiagonal);
    lemma_swapped_merit(g, Color::Yellow, Direction::Horizontal);
    lemma_swapped_merit(g, Color::Yellow, Direction::Vertical);
    lemma_swapped_merit(g, Color::Yellow, Direction::Diagonal);
    lemma_swapped_merit(g, Color::Yellow, Direction::Antidiagonal);
}

/// The grid as a mirror set beside the board shows it: every row reversed.
pub open spec fn mirrored(g: Grid) -> Grid {
    Seq::new(42, |i: int| g[cell(i / 7, 6 - i % 7)])
}

/// The cell that a mirror set beside the board shows in place of cell `i`.
pub open spec fn mirror_cell(i: int) -> int {
    cell(i / 7, 6 - i % 7)
}

/// A line on the mirrored grid is a line on the grid itself: along a row
/// it is the line that ends where the mirrored one begins, and in the
/// other directions the line from the mirrored start in the reflected
/// direction.
proof fn lemma_mirrored_lines(g: Grid, color: Color, row: int, col: int, d: Direction)
    requires
        g.len() == 42,
    ensures
        holds(mirrored(g), color, row, col) == holds(g, color, row, 6 - col),
        open_from(mirrored(g), color, row, col, d) == if d == Direction::Horizontal {
            open_from(g, color, row, 3 - col, d)
        } else {
            open_from(g, color, row, 6 - col, d.reflected())
        },
        four_from(mirrored(g), color, row, col, d) == if d == Direction::Horizontal {
            four_from(g, color, row, 3 - col, d)
        } else {
            four_from(g, color, row, 6 - col, d.reflected())
        },
{
    let m = mirrored(g);
    let dr = d.dr();
    let dc = d.dc();
    lemma_mirrored_at(g, row, col);
    lemma_mirrored_at(g, row + dr, col + dc);
    lemma_mirrored_at(g, row + 2 * dr, col + 2 * dc);
    lemma_mirrored_at(g, row + 3 * dr, col + 3 * dc);
}

proof fn lemma_mirrored_at(g: Grid, row: int, col: int)
    requires
        g.len() == 42,
    ensures
        on_board(row, col) ==> mirrored(g)[cell(row, col)] == g[cell(row, 6 - col)],
{
    if on_board(row, col) {
        let i = cell(row, col);
        assert(i / 7 == row && i % 7 == col);
    }
}

proof fn lemma_mirrored_cell(g: Grid, color: Color, row: int, col: int, d: Direction)
    requires
        g.len() == 42,
    ensures
        on_open_line(mirrored(g), color, row, col, d) == on_open_line(
            g,
            color,
            row,
            6 - col,
            d.reflected(),
        ),
        on_four(mirrored(g), color, row, col, d) == on_four(g, color, row, 6 - col, d.reflected()),
{
    let m = mirrored(g);
    let e = d.reflected();
    let dr = d.dr();
    let dc = d.dc();
    lemma_mirrored_lines(g, color, row, col, d);
    lemma_mirrored_lines(g, color, row - dr, col - dc, d);
    lemma_mirrored_lines(g, color, row - 2 * dr, col - 2 * dc, d);
    lemma_mirrored_lines(g, color, row - 3 * dr, col - 3 * dc, d);
    if d == Direction::Horizontal {
        // The line that begins k cells to the left in the mirror begins
        // 3 - k cells to the left on the grid.
        assert(open_from(m, color, row, col, d) == open_from(g, color, row, 6 - col - 3, e));
        assert(open_from(m, color, row, col - 1, d) == open_from(g, color, row, 6 - col - 2, e));
        assert(open_from(m, color, row, col - 2, d) == open_from(g, color, row, 6 - col - 1, e));
        assert(open_from(m, color, row, col - 3, d) == open_from(g, color, row, 6 - col, e));
        assert(four_from(m, color, row, col, d) == four_from(g, color, row, 6 - col - 3, e));
        assert(four_from(m, color, row, col - 1, d) == four_from(g, color, row, 6 - col - 2, e));
        assert(four_from(m, color, row, col - 2, d) == four_from(g, color, row, 6 - col - 1, e));
        assert(four_from(m, color, row, col - 3, d) == four_from(g, color, row, 6 - col, e));
    } else {
        let er = e.dr();
        let ec = e.dc();
        assert(er == dr && ec == -dc);
        assert(open_from(m, color, row - dr, col - dc, d) == open_from(
            g,
            color,
            row - er,
            6 - col - ec,
            e,
        ));
        assert(open_from(m, color, row - 2 * dr, col - 2 * dc, d) == open_from(
            g,
            color,
            row - 2 * er,
            6 - col - 2 * ec,
            e,
        ));
        assert(open_from(m, color, row - 3 * dr, col - 3 * dc, d) == open_from(
            g,
            color,
            row - 3 * er,
            6 - col - 3 * ec,
            e,
        ));
        assert(four_from(m, color, row - dr, col - dc, d) == four_from(
            g,
            color,
            row - er,
            6 - col - ec,
            e,
        ));
        assert(four_from(m, color, row - 2 * dr, col - 2 * dc, d) == four_from(
            g,
            color,
            row - 2 * er,
            6 - col - 2 * ec,
            e,
        ));
        assert(four_from(m, color, row - 3 * dr, col - 3 * dc, d) == four_from(
            g,
            color,
            row - 3 * er,
            6 - col - 3 * ec,
            e,
        ));
    }
}

/// A tally over whole rows does not change when every row is read from
/// right to left.
proof fn lemma_tally_mirrored(p: spec_fn(int) -> bool, q: spec_fn(int) -> bool, rows: int)
    requires
        0 <= rows <= 6,
        forall|i: int| 0 <= i < 42 ==> #[trigger] q(i) == p(mirror_cell(i)),
    ensures
        tally(q, 7 * rows) == tally(p, 7 * rows),
    decreases rows,
{
    if rows > 0 {
        lemma_tally_mirrored(p, q, rows - 1);
        let base = 7 * (rows - 1);
        reveal_with_fuel(tally, 8);
        assert(q(base) == p(base + 6)) by {
            assert(mirror_cell(base) == base + 6);
        }
        assert(q(base + 1) == p(base + 5)) by {
            assert(mirror_cell(base + 1) == base + 5);
        }
        assert(q(base + 2) == p(base + 4)) by {
            assert(mirror_cell(base + 2) == base + 4);
        }
        assert(q(base + 3) == p(base + 3)) by {
            assert(mirror_cell(base + 3) == base + 3);
        }
        assert(q(base + 4) == p(base + 2)) by {
            assert(mirror_cell(base + 4) == base + 2);
        }
        assert(q(base + 5) == p(base + 1)) by {
            assert(mirror_cell(base + 5) == base + 1);
        }
        assert(q(base + 6) == p(base)) by {
            assert(mirror_cell(base + 6) == base);
        }
    }
}

proof fn lemma_mirrored_merit(g: Grid, color: Color, d: Direction)
    requires
        g.len() == 42,
    ensures
        merit(mirrored(g), color, d) == merit(g, color, d.reflected()),
{
    let m = mirrored(g);
    let e = d.reflected();
    let open_here = |i: int| on_open_line(m, color, i / 7, i % 7, d);
    let open_there = |i: int| on_open_line(g, color, i / 7, i % 7, e);
    let four_here = |i: int| on_four(m, color, i / 7, i % 7, d);
    let four_there = |i: int| on_four(g, color, i / 7, i % 7, e);
    assert forall|i: int| 0 <= i < 42 implies #[trigger] open_here(i) == open_there(mirror_cell(i))
        by {
        lemma_mirrored_cell(g, color, i / 7, i % 7, d);
        let j = mirror_cell(i);
        assert(j / 7 == i / 7 && j % 7 == 6 - i % 7);
    }
    assert forall|i: int| 0 <= i < 42 implies #[trigger] four_here(i) == four_there(mirror_cell(i))
        by {
        lemma_mirrored_cell(g, color, i / 7, i % 7, d);
        let j = mirror_cell(i);
        assert(j / 7 == i / 7 && j % 7 == 6 - i % 7);
    }
    lemma_tally_mirrored(open_there, open_here, 6);
    lemma_tally_mirrored(four_there, four_here, 6);
}

/// The score does not tell left from right: the mirrored grid scores what
/// the grid scores.
pub proof fn lemma_score_mirrored(g: Grid)
    requires
        g.len() == 42,
    ensures
        score(mirrored(g)) == score(g),
{
    lemma_mirrored_merit(g, Color::Red, Direction::Horizontal);
    lemma_mirrored_merit(g, Color::Red, Direction::Vertical);
    lemma_mirrored_merit(g, Color::Red, Direction::Diagonal);
    lemma_mirrored_merit(g, Color::Red, Direction::Antidiagonal);
    lemma_mirrored_merit(g, Color::Yellow, Direction::Horizontal);
    lemma_mirrored_merit(g, Color::Yellow, Direction::Vertical);
    lemma_mirrored_merit(g, Color::Yellow, Direction::Diagonal);
    lemma_mirrored_merit(g, Color::Yellow, Direction::Antidiagonal);
}

/// The empty grid scores nothing.
pub proof fn lemma_score_of_empty()
    ensures
        score(empty_grid()) == 0,
{
    assert(swapped(empty_grid()) =~= empty_grid());
    lemma_score_swapped(empty_grid());
}

/// A colour without four in a line has no piece on a completed line.
proof fn lemma_nothing_completed(g: Grid, color: Color, d: Direction)
    requires
        !has_four(g, color),
    ensures
        completed(g, color, d) == 0,
{
    let p = |i: int| on_four(g, color, i / 7, i % 7, d);
    assert forall|i: int| 0 <= i < 42 implies !#[trigger] p(i) by {
        let row = i / 7;
        let col = i % 7;
        if on_four(g, color, row, col, d) {
            let (r, c) = if four_from(g, color, row, col, d) {
                (row, col)
            } else if four_from(g, color, row - d.dr(), col - d.dc(), d) {
                (row - d.dr(), col - d.dc())
            } else if four_from(g, color, row - 2 * d.dr(), col - 2 * d.dc(), d) {
                (row - 2 * d.dr(), col - 2 * d.dc())
            } else {
                (row - 3 * d.dr(), col - 3 * d.dc())
            };
            assert(four_from(g, color, r, c, d));
            assert(has_four_along(g, color, d));
        }
    }
    lemma_tally_rest(p, 0, 42);
}

/// No colour has more pieces on open lines than it has pieces.
proof fn lemma_promising_bounded(g: Grid, color: Color, d: Direction)
    requires
        g.len() == 42,
    ensures
        0 <= promising(g, color, d) <= tally(|i: int| g[i] == Some(color), 42),
        0 <= completed(g, color, d),
{
    let p = |i: int| on_open_line(g, color, i / 7, i % 7, d);
    let q = |i: int| g[i] == Some(color);
    assert forall|i: int| 0 <= i < 42 && #[trigger] p(i) implies q(i) by {
        assert(cell(i / 7, i % 7) == i);
    }
    lemma_tally_below(p, q, 42);
    lemma_tally_bounds(p, 42);
    lemma_tally_bounds(|i: int| on_four(g, color, i / 7, i % 7, d), 42);
}

/// Four in a line in direction `d` are four pieces on a completed line.
proof fn lemma_four_completed(g: Grid, color: Color, row: int, col: int, d: Direction)
    requires
        g.len() == 42,
        four_from(g, color, row, col, d),
    ensures
        completed(g, color, d) >= 4,
        tally(|i: int| g[i] == Some(color), 42) >= 4,
{
    let dr = d.dr();
    let dc = d.dc();
    let p = |i: int| on_four(g, color, i / 7, i % 7, d);
    let q = |i: int| g[i] == Some(color);
    let a = cell(row, col);
    let b = cell(row + dr, col + dc);
    let c = cell(row + 2 * dr, col + 2 * dc);
    let e = cell(row + 3 * dr, col + 3 * dc);
    assert(a / 7 == row && a % 7 == col);
    assert(b / 7 == row + dr && b % 7 == col + dc);
    assert(c / 7 == row + 2 * dr && c % 7 == col + 2 * dc);
    assert(e / 7 == row + 3 * dr && e % 7 == col + 3 * dc);
    assert(p(a));
    assert(p(b)) by {
        assert(four_from(g, color, b / 7 - dr, b % 7 - dc, d));
    }
    assert(p(c)) by {
        assert(four_from(g, color, c / 7 - 2 * dr, c % 7 - 2 * dc, d));
    }
    assert(p(e)) by {
        assert(four_from(g, color, e / 7 - 3 * dr, e % 7 - 3 * dc, d));
    }
    lemma_tally_four(p, 42, a, b, c, e);
    lemma_tally_four(q, 42, a, b, c, e);
}

/// A win outweighs every hope: where one colour has four in a line and the
/// other has not, the winner stands at 168 or more and the other at 152 or
/// less, so the score is on the winner's side.
pub proof fn lemma_win_outweighs(g: Grid, winner: Color)
    requires
        g.len() == 42,
        has_four(g, winner),
        !has_four(g, winner.opponent()),
    ensures
        standing(g, winner) >= 168,
        standing(g, winner.opponent()) <= 152,
        winner == Color::Red ==> score(g) >= 16,
        winner == Color::Yellow ==> score(g) <= -16,
{
    let loser = winner.opponent();
    let d = if has_four_along(g, winner, Direction::Horizontal) {
        Direction::Horizontal
    } else if has_four_along(g, winner, Direction::Vertical) {
        Direction::Vertical
    } else if has_four_along(g, winner, Direction::Diagonal) {
        Direction::Diagonal
    } else {
        Direction::Antidiagonal
    };
    let (row, col) = choose|row: int, col: int| four_from(g, winner, row, col, d);
    lemma_four_completed(g, winner, row, col, d);
    lemma_promising_bounded(g, winner, Direction::Horizontal);
    lemma_promising_bounded(g, winner, Direction::Vertical);
    lemma_promising_bounded(g, winner, Direction::Diagonal);
    lemma_promising_bounded(g, winner, Direction::Antidiagonal);
    lemma_promising_bounded(g, loser, Direction::Horizontal);
    lemma_promising_bounded(g, loser, Direction::Vertical);
    lemma_promising_bounded(g, loser, Direction::Diagonal);
    lemma_promising_bounded(g, loser, Direction::Antidiagonal);
    lemma_nothing_completed(g, loser, Direction::Horizontal);
    lemma_nothing_completed(g, loser, Direction::Vertical);
    lemma_nothing_completed(g, loser, Direction::Diagonal);
    lemma_nothing_completed(g, loser, Direction::Antidiagonal);
    lemma_tally_apart(|i: int| g[i] == Some(winner), |i: int| g[i] == Some(loser), 42);
}

} // verus!
