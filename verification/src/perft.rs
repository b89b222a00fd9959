//! Counting the positions that a search visits: the position itself, and,
//! unless it lies at the horizon or the game is over, the positions under
//! each of its moves.

use vstd::prelude::*;
use crate::board::{Board, Color};
use crate::files::as_files;
use crate::grid::{
    dropped, has_four, lemma_lift_undoes_drop, lemma_playable_below, playable, playable_files, Grid,
};

verus! {

/// The number of positions from `g`, with `color` to move, down to `depth`
/// moves. A position in which the colour that moved last has four in a line
/// has none under it.
pub open spec fn positions(g: Grid, color: Color, depth: nat) -> nat
    decreases depth, playable_files(g).len() + 1,
{
    if depth == 0 || has_four(g, color.opponent()) {
        1
    } else {
        1 + positions_from(g, color, depth, 0)
    }
}

/// The number of positions under the moves into the playable columns from
/// the `k`-th on.
pub open spec fn positions_from(g: Grid, color: Color, depth: nat, k: int) -> nat
    decreases depth, playable_files(g).len() - k,
{
    let files = playable_files(g);
    if depth == 0 || k < 0 || k >= files.len() {
        0
    } else {
        positions(dropped(g, files[k] as int, color), color.opponent(), (depth - 1) as nat)
            + positions_from(g, color, depth, k + 1)
    }
}

/// The size of the full tree of `depth` moves with seven moves in every
/// position.
pub open spec fn full_tree(depth: nat) -> nat
    decreases depth,
{
    if depth == 0 {
        1
    } else {
        1 + 7 * full_tree((depth - 1) as nat)
    }
}

/// No search visits more positions than the full tree holds.
pub proof fn lemma_positions_bounded(g: Grid, color: Color, depth: nat)
    ensures
        positions(g, color, depth) <= full_tree(depth),
    decreases depth, playable_files(g).len() + 1,
{
    if depth > 0 && !has_four(g, color.opponent()) {
        lemma_playable_below(g, 7);
        lemma_positions_from_bounded(g, color, depth, 0);
        let n = playable_files(g).len();
        let below = full_tree((depth - 1) as nat);
        assert(n * below <= 7 * below) by (nonlinear_arith)
            requires
                n <= 7,
        ;
    }
}

proof fn lemma_positions_from_bounded(g: Grid, color: Color, depth: nat, k: int)
    requires
        depth > 0,
        0 <= k <= playable_files(g).len(),
    ensures
        positions_from(g, color, depth, k) <= (playable_files(g).len() - k) * full_tree(
            (depth - 1) as nat,
        ),
    decreases depth, playable_files(g).len() - k,
{
    let files = playable_files(g);
    let below = full_tree((depth - 1) as nat);
    if k < files.len() {
        lemma_positions_bounded(
            dropped(g, files[k] as int, color),
            color.opponent(),
            (depth - 1) as nat,
        );
        lemma_positions_from_bounded(g, color, depth, k + 1);
        assert((files.len() - k) * below == below + (files.len() - (k + 1)) * below)
            by (nonlinear_arith);
    } else {
        assert((files.len() - k) * below == 0) by (nonlinear_arith)
            requires
                files.len() - k == 0,
        ;
    }
}

/// A search of eleven moves or fewer visits a number of positions that any
/// `usize` can hold.
pub proof fn lemma_positions_fit(g: Grid, color: Color, depth: nat)
    requires
        depth <= 11,
    ensures
        positions(g, color, depth) <= usize::MAX,
{
    lemma_positions_bounded(g, color, depth);
    reveal_with_fuel(full_tree, 12);
    assert(full_tree(11) == 2306881200);
    lemma_full_tree_grows(depth, 11);
}

/// A deeper full tree is no smaller.
pub proof fn lemma_full_tree_grows(shallow: nat, deep: nat)
    requires
        shallow <= deep,
    ensures
        full_tree(shallow) <= full_tree(deep),
    decreases deep,
{
    if shallow < deep {
        lemma_full_tree_grows(shallow, (deep - 1) as nat);
    }
}

/// Counts the positions from `board`, with `color` to move, down to `depth`
/// moves, dropping each piece onto `board` and taking it out again. The
/// board is left as it was found. The count must fit a `usize`.
pub fn perft(depth: usize, board: &mut Board, color: Color) -> (count: usize)
    requires
        positions(old(board)@, color, depth as nat) <= usize::MAX,
    ensures
        count == positions(old(board)@, color, depth as nat),
        *final(board) == *old(board),
    decreases depth,
{
    let ghost before = *board;
    let ghost g = board@;
    proof {
        use_type_invariant(&*board);
        board.lemma_view_len();
        lemma_playable_below(g, 7);
    }
    let mut count: usize = 1;
    if depth == 0 || board.has_connect_4(color.other()) {
        return count;
    }
    let moves = board.legal_files();
    let files = as_files(&moves);
    for k in 0..files.len()
        invariant
            depth > 0,
            g.len() == 42,
            board@ == g,
            files@ == playable_files(g),
            forall|j: int| 0 <= j < files@.len() ==> playable(g, #[trigger] files@[j] as int),
            count + positions_from(g, color, depth as nat, k as int) == positions(
                g,
                color,
                depth as nat,
            ),
            positions(g, color, depth as nat) <= usize::MAX,
    {
        let m = files[k];
        proof {
            lemma_lift_undoes_drop(g, m as int, color);
        }
        board.insert(m, color);
        count += perft(depth - 1, board, color.other());
        board.remove(m);
    }
    proof {
        use_type_invariant(&*board);
        board.lemma_view_tells_masks(before);
    }
    count
}

} // verus!
