//! Depth-limited search. Red plays for the highest value and yellow for the
//! lowest. A position at the horizon is worth 100 to the colour that moved
//! last if that colour has four in a line, and nothing otherwise; the
//! evaluator of the board is not asked.

use vstd::prelude::*;
use crate::board::{Board, Color};
pub use crate::eval::Eval;
use crate::files::as_files;
use crate::grid::{
    dropped, has_four, lemma_drop_keeps_four, lemma_dropped_cells, lemma_lift_undoes_drop,
    lemma_playable_below, playable, playable_files, Grid,
};

verus! {

/// The value of a position at the horizon when `color` is to move: the
/// colour that moved last has won, or nothing is decided.
pub open spec fn horizon_value(g: Grid, color: Color) -> int {
    if has_four(g, color.opponent()) {
        match color {
            Color::Red => -100,
            Color::Yellow => 100,
        }
    } else {
        0
    }
}

/// The value that a colour starts from before it has looked at any move:
/// the worst there is for it.
pub open spec fn worst(color: Color) -> int {
    match color {
        Color::Red => i32::MIN as int,
        Color::Yellow => i32::MAX as int,
    }
}

/// The one of two values that `color` prefers: red the higher, yellow the
/// lower.
pub open spec fn preferred(color: Color, a: int, b: int) -> int {
    match color {
        Color::Red => if a >= b {
            a
        } else {
            b
        },
        Color::Yellow => if a <= b {
            a
        } else {
            b
        },
    }
}

/// The value of a position with `color` to move and `depth` moves to the
/// horizon, both colours choosing among all playable columns.
pub open spec fn game_value(g: Grid, color: Color, depth: nat) -> int
    decreases depth, playable_files(g).len() + 1,
{
    if depth == 0 {
        horizon_value(g, color)
    } else {
        value_from(g, color, depth, 0, worst(color))
    }
}

/// The value that `color` reaches from `best` by looking at the playable
/// columns from the `k`-th on.
pub open spec fn value_from(g: Grid, color: Color, depth: nat, k: int, best: int) -> int
    decreases depth, playable_files(g).len() - k,
{
    let files = playable_files(g);
    if depth == 0 || k < 0 || k >= files.len() {
        best
    } else {
        let reply = game_value(
            dropped(g, files[k] as int, color),
            color.opponent(),
            (depth - 1) as nat,
        );
        value_from(g, color, depth, k + 1, preferred(color, reply, best))
    }
}

/// What the search returns for a position with `color` to move, `depth`
/// moves to the horizon and the window from `alpha` to `beta`.
pub open spec fn pruned_value(g: Grid, color: Color, depth: nat, alpha: int, beta: int) -> int
    decreases depth, playable_files(g).len() + 1,
{
    if depth == 0 {
        horizon_value(g, color)
    } else {
        pruned_from(g, color, depth, alpha, beta, 0, worst(color))
    }
}

/// What the search returns once it has reached `best` and goes on with the
/// `k`-th playable column. It stops looking as soon as the window is empty.
pub open spec fn pruned_from(
    g: Grid,
    color: Color,
    depth: nat,
    alpha: int,
    beta: int,
    k: int,
    best: int,
) -> int
    decreases depth, playable_files(g).len() - k,
{
    let files = playable_files(g);
    if depth == 0 || k < 0 || k >= files.len() {
        best
    } else {
        let reply = pruned_value(
            dropped(g, files[k] as int, color),
            color.opponent(),
            (depth - 1) as nat,
            alpha,
            beta,
        );
        let found = preferred(color, reply, best);
        match color {
            Color::Red => {
                let raised = preferred(Color::Red, found, alpha);
                if beta <= raised {
                    found
                } else {
                    pruned_from(g, color, depth, raised, beta, k + 1, found)
                }
            },
            Color::Yellow => {
                let lowered = preferred(Color::Yellow, found, beta);
                if lowered <= alpha {
                    found
                } else {
                    pruned_from(g, color, depth, alpha, lowered, k + 1, found)
                }
            },
        }
    }
}

/// The values of the search are 32-bit integers.
pub proof fn lemma_pruned_range(g: Grid, color: Color, depth: nat, alpha: int, beta: int)
    ensures
        i32::MIN <= pruned_value(g, color, depth, alpha, beta) <= i32::MAX,
    decreases depth, playable_files(g).len() + 1,
{
    if depth > 0 {
        lemma_pruned_from_range(g, color, depth, alpha, beta, 0, worst(color));
    }
}

pub proof fn lemma_pruned_from_range(
    g: Grid,
    color: Color,
    depth: nat,
    alpha: int,
    beta: int,
    k: int,
    best: int,
)
    requires
        i32::MIN <= best <= i32::MAX,
    ensures
        i32::MIN <= pruned_from(g, color, depth, alpha, beta, k, best) <= i32::MAX,
    decreases depth, playable_files(g).len() - k,
{
    let files = playable_files(g);
    if !(depth == 0 || k < 0 || k >= files.len()) {
        let child = dropped(g, files[k] as int, color);
        lemma_pruned_range(child, color.opponent(), (depth - 1) as nat, alpha, beta);
        let reply = pruned_value(child, color.opponent(), (depth - 1) as nat, alpha, beta);
        let found = preferred(color, reply, best);
        match color {
            Color::Red => {
                let raised = preferred(Color::Red, found, alpha);
                if beta > raised {
                    lemma_pruned_from_range(g, color, depth, raised, beta, k + 1, found);
                }
            },
            Color::Yellow => {
                let lowered = preferred(Color::Yellow, found, beta);
                if lowered > alpha {
                    lemma_pruned_from_range(g, color, depth, alpha, lowered, k + 1, found);
                }
            },
        }
    }
}

/// The values of the game are 32-bit integers.
pub proof fn lemma_value_range(g: Grid, color: Color, depth: nat)
    ensures
        i32::MIN <= game_value(g, color, depth) <= i32::MAX,
    decreases depth, playable_files(g).len() + 1,
{
    if depth > 0 {
        lemma_value_from_range(g, color, depth, 0, worst(color));
    }
}

/// Looking at more columns keeps the value in range and can only make it
/// better for the colour that chooses.
pub proof fn lemma_value_from_range(g: Grid, color: Color, depth: nat, k: int, best: int)
    requires
        i32::MIN <= best <= i32::MAX,
    ensures
        i32::MIN <= value_from(g, color, depth, k, best) <= i32::MAX,
        preferred(color, value_from(g, color, depth, k, best), best) == value_from(
            g,
            color,
            depth,
            k,
            best,
        ),
    decreases depth, playable_files(g).len() - k,
{
    let files = playable_files(g);
    if !(depth == 0 || k < 0 || k >= files.len()) {
        let child = dropped(g, files[k] as int, color);
        lemma_value_range(child, color.opponent(), (depth - 1) as nat);
        let reply = game_value(child, color.opponent(), (depth - 1) as nat);
        lemma_value_from_range(g, color, depth, k + 1, preferred(color, reply, best));
    }
}

/// How a value `found` by a search with the window from `alpha` to `beta`
/// stands to the true value `v`: inside the window the search is exact;
/// outside it, the search stays on the same side of the window as the true
/// value.
pub open spec fn faithful(found: int, v: int, alpha: int, beta: int) -> bool {
    &&& alpha < v < beta ==> found == v
    &&& v <= alpha ==> found <= alpha
    &&& v >= beta ==> found >= beta
}

/// Pruning is sound: on every position, what the search returns with a
/// window that is not empty is faithful to the value of the game.
pub proof fn lemma_pruning_sound(g: Grid, color: Color, depth: nat, alpha: int, beta: int)
    requires
        i32::MIN <= alpha < beta <= i32::MAX,
    ensures
        faithful(
            pruned_value(g, color, depth, alpha, beta),
            game_value(g, color, depth),
            alpha,
            beta,
        ),
    decreases depth, playable_files(g).len() + 1,
{
    if depth > 0 {
        let from = worst(color);
        lemma_pruning_from(g, color, depth, alpha, beta, alpha, beta, 0, from, from);
    }
}

/// The step of `lemma_pruning_sound`. The search has the window from
/// `alpha` to `beta` left of the one it began with, from `low` to `high`,
/// and has reached `found` where the game has reached `best`.
pub proof fn lemma_pruning_from(
    g: Grid,
    color: Color,
    depth: nat,
    low: int,
    high: int,
    alpha: int,
    beta: int,
    k: int,
    found: int,
    best: int,
)
    requires
        depth > 0,
        0 <= k,
        i32::MIN <= low <= alpha < beta <= high <= i32::MAX,
        i32::MIN <= best <= i32::MAX,
        color == Color::Red ==> beta == high && {
            ||| best <= low && found <= low && alpha == low
            ||| low < best < high && found == best && alpha == best
        },
        color == Color::Yellow ==> alpha == low && {
            ||| best >= high && found >= high && beta == high
            ||| low < best < high && found == best && beta == best
        },
    ensures
        faithful(
            pruned_from(g, color, depth, alpha, beta, k, found),
            value_from(g, color, depth, k, best),
            low,
            high,
        ),
    decreases depth, playable_files(g).len() - k,
{
    let files = playable_files(g);
    if k < files.len() {
        let child = dropped(g, files[k] as int, color);
        let d = (depth - 1) as nat;
        lemma_pruning_sound(child, color.opponent(), d, alpha, beta);
        lemma_value_range(child, color.opponent(), d);
        let reply = pruned_value(child, color.opponent(), d, alpha, beta);
        let truth = game_value(child, color.opponent(), d);
        let found2 = preferred(color, reply, found);
        let best2 = preferred(color, truth, best);
        lemma_value_from_range(g, color, depth, k + 1, best2);
        match color {
            Color::Red => {
                let raised = preferred(Color::Red, found2, alpha);
                if beta > raised {
                    lemma_pruning_from(
                        g,
                        color,
                        depth,
                        low,
                        high,
                        raised,
                        beta,
                        k + 1,
                        found2,
                        best2,
                    );
                }
            },
            Color::Yellow => {
                let lowered = preferred(Color::Yellow, found2, beta);
                if lowered > alpha {
                    lemma_pruning_from(
                        g,
                        color,
                        depth,
                        low,
                        high,
                        alpha,
                        lowered,
                        k + 1,
                        found2,
                        best2,
                    );
                }
            },
        }
    }
}

/// With the widest window the search returns the value of the game.
pub proof fn lemma_full_window(g: Grid, color: Color, depth: nat)
    ensures
        pruned_value(g, color, depth, i32::MIN as int, i32::MAX as int) == game_value(
            g,
            color,
            depth,
        ),
{
    lemma_pruning_sound(g, color, depth, i32::MIN as int, i32::MAX as int);
    lemma_value_range(g, color, depth);
    lemma_pruned_range(g, color, depth, i32::MIN as int, i32::MAX as int);
}

/// Searches the moves of `color` to `depth`, dropping each piece onto
/// `board` and taking it out again, and returns the value of the position.
/// The board is left as it was found.
pub fn minimax(board: &mut Board, color: Color, depth: usize, alpha: i32, beta: i32) -> (value:
    i32)
    ensures
        value == pruned_value(old(board)@, color, depth as nat, alpha as int, beta as int),
        *final(board) == *old(board),
    decreases depth,
{
    let ghost before = *board;
    proof {
        use_type_invariant(&*board);
    }
    if depth == 0 {
        if board.has_connect_4(color.other()) {
            return match color {
                Color::Red => -100,
                Color::Yellow => 100,
            };
        } else {
            return 0;
        }
    }
    let ghost g = board@;
    let ghost alpha0 = alpha as int;
    let ghost beta0 = beta as int;
    let mut alpha = alpha;
    let mut beta = beta;
    let mut best = match color {
        Color::Red => i32::MIN,
        Color::Yellow => i32::MAX,
    };
    let legal = board.legal_files();
    let files = as_files(&legal);
    let mut k: usize = 0;
    proof {
        board.lemma_view_len();
        lemma_playable_below(g, 7);
    }
    while k < files.len()
        invariant_except_break
            k <= files.len(),
            pruned_value(g, color, depth as nat, alpha0, beta0) == pruned_from(
                g,
                color,
                depth as nat,
                alpha as int,
                beta as int,
                k as int,
                best as int,
            ),
        invariant
            depth > 0,
            g.len() == 42,
            board@ == g,
            files@ == playable_files(g),
            forall|j: int| 0 <= j < files@.len() ==> playable(g, #[trigger] files@[j] as int),
        ensures
            best == pruned_value(g, color, depth as nat, alpha0, beta0),
        decreases files.len() - k,
    {
        let file = files[k];
        proof {
            lemma_lift_undoes_drop(g, file as int, color);
            lemma_pruned_range(
                dropped(g, file as int, color),
                color.opponent(),
                (depth - 1) as nat,
                alpha as int,
                beta as int,
            );
        }
        board.insert(file, color);
        let score = minimax(board, color.other(), depth - 1, alpha, beta);
        board.remove(file);
        match color {
            Color::Red => {
                if score > best {
                    best = score;
                }
                if best > alpha {
                    alpha = best;
                }
            },
            Color::Yellow => {
                if score < best {
                    best = score;
                }
                if best < beta {
                    beta = best;
                }
            },
        }
        if beta <= alpha {
            break ;
        }
        k += 1;
    }
    proof {
        use_type_invariant(&*board);
        board.lemma_view_tells_masks(before);
    }
    best
}

/// `a` is better for `color` than `b`, and not merely as good.
pub open spec fn outranks(color: Color, a: int, b: int) -> bool {
    match color {
        Color::Red => a > b,
        Color::Yellow => a < b,
    }
}

/// The index of the entry that `color` picks among the first `n`: the
/// first of those whose value no other outranks.
pub open spec fn choice_among(evals: Seq<Eval>, color: Color, n: int) -> int
    decreases n,
{
    if n <= 1 {
        0
    } else {
        let before = choice_among(evals, color, n - 1);
        if outranks(color, evals[n - 1].1 as int, evals[before].1 as int) {
            n - 1
        } else {
            before
        }
    }
}

/// The index of the entry that `color` picks.
pub open spec fn choice(evals: Seq<Eval>, color: Color) -> int {
    choice_among(evals, color, evals.len() as int)
}

/// The choice is an entry that none outranks, and every entry before it is
/// outranked by it.
pub proof fn lemma_choice_among(evals: Seq<Eval>, color: Color, n: int)
    requires
        1 <= n <= evals.len(),
    ensures
        0 <= choice_among(evals, color, n) < n,
        forall|i: int|
            0 <= i < n ==> !outranks(
                color,
                #[trigger] evals[i].1 as int,
                evals[choice_among(evals, color, n)].1 as int,
            ),
        forall|i: int|
            0 <= i < choice_among(evals, color, n) ==> outranks(
                color,
                evals[choice_among(evals, color, n)].1 as int,
                #[trigger] evals[i].1 as int,
            ),
    decreases n,
{
    if n > 1 {
        lemma_choice_among(evals, color, n - 1);
    }
}

/// Picks a move for `color` from the values of its moves: the one with the
/// highest value for red, with the lowest for yellow, and the first of
/// those where several are as good.
pub fn pick(evals: &Vec<Eval>, color: Color) -> (file: usize)
    requires
        evals.len() > 0,
    ensures
        file == evals@[choice(evals@, color)].0,
{
    let mut chosen: usize = 0;
    let mut i: usize = 1;
    while i < evals.len()
        invariant
            1 <= i <= evals.len(),
            chosen == choice_among(evals@, color, i as int),
            chosen < i,
        decreases evals.len() - i,
    {
        let better = match color {
            Color::Red => evals[i] > evals[chosen],
            Color::Yellow => evals[i] < evals[chosen],
        };
        if better {
            chosen = i;
        }
        i += 1;
    }
    evals[chosen].0
}

/// The value to `color` of a move into column `file`: the value of the
/// position that the move leads to, with the opponent to move and `depth`
/// moves to the horizon.
pub open spec fn move_value(g: Grid, color: Color, depth: nat, file: int) -> int {
    game_value(dropped(g, file, color), color.opponent(), depth)
}

/// The value of a position that `color` has won.
pub open spec fn win_value(color: Color) -> int {
    match color {
        Color::Red => 100,
        Color::Yellow => -100,
    }
}

/// The colour that makes the last move before the horizon, `depth` moves
/// away, when `color` is to move now.
pub open spec fn last_mover(color: Color, depth: nat) -> Color {
    if depth % 2 == 0 {
        color.opponent()
    } else {
        color
    }
}

/// The search never comes to a position without a playable column before
/// it has reached the horizon.
pub open spec fn never_stuck(g: Grid, color: Color, depth: nat) -> bool
    decreases depth,
{
    depth == 0 || (playable_files(g).len() > 0 && forall|c: int| #[trigger]
        playable(g, c) ==> never_stuck(dropped(g, c, color), color.opponent(), (depth - 1) as nat))
}

/// A search that is never stuck is not stuck after any of its moves.
pub proof fn lemma_never_stuck_child(g: Grid, color: Color, depth: nat, file: int)
    requires
        depth > 0,
        never_stuck(g, color, depth),
        playable(g, file),
    ensures
        never_stuck(dropped(g, file, color), color.opponent(), (depth - 1) as nat),
{
}

/// A move that is looked at no further is worth a win if it completes four
/// in a line and nothing otherwise.
pub proof fn lemma_move_value_at_horizon(g: Grid, color: Color, file: int)
    ensures
        move_value(g, color, 0, file) == if has_four(dropped(g, file, color), color) {
            win_value(color)
        } else {
            0
        },
{
    color.lemma_opponent_twice();
}

/// Where the search is never stuck, every value lies between a win for
/// yellow and a win for red.
pub proof fn lemma_value_bounded(g: Grid, color: Color, depth: nat)
    requires
        g.len() == 42,
        never_stuck(g, color, depth),
    ensures
        -100 <= game_value(g, color, depth) <= 100,
    decreases depth, playable_files(g).len() + 1,
{
    if depth > 0 {
        lemma_value_from_bounded(g, color, depth, 0, worst(color));
    }
}

proof fn lemma_value_from_bounded(g: Grid, color: Color, depth: nat, k: int, best: int)
    requires
        g.len() == 42,
        depth > 0,
        never_stuck(g, color, depth),
        0 <= k <= playable_files(g).len(),
        k == 0 ==> best == worst(color),
        k > 0 ==> -100 <= best <= 100,
    ensures
        -100 <= value_from(g, color, depth, k, best) <= 100,
    decreases depth, playable_files(g).len() - k,
{
    let files = playable_files(g);
    lemma_playable_below(g, 7);
    if k < files.len() {
        let file = files[k] as int;
        let child = dropped(g, file, color);
        lemma_never_stuck_child(g, color, depth, file);
        lemma_dropped_cells(g, file, color);
        lemma_value_bounded(child, color.opponent(), (depth - 1) as nat);
        let reply = game_value(child, color.opponent(), (depth - 1) as nat);
        lemma_value_from_bounded(g, color, depth, k + 1, preferred(color, reply, best));
    }
}

/// A position in which `winner` has four in a line is worth a win for
/// `winner` whenever `winner` makes the last move before the horizon and
/// the search is never stuck on the way.
pub proof fn lemma_value_decided(g: Grid, color: Color, depth: nat, winner: Color)
    requires
        g.len() == 42,
        has_four(g, winner),
        never_stuck(g, color, depth),
        last_mover(color, depth) == winner,
    ensures
        game_value(g, color, depth) == win_value(winner),
    decreases depth, playable_files(g).len() + 1,
{
    if depth > 0 {
        lemma_value_from_decided(g, color, depth, winner, 0, worst(color));
    }
}

proof fn lemma_value_from_decided(
    g: Grid,
    color: Color,
    depth: nat,
    winner: Color,
    k: int,
    best: int,
)
    requires
        g.len() == 42,
        depth > 0,
        has_four(g, winner),
        never_stuck(g, color, depth),
        last_mover(color, depth) == winner,
        0 <= k <= playable_files(g).len(),
        k == 0 ==> best == worst(color),
        k > 0 ==> best == win_value(winner),
    ensures
        value_from(g, color, depth, k, best) == win_value(winner),
    decreases depth, playable_files(g).len() - k,
{
    let files = playable_files(g);
    lemma_playable_below(g, 7);
    if k < files.len() {
        let file = files[k] as int;
        let child = dropped(g, file, color);
        lemma_never_stuck_child(g, color, depth, file);
        lemma_dropped_cells(g, file, color);
        lemma_drop_keeps_four(g, file, color, winner);
        color.lemma_opponent_twice();
        lemma_value_decided(child, color.opponent(), (depth - 1) as nat, winner);
        let reply = game_value(child, color.opponent(), (depth - 1) as nat);
        lemma_value_from_decided(g, color, depth, winner, k + 1, preferred(color, reply, best));
    }
}

/// `file` is what `best_move` returns for `color` on `g` with `depth`
/// moves to look at after it: a playable column that none outranks, and
/// the lowest of those.
pub open spec fn is_best_move(g: Grid, color: Color, depth: nat, file: int) -> bool {
    &&& playable(g, file)
    &&& forall|c: int|
        playable(g, c) ==> !outranks(
            color,
            #[trigger] move_value(g, color, depth, c),
            move_value(g, color, depth, file),
        )
    &&& forall|c: int|
        0 <= c < file && playable(g, c) ==> outranks(
            color,
            move_value(g, color, depth, file),
            #[trigger] move_value(g, color, depth, c),
        )
}

/// A search that looks no further than its own move takes a win that is
/// there: where some column completes four in a line, the best move is the
/// lowest column that does.
pub proof fn lemma_takes_win_at_once(g: Grid, color: Color, file: int, win: int)
    requires
        g.len() == 42,
        playable(g, win),
        has_four(dropped(g, win, color), color),
        is_best_move(g, color, 0, file),
    ensures
        has_four(dropped(g, file, color), color),
        file <= win,
{
    lemma_move_value_at_horizon(g, color, file);
    lemma_move_value_at_horizon(g, color, win);
    assert(!outranks(color, move_value(g, color, 0, win), move_value(g, color, 0, file)));
}

/// A search whose own colour makes the last move before the horizon does
/// not let a win go: where some column completes four in a line and the
/// search is never stuck, the best move is worth a win, and it is that
/// column or a lower one.
pub proof fn lemma_takes_win_in_horizon(g: Grid, color: Color, depth: nat, file: int, win: int)
    requires
        g.len() == 42,
        depth % 2 == 0,
        playable(g, win),
        has_four(dropped(g, win, color), color),
        forall|c: int| #[trigger]
            playable(g, c) ==> never_stuck(dropped(g, c, color), color.opponent(), depth),
        is_best_move(g, color, depth, file),
    ensures
        move_value(g, color, depth, file) == win_value(color),
        file <= win,
{
    color.lemma_opponent_twice();
    lemma_dropped_cells(g, win, color);
    assert(never_stuck(dropped(g, win, color), color.opponent(), depth));
    lemma_value_decided(dropped(g, win, color), color.opponent(), depth, color);
    lemma_dropped_cells(g, file, color);
    assert(never_stuck(dropped(g, file, color), color.opponent(), depth));
    lemma_value_bounded(dropped(g, file, color), color.opponent(), depth);
    assert(!outranks(color, move_value(g, color, depth, win), move_value(g, color, depth, file)));
}

/// A search for the best move of one colour on one position.
pub struct Minimax<'a> {
    board: &'a Board,
    color: Color,
    depth: usize,
}

impl<'a> Minimax<'a> {
    /// The position that is searched.
    pub closed spec fn position(&self) -> Grid {
        self.board@
    }

    /// The colour whose move is sought.
    pub closed spec fn mover(&self) -> Color {
        self.color
    }

    /// The number of moves that are looked at after the move sought.
    pub closed spec fn horizon(&self) -> nat {
        self.depth as nat
    }

    pub fn new(board: &'a Board, color: Color, depth: usize) -> (search: Self)
        ensures
            search.position() == board@,
            search.mover() == color,
            search.horizon() == depth,
    {
        Minimax { board, color, depth }
    }

    /// The best column for the mover: no other playable column has a value
    /// that the mover prefers, and among the columns of that value it is
    /// the lowest. The position must have a playable column.
    pub fn best_move(&self) -> (file: usize)
        requires
            playable_files(self.position()).len() > 0,
        ensures
            playable_files(self.position()).contains(file),
            is_best_move(self.position(), self.mover(), self.horizon(), file as int),
    {
        let ghost g = self.board@;
        let legal = self.board.legal_files();
        let files = as_files(&legal);
        let mut evaluations: Vec<Eval> = Vec::new();
        proof {
            self.board.lemma_view_len();
            lemma_playable_below(g, 7);
        }
        for k in 0..files.len()
            invariant
                g == self.board@,
                g.len() == 42,
                files@ == playable_files(g),
                forall|j: int| 0 <= j < files@.len() ==> playable(g, #[trigger] files@[j] as int),
                evaluations@.len() == k,
                forall|j: int|
                    0 <= j < k ==> (#[trigger] evaluations@[j]).0 == files@[j] && evaluations@[j].1
                        == move_value(g, self.color, self.depth as nat, files@[j] as int),
        {
            let file = files[k];
            let mut possible_board = *self.board;
            possible_board.insert(file, self.color);
            proof {
                lemma_full_window(possible_board@, self.color.opponent(), self.depth as nat);
            }
            let eval = minimax(
                &mut possible_board,
                self.color.other(),
                self.depth,
                i32::MIN,
                i32::MAX,
            );
            evaluations.push(Eval(file, eval));
        }
        let file = pick(&evaluations, self.color);
        proof {
            let evals = evaluations@;
            let n = evals.len() as int;
            lemma_choice_among(evals, self.color, n);
            let chosen = choice(evals, self.color);
            assert(file == files@[chosen]);
            assert(playable_files(g).contains(file));
            assert forall|c: int| playable(g, c) implies !outranks(
                self.color,
                #[trigger] move_value(g, self.color, self.depth as nat, c),
                move_value(g, self.color, self.depth as nat, file as int),
            ) by {
                let j = choose|j: int| 0 <= j < files@.len() && files@[j] == c as usize;
                assert(evals[j].1 == move_value(g, self.color, self.depth as nat, c));
            }
            assert forall|c: int| 0 <= c < file && playable(g, c) implies outranks(
                self.color,
                move_value(g, self.color, self.depth as nat, file as int),
                #[trigger] move_value(g, self.color, self.depth as nat, c),
            ) by {
                let j = choose|j: int| 0 <= j < files@.len() && files@[j] == c as usize;
                assert(evals[j].1 == move_value(g, self.color, self.depth as nat, c));
                if j >= chosen {
                    if j > chosen {
                        assert(files@[chosen] < files@[j]);
                    }
                }
            }
        }
        file
    }
}

} // verus!
