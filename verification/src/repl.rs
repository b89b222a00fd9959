//! A game between a player and the search, as a state that moves on what
//! the player types. Nothing here reads or prints: the caller hands in each
//! line and shows what comes of it.

use vstd::prelude::*;
use crate::board::{Board, Color};
use crate::grid::{dropped, empty_grid, has_four, playable_files};
use crate::minimax::{is_best_move, Minimax};
use crate::files::as_files;
use crate::text::{
    chars_of, number, read_number, skip_spaces, spells, trim_end, trim_start, trimmed_end,
};

verus! {

/// The number of moves that the search looks at after its own.
pub const DEPTH: usize = 10;

/// What a line asks for when a move is awaited.
#[derive(Debug, Clone, Copy, PartialEq, Eq, Structural)]
pub enum Command {
    /// Begin again on an empty board.
    NewGame,
    /// Leave.
    Quit,
    /// Drop a piece into this column, which is one of the seven.
    Play(usize),
    /// A number that is no column.
    BadFile,
    /// Anything else.
    Unknown,
}

/// The command that a line states. White space at the end of the line does
/// not count, nor does ASCII white space before a number.
pub open spec fn command_of(line: Seq<char>) -> Command {
    let typed = trim_end(line);
    if typed == "newgame"@ || typed == "n"@ {
        Command::NewGame
    } else if typed == "quit"@ || typed == "q"@ {
        Command::Quit
    } else {
        match number(trim_start(typed)) {
            Some(file) => if file < 7 {
                Command::Play(file)
            } else {
                Command::BadFile
            },
            None => Command::Unknown,
        }
    }
}

/// The colour that a line names: yellow where it begins with `y` or `Y`,
/// red where it begins with `r` or `R`.
pub open spec fn color_of(line: Seq<char>) -> Option<Color> {
    let typed = trim_end(line);
    if typed.len() > 0 && (typed[0] == 'y' || typed[0] == 'Y') {
        Some(Color::Yellow)
    } else if typed.len() > 0 && (typed[0] == 'r' || typed[0] == 'R') {
        Some(Color::Red)
    } else {
        None
    }
}

/// The line says no to another game.
pub open spec fn declines(line: Seq<char>) -> bool {
    trim_end(line) == "n"@ || trim_end(line) == "no"@
}

/// Reads the command that a line states.
pub fn read_command(line: &str) -> (command: Command)
    ensures
        command == command_of(line@),
{
    let chars = chars_of(line);
    let end = trimmed_end(&chars);
    if spells(&chars, 0, end, "newgame") || spells(&chars, 0, end, "n") {
        Command::NewGame
    } else if spells(&chars, 0, end, "quit") || spells(&chars, 0, end, "q") {
        Command::Quit
    } else {
        let from = skip_spaces(&chars, 0, end);
        assert(chars@.subrange(from as int, end as int) =~= trim_start(trim_end(line@)));
        match read_number(&chars, from, end) {
            Some(file) => if file < 7 {
                Command::Play(file)
            } else {
                Command::BadFile
            },
            None => Command::Unknown,
        }
    }
}

/// Reads the colour that a line names.
pub fn read_color(line: &str) -> (color: Option<Color>)
    ensures
        color == color_of(line@),
{
    let chars = chars_of(line);
    let end = trimmed_end(&chars);
    if end > 0 && (chars[0] == 'y' || chars[0] == 'Y') {
        Some(Color::Yellow)
    } else if end > 0 && (chars[0] == 'r' || chars[0] == 'R') {
        Some(Color::Red)
    } else {
        None
    }
}

/// Reads whether a line says no to another game.
pub fn read_declines(line: &str) -> (no: bool)
    ensures
        no == declines(line@),
{
    let chars = chars_of(line);
    let end = trimmed_end(&chars);
    spells(&chars, 0, end, "n") || spells(&chars, 0, end, "no")
}

/// A game: the position, the colour to move, and the colour that the
/// player has.
pub struct Repl {
    pub board: Board,
    pub turn: Color,
    pub player: Color,
}

impl Repl {
    /// A game on the empty board in which `turn` moves first. The player
    /// has yellow until another colour is chosen.
    pub fn new(turn: Color) -> (game: Repl)
        ensures
            game.board@ == empty_grid(),
            game.turn == turn,
            game.player == Color::Yellow,
    {
        Repl { board: Board::new(), turn, player: Color::Yellow }
    }

    /// Gives the player the colour that `line` names. Where it names none,
    /// nothing changes and the answer is `false`.
    pub fn choose_color(&mut self, line: &str) -> (chosen: bool)
        ensures
            chosen == color_of(line@) is Some,
            final(self).player == match color_of(line@) {
                Some(color) => color,
                None => old(self).player,
            },
            final(self).board == old(self).board,
            final(self).turn == old(self).turn,
    {
        match read_color(line) {
            Some(color) => {
                self.player = color;
                true
            },
            None => false,
        }
    }

    /// Whether the player is to move, and not the search.
    pub fn players_turn(&self) -> (r: bool)
        ensures
            r == (self.turn == self.player),
    {
        self.turn == self.player
    }

    /// Clears the board. The colour to move stays.
    pub fn new_game(&mut self)
        ensures
            final(self).board@ == empty_grid(),
            final(self).turn == old(self).turn,
            final(self).player == old(self).player,
    {
        self.board = Board::new();
    }

    /// The column that the search plays for the colour that the player has
    /// not; `None` where no column is playable.
    pub fn computer_move(&self) -> (file: Option<usize>)
        ensures
            file is None <==> playable_files(self.board@).len() == 0,
            file matches Some(f) ==> is_best_move(
                self.board@,
                self.player.opponent(),
                DEPTH as nat,
                f as int,
            ),
    {
        let legal = self.board.legal_files();
        if as_files(&legal).len() == 0 {
            None
        } else {
            let search = Minimax::new(&self.board, self.player.other(), DEPTH);
            Some(search.best_move())
        }
    }

    /// Drops a piece of the colour to move into column `file` and says
    /// whether that colour now has four in a line. If it has, the colour to
    /// move stays, for the caller to name the winner; if not, the turn
    /// passes to the other colour.
    pub fn insert_file(&mut self, file: usize) -> (won: bool)
        requires
            file < 7,
        ensures
            final(self).board@ == dropped(old(self).board@, file as int, old(self).turn),
            won == has_four(final(self).board@, old(self).turn),
            final(self).turn == if won {
                old(self).turn
            } else {
                old(self).turn.opponent()
            },
            final(self).player == old(self).player,
    {
        self.board.insert(file, self.turn);
        if self.board.has_connect_4(self.turn) {
            true
        } else {
            self.turn = self.turn.other();
            false
        }
    }

    /// After a game is won: unless `line` says no, clears the board and
    /// passes the turn to the colour that did not win. Where it says no,
    /// nothing changes and the answer is `false`.
    pub fn play_again(&mut self, line: &str) -> (again: bool)
        ensures
            again == !declines(line@),
            again ==> final(self).board@ == empty_grid() && final(self).turn == old(
                self,
            ).turn.opponent(),
            !again ==> final(self).board == old(self).board && final(self).turn == old(self).turn,
            final(self).player == old(self).player,
    {
        if read_declines(line) {
            false
        } else {
            self.board = Board::new();
            self.turn = self.turn.other();
            true
        }
    }
}

} // verus!
