use connect_4::board::{Board, Color};
use connect_4::repl::{read_color, read_command, read_declines, Command, Repl, DEPTH};
use connect_4::text::{chars_of, read_number, skip_spaces, spells, trimmed_end};

#[test]
fn reads_commands() {
    assert_eq!(read_command("newgame\n"), Command::NewGame);
    assert_eq!(read_command("n"), Command::NewGame);
    assert_eq!(read_command("n  \r\n"), Command::NewGame);
    assert_eq!(read_command("quit\n"), Command::Quit);
    assert_eq!(read_command("q\n"), Command::Quit);
    assert_eq!(read_command("0\n"), Command::Play(0));
    assert_eq!(read_command("6\n"), Command::Play(6));
    assert_eq!(read_command("  3 \n"), Command::Play(3));
    assert_eq!(read_command("+5\n"), Command::Play(5));
    assert_eq!(read_command("006\n"), Command::Play(6));
}

#[test]
fn reads_bad_files() {
    assert_eq!(read_command("7\n"), Command::BadFile);
    assert_eq!(read_command("10\n"), Command::BadFile);
    assert_eq!(read_command("4294967295\n"), Command::BadFile);
}

#[test]
fn reads_unknown_input() {
    assert_eq!(read_command(""), Command::Unknown);
    assert_eq!(read_command("\n"), Command::Unknown);
    assert_eq!(read_command("-1\n"), Command::Unknown);
    assert_eq!(read_command("+\n"), Command::Unknown);
    assert_eq!(read_command("3 4\n"), Command::Unknown);
    assert_eq!(read_command("3x\n"), Command::Unknown);
    assert_eq!(read_command("Quit\n"), Command::Unknown);
    assert_eq!(read_command(" n\n"), Command::Unknown);
    assert_eq!(read_command("newgame now\n"), Command::Unknown);
    assert_eq!(read_command("99999999999999999999999999\n"), Command::Unknown);
}

#[test]
fn reads_colors() {
    assert_eq!(read_color("y\n"), Some(Color::Yellow));
    assert_eq!(read_color("Yellow\n"), Some(Color::Yellow));
    assert_eq!(read_color("r\n"), Some(Color::Red));
    assert_eq!(read_color("Red\n"), Some(Color::Red));
    assert_eq!(read_color("\n"), None);
    assert_eq!(read_color(""), None);
    assert_eq!(read_color(" y\n"), None);
    assert_eq!(read_color("blue\n"), None);
}

#[test]
fn reads_refusals() {
    assert!(read_declines("n\n"));
    assert!(read_declines("no\n"));
    assert!(read_declines("no   "));
    assert!(!read_declines("y\n"));
    assert!(!read_declines("\n"));
    assert!(!read_declines("nope\n"));
    assert!(!read_declines("N\n"));
}

#[test]
fn text_helpers() {
    let line = chars_of("  12 \t\u{3000}\n");
    assert_eq!(line, vec![' ', ' ', '1', '2', ' ', '\t', '\u{3000}', '\n']);
    assert_eq!(trimmed_end(&line), 4);
    assert_eq!(trimmed_end(&chars_of(" \n")), 0);
    assert_eq!(trimmed_end(&chars_of("")), 0);
    assert_eq!(skip_spaces(&line, 0, 4), 2);
    assert_eq!(skip_spaces(&line, 2, 4), 2);
    assert_eq!(skip_spaces(&chars_of("   "), 0, 3), 3);
    assert_eq!(read_number(&line, 2, 4), Some(12));
    assert_eq!(read_number(&line, 2, 3), Some(1));
    assert_eq!(read_number(&line, 0, 4), None);
    assert_eq!(read_number(&line, 2, 2), None);
    assert!(spells(&line, 2, 4, "12"));
    assert!(!spells(&line, 2, 4, "13"));
    assert!(!spells(&line, 2, 4, "1"));
    assert!(spells(&line, 3, 3, ""));
}

#[test]
fn new_game_state() {
    let game = Repl::new(Color::Red);
    assert_eq!(game.board, Board::new());
    assert_eq!(game.turn, Color::Red);
    assert_eq!(game.player, Color::Yellow);
    assert!(!game.players_turn());
    assert!(Repl::new(Color::Yellow).players_turn());
    assert_eq!(DEPTH, 10);
}

#[test]
fn choosing_a_color() {
    let mut game = Repl::new(Color::Red);
    assert!(!game.choose_color("green\n"));
    assert_eq!(game.player, Color::Yellow);
    assert!(game.choose_color("r\n"));
    assert_eq!(game.player, Color::Red);
    assert!(game.players_turn());
    assert!(game.choose_color("Y\n"));
    assert_eq!(game.player, Color::Yellow);
    assert_eq!(game.turn, Color::Red);
}

#[test]
fn moves_pass_the_turn() {
    let mut game = Repl::new(Color::Yellow);
    assert!(!game.insert_file(3));
    assert_eq!(game.turn, Color::Red);
    assert!(!game.insert_file(3));
    assert_eq!(game.turn, Color::Yellow);
    assert_eq!(game.board, Board::from_notation("7/7/7/7/3r3/3y3").unwrap());
}

#[test]
fn winning_move_keeps_the_turn_until_the_next_game() {
    let mut game = Repl::new(Color::Yellow);
    for file in 0..3 {
        assert!(!game.insert_file(file));
        assert!(!game.insert_file(file));
    }
    assert!(game.insert_file(3));
    assert_eq!(game.turn, Color::Yellow);
    let won = game.board;
    assert!(!game.play_again("no\n"));
    assert_eq!(game.board, won);
    assert_eq!(game.turn, Color::Yellow);
    assert!(game.play_again("sure\n"));
    assert_eq!(game.board, Board::new());
    assert_eq!(game.turn, Color::Red);
}

#[test]
fn new_game_clears_the_board() {
    let mut game = Repl::new(Color::Red);
    game.insert_file(0);
    game.new_game();
    assert_eq!(game.board, Board::new());
    assert_eq!(game.turn, Color::Yellow);
}

#[test]
fn computer_has_no_move_on_a_full_board() {
    let mut game = Repl::new(Color::Red);
    game.board = Board::from_notation("ryryryr/yryryry/ryryryr/ryryryr/yryryry/ryryryr").unwrap();
    assert_eq!(game.computer_move(), None);
}

#[test]
fn computer_moves_into_the_last_free_cell() {
    let mut game = Repl::new(Color::Red);
    game.board = Board::from_notation("ryryry1/yryryry/ryryryr/ryryryr/yryryry/ryryryr").unwrap();
    assert_eq!(game.computer_move(), Some(6));
}
