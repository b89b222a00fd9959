use connect_4::board::{Board, Color};
use connect_4::notation::{classify, ParseError, Token};

#[test]
fn empty_notation_is_new_board() {
    assert_eq!(Board::from_notation("7/7/7/7/7/7").unwrap(), Board::new());
}

#[test]
fn notation_places_pieces_row_by_row() {
    let board = Board::from_notation("r6/7/7/7/7/6y").unwrap();
    assert_eq!(board.red(), 0x0001FC0000000001);
    assert_eq!(board.yellow(), 0x0001FE0000000000);
}

#[test]
fn notation_need_not_obey_gravity() {
    let board = Board::from_notation("7/7/3r3/7/7/7").unwrap();
    assert_eq!(board.red(), 0x0001FC0000000000 | (1 << 17));
    assert_eq!(board.yellow(), 0x0001FC0000000000);
}

#[test]
fn notation_matches_play() {
    let mut board = Board::new();
    board.insert(4, Color::Red);
    board.insert(4, Color::Yellow);
    board.insert(5, Color::Red);
    board.insert(6, Color::Yellow);
    board.insert(5, Color::Red);
    board.insert(6, Color::Yellow);
    assert_eq!(Board::from_notation("7/7/7/7/4yry/4rry").unwrap(), board);
}

#[test]
fn rejects_unknown_character() {
    assert_eq!(
        Board::from_notation("7/7/7/7/7/6x"),
        Err(ParseError::Character { found: 'x' })
    );
    assert_eq!(Board::from_notation("R6/7/7/7/7/7"), Err(ParseError::Character { found: 'R' }));
    assert_eq!(Board::from_notation(" 7/7/7/7/7/7"), Err(ParseError::Character { found: ' ' }));
}

#[test]
fn rejects_digits_that_are_no_run() {
    assert_eq!(Board::from_notation("07/7/7/7/7/7"), Err(ParseError::Character { found: '0' }));
    assert_eq!(Board::from_notation("8/7/7/7/7/7"), Err(ParseError::Character { found: '8' }));
    assert_eq!(Board::from_notation("9/7/7/7/7/7"), Err(ParseError::Character { found: '9' }));
}

#[test]
fn rejects_separator_inside_row() {
    assert_eq!(Board::from_notation("7/6/7/7/7/7"), Err(ParseError::Separator { offset: 13 }));
    assert_eq!(Board::from_notation("r/7/7/7/7/7"), Err(ParseError::Separator { offset: 1 }));
}

#[test]
fn rejects_row_that_is_too_long() {
    assert_eq!(Board::from_notation("7r/7/7/7/7/7"), Err(ParseError::RowLength { offset: 7 }));
    assert_eq!(Board::from_notation("r7/7/7/7/7/7"), Err(ParseError::RowLength { offset: 1 }));
    assert_eq!(Board::from_notation("43y/7/7/7/7/7"), Err(ParseError::RowLength { offset: 7 }));
    assert_eq!(Board::from_notation("777777"), Err(ParseError::RowLength { offset: 7 }));
}

#[test]
fn rejects_empty_row() {
    assert_eq!(Board::from_notation("/7/7/7/7/7/7"), Err(ParseError::RowLength { offset: 0 }));
    assert_eq!(Board::from_notation("7//7/7/7/7/7"), Err(ParseError::RowLength { offset: 7 }));
}

#[test]
fn rejects_more_than_six_rows() {
    assert_eq!(Board::from_notation("7/7/7/7/7/7/"), Err(ParseError::RowLength { offset: 42 }));
    assert_eq!(Board::from_notation("7/7/7/7/7/7/7"), Err(ParseError::RowLength { offset: 42 }));
    assert_eq!(Board::from_notation("7/7/7/7/7/7r"), Err(ParseError::RowLength { offset: 42 }));
    assert_eq!(Board::from_notation("7/7/7/7/7/7x"), Err(ParseError::RowLength { offset: 42 }));
}

#[test]
fn rejects_text_that_ends_early() {
    assert_eq!(Board::from_notation(""), Err(ParseError::RowLength { offset: 0 }));
    assert_eq!(Board::from_notation("7/7"), Err(ParseError::RowLength { offset: 14 }));
    assert_eq!(Board::from_notation("7/7/7/7/7/6"), Err(ParseError::RowLength { offset: 41 }));
    assert_eq!(Board::from_notation("7/7/7/7/7/"), Err(ParseError::RowLength { offset: 35 }));
}

#[test]
fn first_fault_is_reported() {
    assert_eq!(Board::from_notation("6/x"), Err(ParseError::Separator { offset: 6 }));
    assert_eq!(Board::from_notation("x/6/"), Err(ParseError::Character { found: 'x' }));
}

#[test]
fn classifies_characters() {
    assert_eq!(classify('1'), Token::Gap(1));
    assert_eq!(classify('4'), Token::Gap(4));
    assert_eq!(classify('7'), Token::Gap(7));
    assert_eq!(classify('r'), Token::Piece(Color::Red));
    assert_eq!(classify('y'), Token::Piece(Color::Yellow));
    assert_eq!(classify('/'), Token::Separator);
    assert_eq!(classify('0'), Token::Unknown);
    assert_eq!(classify('8'), Token::Unknown);
    assert_eq!(classify('Y'), Token::Unknown);
}
