use connect_4::board::Board;

fn score(notation: &str) -> i32 {
    Board::from_notation(notation).unwrap().evaluate()
}

#[test]
fn corner_piece_lies_on_three_open_lines() {
    assert_eq!(score("7/7/7/7/7/r6"), 3);
    assert_eq!(score("7/7/7/7/7/y6"), -3);
    assert_eq!(score("7/7/7/7/7/6r"), 3);
    assert_eq!(score("r6/7/7/7/7/7"), 3);
}

#[test]
fn centre_piece_lies_on_four_open_lines() {
    assert_eq!(score("7/7/7/7/7/3r3"), 4);
    assert_eq!(score("7/7/7/7/7/3y3"), -4);
    assert_eq!(score("7/7/3r3/7/7/7"), 4);
}

#[test]
fn piece_without_room_for_a_diagonal() {
    assert_eq!(score("7/7/7/7/7/1r5"), 3);
    assert_eq!(score("7/7/r6/7/7/7"), 3);
    assert_eq!(score("7/7/7/r6/7/7"), 3);
    assert_eq!(score("7/7/1r5/7/7/7"), 4);
}

#[test]
fn neighbour_of_the_other_color_closes_lines() {
    assert_eq!(score("7/7/7/7/7/ry5"), -1);
    assert_eq!(score("7/7/7/7/7/yr5"), 1);
}

#[test]
fn piece_shut_in_on_its_row() {
    // No piece has an open line along the row. The red piece has its column
    // and both diagonals; each yellow piece has its column and one diagonal.
    assert_eq!(score("7/7/7/7/7/2yry2"), 3 - (2 + 2));
}

#[test]
fn completed_line_counts_forty_two_for_each_piece() {
    // Along the row: four pieces on an open line and on a completed one.
    // Down the columns: four pieces on open lines. On the diagonals: four
    // pieces one way and one the other.
    assert_eq!(score("7/7/7/7/7/rrrr3"), 4 + 4 * 42 + 4 + 4 + 1);
    assert_eq!(score("7/7/7/7/7/yyyy3"), -(4 + 4 * 42 + 4 + 4 + 1));
}

#[test]
fn five_in_a_row_counts_every_piece_once() {
    // Row: five pieces, each on an open and on a completed line. Columns:
    // five. Diagonals: four pieces each way.
    assert_eq!(score("7/7/7/7/7/rrrrr2"), 5 + 5 * 42 + 5 + 4 + 2);
}

#[test]
fn completed_column() {
    // Column 0, rows 2 to 5. Down the column: four pieces, open and
    // completed. Along the rows: four. Diagonals: the pieces in rows 3 to 5
    // lie on a line that rises to the right, those in rows 2 and below on
    // none that falls to the right but the one in row 2.
    assert_eq!(score("7/7/r6/r6/r6/r6"), (4 + 4 * 42) + 4 + 3 + 1);
}

#[test]
fn both_colors_are_counted() {
    assert_eq!(score("7/7/7/7/7/r5y"), 0);
    assert_eq!(score("7/7/7/7/7/r2y3"), 2 - 4);
}

#[test]
fn a_win_outweighs_open_lines() {
    // Yellow has fifteen pieces, many of them on open lines, and no four in
    // a line; red has its four and little else.
    let board = Board::from_notation("7/7/yyy1yyy/yyy1yyy/yyy1yyy/rrrr3").unwrap();
    assert!(board.has_connect_4(connect_4::board::Color::Red));
    assert!(!board.has_connect_4(connect_4::board::Color::Yellow));
    assert!(board.evaluate() >= 16);
    let board = Board::from_notation("7/7/rrr1rrr/rrr1rrr/rrr1rrr/yyyy3").unwrap();
    assert!(board.evaluate() <= -16);
}

#[test]
fn mirror_image_scores_the_same() {
    assert_eq!(score("7/7/3y3/2ry3/1ryr3/ryryr2"), score("7/7/3y3/3yr2/3ryr1/2ryryr"));
    assert_eq!(score("7/7/7/7/7/rrrr3"), score("7/7/7/7/7/3rrrr"));
    assert_eq!(score("r6/yr5/1yr4/2yr3/7/7"), score("6r/5ry/4ry1/3ry2/7/7"));
}

#[test]
fn default_board_is_empty() {
    assert_eq!(Board::default(), Board::new());
    assert_eq!(Board::default().evaluate(), 0);
}
