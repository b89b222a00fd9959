use connect_4::board::{Board, Color};

#[test]
fn inserts_into_empty_board() {
    let mut board = Board::new();

    board.insert(2, Color::Yellow);
    assert_eq!(board.yellow(), 0x0001FC2000000000);

    board.insert(2, Color::Red);
    assert_eq!(board.red(), 0x0001FC0040000000);

    println!("{:?}", board);
}

#[test]
fn inserts_into_first_last_files() {
    let mut board = Board::new();

    board.insert(6, Color::Yellow);
    assert_eq!(board.yellow(), 0x0001FE0000000000);

    board.insert(0, Color::Red);
    assert_eq!(board.red(), 0x0001FC0800000000);

    println!("{:?}", board);
}

#[test]
fn cannot_insert_past_sixth_row() {
    let mut board = Board::from_notation("2r4/2y4/2r4/2y4/2r4/2y4").unwrap();

    board.insert(2, Color::Yellow);
    assert_eq!(board.yellow(), 0x0001FC2000800200);

    board.insert(2, Color::Red);
    assert_eq!(board.red(), 0x0001FC0040010004);

    println!("{:?}", board);
}

#[test]
fn finds_horizontal_connect_4() {
    let board = Board::from_notation("7/7/7/7/2yyy2/2rrrr1").unwrap();

    println!("{:?}", board);

    assert!(board.has_connect_4(Color::Red));
    assert!(!board.has_connect_4(Color::Yellow));
}

#[test]
fn finds_horizontal_connect_4_edge() {
    let board = Board::from_notation("7/7/7/7/yyy4/rrrr3").unwrap();

    println!("{:?}", board);

    assert!(board.has_connect_4(Color::Red));
    assert!(!board.has_connect_4(Color::Yellow));
}

#[test]
fn finds_vertical_connect_4() {
    let board = Board::from_notation("7/7/6y/r5y/r5y/r5y").unwrap();

    println!("{:?}", board);

    assert!(board.has_connect_4(Color::Yellow));
    assert!(!board.has_connect_4(Color::Red));
}

#[test]
fn finds_vertical_connect_4_edge() {
    let board = Board::from_notation("6y/6y/6y/6y/6r/4rrr").unwrap();

    println!("{:?}", board);

    assert!(board.has_connect_4(Color::Yellow));
    assert!(!board.has_connect_4(Color::Red));
}

#[test]
fn finds_diagonal_connect_4() {
    let board = Board::from_notation("7/7/3y3/2y3r/1y4r/y5r").unwrap();

    println!("{:?}", board);

    assert!(board.has_connect_4(Color::Yellow));
    assert!(!board.has_connect_4(Color::Red));
}

#[test]
fn finds_diagonal_connect_4_edge() {
    let board = Board::from_notation("6y/5yr/4yr1/3yr2/7/7").unwrap();

    println!("{:?}", board);

    assert!(board.has_connect_4(Color::Yellow));
    assert!(!board.has_connect_4(Color::Red));
}

#[test]
fn finds_antidiagonal_connect_4() {
    let board = Board::from_notation("r6/yr5/1yr4/2yr3/7/7").unwrap();

    println!("{:?}", board);

    assert!(board.has_connect_4(Color::Red));
    assert!(!board.has_connect_4(Color::Yellow));
}

#[test]
fn finds_antidiagonal_connect_4_edge() {
    let board = Board::from_notation("7/3yr2/4yr1/5yr/6y/7").unwrap();

    println!("{:?}", board);

    assert!(board.has_connect_4(Color::Yellow));
    assert!(!board.has_connect_4(Color::Red));
}

