use connect_4::board::{Board, Color};
use connect_4::minimax::Minimax;

const COLORS: [Color; 2] = [Color::Red, Color::Yellow];

#[test]
fn other_twice_is_the_color() {
    assert_eq!(Color::Red.other(), Color::Yellow);
    assert_eq!(Color::Yellow.other(), Color::Red);
    for color in COLORS {
        assert_eq!(color.other().other(), color);
    }
}

#[test]
fn remove_undoes_insert_on_empty_board() {
    for file in 0..7 {
        for color in COLORS {
            let mut board = Board::new();
            board.insert(file, color);
            assert_ne!(board, Board::new());
            board.remove(file);
            assert_eq!(board, Board::new());
        }
    }
}

#[test]
fn remove_undoes_insert_in_play() {
    let before = Board::from_notation("7/7/3y3/2ry3/1ryr3/ryryr2").unwrap();
    for file in 0..7 {
        for color in COLORS {
            let mut board = before;
            board.insert(file, color);
            assert_ne!(board, before);
            board.remove(file);
            assert_eq!(board.red(), before.red());
            assert_eq!(board.yellow(), before.yellow());
        }
    }
}

#[test]
fn remove_undoes_insert_on_floating_pieces() {
    let before = Board::from_notation("7/7/3r3/7/7/7").unwrap();
    let mut board = before;
    board.insert(3, Color::Yellow);
    assert_eq!(board, Board::from_notation("7/3y3/3r3/7/7/7").unwrap());
    board.remove(3);
    assert_eq!(board, before);
}

#[test]
fn insert_into_full_column_changes_nothing() {
    let before = Board::from_notation("2r4/2y4/2r4/2y4/2r4/2y4").unwrap();
    let mut board = before;
    board.insert(2, Color::Red);
    assert_eq!(board, before);
    board.remove(2);
    assert_eq!(board, Board::from_notation("7/2y4/2r4/2y4/2r4/2y4").unwrap());
}

#[test]
fn remove_from_empty_column_changes_nothing() {
    let mut board = Board::new();
    board.remove(0);
    board.remove(6);
    assert_eq!(board, Board::new());
    let before = Board::from_notation("7/7/7/7/7/3r3").unwrap();
    let mut board = before;
    board.remove(2);
    assert_eq!(board, before);
}

#[test]
fn remove_takes_the_highest_piece() {
    let mut board = Board::from_notation("7/7/7/3y3/3r3/3y3").unwrap();
    board.remove(3);
    assert_eq!(board, Board::from_notation("7/7/7/7/3r3/3y3").unwrap());
    board.remove(3);
    assert_eq!(board, Board::from_notation("7/7/7/7/7/3y3").unwrap());
    board.remove(3);
    assert_eq!(board, Board::new());
}

#[test]
fn empty_board_has_no_connect_4() {
    let board = Board::new();
    assert!(!board.has_connect_4(Color::Red));
    assert!(!board.has_connect_4(Color::Yellow));
}

#[test]
fn connect_4_comes_with_the_fourth_piece() {
    for color in COLORS {
        let mut board = Board::new();
        for file in 0..4 {
            assert!(!board.has_connect_4(color));
            assert!(!board.has_connect_4(color.other()));
            board.insert(file, color);
            board.insert(file, color.other());
        }
        assert!(board.has_connect_4(color));
        assert!(board.has_connect_4(color.other()));
        board.remove(3);
        assert!(board.has_connect_4(color));
        assert!(!board.has_connect_4(color.other()));
        board.remove(3);
        assert!(!board.has_connect_4(color));
    }
}

#[test]
fn connect_4_in_a_column_comes_with_the_fourth_piece() {
    for color in COLORS {
        let mut board = Board::new();
        for _ in 0..3 {
            board.insert(5, color);
            assert!(!board.has_connect_4(color));
        }
        board.insert(4, color.other());
        assert!(!board.has_connect_4(color));
        board.insert(5, color);
        assert!(board.has_connect_4(color));
        assert!(!board.has_connect_4(color.other()));
    }
}

#[test]
fn three_in_a_line_is_no_connect_4() {
    let board = Board::from_notation("7/7/7/4y2/3yr2/rrryr2").unwrap();
    assert!(!board.has_connect_4(Color::Red));
    assert!(!board.has_connect_4(Color::Yellow));
}

#[test]
fn lines_do_not_wrap_around_the_edges() {
    let board = Board::from_notation("7/7/7/7/5rr/rr5").unwrap();
    assert!(!board.has_connect_4(Color::Red));
    let board = Board::from_notation("7/7/6y/y6/1y5/2y4").unwrap();
    assert!(!board.has_connect_4(Color::Yellow));
    let board = Board::from_notation("7/7/r6/6r/5r1/4r2").unwrap();
    assert!(!board.has_connect_4(Color::Red));
    let board = Board::from_notation("7/7/7/4yyy/y6/7").unwrap();
    assert!(!board.has_connect_4(Color::Yellow));
}

#[test]
fn legal_files_of_empty_board() {
    let board = Board::new();
    assert_eq!(board.legal_files().as_slice(), &[0, 1, 2, 3, 4, 5, 6]);
    assert_eq!(board.legal_files().len(), 7);
}

#[test]
fn legal_files_of_full_top_row() {
    let board = Board::from_notation("ryryryr/7/7/7/7/7").unwrap();
    assert!(board.legal_files().is_empty());
    assert_eq!(board.legal_files().len(), 0);
    let board =
        Board::from_notation("ryryryr/yryryry/ryryryr/ryryryr/yryryry/ryryryr").unwrap();
    assert!(board.legal_files().is_empty());
}

#[test]
fn legal_files_leave_out_full_columns() {
    let board = Board::from_notation("r1y2r1/7/7/7/7/7").unwrap();
    assert_eq!(board.legal_files().as_slice(), &[1, 3, 4, 6]);
    let mut board = Board::new();
    for _ in 0..6 {
        board.insert(0, Color::Red);
        board.insert(6, Color::Yellow);
    }
    assert_eq!(board.legal_files().as_slice(), &[1, 2, 3, 4, 5]);
    board.remove(6);
    assert_eq!(board.legal_files().as_slice(), &[1, 2, 3, 4, 5, 6]);
}

#[test]
fn all_and_empty_split_the_board() {
    let board = Board::from_notation("7/7/7/7/2yyy2/2rrrr1").unwrap();
    assert_eq!(board.all(), board.red() | board.yellow());
    assert_eq!(board.all() & board.empty(), 0);
    assert_eq!(board.all() | board.empty(), 0x0001FFFFFFFFFFFF);
    assert_eq!(board.red() & board.yellow(), 0x0001FC0000000000);
    assert_eq!(Board::new().all(), 0x0001FC0000000000);
    assert_eq!(Board::new().empty(), 0x000003FFFFFFFFFF);
    assert_eq!(board.empty().count_ones(), 35);
}

#[test]
fn best_move_is_a_legal_file() {
    let boards = [
        "7/7/7/7/7/7",
        "r1y2r1/7/7/7/7/7",
        "ryryry1/yryryr1/ryryry1/ryryry1/yryryr1/ryryry1",
        "1ryryry/1yryryr/1ryryry/1ryryry/1yryryr/1ryryry",
        "7/7/3y3/2ry3/1ryr3/ryryr2",
    ];
    for notation in boards {
        let board = Board::from_notation(notation).unwrap();
        for color in COLORS {
            for depth in 0..3 {
                let file = Minimax::new(&board, color, depth).best_move();
                assert!(board.legal_files().contains(&file));
            }
        }
    }
}

#[test]
fn evaluate_of_empty_board_is_zero() {
    assert_eq!(Board::new().evaluate(), 0);
}

#[test]
fn evaluate_is_negated_by_swapping_colors() {
    let pairs = [
        ("7/7/7/7/7/r6", "7/7/7/7/7/y6"),
        ("7/7/3y3/2ry3/1ryr3/ryryr2", "7/7/3r3/2yr3/1yry3/yryry2"),
        ("7/7/7/7/2yyy2/2rrrr1", "7/7/7/7/2rrr2/2yyyy1"),
        ("r6/yr5/1yr4/2yr3/7/7", "y6/ry5/1ry4/2ry3/7/7"),
    ];
    for (one, two) in pairs {
        let one = Board::from_notation(one).unwrap();
        let two = Board::from_notation(two).unwrap();
        assert_eq!(one.evaluate(), -two.evaluate());
    }
    let board = Board::from_notation("7/7/3y3/2ry3/1ryr3/ryryr2").unwrap();
    let swapped = Board::from_notation("7/7/3r3/2yr3/1yry3/yryry2").unwrap();
    assert_eq!(board.evaluate(), -swapped.evaluate());
    assert_ne!(board.evaluate(), 0);
}

#[test]
fn piece_at_reads_every_cell() {
    let board = Board::from_notation("r6/7/3y3/7/7/5ry").unwrap();
    for index in 0..42 {
        let expected = match index {
            0 | 40 => Some(Color::Red),
            17 | 41 => Some(Color::Yellow),
            _ => None,
        };
        assert_eq!(board.piece_at(index), expected);
    }
    let mut board = Board::new();
    board.insert(3, Color::Yellow);
    assert_eq!(board.piece_at(38), Some(Color::Yellow));
    assert_eq!(board.piece_at(31), None);
    board.insert(3, Color::Red);
    assert_eq!(board.piece_at(31), Some(Color::Red));
}
