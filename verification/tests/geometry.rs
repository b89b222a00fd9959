use connect_4::bits::{clear_lowest, lowest};
use connect_4::board::{Board, Color};
use connect_4::constants::{CELLS, EMPTY_BOARD, FILE, FILES, GAME_MASK, ROW, ROWS};
use connect_4::files::to_vec;
use connect_4::lines::{cells_on_lines, line_cells, line_starts, Direction};

#[test]
fn masks_cover_the_board() {
    assert_eq!(FILES * ROWS, CELLS);
    assert_eq!(GAME_MASK.count_ones() as usize, CELLS);
    assert_eq!(GAME_MASK & EMPTY_BOARD, 0);
    assert_eq!(EMPTY_BOARD, 0x7F << 42);
    let mut files = 0;
    for (column, mask) in FILE.iter().enumerate() {
        assert_eq!(mask.count_ones(), 7);
        assert_eq!(mask.trailing_zeros() as usize, column);
        assert_eq!(files & mask, 0);
        files |= mask;
    }
    assert_eq!(files, GAME_MASK | EMPTY_BOARD);
    let mut rows = 0;
    for (row, mask) in ROW.iter().enumerate() {
        assert_eq!(*mask, 0x7F << (7 * row));
        rows |= mask;
    }
    assert_eq!(rows, GAME_MASK);
}

#[test]
fn lowest_bit() {
    assert_eq!(lowest(1), 1);
    assert_eq!(lowest(0b1011000), 0b1000);
    assert_eq!(lowest(1 << 63), 1 << 63);
    assert_eq!(lowest(u64::MAX), 1);
    assert_eq!(clear_lowest(1), 0);
    assert_eq!(clear_lowest(0b1011000), 0b1010000);
    assert_eq!(clear_lowest(1 << 63), 0);
    assert_eq!(clear_lowest(u64::MAX), u64::MAX - 1);
}

#[test]
fn strides_and_edges() {
    assert_eq!(Direction::Horizontal.stride(), 1);
    assert_eq!(Direction::Vertical.stride(), 7);
    assert_eq!(Direction::Diagonal.stride(), 6);
    assert_eq!(Direction::Antidiagonal.stride(), 8);
    assert_eq!(Direction::Horizontal.edge(), FILE[0]);
    assert_eq!(Direction::Vertical.edge(), ROW[0]);
    assert_eq!(Direction::Diagonal.edge(), ROW[0] | FILE[6]);
    assert_eq!(Direction::Antidiagonal.edge(), ROW[0] | FILE[0]);
}

#[test]
fn line_starts_on_the_full_board() {
    assert_eq!(line_starts(GAME_MASK, Direction::Horizontal).count_ones(), 24);
    assert_eq!(line_starts(GAME_MASK, Direction::Vertical).count_ones(), 21);
    assert_eq!(line_starts(GAME_MASK, Direction::Diagonal).count_ones(), 12);
    assert_eq!(line_starts(GAME_MASK, Direction::Antidiagonal).count_ones(), 12);
    assert_eq!(line_starts(GAME_MASK, Direction::Horizontal), 0x0F | 0x0F << 7 | 0x0F << 14
        | 0x0F << 21 | 0x0F << 28 | 0x0F << 35);
    assert_eq!(line_starts(GAME_MASK, Direction::Vertical), 0x1F_FFFF);
    assert_eq!(line_starts(GAME_MASK, Direction::Diagonal), 0x78 | 0x78 << 7 | 0x78 << 14);
    assert_eq!(line_starts(GAME_MASK, Direction::Antidiagonal), 0x0F | 0x0F << 7 | 0x0F << 14);
}

#[test]
fn line_starts_of_single_lines() {
    let row = 0b0111_1000 << 35;
    assert_eq!(line_starts(row, Direction::Horizontal), 0b1000 << 35);
    assert_eq!(line_starts(row, Direction::Vertical), 0);
    let column = 1 << 5 | 1 << 12 | 1 << 19 | 1 << 26 | 1 << 33;
    assert_eq!(line_starts(column, Direction::Vertical), 1 << 5 | 1 << 12);
    let falling_left = 1 << 3 | 1 << 9 | 1 << 15 | 1 << 21;
    assert_eq!(line_starts(falling_left, Direction::Diagonal), 1 << 3);
    assert_eq!(line_starts(falling_left, Direction::Antidiagonal), 0);
    let falling_right = 1 << 3 | 1 << 11 | 1 << 19 | 1 << 27;
    assert_eq!(line_starts(falling_right, Direction::Antidiagonal), 1 << 3);
    assert_eq!(line_starts(falling_right, Direction::Diagonal), 0);
    assert_eq!(line_starts(0, Direction::Horizontal), 0);
}

#[test]
fn line_cells_of_starts() {
    assert_eq!(line_cells(0, Direction::Vertical), 0);
    assert_eq!(line_cells(1, Direction::Horizontal), 0b1111);
    assert_eq!(line_cells(1, Direction::Vertical), 1 | 1 << 7 | 1 << 14 | 1 << 21);
    assert_eq!(line_cells(1 << 3, Direction::Diagonal), 1 << 3 | 1 << 9 | 1 << 15 | 1 << 21);
    assert_eq!(line_cells(1, Direction::Antidiagonal), 1 | 1 << 8 | 1 << 16 | 1 << 24);
    assert_eq!(line_cells(0b11 << 35, Direction::Horizontal), 0b11111 << 35);
    assert_eq!(line_cells(1 << 20, Direction::Vertical), 1 << 20 | 1 << 27 | 1 << 34 | 1 << 41);
}

#[test]
fn cells_on_lines_of_masks() {
    assert_eq!(cells_on_lines(GAME_MASK, Direction::Horizontal), GAME_MASK);
    assert_eq!(cells_on_lines(GAME_MASK, Direction::Vertical), GAME_MASK);
    let corners = 0b111 | 0b11 << 7 | 1 << 14 | 1 << 27 | 0b11 << 33 | 0b111 << 39;
    assert_eq!(cells_on_lines(GAME_MASK, Direction::Diagonal), GAME_MASK & !corners);
    assert_eq!(cells_on_lines(0b0111, Direction::Horizontal), 0);
    assert_eq!(cells_on_lines(0b1101111, Direction::Horizontal), 0b1111);
}

#[test]
fn legal_files_as_a_vector() {
    assert_eq!(to_vec(&Board::new().legal_files()), vec![0, 1, 2, 3, 4, 5, 6]);
    let board = Board::from_notation("r1y2r1/7/7/7/7/7").unwrap();
    assert_eq!(to_vec(&board.legal_files()), vec![1, 3, 4, 6]);
    let mut board = Board::from_notation("7/1r5/1y5/1r5/1y5/1r5").unwrap();
    assert_eq!(to_vec(&board.legal_files()).len(), 7);
    board.insert(1, Color::Yellow);
    assert_eq!(to_vec(&board.legal_files()), vec![0, 2, 3, 4, 5, 6]);
}
