//! Masks over the grid. Cell `(row, column)` is bit `row * 7 + column` of a
//! 64-bit word, with row 0 at the top and row 5 at the bottom. Bits 42 to 48
//! form a seventh, sentinel row below the grid; bits 49 and up are unused.

use vstd::prelude::*;
use crate::bits::bit;

verus! {

/// Number of columns.
pub const FILES: usize = 7;

/// Number of rows.
pub const ROWS: usize = 6;

/// Number of playable cells.
pub const CELLS: usize = 42;

/// The 42 playable cells.
pub const GAME_MASK: u64 = 0x0000_03FF_FFFF_FFFF;

/// The sentinel row, which is all that an empty board holds.
pub const EMPTY_BOARD: u64 = 0x0001_FC00_0000_0000;

/// One mask per column, each with its sentinel cell.
pub const FILE: [u64; 7] = [
    0x0000_0408_1020_4081,
    0x0000_0810_2040_8102,
    0x0000_1020_4081_0204,
    0x0000_2040_8102_0408,
    0x0000_4081_0204_0810,
    0x0000_8102_0408_1020,
    0x0001_0204_0810_2040,
];

/// One mask per playable row, top row first.
pub const ROW: [u64; 6] = [
    0x0000_0000_0000_007F,
    0x0000_0000_0000_3F80,
    0x0000_0000_001F_C000,
    0x0000_0000_0FE0_0000,
    0x0000_0007_F000_0000,
    0x0000_03F8_0000_0000,
];

proof fn bv_areas(i: u64)
    by (bit_vector)
    requires
        i < 64,
    ensures
        (0x0000_03FF_FFFF_FFFFu64 >> i) & 1 == 1 <==> i < 42,
        (0x0001_FC00_0000_0000u64 >> i) & 1 == 1 <==> 42 <= i < 49,
{
}

proof fn bv_column(f: u64, i: u64)
    by (bit_vector)
    requires
        i < 64,
        f < 7,
    ensures
        ((0x0000_0408_1020_4081u64 << f) >> i) & 1 == 1 <==> (i < 49 && i % 7 == f),
{
}

proof fn bv_row(r: u64, i: u64)
    by (bit_vector)
    requires
        i < 64,
        r < 6,
    ensures
        ((0x7Fu64 << (7 * r) as u64) >> i) & 1 == 1 <==> 7 * r <= i < 7 * r + 7,
{
}

/// `GAME_MASK` holds exactly the bits 0 to 41.
pub proof fn lemma_game_mask(i: int)
    ensures
        bit(GAME_MASK, i) <==> 0 <= i < 42,
{
    if 0 <= i < 64 {
        bv_areas(i as u64);
    }
}

/// `EMPTY_BOARD` holds exactly the bits 42 to 48.
pub proof fn lemma_empty_board(i: int)
    ensures
        bit(EMPTY_BOARD, i) <==> 42 <= i < 49,
{
    if 0 <= i < 64 {
        bv_areas(i as u64);
    }
}

/// `FILE[f]` holds the seven cells of column `f`, the sentinel cell included.
pub proof fn lemma_file(f: int, i: int)
    requires
        0 <= f < 7,
    ensures
        bit(FILE[f], i) <==> 0 <= i < 49 && i % 7 == f,
{
    assert(FILE[0] == 0x0000_0408_1020_4081u64 << 0u64 && FILE[1] == 0x0000_0408_1020_4081u64
        << 1u64 && FILE[2] == 0x0000_0408_1020_4081u64 << 2u64 && FILE[3]
        == 0x0000_0408_1020_4081u64 << 3u64 && FILE[4] == 0x0000_0408_1020_4081u64 << 4u64
        && FILE[5] == 0x0000_0408_1020_4081u64 << 5u64 && FILE[6] == 0x0000_0408_1020_4081u64
        << 6u64) by {
        assert(0x0000_0408_1020_4081u64 == 0x0000_0408_1020_4081u64 << 0u64
            && 0x0000_0810_2040_8102u64 == 0x0000_0408_1020_4081u64 << 1u64
            && 0x0000_1020_4081_0204u64 == 0x0000_0408_1020_4081u64 << 2u64
            && 0x0000_2040_8102_0408u64 == 0x0000_0408_1020_4081u64 << 3u64
            && 0x0000_4081_0204_0810u64 == 0x0000_0408_1020_4081u64 << 4u64
            && 0x0000_8102_0408_1020u64 == 0x0000_0408_1020_4081u64 << 5u64
            && 0x0001_0204_0810_2040u64 == 0x0000_0408_1020_4081u64 << 6u64) by (bit_vector);
    }
    if 0 <= i < 64 {
        bv_column(f as u64, i as u64);
    }
}

/// `ROW[r]` holds the seven cells of row `r`.
pub proof fn lemma_row(r: int, i: int)
    requires
        0 <= r < 6,
    ensures
        bit(ROW[r], i) <==> 7 * r <= i < 7 * r + 7,
{
    assert(ROW[0] == 0x7Fu64 << 0u64 && ROW[1] == 0x7Fu64 << 7u64 && ROW[2] == 0x7Fu64 << 14u64
        && ROW[3] == 0x7Fu64 << 21u64 && ROW[4] == 0x7Fu64 << 28u64 && ROW[5] == 0x7Fu64
        << 35u64) by {
        assert(0x0000_0000_0000_007Fu64 == 0x7Fu64 << 0u64 && 0x0000_0000_0000_3F80u64 == 0x7Fu64
            << 7u64 && 0x0000_0000_001F_C000u64 == 0x7Fu64 << 14u64 && 0x0000_0000_0FE0_0000u64
            == 0x7Fu64 << 21u64 && 0x0000_0007_F000_0000u64 == 0x7Fu64 << 28u64
            && 0x0000_03F8_0000_0000u64 == 0x7Fu64 << 35u64) by (bit_vector);
    }
    if 0 <= i < 64 {
        bv_row(r as u64, i as u64);
    }
}

} // verus!
