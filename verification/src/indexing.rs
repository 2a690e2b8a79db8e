//! Index arithmetic for the 9x9 board.
//!
//! A cell is addressed by a single row-major index in `0..81`. Each cell
//! belongs to one row, one column and one 3x3 block; within each such group
//! it occupies one of nine positions. The functions here map a cell index to
//! its group and position and back, and the lemmas show that each of the
//! three maps is a bijection between cells and (group, position) pairs.

use vstd::prelude::*;
use vstd::arithmetic::div_mod::lemma_div_denominator;
use vstd::arithmetic::div_mod::lemma_fundamental_div_mod;
use vstd::arithmetic::div_mod::lemma_fundamental_div_mod_converse;
use vstd::arithmetic::div_mod::lemma_mod_mod;

verus! {

/// Row of the cell at index `i`.
pub open spec fn row_of(i: int) -> int {
    i / 9
}

/// Position of the cell at index `i` within its row.
pub open spec fn pos_in_row(i: int) -> int {
    i % 9
}

/// Column of the cell at index `i`.
pub open spec fn col_of(i: int) -> int {
    i % 9
}

/// Position of the cell at index `i` within its column.
pub open spec fn pos_in_col(i: int) -> int {
    i / 9
}

/// 3x3 block of the cell at index `i`, numbered row-major over blocks.
pub open spec fn block_of(i: int) -> int {
    (i % 9) / 3 + (i / 27) * 3
}

/// Position of the cell at index `i` within its block, row-major.
pub open spec fn pos_in_block(i: int) -> int {
    (i % 3) + ((i / 9) % 3) * 3
}

/// Cell index of position `p` of row `r`.
pub open spec fn row_cell(r: int, p: int) -> int {
    r * 9 + p
}

/// Cell index of position `p` of column `c`.
pub open spec fn col_cell(c: int, p: int) -> int {
    p * 9 + c
}

/// Cell index of position `p` of block `b`.
pub open spec fn block_cell(b: int, p: int) -> int {
    (b / 3) * 27 + (b % 3) * 3 + (p / 3) * 9 + (p % 3)
}

/// Slot of cell `i` in the flattened row view (nine rows of nine cells).
pub open spec fn row_slot(i: int) -> int {
    row_of(i) * 9 + pos_in_row(i)
}

/// Slot of cell `i` in the flattened column view.
pub open spec fn col_slot(i: int) -> int {
    col_of(i) * 9 + pos_in_col(i)
}

/// Slot of cell `i` in the flattened block view.
pub open spec fn block_slot(i: int) -> int {
    block_of(i) * 9 + pos_in_block(i)
}

/// Cells `i` and `j` share a row, a column or a block. Every cell shares
/// all three groups with itself.
pub open spec fn same_group(i: int, j: int) -> bool {
    row_of(i) == row_of(j) || col_of(i) == col_of(j) || block_of(i) == block_of(j)
}

/// Every cell index decomposes into an in-range (group, position) pair for
/// each of the three directions, and mapping the pair back yields the cell.
pub proof fn lemma_cell_decompose(i: int)
    requires
        0 <= i < 81,
    ensures
        0 <= row_of(i) < 9,
        0 <= pos_in_row(i) < 9,
        0 <= col_of(i) < 9,
        0 <= pos_in_col(i) < 9,
        0 <= block_of(i) < 9,
        0 <= pos_in_block(i) < 9,
        row_cell(row_of(i), pos_in_row(i)) == i,
        col_cell(col_of(i), pos_in_col(i)) == i,
        block_cell(block_of(i), pos_in_block(i)) == i,
{
    lemma_fundamental_div_mod(i, 9);
    lemma_fundamental_div_mod(i / 9, 3);
    lemma_div_denominator(i, 9, 3);
    lemma_fundamental_div_mod(i % 9, 3);
    lemma_mod_mod(i, 3, 3);
    let q = i / 27;
    let s = (i / 9) % 3;
    let u = (i % 9) / 3;
    let v = i % 3;
    assert(i == 27 * q + 9 * s + 3 * u + v);
    let b = block_of(i);
    let p = pos_in_block(i);
    assert(b == u + q * 3);
    assert(p == v + s * 3);
    lemma_fundamental_div_mod_converse(b, 3, q, u);
    lemma_fundamental_div_mod_converse(p, 3, s, v);
    assert(block_cell(b, p) == q * 27 + u * 3 + s * 9 + v);
}

/// An in-range (row, position) pair names a cell of that row.
pub proof fn lemma_row_cell(r: int, p: int)
    requires
        0 <= r < 9,
        0 <= p < 9,
    ensures
        0 <= row_cell(r, p) < 81,
        row_of(row_cell(r, p)) == r,
        pos_in_row(row_cell(r, p)) == p,
{
    lemma_fundamental_div_mod_converse(r * 9 + p, 9, r, p);
}

/// An in-range (column, position) pair names a cell of that column.
pub proof fn lemma_col_cell(c: int, p: int)
    requires
        0 <= c < 9,
        0 <= p < 9,
    ensures
        0 <= col_cell(c, p) < 81,
        col_of(col_cell(c, p)) == c,
        pos_in_col(col_cell(c, p)) == p,
{
    lemma_fundamental_div_mod_converse(p * 9 + c, 9, p, c);
}

/// An in-range (block, position) pair names a cell of that block.
pub proof fn lemma_block_cell(b: int, p: int)
    requires
        0 <= b < 9,
        0 <= p < 9,
    ensures
        0 <= block_cell(b, p) < 81,
        block_of(block_cell(b, p)) == b,
        pos_in_block(block_cell(b, p)) == p,
{
    let i = block_cell(b, p);
    lemma_fundamental_div_mod(b, 3);
    lemma_fundamental_div_mod(p, 3);
    let r1 = 3 * (b % 3) + p % 3;
    assert(i == 9 * (3 * (b / 3) + p / 3) + r1);
    lemma_fundamental_div_mod_converse(i, 9, 3 * (b / 3) + p / 3, r1);
    lemma_fundamental_div_mod_converse(i % 9, 3, b % 3, p % 3);
    lemma_fundamental_div_mod_converse(i / 9, 3, b / 3, p / 3);
    lemma_div_denominator(i, 9, 3);
    lemma_mod_mod(i, 3, 3);
}

/// Distinct cells occupy distinct slots in each of the three views.
pub proof fn lemma_slots_injective(i: int, j: int)
    requires
        0 <= i < 81,
        0 <= j < 81,
        i != j,
    ensures
        row_slot(i) != row_slot(j),
        col_slot(i) != col_slot(j),
        block_slot(i) != block_slot(j),
{
    lemma_cell_decompose(i);
    lemma_cell_decompose(j);
    if row_slot(i) == row_slot(j) {
        lemma_fundamental_div_mod_converse(row_slot(i), 9, row_of(i), pos_in_row(i));
        lemma_fundamental_div_mod_converse(row_slot(j), 9, row_of(j), pos_in_row(j));
    }
    if col_slot(i) == col_slot(j) {
        lemma_fundamental_div_mod_converse(col_slot(i), 9, col_of(i), pos_in_col(i));
        lemma_fundamental_div_mod_converse(col_slot(j), 9, col_of(j), pos_in_col(j));
    }
    if block_slot(i) == block_slot(j) {
        lemma_fundamental_div_mod_converse(block_slot(i), 9, block_of(i), pos_in_block(i));
        lemma_fundamental_div_mod_converse(block_slot(j), 9, block_of(j), pos_in_block(j));
    }
}

/// Every slot of each view is occupied by some cell: the cell whose
/// (group, position) pair is `(s / 9, s % 9)`.
pub proof fn lemma_slots_surjective(s: int)
    requires
        0 <= s < 81,
    ensures
        0 <= row_cell(s / 9, s % 9) < 81,
        row_slot(row_cell(s / 9, s % 9)) == s,
        0 <= col_cell(s / 9, s % 9) < 81,
        col_slot(col_cell(s / 9, s % 9)) == s,
        0 <= block_cell(s / 9, s % 9) < 81,
        block_slot(block_cell(s / 9, s % 9)) == s,
{
    lemma_fundamental_div_mod(s, 9);
    lemma_row_cell(s / 9, s % 9);
    lemma_col_cell(s / 9, s % 9);
    lemma_block_cell(s / 9, s % 9);
}

} // verus!
