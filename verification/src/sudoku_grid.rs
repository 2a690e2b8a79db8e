//! The Sudoku board: 81 cells plus three redundant views kept in sync.
//!
//! A `SudokuPuzzle` owns the row-major cell array and three derived views
//! (rows, columns, 3x3 blocks) that give O(1) access to the nine numbers of
//! any group. All mutation goes through `set_square` and `undo_move`, which
//! update the cells and all three views together and maintain a move stack
//! for rollback. Well-formedness (`wf`) states that every view slot agrees
//! with the cell it mirrors.

use vstd::prelude::*;
use vstd::pervasive::VecAdditionalExecFns;
use vstd::string::StrSliceExecFns;
use crate::indexing::block_cell;
use crate::indexing::block_of;
use crate::indexing::block_slot;
use crate::indexing::col_cell;
use crate::indexing::col_of;
use crate::indexing::col_slot;
use crate::indexing::lemma_block_cell;
use crate::indexing::lemma_cell_decompose;
use crate::indexing::lemma_col_cell;
use crate::indexing::lemma_row_cell;
use crate::indexing::lemma_slots_injective;
use crate::indexing::lemma_slots_surjective;
use crate::indexing::pos_in_block;
use crate::indexing::pos_in_col;
use crate::indexing::pos_in_row;
use crate::indexing::row_cell;
use crate::indexing::row_of;
use crate::indexing::row_slot;
use crate::indexing::same_group;

verus! {

/// The largest number that may appear in a cell; `0` marks a blank.
pub const HIGHEST_SUDOKU_NUMBER: u8 = 9;

/// A grid with no blank cell left.
pub open spec fn full(g: Seq<u8>) -> bool {
    forall|i: int| 0 <= i < 81 ==> g[i] != 0
}

/// Some cell in the row, column or block of cell `i` holds the value `v`.
/// The cell `i` itself counts as part of its own groups.
pub open spec fn sees(g: Seq<u8>, i: int, v: u8) -> bool {
    exists|j: int| 0 <= j < 81 && #[trigger] same_group(i, j) && g[j] == v
}

/// `v` is a legal value for cell `i`: one of 1..=9 that appears nowhere in
/// the cell's row, column or block.
pub open spec fn candidate_ok(g: Seq<u8>, i: int, v: u8) -> bool {
    1 <= v <= 9 && !sees(g, i, v)
}

/// A 9x9 Sudoku board. `grid` is the authoritative cell array; `rows`,
/// `blocks` and `cols` are flattened caches (nine groups of nine values
/// each) and `move_stack` records the indices filled by `set_square`.
#[derive(Clone, Debug)]
pub struct SudokuPuzzle {
    pub grid: Vec<u8>,
    pub rows: Vec<u8>,
    pub blocks: Vec<u8>,
    pub cols: Vec<u8>,
    pub move_stack: Vec<usize>,
}

impl SudokuPuzzle {
    /// Well-formedness: all arrays have their fixed lengths, every recorded
    /// move is a cell index, and each view slot mirrors its cell.
    pub open spec fn wf(&self) -> bool {
        &&& self.grid@.len() == 81
        &&& self.rows@.len() == 81
        &&& self.blocks@.len() == 81
        &&& self.cols@.len() == 81
        &&& forall|k: int|
            0 <= k < self.move_stack@.len() ==> (#[trigger] self.move_stack@[k]) < 81
        &&& forall|i: int| 0 <= i < 81 ==> self.rows@[#[trigger] row_slot(i)] == self.grid@[i]
        &&& forall|i: int| 0 <= i < 81 ==> self.cols@[#[trigger] col_slot(i)] == self.grid@[i]
        &&& forall|i: int| 0 <= i < 81 ==> self.blocks@[#[trigger] block_slot(i)] == self.grid@[i]
    }

    /// The recorded moves, oldest first.
    pub open spec fn moves(&self) -> Seq<usize> {
        self.move_stack@
    }

    pub fn from_array(grid: [u8; 81]) -> (r: SudokuPuzzle)
        ensures
            r.wf(),
            r.grid@ == grid@,
            r.moves().len() == 0,
    {
        let mut g: Vec<u8> = Vec::new();
        let mut k: usize = 0;
        while k < 81
            invariant
                k <= 81,
                g@.len() == k,
                forall|j: int| 0 <= j < k ==> g@[j] == grid@[j],
            decreases 81 - k,
        {
            g.push(grid[k]);
            k = k + 1;
        }
        proof {
            assert(g@ =~= grid@);
        }
        SudokuPuzzle::from_vec(g)
    }

    pub fn from_vec(grid: Vec<u8>) -> (r: SudokuPuzzle)
        requires
            grid@.len() == 81,
        ensures
            r.wf(),
            r.grid@ == grid@,
            r.moves().len() == 0,
    {
        let rows = get_rows_from_grid(&grid);
        let blocks = get_blocks_from_grid(&grid);
        let cols = get_cols_from_grid(&grid);
        SudokuPuzzle { grid, rows, blocks, cols, move_stack: Vec::new() }
    }

    pub fn from_str(s: &str) -> (r: SudokuPuzzle)
        requires
            s@.len() == 81,
            forall|k: int| 0 <= k < 81 ==> 48 <= #[trigger] (s@[k] as u32) <= 57,
        ensures
            r.wf(),
            r.moves().len() == 0,
            forall|k: int| 0 <= k < 81 ==> #[trigger] (r.grid@[k] as u32) == s@[k] as u32 - 48,
    {
        let mut g: Vec<u8> = Vec::new();
        let mut k: usize = 0;
        while k < 81
            invariant
                k <= 81,
                g@.len() == k,
                s@.len() == 81,
                forall|j: int| 0 <= j < 81 ==> 48 <= #[trigger] (s@[j] as u32) <= 57,
                forall|j: int| 0 <= j < k ==> #[trigger] (g@[j] as u32) == s@[j] as u32 - 48,
            decreases 81 - k,
        {
            let c = s.get_char(k);
            g.push(((c as u32) - 48) as u8);
            k = k + 1;
        }
        SudokuPuzzle::from_vec(g)
    }

    /// Writes `value` into the cell at `index`, updates all three views and
    /// records the move. No Sudoku legality check is made here: callers are
    /// responsible for only writing values they consider legal.
    pub fn set_square(&mut self, index: usize, value: u8)
        requires
            old(self).wf(),
            index < 81,
        ensures
            final(self).wf(),
            final(self).grid@ == old(self).grid@.update(index as int, value),
            final(self).moves() == old(self).moves().push(index),
            final(self).rows@ == old(self).rows@.update(row_slot(index as int), value),
            final(self).cols@ == old(self).cols@.update(col_slot(index as int), value),
            final(self).blocks@ == old(self).blocks@.update(block_slot(index as int), value),
    {
        proof {
            lemma_cell_decompose(index as int);
        }
        self.grid.set(index, value);
        self.set_square_in_row(index, value);
        self.set_square_in_block(index, value);
        self.set_square_in_col(index, value);
        self.move_stack.push(index);
        proof {
            lemma_update_keeps_wf(*old(self), *self, index as int, value);
        }
    }

    /// Pops the most recent move and resets that cell (and its three view
    /// slots) to blank. Calling this with an empty move stack is a
    /// programming error, ruled out by the precondition.
    pub fn undo_move(&mut self)
        requires
            old(self).wf(),
            old(self).moves().len() > 0,
        ensures
            final(self).wf(),
            final(self).grid@ == old(self).grid@.update(old(self).moves().last() as int, 0),
            final(self).moves() == old(self).moves().drop_last(),
            final(self).rows@ == old(self).rows@.update(
                row_slot(old(self).moves().last() as int),
                0,
            ),
            final(self).cols@ == old(self).cols@.update(
                col_slot(old(self).moves().last() as int),
                0,
            ),
            final(self).blocks@ == old(self).blocks@.update(
                block_slot(old(self).moves().last() as int),
                0,
            ),
    {
        proof {
            assert(old(self).move_stack@[old(self).move_stack@.len() - 1] < 81);
        }
        let index = self.move_stack.pop().unwrap();
        proof {
            lemma_cell_decompose(index as int);
        }
        self.grid.set(index, 0);
        self.set_square_in_row(index, 0);
        self.set_square_in_block(index, 0);
        self.set_square_in_col(index, 0);
        proof {
            lemma_update_keeps_wf(*old(self), *self, index as int, 0);
        }
    }

    /// Undoes exactly `moves_to_undo` moves, most recent first. Every popped
    /// cell ends up blank; every other cell keeps its value.
    pub fn undo_moves(&mut self, moves_to_undo: usize)
        requires
            old(self).wf(),
            moves_to_undo <= old(self).moves().len(),
        ensures
            final(self).wf(),
            final(self).moves() == old(self).moves().take(
                old(self).moves().len() - moves_to_undo,
            ),
            forall|i: int|
                0 <= i < 81 && !stack_tail_hits(
                    old(self).moves(),
                    old(self).moves().len() - moves_to_undo,
                    i,
                ) ==> final(self).grid@[i] == old(self).grid@[i],
            forall|k: int|
                old(self).moves().len() - moves_to_undo <= k < old(self).moves().len()
                    ==> final(self).grid@[#[trigger] old(self).moves()[k] as int] == 0,
    {
        let ghost n0 = old(self).moves().len() as int;
        let mut done: usize = 0;
        while done < moves_to_undo
            invariant
                self.wf(),
                done <= moves_to_undo,
                moves_to_undo <= n0,
                n0 == old(self).moves().len(),
                old(self).wf(),
                self.moves() == old(self).moves().take(n0 - done),
                forall|i: int|
                    0 <= i < 81 && !stack_tail_hits(old(self).moves(), n0 - done, i)
                        ==> self.grid@[i] == old(self).grid@[i],
                forall|k: int|
                    n0 - done <= k < n0
                        ==> self.grid@[#[trigger] old(self).moves()[k] as int] == 0,
            decreases moves_to_undo - done,
        {
            let ghost pre = *self;
            proof {
                assert(pre.moves().len() == n0 - done);
                assert(pre.moves().last() == old(self).moves()[n0 - done - 1]);
            }
            self.undo_move();
            proof {
                assert(self.moves() =~= old(self).moves().take(n0 - done - 1));
                let idx = old(self).moves()[n0 - done - 1] as int;
                assert forall|i: int|
                    0 <= i < 81 && !stack_tail_hits(old(self).moves(), n0 - done - 1, i)
                        implies self.grid@[i] == old(self).grid@[i] by {
                    assert(!stack_tail_hits(old(self).moves(), n0 - done, i));
                    assert(i != idx);
                }
                assert forall|k: int| n0 - done - 1 <= k < n0
                    implies self.grid@[#[trigger] old(self).moves()[k] as int] == 0 by {
                    if old(self).moves()[k] as int != idx {
                        assert(k != n0 - done - 1);
                        assert(pre.grid@[old(self).moves()[k] as int] == 0);
                    }
                }
            }
            done = done + 1;
        }
    }

    /// True iff no cell is blank. This checks completeness only, not the
    /// Sudoku rules.
    pub fn is_solved(&self) -> (r: bool)
        requires
            self.wf(),
        ensures
            r == full(self.grid@),
    {
        let mut k: usize = 0;
        while k < 81
            invariant
                self.wf(),
                k <= 81,
                forall|j: int| 0 <= j < k ==> self.grid@[j] != 0,
            decreases 81 - k,
        {
            if self.grid[k] == 0 {
                return false;
            }
            k = k + 1;
        }
        true
    }

    /// The legal values for cell `index` given the current board, in
    /// ascending order: every number 1..=9 that appears in none of the
    /// cell's row, column or block.
    pub fn get_possible_clues(&self, index: usize) -> (r: Vec<u8>)
        requires
            self.wf(),
            index < 81,
        ensures
            forall|k: int|
                0 <= k < r@.len() ==> candidate_ok(self.grid@, index as int, #[trigger] r@[k]),
            forall|v: u8| #[trigger] candidate_ok(self.grid@, index as int, v) ==> r@.contains(v),
            forall|k1: int, k2: int| 0 <= k1 < k2 < r@.len() ==> r@[k1] < r@[k2],
    {
        let row_numbers = self.get_row(index);
        let col_numbers = self.get_col(index);
        let block_numbers = self.get_block(index);
        let mut seen: Vec<bool> = Vec::new();
        let mut t: usize = 0;
        while t < 10
            invariant
                t <= 10,
                seen@.len() == t,
                forall|w: int| 0 <= w < t ==> !(#[trigger] seen@[w]),
            decreases 10 - t,
        {
            seen.push(false);
            t = t + 1;
        }
        let mut p: usize = 0;
        while p < 9
            invariant
                self.wf(),
                index < 81,
                p <= 9,
                seen@.len() == 10,
                row_numbers@.len() == 9,
                col_numbers@.len() == 9,
                block_numbers@.len() == 9,
                forall|q: int|
                    0 <= q < 9 ==> #[trigger] row_numbers@[q] == self.grid@[row_cell(
                        row_of(index as int),
                        q,
                    )],
                forall|q: int|
                    0 <= q < 9 ==> #[trigger] col_numbers@[q] == self.grid@[col_cell(
                        col_of(index as int),
                        q,
                    )],
                forall|q: int|
                    0 <= q < 9 ==> #[trigger] block_numbers@[q] == self.grid@[block_cell(
                        block_of(index as int),
                        q,
                    )],
                forall|v: u8|
                    1 <= v <= 9 ==> ((#[trigger] seen@[v as int]) <==> seen_prefix(
                        row_numbers@,
                        col_numbers@,
                        block_numbers@,
                        p as int,
                        v,
                    )),
            decreases 9 - p,
        {
            let ghost seen_before = seen@;
            let rv = row_numbers[p];
            if 1 <= rv && rv <= 9 {
                seen.set(rv as usize, true);
            }
            let cv = col_numbers[p];
            if 1 <= cv && cv <= 9 {
                seen.set(cv as usize, true);
            }
            let bv = block_numbers[p];
            if 1 <= bv && bv <= 9 {
                seen.set(bv as usize, true);
            }
            proof {
                assert forall|v: u8| 1 <= v <= 9 implies ((#[trigger] seen@[v as int])
                    <==> seen_prefix(
                    row_numbers@,
                    col_numbers@,
                    block_numbers@,
                    p + 1,
                    v,
                )) by {
                    if seen@[v as int] {
                        if !seen_before[v as int] {
                            assert(v == rv || v == cv || v == bv);
                            assert(seen_prefix(
                                row_numbers@,
                                col_numbers@,
                                block_numbers@,
                                p + 1,
                                v,
                            ));
                        } else {
                            assert(seen_prefix(
                                row_numbers@,
                                col_numbers@,
                                block_numbers@,
                                p as int,
                                v,
                            ));
                        }
                    } else {
                        assert(!seen_before[v as int]);
                        assert(!seen_prefix(
                            row_numbers@,
                            col_numbers@,
                            block_numbers@,
                            p as int,
                            v,
                        ));
                        assert(v != rv && v != cv && v != bv);
                    }
                }
            }
            p = p + 1;
        }
        let ghost g = self.grid@;
        let ghost i0 = index as int;
        proof {
            assert forall|v: u8| 1 <= v <= 9 implies ((#[trigger] seen@[v as int]) <==> sees(
                g,
                i0,
                v,
            )) by {
                lemma_seen_characterizes_sees(
                    g,
                    i0,
                    row_numbers@,
                    col_numbers@,
                    block_numbers@,
                    v,
                );
            }
        }
        let mut result: Vec<u8> = Vec::new();
        let mut v: u8 = 1;
        while v <= 9
            invariant
                1 <= v <= 10,
                seen@.len() == 10,
                g == self.grid@,
                i0 == index as int,
                forall|w: u8| 1 <= w <= 9 ==> ((#[trigger] seen@[w as int]) <==> sees(g, i0, w)),
                forall|k: int|
                    0 <= k < result@.len() ==> 1 <= (#[trigger] result@[k]) < v
                        && candidate_ok(g, i0, result@[k]),
                forall|w: u8| 1 <= w < v && candidate_ok(g, i0, w) ==> result@.contains(w),
                forall|k1: int, k2: int| 0 <= k1 < k2 < result@.len() ==> result@[k1] < result@[k2],
            decreases 10 - v,
        {
            let ghost result_before = result@;
            if !seen[v as usize] {
                result.push(v);
            }
            proof {
                assert forall|w: u8| 1 <= w < v + 1 && candidate_ok(g, i0, w)
                    implies result@.contains(w) by {
                    if w < v {
                        let k = choose|k: int| 0 <= k < result_before.len() && result_before[k] == w;
                        assert(result@[k] == w);
                    } else {
                        assert(!seen@[v as int]);
                        assert(result@.last() == v);
                    }
                }
            }
            v = v + 1;
        }
        result
    }

    /// The indices of all blank cells, in ascending order, as a fresh
    /// snapshot of the current board.
    pub fn get_clueless_squares_enumerated(&self) -> (r: Vec<usize>)
        requires
            self.wf(),
        ensures
            forall|k: int|
                0 <= k < r@.len() ==> (#[trigger] r@[k]) < 81 && self.grid@[r@[k] as int] == 0,
            forall|i: int| 0 <= i < 81 && self.grid@[i] == 0 ==> r@.contains(i as usize),
            forall|k1: int, k2: int| 0 <= k1 < k2 < r@.len() ==> r@[k1] < r@[k2],
    {
        let mut r: Vec<usize> = Vec::new();
        let mut i: usize = 0;
        while i < 81
            invariant
                self.wf(),
                i <= 81,
                forall|k: int|
                    0 <= k < r@.len() ==> (#[trigger] r@[k]) < i && self.grid@[r@[k] as int] == 0,
                forall|j: int| 0 <= j < i && self.grid@[j] == 0 ==> r@.contains(j as usize),
                forall|k1: int, k2: int| 0 <= k1 < k2 < r@.len() ==> r@[k1] < r@[k2],
            decreases 81 - i,
        {
            let ghost r_before = r@;
            if self.grid[i] == 0 {
                r.push(i);
            }
            proof {
                assert forall|j: int| 0 <= j < i + 1 && self.grid@[j] == 0
                    implies r@.contains(j as usize) by {
                    if j < i {
                        let k = choose|k: int| 0 <= k < r_before.len() && r_before[k] == j as usize;
                        assert(r@[k] == j as usize);
                    } else {
                        assert(r@.last() == i);
                    }
                }
            }
            i = i + 1;
        }
        r
    }

    /// The smallest blank index, or `None` on a full board.
    pub fn get_next_clueless_index(&self) -> (r: Option<usize>)
        requires
            self.wf(),
        ensures
            match r {
                Some(i) => i < 81 && self.grid@[i as int] == 0 && (forall|j: int|
                    0 <= j < i ==> self.grid@[j] != 0),
                None => full(self.grid@),
            },
    {
        let mut i: usize = 0;
        while i < 81
            invariant
                self.wf(),
                i <= 81,
                forall|j: int| 0 <= j < i ==> self.grid@[j] != 0,
            decreases 81 - i,
        {
            if self.grid[i] == 0 {
                return Some(i);
            }
            i = i + 1;
        }
        None
    }

    /// The nine numbers of the row containing cell `index`, by position.
    pub fn get_row(&self, index: usize) -> (r: Vec<u8>)
        requires
            self.wf(),
            index < 81,
        ensures
            r@.len() == 9,
            forall|p: int|
                0 <= p < 9 ==> #[trigger] r@[p] == self.grid@[row_cell(row_of(index as int), p)],
    {
        let row_index = get_row_index(index);
        let mut r: Vec<u8> = Vec::new();
        let mut p: usize = 0;
        while p < 9
            invariant
                self.wf(),
                index < 81,
                row_index == row_of(index as int),
                row_index < 9,
                p <= 9,
                r@.len() == p,
                forall|q: int|
                    0 <= q < p ==> #[trigger] r@[q] == self.grid@[row_cell(
                        row_of(index as int),
                        q,
                    )],
            decreases 9 - p,
        {
            proof {
                lemma_row_cell(row_index as int, p as int);
                let c = row_cell(row_index as int, p as int);
                assert(row_slot(c) == row_index * 9 + p);
                assert(self.rows@[row_slot(c)] == self.grid@[c]);
            }
            r.push(self.rows[row_index * 9 + p]);
            p = p + 1;
        }
        r
    }

    /// The nine numbers of the block containing cell `index`, by position.
    pub fn get_block(&self, index: usize) -> (r: Vec<u8>)
        requires
            self.wf(),
            index < 81,
        ensures
            r@.len() == 9,
            forall|p: int|
                0 <= p < 9 ==> #[trigger] r@[p] == self.grid@[block_cell(
                    block_of(index as int),
                    p,
                )],
    {
        let block_index = get_block_index(index);
        let mut r: Vec<u8> = Vec::new();
        let mut p: usize = 0;
        while p < 9
            invariant
                self.wf(),
                index < 81,
                block_index == block_of(index as int),
                block_index < 9,
                p <= 9,
                r@.len() == p,
                forall|q: int|
                    0 <= q < p ==> #[trigger] r@[q] == self.grid@[block_cell(
                        block_of(index as int),
                        q,
                    )],
            decreases 9 - p,
        {
            proof {
                lemma_block_cell(block_index as int, p as int);
                let c = block_cell(block_index as int, p as int);
                assert(block_slot(c) == block_index * 9 + p);
                assert(self.blocks@[block_slot(c)] == self.grid@[c]);
            }
            r.push(self.blocks[block_index * 9 + p]);
            p = p + 1;
        }
        r
    }

    /// The nine numbers of the column containing cell `index`, by position.
    pub fn get_col(&self, index: usize) -> (r: Vec<u8>)
        requires
            self.wf(),
            index < 81,
        ensures
            r@.len() == 9,
            forall|p: int|
                0 <= p < 9 ==> #[trigger] r@[p] == self.grid@[col_cell(col_of(index as int), p)],
    {
        let column_index = get_column_index(index);
        let mut r: Vec<u8> = Vec::new();
        let mut p: usize = 0;
        while p < 9
            invariant
                self.wf(),
                index < 81,
                column_index == col_of(index as int),
                column_index < 9,
                p <= 9,
                r@.len() == p,
                forall|q: int|
                    0 <= q < p ==> #[trigger] r@[q] == self.grid@[col_cell(
                        col_of(index as int),
                        q,
                    )],
            decreases 9 - p,
        {
            proof {
                lemma_col_cell(column_index as int, p as int);
                let c = col_cell(column_index as int, p as int);
                assert(col_slot(c) == column_index * 9 + p);
                assert(self.cols@[col_slot(c)] == self.grid@[c]);
            }
            r.push(self.cols[column_index * 9 + p]);
            p = p + 1;
        }
        r
    }

    fn set_square_in_row(&mut self, index: usize, value: u8)
        requires
            index < 81,
            old(self).rows@.len() == 81,
        ensures
            final(self).rows@ == old(self).rows@.update(row_slot(index as int), value),
            final(self).grid == old(self).grid,
            final(self).cols == old(self).cols,
            final(self).blocks == old(self).blocks,
            final(self).move_stack == old(self).move_stack,
    {
        let row_index = get_row_index(index);
        let index_in_row = get_index_in_row(index);
        self.rows.set(row_index * 9 + index_in_row, value);
    }

    fn set_square_in_block(&mut self, index: usize, value: u8)
        requires
            index < 81,
            old(self).blocks@.len() == 81,
        ensures
            final(self).blocks@ == old(self).blocks@.update(block_slot(index as int), value),
            final(self).grid == old(self).grid,
            final(self).rows == old(self).rows,
            final(self).cols == old(self).cols,
            final(self).move_stack == old(self).move_stack,
    {
        let block_index = get_block_index(index);
        let index_in_block = get_index_in_block(index);
        self.blocks.set(block_index * 9 + index_in_block, value);
    }

    fn set_square_in_col(&mut self, index: usize, value: u8)
        requires
            index < 81,
            old(self).cols@.len() == 81,
        ensures
            final(self).cols@ == old(self).cols@.update(col_slot(index as int), value),
            final(self).grid == old(self).grid,
            final(self).rows == old(self).rows,
            final(self).blocks == old(self).blocks,
            final(self).move_stack == old(self).move_stack,
    {
        let column_index = get_column_index(index);
        let index_in_column = get_index_in_column(index);
        self.cols.set(column_index * 9 + index_in_column, value);
    }

    /// How many moves have been recorded (and not yet undone).
    pub fn moves_count(&self) -> (r: usize)
        ensures
            r == self.moves().len(),
    {
        self.move_stack.len()
    }
}

/// A value `v` occurs among the first `p` entries of one of the three group
/// snapshots.
spec fn seen_prefix(row: Seq<u8>, col: Seq<u8>, block: Seq<u8>, p: int, v: u8) -> bool {
    ||| exists|q: int| 0 <= q < p && #[trigger] row[q] == v
    ||| exists|q: int| 0 <= q < p && #[trigger] col[q] == v
    ||| exists|q: int| 0 <= q < p && #[trigger] block[q] == v
}

/// Index `i` occurs among the entries of `stack` from position `from` on.
pub open spec fn stack_tail_hits(stack: Seq<usize>, from: int, i: int) -> bool {
    exists|k: int| from <= k < stack.len() && (#[trigger] stack[k]) as int == i
}

/// Group snapshots that mirror the grid see exactly the values that the
/// cell's groups hold.
proof fn lemma_seen_characterizes_sees(
    g: Seq<u8>,
    i: int,
    row: Seq<u8>,
    col: Seq<u8>,
    block: Seq<u8>,
    v: u8,
)
    requires
        g.len() == 81,
        0 <= i < 81,
        row.len() == 9,
        col.len() == 9,
        block.len() == 9,
        forall|q: int| 0 <= q < 9 ==> #[trigger] row[q] == g[row_cell(row_of(i), q)],
        forall|q: int| 0 <= q < 9 ==> #[trigger] col[q] == g[col_cell(col_of(i), q)],
        forall|q: int| 0 <= q < 9 ==> #[trigger] block[q] == g[block_cell(block_of(i), q)],
    ensures
        seen_prefix(row, col, block, 9, v) <==> sees(g, i, v),
{
    lemma_cell_decompose(i);
    if seen_prefix(row, col, block, 9, v) {
        if exists|q: int| 0 <= q < 9 && row[q] == v {
            let q = choose|q: int| 0 <= q < 9 && row[q] == v;
            lemma_row_cell(row_of(i), q);
            assert(same_group(i, row_cell(row_of(i), q)));
        } else if exists|q: int| 0 <= q < 9 && col[q] == v {
            let q = choose|q: int| 0 <= q < 9 && col[q] == v;
            lemma_col_cell(col_of(i), q);
            assert(same_group(i, col_cell(col_of(i), q)));
        } else {
            let q = choose|q: int| 0 <= q < 9 && block[q] == v;
            lemma_block_cell(block_of(i), q);
            assert(same_group(i, block_cell(block_of(i), q)));
        }
    }
    if sees(g, i, v) {
        let j = choose|j: int| 0 <= j < 81 && #[trigger] same_group(i, j) && g[j] == v;
        lemma_cell_decompose(j);
        if row_of(j) == row_of(i) {
            assert(row[pos_in_row(j)] == v);
        } else if col_of(j) == col_of(i) {
            assert(col[pos_in_col(j)] == v);
        } else {
            assert(block[pos_in_block(j)] == v);
        }
    }
}

/// Updating one cell together with its three view slots keeps the board
/// well-formed.
proof fn lemma_update_keeps_wf(pre: SudokuPuzzle, post: SudokuPuzzle, index: int, value: u8)
    requires
        pre.wf(),
        0 <= index < 81,
        post.grid@ == pre.grid@.update(index, value),
        post.rows@ == pre.rows@.update(row_slot(index), value),
        post.cols@ == pre.cols@.update(col_slot(index), value),
        post.blocks@ == pre.blocks@.update(block_slot(index), value),
        forall|k: int|
            0 <= k < post.move_stack@.len() ==> (#[trigger] post.move_stack@[k]) < 81,
    ensures
        post.wf(),
{
    lemma_cell_decompose(index);
    assert forall|i: int| 0 <= i < 81 implies post.rows@[#[trigger] row_slot(i)]
        == post.grid@[i] by {
        lemma_cell_decompose(i);
        if i != index {
            lemma_slots_injective(i, index);
        }
    }
    assert forall|i: int| 0 <= i < 81 implies post.cols@[#[trigger] col_slot(i)]
        == post.grid@[i] by {
        lemma_cell_decompose(i);
        if i != index {
            lemma_slots_injective(i, index);
        }
    }
    assert forall|i: int| 0 <= i < 81 implies post.blocks@[#[trigger] block_slot(i)]
        == post.grid@[i] by {
        lemma_cell_decompose(i);
        if i != index {
            lemma_slots_injective(i, index);
        }
    }
}

/// Two well-formed boards over the same cells have the same three views.
pub proof fn lemma_views_determined(a: SudokuPuzzle, b: SudokuPuzzle)
    requires
        a.wf(),
        b.wf(),
        a.grid@ == b.grid@,
    ensures
        a.rows@ == b.rows@,
        a.cols@ == b.cols@,
        a.blocks@ == b.blocks@,
{
    assert forall|s: int| 0 <= s < 81 implies a.rows@[s] == b.rows@[s] && a.cols@[s] == b.cols@[s]
        && a.blocks@[s] == b.blocks@[s] by {
        lemma_slots_surjective(s);
        assert(a.rows@[row_slot(row_cell(s / 9, s % 9))] == a.grid@[row_cell(s / 9, s % 9)]);
        assert(b.rows@[row_slot(row_cell(s / 9, s % 9))] == b.grid@[row_cell(s / 9, s % 9)]);
        assert(a.cols@[col_slot(col_cell(s / 9, s % 9))] == a.grid@[col_cell(s / 9, s % 9)]);
        assert(b.cols@[col_slot(col_cell(s / 9, s % 9))] == b.grid@[col_cell(s / 9, s % 9)]);
        assert(a.blocks@[block_slot(block_cell(s / 9, s % 9))] == a.grid@[block_cell(s / 9, s % 9)]);
        assert(b.blocks@[block_slot(block_cell(s / 9, s % 9))] == b.grid@[block_cell(s / 9, s % 9)]);
    }
    assert(a.rows@ =~= b.rows@);
    assert(a.cols@ =~= b.cols@);
    assert(a.blocks@ =~= b.blocks@);
}

/// The view-sync law: on a well-formed board, the row, column and block
/// views agree with the cell array at every cell, so any sequence of
/// `set_square`/`undo_move` calls (each of which preserves `wf`) keeps all
/// three views consistent with the cells.
pub proof fn lemma_view_sync(p: SudokuPuzzle, i: int)
    requires
        p.wf(),
        0 <= i < 81,
    ensures
        p.rows@[row_slot(i)] == p.grid@[i],
        p.cols@[col_slot(i)] == p.grid@[i],
        p.blocks@[block_slot(i)] == p.grid@[i],
{
}

/// Undo inverts set: writing a value into a blank cell and then undoing
/// that move restores the original board exactly - cells, all three views
/// and the move stack.
pub proof fn lemma_undo_inverts_set(
    p: SudokuPuzzle,
    q: SudokuPuzzle,
    r: SudokuPuzzle,
    index: usize,
    value: u8,
)
    requires
        p.wf(),
        index < 81,
        p.grid@[index as int] == 0,
        // q is p after `set_square(index, value)`:
        q.wf(),
        q.grid@ == p.grid@.update(index as int, value),
        q.moves() == p.moves().push(index),
        // r is q after `undo_move()`:
        r.wf(),
        r.grid@ == q.grid@.update(q.moves().last() as int, 0),
        r.moves() == q.moves().drop_last(),
    ensures
        r.grid@ == p.grid@,
        r.moves() == p.moves(),
        r.rows@ == p.rows@,
        r.cols@ == p.cols@,
        r.blocks@ == p.blocks@,
{
    assert(q.moves().last() == index);
    assert(r.grid@ =~= p.grid@);
    assert(r.moves() =~= p.moves());
    lemma_views_determined(r, p);
}

fn get_rows_from_grid(grid: &Vec<u8>) -> (r: Vec<u8>)
    requires
        grid@.len() == 81,
    ensures
        r@.len() == 81,
        forall|i: int| 0 <= i < 81 ==> r@[#[trigger] row_slot(i)] == grid@[i],
{
    let mut rows: Vec<u8> = Vec::new();
    let mut k: usize = 0;
    while k < 81
        invariant
            k <= 81,
            rows@.len() == k,
        decreases 81 - k,
    {
        rows.push(0);
        k = k + 1;
    }
    let mut i: usize = 0;
    while i < 81
        invariant
            grid@.len() == 81,
            rows@.len() == 81,
            i <= 81,
            forall|j: int| 0 <= j < i ==> rows@[#[trigger] row_slot(j)] == grid@[j],
        decreases 81 - i,
    {
        let row_index = get_row_index(i);
        let index_in_row = get_index_in_row(i);
        proof {
            lemma_cell_decompose(i as int);
        }
        rows.set(row_index * 9 + index_in_row, grid[i]);
        proof {
            assert forall|j: int| 0 <= j < i + 1 implies rows@[#[trigger] row_slot(j)]
                == grid@[j] by {
                lemma_cell_decompose(j);
                if j < i {
                    lemma_slots_injective(j, i as int);
                }
            }
        }
        i = i + 1;
    }
    rows
}

fn get_blocks_from_grid(grid: &Vec<u8>) -> (r: Vec<u8>)
    requires
        grid@.len() == 81,
    ensures
        r@.len() == 81,
        forall|i: int| 0 <= i < 81 ==> r@[#[trigger] block_slot(i)] == grid@[i],
{
    let mut blocks: Vec<u8> = Vec::new();
    let mut k: usize = 0;
    while k < 81
        invariant
            k <= 81,
            blocks@.len() == k,
        decreases 81 - k,
    {
        blocks.push(0);
        k = k + 1;
    }
    let mut i: usize = 0;
    while i < 81
        invariant
            grid@.len() == 81,
            blocks@.len() == 81,
            i <= 81,
            forall|j: int| 0 <= j < i ==> blocks@[#[trigger] block_slot(j)] == grid@[j],
        decreases 81 - i,
    {
        let block_index = get_block_index(i);
        let index_in_block = get_index_in_block(i);
        proof {
            lemma_cell_decompose(i as int);
        }
        blocks.set(block_index * 9 + index_in_block, grid[i]);
        proof {
            assert forall|j: int| 0 <= j < i + 1 implies blocks@[#[trigger] block_slot(j)]
                == grid@[j] by {
                lemma_cell_decompose(j);
                if j < i {
                    lemma_slots_injective(j, i as int);
                }
            }
        }
        i = i + 1;
    }
    blocks
}

fn get_cols_from_grid(grid: &Vec<u8>) -> (r: Vec<u8>)
    requires
        grid@.len() == 81,
    ensures
        r@.len() == 81,
        forall|i: int| 0 <= i < 81 ==> r@[#[trigger] col_slot(i)] == grid@[i],
{
    let mut cols: Vec<u8> = Vec::new();
    let mut k: usize = 0;
    while k < 81
        invariant
            k <= 81,
            cols@.len() == k,
        decreases 81 - k,
    {
        cols.push(0);
        k = k + 1;
    }
    let mut i: usize = 0;
    while i < 81
        invariant
            grid@.len() == 81,
            cols@.len() == 81,
            i <= 81,
            forall|j: int| 0 <= j < i ==> cols@[#[trigger] col_slot(j)] == grid@[j],
        decreases 81 - i,
    {
        let column_index = get_column_index(i);
        let index_in_column = get_index_in_column(i);
        proof {
            lemma_cell_decompose(i as int);
        }
        cols.set(column_index * 9 + index_in_column, grid[i]);
        proof {
            assert forall|j: int| 0 <= j < i + 1 implies cols@[#[trigger] col_slot(j)]
                == grid@[j] by {
                lemma_cell_decompose(j);
                if j < i {
                    lemma_slots_injective(j, i as int);
                }
            }
        }
        i = i + 1;
    }
    cols
}

fn get_row_index(index: usize) -> (r: usize)
    requires
        index < 81,
    ensures
        r == row_of(index as int),
        r < 9,
{
    index / 9
}

fn get_index_in_row(index: usize) -> (r: usize)
    requires
        index < 81,
    ensures
        r == pos_in_row(index as int),
        r < 9,
{
    index % 9
}

fn get_block_index(index: usize) -> (r: usize)
    requires
        index < 81,
    ensures
        r == block_of(index as int),
        r < 9,
{
    let block_row = index / 27;
    let block_col = (index % 9) / 3;
    block_col + block_row * 3
}

fn get_index_in_block(index: usize) -> (r: usize)
    requires
        index < 81,
    ensures
        r == pos_in_block(index as int),
        r < 9,
{
    let row_in_block = (index / 9) % 3;
    let col_in_block = index % 3;
    col_in_block + row_in_block * 3
}

fn get_column_index(index: usize) -> (r: usize)
    requires
        index < 81,
    ensures
        r == col_of(index as int),
        r < 9,
{
    index % 9
}

fn get_index_in_column(index: usize) -> (r: usize)
    requires
        index < 81,
    ensures
        r == pos_in_col(index as int),
        r < 9,
{
    index / 9
}

fn u8_vecs_equal(a: &Vec<u8>, b: &Vec<u8>) -> (r: bool)
    ensures
        r == (a@ == b@),
{
    if a.len() != b.len() {
        proof {
            if a@ == b@ {
                assert(a@.len() == b@.len());
            }
        }
        return false;
    }
    let mut k: usize = 0;
    while k < a.len()
        invariant
            k <= a@.len(),
            a@.len() == b@.len(),
            forall|j: int| 0 <= j < k ==> a@[j] == b@[j],
        decreases a@.len() - k,
    {
        if a[k] != b[k] {
            proof {
                if a@ == b@ {
                    assert(a@[k as int] == b@[k as int]);
                }
            }
            return false;
        }
        k = k + 1;
    }
    proof {
        assert(a@ =~= b@);
    }
    true
}

impl PartialEq for SudokuPuzzle {
    /// Boards compare equal when their cells and their row and block views
    /// agree (the column view is determined by the cells on well-formed
    /// boards, and the move history is deliberately ignored).
    fn eq(&self, other: &Self) -> (r: bool) {
        u8_vecs_equal(&self.grid, &other.grid) && u8_vecs_equal(&self.rows, &other.rows)
            && u8_vecs_equal(&self.blocks, &other.blocks)
    }
}

impl vstd::std_specs::cmp::PartialEqSpecImpl for SudokuPuzzle {
    open spec fn obeys_eq_spec() -> bool {
        true
    }

    open spec fn eq_spec(&self, other: &Self) -> bool {
        self.grid@ == other.grid@ && self.rows@ == other.rows@ && self.blocks@ == other.blocks@
    }
}

} // verus!
