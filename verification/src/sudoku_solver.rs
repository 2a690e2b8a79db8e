//! The solver: constraint propagation to a fixed point, then depth-first
//! backtracking over the remaining blank cells.
//!
//! `solve` mutates the board in place and returns whether it ended in a
//! fully filled state. On failure the board is restored exactly to its
//! pre-call state; on success every fill that was made was a legal
//! candidate at the moment it was made, so a board whose clues obeyed the
//! Sudoku rules ends up as a complete, rule-consistent grid.

use vstd::prelude::*;
use vstd::seq_lib::seq_to_set_is_finite;
use vstd::set_lib::lemma_int_range;
use vstd::set_lib::lemma_subset_equality;
use vstd::set_lib::set_int_range;
use crate::indexing::block_cell;
use crate::indexing::col_cell;
use crate::indexing::lemma_block_cell;
use crate::indexing::lemma_col_cell;
use crate::indexing::lemma_row_cell;
use crate::indexing::row_cell;
use crate::indexing::same_group;
use crate::sudoku_grid::SudokuPuzzle;
use crate::sudoku_grid::candidate_ok;
use crate::sudoku_grid::full;
use crate::sudoku_grid::lemma_views_determined;
use crate::sudoku_grid::sees;
use crate::sudoku_grid::stack_tail_hits;

verus! {

/// Every cell value is one of 0..=9.
pub open spec fn in_range(g: Seq<u8>) -> bool {
    forall|i: int| 0 <= i < 81 ==> (#[trigger] g[i]) <= 9
}

/// No two distinct filled cells of a common row, column or block hold the
/// same value.
pub open spec fn consistent(g: Seq<u8>) -> bool {
    forall|i: int, j: int|
        0 <= i < 81 && 0 <= j < 81 && i != j && #[trigger] same_group(i, j) && g[i] != 0
            ==> g[i] != g[j]
}

/// `g` agrees with `g0` on every cell that `g0` has filled: only blanks of
/// `g0` may differ.
pub open spec fn extends(g0: Seq<u8>, g: Seq<u8>) -> bool {
    forall|i: int| 0 <= i < 81 && g0[i] != 0 ==> g[i] == g0[i]
}

/// `g` is a solution of the clue grid `g0`: complete, rule-consistent, in
/// range, and extending the given clues.
pub open spec fn is_solution(g0: Seq<u8>, g: Seq<u8>) -> bool {
    g.len() == 81 && full(g) && in_range(g) && consistent(g) && extends(g0, g)
}

/// Number of blank cells among the first `n`.
pub open spec fn count_zeros_upto(g: Seq<u8>, n: int) -> int
    decreases n,
{
    if n <= 0 {
        0
    } else {
        count_zeros_upto(g, n - 1) + if g[n - 1] == 0 {
            1int
        } else {
            0int
        }
    }
}

/// Number of blank cells on the board.
pub open spec fn count_zeros(g: Seq<u8>) -> int {
    count_zeros_upto(g, 81)
}

/// `post` was reached from `pre` by filling blank cells only, each fill
/// recorded on the move stack: the old stack is a prefix of the new one,
/// every new entry names a cell that was blank in `pre`, and every cell not
/// named by a new entry is unchanged.
pub open spec fn filled_from(pre: SudokuPuzzle, post: SudokuPuzzle) -> bool {
    &&& post.moves().len() >= pre.moves().len()
    &&& post.moves().take(pre.moves().len() as int) == pre.moves()
    &&& forall|k: int|
        pre.moves().len() <= k < post.moves().len() ==> (#[trigger] post.moves()[k]) < 81
            && pre.grid@[post.moves()[k] as int] == 0
    &&& forall|i: int|
        0 <= i < 81 && !stack_tail_hits(post.moves(), pre.moves().len() as int, i)
            ==> post.grid@[i] == pre.grid@[i]
}

proof fn lemma_count_zeros_agree(g1: Seq<u8>, g2: Seq<u8>, n: int)
    requires
        forall|j: int| 0 <= j < n ==> g1[j] == g2[j],
    ensures
        count_zeros_upto(g1, n) == count_zeros_upto(g2, n),
    decreases n,
{
    if n > 0 {
        lemma_count_zeros_agree(g1, g2, n - 1);
    }
}

proof fn lemma_count_zeros_nonneg(g: Seq<u8>, n: int)
    ensures
        count_zeros_upto(g, n) >= 0,
    decreases n,
{
    if n > 0 {
        lemma_count_zeros_nonneg(g, n - 1);
    }
}

/// Filling one blank cell lowers the blank count by one.
proof fn lemma_count_zeros_update(g: Seq<u8>, i: int, v: u8, n: int)
    requires
        0 <= i < n,
        n <= g.len(),
        g[i] == 0,
        v != 0,
    ensures
        count_zeros_upto(g.update(i, v), n) == count_zeros_upto(g, n) - 1,
    decreases n,
{
    if i == n - 1 {
        lemma_count_zeros_agree(g.update(i, v), g, n - 1);
    } else {
        lemma_count_zeros_update(g, i, v, n - 1);
    }
}

/// A board whose blanks are a subset of another's has at most as many
/// blanks.
proof fn lemma_count_zeros_le(g0: Seq<u8>, g: Seq<u8>, n: int)
    requires
        forall|j: int| 0 <= j < n && g[j] == 0 ==> g0[j] == 0,
    ensures
        count_zeros_upto(g, n) <= count_zeros_upto(g0, n),
    decreases n,
{
    if n > 0 {
        lemma_count_zeros_le(g0, g, n - 1);
    }
}

/// Cells that were filled in `pre` are untouched by a fill phase.
pub proof fn lemma_filled_from_extends(pre: SudokuPuzzle, post: SudokuPuzzle)
    requires
        filled_from(pre, post),
    ensures
        extends(pre.grid@, post.grid@),
{
    assert forall|i: int| 0 <= i < 81 && pre.grid@[i] != 0 implies post.grid@[i]
        == pre.grid@[i] by {
        if stack_tail_hits(post.moves(), pre.moves().len() as int, i) {
            let k = choose|k: int|
                pre.moves().len() <= k < post.moves().len() && (#[trigger] post.moves()[k]) as int
                    == i;
            assert(pre.grid@[post.moves()[k] as int] == 0);
        }
    }
}

/// Two fill phases in sequence form one fill phase.
pub proof fn lemma_filled_from_trans(a: SudokuPuzzle, b: SudokuPuzzle, c: SudokuPuzzle)
    requires
        filled_from(a, b),
        filled_from(b, c),
    ensures
        filled_from(a, c),
{
    lemma_filled_from_extends(a, b);
    let na = a.moves().len() as int;
    let nb = b.moves().len() as int;
    assert forall|k: int| 0 <= k < na implies c.moves()[k] == a.moves()[k] by {
        assert(b.moves()[k] == c.moves().take(nb)[k]);
        assert(a.moves()[k] == b.moves().take(na)[k]);
    }
    assert(c.moves().take(na) =~= a.moves());
    assert forall|k: int| na <= k < c.moves().len() implies (#[trigger] c.moves()[k]) < 81
        && a.grid@[c.moves()[k] as int] == 0 by {
        if k < nb {
            assert(c.moves()[k] == b.moves().take(nb)[k]);
            assert(b.moves()[k] == c.moves()[k]);
        } else {
            assert(b.grid@[c.moves()[k] as int] == 0);
        }
    }
    assert forall|i: int| 0 <= i < 81 && !stack_tail_hits(c.moves(), na, i) implies c.grid@[i]
        == a.grid@[i] by {
        assert(!stack_tail_hits(c.moves(), nb, i));
        if stack_tail_hits(b.moves(), na, i) {
            let k = choose|k: int|
                na <= k < b.moves().len() && (#[trigger] b.moves()[k]) as int == i;
            assert(b.moves()[k] == c.moves().take(nb)[k]);
            assert((c.moves()[k]) as int == i);
            assert(stack_tail_hits(c.moves(), na, i));
        }
    }
}

/// Undoing exactly the moves of a fill phase restores the pre-phase board.
pub proof fn lemma_fill_undone(pre: SudokuPuzzle, post: SudokuPuzzle, fin: SudokuPuzzle)
    requires
        pre.grid@.len() == 81,
        post.grid@.len() == 81,
        fin.grid@.len() == 81,
        filled_from(pre, post),
        fin.moves() == post.moves().take(pre.moves().len() as int),
        forall|i: int|
            0 <= i < 81 && !stack_tail_hits(post.moves(), pre.moves().len() as int, i)
                ==> fin.grid@[i] == post.grid@[i],
        forall|k: int|
            pre.moves().len() <= k < post.moves().len()
                ==> fin.grid@[#[trigger] post.moves()[k] as int] == 0,
    ensures
        fin.grid@ == pre.grid@,
        fin.moves() == pre.moves(),
{
    assert forall|i: int| 0 <= i < 81 implies fin.grid@[i] == pre.grid@[i] by {
        if stack_tail_hits(post.moves(), pre.moves().len() as int, i) {
            let k = choose|k: int|
                pre.moves().len() <= k < post.moves().len() && (#[trigger] post.moves()[k]) as int
                    == i;
            assert(fin.grid@[post.moves()[k] as int] == 0);
            assert(pre.grid@[post.moves()[k] as int] == 0);
        }
    }
    assert(fin.grid@ =~= pre.grid@);
}

/// Writing a legal candidate into a cell keeps the board rule-consistent
/// and in range.
pub proof fn lemma_set_candidate_preserves(g: Seq<u8>, i: int, v: u8)
    requires
        g.len() == 81,
        0 <= i < 81,
        consistent(g),
        in_range(g),
        candidate_ok(g, i, v),
    ensures
        consistent(g.update(i, v)),
        in_range(g.update(i, v)),
{
    let g2 = g.update(i, v);
    assert forall|a: int, b: int|
        0 <= a < 81 && 0 <= b < 81 && a != b && #[trigger] same_group(a, b) && g2[a] != 0
        implies g2[a] != g2[b] by {
        if a == i {
            if g2[b] == v {
                assert(same_group(i, b));
                assert(sees(g, i, v));
            }
        } else if b == i {
            if g2[a] == v {
                assert(same_group(i, a));
                assert(sees(g, i, v));
            }
        }
    }
}

/// Nine pairwise distinct values drawn from 1..=9 cover all of 1..=9.
proof fn lemma_nine_distinct_cover(vals: Seq<int>)
    requires
        vals.len() == 9,
        forall|k: int| 0 <= k < 9 ==> 1 <= #[trigger] vals[k] <= 9,
        forall|k1: int, k2: int| 0 <= k1 < k2 < 9 ==> vals[k1] != vals[k2],
    ensures
        forall|v: int| 1 <= v <= 9 ==> vals.contains(v),
{
    broadcast use seq_to_set_is_finite;

    assert(vals.no_duplicates());
    vals.unique_seq_to_set();
    lemma_int_range(1, 10);
    assert forall|x: int| vals.to_set().contains(x) implies set_int_range(1, 10).contains(x) by {
        let k = choose|k: int| 0 <= k < vals.len() && vals[k] == x;
        assert(1 <= vals[k] <= 9);
    }
    lemma_subset_equality(vals.to_set(), set_int_range(1, 10));
    assert forall|v: int| 1 <= v <= 9 implies vals.contains(v) by {
        assert(set_int_range(1, 10).contains(v));
        assert(vals.to_set().contains(v));
    }
}

/// Solve soundness, group form: on a complete, in-range, rule-consistent
/// grid, every row, column and block contains each of 1..=9 in exactly one
/// position.
pub proof fn lemma_solved_groups(g: Seq<u8>, grp: int, v: u8)
    requires
        g.len() == 81,
        full(g),
        in_range(g),
        consistent(g),
        0 <= grp < 9,
        1 <= v <= 9,
    ensures
        exists|p: int| 0 <= p < 9 && g[#[trigger] row_cell(grp, p)] == v,
        exists|p: int| 0 <= p < 9 && g[#[trigger] col_cell(grp, p)] == v,
        exists|p: int| 0 <= p < 9 && g[#[trigger] block_cell(grp, p)] == v,
        forall|p1: int, p2: int|
            #![trigger row_cell(grp, p1), row_cell(grp, p2)]
            0 <= p1 < 9 && 0 <= p2 < 9 && p1 != p2 ==> g[row_cell(grp, p1)] != g[row_cell(
                grp,
                p2,
            )],
        forall|p1: int, p2: int|
            #![trigger col_cell(grp, p1), col_cell(grp, p2)]
            0 <= p1 < 9 && 0 <= p2 < 9 && p1 != p2 ==> g[col_cell(grp, p1)] != g[col_cell(
                grp,
                p2,
            )],
        forall|p1: int, p2: int|
            #![trigger block_cell(grp, p1), block_cell(grp, p2)]
            0 <= p1 < 9 && 0 <= p2 < 9 && p1 != p2 ==> g[block_cell(grp, p1)] != g[block_cell(
                grp,
                p2,
            )],
{
    assert forall|p1: int, p2: int|
        #![trigger row_cell(grp, p1), row_cell(grp, p2)]
        0 <= p1 < 9 && 0 <= p2 < 9 && p1 != p2 implies g[row_cell(grp, p1)] != g[row_cell(
        grp,
        p2,
    )] by {
        lemma_row_cell(grp, p1);
        lemma_row_cell(grp, p2);
        assert(same_group(row_cell(grp, p1), row_cell(grp, p2)));
        assert(g[row_cell(grp, p1)] != 0);
    }
    assert forall|p1: int, p2: int|
        #![trigger col_cell(grp, p1), col_cell(grp, p2)]
        0 <= p1 < 9 && 0 <= p2 < 9 && p1 != p2 implies g[col_cell(grp, p1)] != g[col_cell(
        grp,
        p2,
    )] by {
        lemma_col_cell(grp, p1);
        lemma_col_cell(grp, p2);
        assert(same_group(col_cell(grp, p1), col_cell(grp, p2)));
        assert(g[col_cell(grp, p1)] != 0);
    }
    assert forall|p1: int, p2: int|
        #![trigger block_cell(grp, p1), block_cell(grp, p2)]
        0 <= p1 < 9 && 0 <= p2 < 9 && p1 != p2 implies g[block_cell(grp, p1)] != g[block_cell(
        grp,
        p2,
    )] by {
        lemma_block_cell(grp, p1);
        lemma_block_cell(grp, p2);
        assert(same_group(block_cell(grp, p1), block_cell(grp, p2)));
        assert(g[block_cell(grp, p1)] != 0);
    }
    let row_vals = Seq::new(9, |p: int| g[row_cell(grp, p)] as int);
    assert forall|k: int| 0 <= k < 9 implies 1 <= #[trigger] row_vals[k] <= 9 by {
        lemma_row_cell(grp, k);
    }
    lemma_nine_distinct_cover(row_vals);
    assert(row_vals.contains(v as int));
    let rp = choose|p: int| 0 <= p < row_vals.len() && row_vals[p] == v as int;
    assert(g[row_cell(grp, rp)] == v);
    let col_vals = Seq::new(9, |p: int| g[col_cell(grp, p)] as int);
    assert forall|k: int| 0 <= k < 9 implies 1 <= #[trigger] col_vals[k] <= 9 by {
        lemma_col_cell(grp, k);
    }
    lemma_nine_distinct_cover(col_vals);
    assert(col_vals.contains(v as int));
    let cp = choose|p: int| 0 <= p < col_vals.len() && col_vals[p] == v as int;
    assert(g[col_cell(grp, cp)] == v);
    let block_vals = Seq::new(9, |p: int| g[block_cell(grp, p)] as int);
    assert forall|k: int| 0 <= k < 9 implies 1 <= #[trigger] block_vals[k] <= 9 by {
        lemma_block_cell(grp, k);
    }
    lemma_nine_distinct_cover(block_vals);
    assert(block_vals.contains(v as int));
    let bp = choose|p: int| 0 <= p < block_vals.len() && block_vals[p] == v as int;
    assert(g[block_cell(grp, bp)] == v);
}

/// Determinism under a unique solution: when the clues admit exactly one
/// solution, every solved grid reached from those clues is that solution,
/// so repeated solver runs on fresh copies of the same puzzle agree.
pub proof fn lemma_unique_solution(clues: Seq<u8>, s: Seq<u8>, g: Seq<u8>)
    requires
        is_solution(clues, s),
        is_solution(clues, g),
        forall|t: Seq<u8>| #[trigger] is_solution(clues, t) ==> t == s,
    ensures
        g == s,
{
}

/// `e` occurs among the first `upto` entries of `s`.
spec fn in_prefix<T>(s: Seq<T>, upto: int, e: T) -> bool {
    exists|k: int| 0 <= k < upto && (#[trigger] s[k]) == e
}

/// At any blank cell of `g`, a solution of `g` holds one of the cell's
/// legal candidates.
pub proof fn lemma_solution_value_is_candidate(g: Seq<u8>, s: Seq<u8>, i: int)
    requires
        g.len() == 81,
        is_solution(g, s),
        0 <= i < 81,
        g[i] == 0,
    ensures
        candidate_ok(g, i, s[i]),
{
    assert(s[i] != 0);
    assert(s[i] <= 9);
    if sees(g, i, s[i]) {
        let j = choose|j: int| 0 <= j < 81 && #[trigger] same_group(i, j) && g[j] == s[i];
        assert(s[j] == g[j]);
        assert(j != i);
        assert(s[j] != s[i]);
    }
}

/// Solves the puzzle in place. Returns true exactly when it ends on a
/// completely filled board; on false the board (cells, views and move
/// stack) is exactly as it was before the call. Every fill made on a
/// rule-consistent, in-range board is a legal candidate, so success on
/// such a board yields a solution of it.
#[verifier::loop_isolation(false)]
pub fn solve(puzzle: &mut SudokuPuzzle) -> (r: bool)
    requires
        old(puzzle).wf(),
    ensures
        final(puzzle).wf(),
        r ==> full(final(puzzle).grid@),
        r ==> filled_from(*old(puzzle), *final(puzzle)),
        consistent(old(puzzle).grid@) && in_range(old(puzzle).grid@) ==> consistent(
            final(puzzle).grid@,
        ) && in_range(final(puzzle).grid@),
        r && consistent(old(puzzle).grid@) && in_range(old(puzzle).grid@) ==> is_solution(
            old(puzzle).grid@,
            final(puzzle).grid@,
        ),
        !r ==> final(puzzle).grid@ == old(puzzle).grid@ && final(puzzle).moves() == old(
            puzzle,
        ).moves() && final(puzzle).rows@ == old(puzzle).rows@ && final(puzzle).cols@ == old(
            puzzle,
        ).cols@ && final(puzzle).blocks@ == old(puzzle).blocks@,
        !r ==> forall|s: Seq<u8>| !(#[trigger] is_solution(old(puzzle).grid@, s)),
    decreases count_zeros(old(puzzle).grid@),
{
    let moves_before_fill = puzzle.moves_count();
    fill_forced_clues(puzzle);
    let force_filled_moves = puzzle.moves_count() - moves_before_fill;
    let ghost pf = *puzzle;
    proof {
        lemma_filled_from_extends(*old(puzzle), pf);
        lemma_count_zeros_le(old(puzzle).grid@, pf.grid@, 81);
    }
    let next = puzzle.get_next_clueless_index();
    if let Some(i) = next {
        let possible = puzzle.get_possible_clues(i);
        let mut ci: usize = 0;
        while ci < possible.len()
            invariant
                puzzle.wf(),
                puzzle.grid@ == pf.grid@,
                puzzle.moves() == pf.moves(),
                ci <= possible@.len(),
                forall|s: Seq<u8>|
                    #[trigger] is_solution(pf.grid@, s) ==> !in_prefix(
                        possible@,
                        ci as int,
                        s[i as int],
                    ),
            decreases possible@.len() - ci,
        {
            let c = possible[ci];
            proof {
                assert(candidate_ok(pf.grid@, i as int, c));
            }
            puzzle.set_square(i, c);
            let ghost ps = *puzzle;
            proof {
                assert(ps.moves().take(pf.moves().len() as int) =~= pf.moves());
                assert forall|j: int|
                    0 <= j < 81 && !stack_tail_hits(ps.moves(), pf.moves().len() as int, j)
                    implies ps.grid@[j] == pf.grid@[j] by {
                    assert(ps.moves()[ps.moves().len() - 1] == i);
                    assert(j != i as int);
                }
                assert(filled_from(pf, ps));
                lemma_filled_from_trans(*old(puzzle), pf, ps);
                if consistent(old(puzzle).grid@) && in_range(old(puzzle).grid@) {
                    lemma_set_candidate_preserves(pf.grid@, i as int, c);
                }
                lemma_count_zeros_update(pf.grid@, i as int, c, 81);
                lemma_count_zeros_nonneg(ps.grid@, 81);
            }
            if puzzle.is_solved() {
                proof {
                    lemma_filled_from_extends(*old(puzzle), ps);
                }
                return true;
            }
            if solve(puzzle) {
                proof {
                    lemma_filled_from_trans(*old(puzzle), ps, *puzzle);
                    lemma_filled_from_extends(*old(puzzle), *puzzle);
                }
                return true;
            }
            puzzle.undo_move();
            proof {
                assert(puzzle.moves() =~= pf.moves());
                assert(puzzle.grid@ =~= pf.grid@);
                assert forall|s: Seq<u8>| #[trigger] is_solution(pf.grid@, s)
                    implies !in_prefix(possible@, ci + 1, s[i as int]) by {
                    if in_prefix(possible@, ci + 1, s[i as int]) && !in_prefix(
                        possible@,
                        ci as int,
                        s[i as int],
                    ) {
                        let k = choose|k: int|
                            0 <= k < ci + 1 && (#[trigger] possible@[k]) == s[i as int];
                        assert(k == ci as int);
                        assert(s[i as int] == c);
                        assert forall|j: int| 0 <= j < 81 && ps.grid@[j] != 0 implies s[j]
                            == ps.grid@[j] by {
                            if j != i as int {
                                assert(ps.grid@[j] == pf.grid@[j]);
                            }
                        }
                        assert(is_solution(ps.grid@, s));
                    }
                }
            }
            ci = ci + 1;
        }
        proof {
            assert forall|s: Seq<u8>| !(#[trigger] is_solution(old(puzzle).grid@, s)) by {
                if is_solution(old(puzzle).grid@, s) {
                    assert(is_solution(pf.grid@, s));
                    lemma_solution_value_is_candidate(pf.grid@, s, i as int);
                    assert(possible@.contains(s[i as int]));
                    let k = choose|k: int|
                        0 <= k < possible@.len() && possible@[k] == s[i as int];
                    assert(in_prefix(possible@, ci as int, s[i as int]));
                }
            }
        }
        puzzle.undo_moves(force_filled_moves);
        proof {
            lemma_fill_undone(*old(puzzle), pf, *puzzle);
            lemma_views_determined(*puzzle, *old(puzzle));
        }
        false
    } else {
        proof {
            if consistent(old(puzzle).grid@) && in_range(old(puzzle).grid@) {
                assert(extends(old(puzzle).grid@, pf.grid@));
            }
        }
        true
    }
}

/// Repeats full propagation passes until one makes no fill.
#[verifier::loop_isolation(false)]
fn fill_forced_clues(puzzle: &mut SudokuPuzzle)
    requires
        old(puzzle).wf(),
    ensures
        final(puzzle).wf(),
        filled_from(*old(puzzle), *final(puzzle)),
        consistent(old(puzzle).grid@) && in_range(old(puzzle).grid@) ==> consistent(
            final(puzzle).grid@,
        ) && in_range(final(puzzle).grid@),
        forall|s: Seq<u8>|
            #[trigger] is_solution(old(puzzle).grid@, s) ==> is_solution(final(puzzle).grid@, s),
{
    let mut found_clue = true;
    proof {
        assert(old(puzzle).moves().take(old(puzzle).moves().len() as int) =~= old(
            puzzle,
        ).moves());
    }
    while found_clue
        invariant
            puzzle.wf(),
            filled_from(*old(puzzle), *puzzle),
            consistent(old(puzzle).grid@) && in_range(old(puzzle).grid@) ==> consistent(
                puzzle.grid@,
            ) && in_range(puzzle.grid@),
            forall|s: Seq<u8>|
                #[trigger] is_solution(old(puzzle).grid@, s) ==> is_solution(puzzle.grid@, s),
        decreases count_zeros(puzzle.grid@) + (if found_clue { 1int } else { 0int }),
    {
        let ghost mid = *puzzle;
        found_clue = forced_fill(puzzle);
        proof {
            lemma_filled_from_trans(*old(puzzle), mid, *puzzle);
            lemma_filled_from_extends(mid, *puzzle);
            lemma_count_zeros_le(mid.grid@, puzzle.grid@, 81);
            lemma_count_zeros_nonneg(puzzle.grid@, 81);
        }
    }
}

/// One propagation pass: fills every cell of a fresh blank-cell snapshot
/// that has exactly one candidate at the moment it is reached. Returns
/// whether any fill was made.
#[verifier::loop_isolation(false)]
fn forced_fill(puzzle: &mut SudokuPuzzle) -> (r: bool)
    requires
        old(puzzle).wf(),
    ensures
        final(puzzle).wf(),
        filled_from(*old(puzzle), *final(puzzle)),
        consistent(old(puzzle).grid@) && in_range(old(puzzle).grid@) ==> consistent(
            final(puzzle).grid@,
        ) && in_range(final(puzzle).grid@),
        !r ==> final(puzzle).grid@ == old(puzzle).grid@ && final(puzzle).moves() == old(
            puzzle,
        ).moves(),
        r ==> count_zeros(final(puzzle).grid@) < count_zeros(old(puzzle).grid@),
        forall|s: Seq<u8>|
            #[trigger] is_solution(old(puzzle).grid@, s) ==> is_solution(final(puzzle).grid@, s),
{
    let mut filled_square: bool = false;
    let clueless = puzzle.get_clueless_squares_enumerated();
    proof {
        assert(old(puzzle).moves().take(old(puzzle).moves().len() as int) =~= old(
            puzzle,
        ).moves());
    }
    let mut idx: usize = 0;
    while idx < clueless.len()
        invariant
            puzzle.wf(),
            idx <= clueless@.len(),
            filled_from(*old(puzzle), *puzzle),
            forall|k: int|
                old(puzzle).moves().len() <= k < puzzle.moves().len() ==> in_prefix(
                    clueless@,
                    idx as int,
                    #[trigger] puzzle.moves()[k],
                ),
            consistent(old(puzzle).grid@) && in_range(old(puzzle).grid@) ==> consistent(
                puzzle.grid@,
            ) && in_range(puzzle.grid@),
            count_zeros(puzzle.grid@) <= count_zeros(old(puzzle).grid@),
            filled_square ==> count_zeros(puzzle.grid@) < count_zeros(old(puzzle).grid@),
            !filled_square ==> puzzle.grid@ == old(puzzle).grid@ && puzzle.moves() == old(
                puzzle,
            ).moves(),
            forall|s: Seq<u8>|
                #[trigger] is_solution(old(puzzle).grid@, s) ==> is_solution(puzzle.grid@, s),
        decreases clueless@.len() - idx,
    {
        let i = clueless[idx];
        let maybe_clue = get_forced_clue(puzzle, i);
        if let Some(clue) = maybe_clue {
            let ghost before = *puzzle;
            proof {
                assert(!stack_tail_hits(before.moves(), old(puzzle).moves().len() as int, i as int))
                    by {
                    if stack_tail_hits(before.moves(), old(puzzle).moves().len() as int, i as int) {
                        let k = choose|k: int|
                            old(puzzle).moves().len() <= k < before.moves().len() && (
                            #[trigger] before.moves()[k]) as int == i as int;
                        assert(in_prefix(clueless@, idx as int, before.moves()[k]));
                        let k2 = choose|k2: int|
                            0 <= k2 < idx && (#[trigger] clueless@[k2]) == before.moves()[k];
                        assert(clueless@[k2] < clueless@[idx as int]);
                    }
                }
                assert(before.grid@[i as int] == old(puzzle).grid@[i as int]);
            }
            puzzle.set_square(i, clue);
            filled_square = true;
            proof {
                assert(puzzle.moves().take(before.moves().len() as int) =~= before.moves());
                assert forall|j: int|
                    0 <= j < 81 && !stack_tail_hits(puzzle.moves(), before.moves().len() as int, j)
                    implies puzzle.grid@[j] == before.grid@[j] by {
                    assert(puzzle.moves()[puzzle.moves().len() - 1] == i);
                    assert(j != i as int);
                }
                assert(filled_from(before, *puzzle));
                lemma_filled_from_trans(*old(puzzle), before, *puzzle);
                assert forall|k: int|
                    old(puzzle).moves().len() <= k < puzzle.moves().len() implies in_prefix(
                    clueless@,
                    idx + 1,
                    #[trigger] puzzle.moves()[k],
                ) by {
                    if k < before.moves().len() {
                        assert(in_prefix(clueless@, idx as int, before.moves()[k]));
                        let k2 = choose|k2: int|
                            0 <= k2 < idx && (#[trigger] clueless@[k2]) == before.moves()[k];
                        assert(clueless@[k2] == puzzle.moves()[k]);
                    } else {
                        assert(puzzle.moves()[k] == i);
                        assert(clueless@[idx as int] == i);
                    }
                }
                if consistent(old(puzzle).grid@) && in_range(old(puzzle).grid@) {
                    lemma_set_candidate_preserves(before.grid@, i as int, clue);
                }
                lemma_count_zeros_update(before.grid@, i as int, clue, 81);
                assert forall|s: Seq<u8>| #[trigger] is_solution(old(puzzle).grid@, s)
                    implies is_solution(puzzle.grid@, s) by {
                    assert(is_solution(before.grid@, s));
                    lemma_solution_value_is_candidate(before.grid@, s, i as int);
                    assert(s[i as int] == clue);
                    assert forall|j: int| 0 <= j < 81 && puzzle.grid@[j] != 0 implies s[j]
                        == puzzle.grid@[j] by {
                        if j != i as int {
                            assert(puzzle.grid@[j] == before.grid@[j]);
                        }
                    }
                }
            }
        }
        idx = idx + 1;
    }
    filled_square
}

/// The unique candidate of a cell, when it has exactly one.
fn get_forced_clue(puzzle: &SudokuPuzzle, index: usize) -> (r: Option<u8>)
    requires
        puzzle.wf(),
        index < 81,
    ensures
        match r {
            Some(v) => candidate_ok(puzzle.grid@, index as int, v) && (forall|w: u8|
                candidate_ok(puzzle.grid@, index as int, w) ==> w == v),
            None => forall|v: u8|
                #[trigger] candidate_ok(puzzle.grid@, index as int, v) ==> exists|w: u8|
                    candidate_ok(puzzle.grid@, index as int, w) && w != v,
        },
{
    let possible_clues = puzzle.get_possible_clues(index);
    if possible_clues.len() == 1 {
        let v = possible_clues[0];
        proof {
            assert forall|w: u8| candidate_ok(puzzle.grid@, index as int, w) implies w == v by {
                let k = choose|k: int|
                    0 <= k < possible_clues@.len() && possible_clues@[k] == w;
                assert(k == 0);
            }
        }
        Some(v)
    } else {
        proof {
            if possible_clues.len() >= 2 {
                let a = possible_clues@[0];
                let b = possible_clues@[1];
                assert(a != b);
                assert forall|v: u8| #[trigger] candidate_ok(puzzle.grid@, index as int, v)
                    implies exists|w: u8|
                    candidate_ok(puzzle.grid@, index as int, w) && w != v by {
                    if v != a {
                        assert(candidate_ok(puzzle.grid@, index as int, a) && a != v);
                    } else {
                        assert(candidate_ok(puzzle.grid@, index as int, b) && b != v);
                    }
                }
            } else {
                assert forall|v: u8| #[trigger] candidate_ok(puzzle.grid@, index as int, v)
                    implies exists|w: u8|
                    candidate_ok(puzzle.grid@, index as int, w) && w != v by {
                    assert(possible_clues@.contains(v));
                }
            }
        }
        None
    }
}

} // verus!
