//! What holds of the solver as a whole, stated over the model and proved.

use crate::digits::is_digit;
use crate::model::{max_potential, weight_below, BoardView, Technique};
use crate::rules::{
    conflict_free, extends, is_full, lemma_unit_holds_digit, lemma_unit_holds_digit_once, solvable, solves,
    valid_solution,
};
use crate::search::{node_bound, vacancies};
use crate::topology::{is_cell, is_pos, is_unit, unit_cell};
use vstd::prelude::*;

verus! {

impl BoardView {
    /// The board after one use of technique `t`.
    pub open spec fn used(self, t: Technique) -> BoardView {
        match t {
            Technique::Singles => self.singles_applied(),
            _ => self.applied(t),
        }
    }
}

/// Soundness. No technique contradicts a solution of the puzzle: after one use of any
/// technique on any well-formed board, every cell that is filled holds the digit that the
/// solution has there, and every empty cell still has that digit among its candidates.
pub proof fn law_technique_sound(board: BoardView, t: Technique, s: Seq<u8>)
    requires
        board.wf(),
        solves(board.grid, s),
    ensures
        board.used(t).wf(),
        solves(board.used(t).grid, s),
        forall|k: int|
            is_cell(k) && #[trigger] board.used(t).grid[k] == 0 ==> board.used(t).cands[k].contains(
                s[k],
            ),
{
    assert(board.admits(s));
    match t {
        Technique::Singles => {
            board.lemma_singles_applied();
        },
        _ => {
            board.lemma_narrowed(t);
        },
    }
    let next = board.used(t);
    assert(next.admits(s));
    assert forall|k: int| is_cell(k) && #[trigger] next.grid[k] != 0 implies s[k] == next.grid[k] by {}
}

/// Soundness of a whole solve. Propagation never contradicts a solution of the puzzle, however
/// many passes it makes.
pub proof fn law_propagation_sound(board: BoardView, s: Seq<u8>)
    requires
        board.wf(),
        solves(board.grid, s),
    ensures
        board.propagated().wf(),
        board.propagated().admits(s),
        solves(board.propagated().grid, s),
{
    assert(board.admits(s));
    board.lemma_propagated();
    let next = board.propagated();
    assert forall|k: int| is_cell(k) && #[trigger] next.grid[k] != 0 implies s[k] == next.grid[k] by {}
}

/// On a full board no technique finds anything to do.
pub proof fn law_full_board_rests(board: BoardView)
    requires
        board.wf(),
        is_full(board.grid),
    ensures
        board.pass() == board,
{
    board.lemma_pass();
    assert forall|k: int| is_cell(k) implies #[trigger] board.cell_weight(k) == 0 by {
        assert(board.grid[k] != 0);
        assert(board.cands[k] == Set::<u8>::empty());
    }
    lemma_no_weight(board, 81);
}

/// Where no cell before `n` has any weight, these cells have none together.
proof fn lemma_no_weight(board: BoardView, n: int)
    requires
        0 <= n <= 81,
        forall|k: int| is_cell(k) ==> #[trigger] board.cell_weight(k) == 0,
    ensures
        weight_below(board.grid, board.cands, n) == 0,
    decreases n,
{
    if n > 0 {
        lemma_no_weight(board, n - 1);
        assert(board.cell_weight(n - 1) == 0);
    }
}

/// Idempotence of propagation. A pass that changes nothing leaves a board on which the next
/// pass changes nothing either; and the board that propagation leaves is such a board:
/// a further pass, or a further propagation, leaves it exactly as it is.
pub proof fn law_propagation_idempotent(board: BoardView)
    requires
        board.wf(),
    ensures
        board.pass().potential() == board.potential() ==> board.pass() == board
            && board.pass().pass() == board.pass(),
        board.propagated().pass() == board.propagated(),
        board.propagated().propagated() == board.propagated(),
    decreases board.potential(),
{
    let next = board.pass();
    board.lemma_pass();
    if !is_full(next.grid) && next.potential() < board.potential() {
        law_propagation_idempotent(next);
    } else if is_full(next.grid) {
        law_full_board_rests(next);
    }
}

/// Determinism. The board on which a solve starts is a function of the puzzle, and the board
/// that it leaves, with its grid and its tally, is a function of the board on which it
/// starts. So two solves of the same puzzle leave the same grid and the same tally, and give
/// the same answer.
pub proof fn law_solve_deterministic(first: Seq<u8>, second: Seq<u8>)
    requires
        first == second,
    ensures
        BoardView::opening(first).solved().grid == BoardView::opening(second).solved().grid,
        BoardView::opening(first).solved().counts == BoardView::opening(second).solved().counts,
        solvable(first) == solvable(second),
{
}

/// The board on which a solve starts is well formed.
pub proof fn law_opening_well_formed(grid: Seq<u8>)
    requires
        grid.len() == 81,
    ensures
        BoardView::opening(grid).wf(),
{
    let board = BoardView::opening(grid);
    board.lemma_refreshed();
    assert(board.refreshed().cands =~= board.cands);
    assert(board.refreshed() == board);
    board.lemma_narrowing(board);
}

/// Completeness through the fallback. For a puzzle that has a solution, the solver fills
/// the grid, keeps every clue, and leaves a grid in which every row, column and box holds
/// each of the digits 1 to 9, at exactly one position. For a puzzle without a solution it
/// leaves a cell empty.
pub proof fn law_solve_complete(board: BoardView)
    requires
        board.wf(),
    ensures
        solvable(board.grid) ==> is_full(board.solved().grid) && extends(
            board.grid,
            board.solved().grid,
        ) && valid_solution(board.solved().grid),
        solvable(board.grid) ==> forall|u: int, d: u8|
            is_unit(u) && is_digit(d) ==> exists|i: int|
                is_pos(i) && #[trigger] board.solved().grid[unit_cell(u, i)] == d,
        solvable(board.grid) ==> forall|u: int, i: int, j: int|
            is_unit(u) && is_pos(i) && is_pos(j) && #[trigger] board.solved().grid[unit_cell(u, i)]
                == #[trigger] board.solved().grid[unit_cell(u, j)] ==> i == j,
        !solvable(board.grid) ==> !is_full(board.solved().grid) || !valid_solution(
            board.solved().grid,
        ),
{
    board.lemma_solved();
    let done = board.solved().grid;
    if solvable(board.grid) {
        assert(is_full(done)) by {
            assert forall|k: int| is_cell(k) implies #[trigger] done[k] != 0 by {
                assert(is_digit(done[k]));
            }
        }
        assert forall|u: int, d: u8| is_unit(u) && is_digit(d) implies exists|i: int|
            is_pos(i) && #[trigger] done[unit_cell(u, i)] == d by {
            let i = lemma_unit_holds_digit(done, u, d);
            assert(is_pos(i) && done[unit_cell(u, i)] == d);
        }
        assert forall|u: int, i: int, j: int|
            is_unit(u) && is_pos(i) && is_pos(j) && #[trigger] done[unit_cell(u, i)]
                == #[trigger] done[unit_cell(u, j)] implies i == j by {
            lemma_unit_holds_digit_once(done, u, i, j);
        }
    } else {
        if is_full(done) && valid_solution(done) {
            if conflict_free(board.grid) {
                assert(false);
            } else {
                assert(done == board.grid);
                assert(extends(board.grid, done));
                assert(solves(board.grid, done));
            }
        }
    }
}

/// Termination of propagation. Every pass but the last lowers the potential of the board,
/// which is at most 810, so that propagation makes at most 811 passes.
pub proof fn law_passes_bounded(board: BoardView)
    requires
        board.wf(),
    ensures
        board.passes() <= board.potential() + 1,
        board.passes() <= max_potential() + 1,
{
    board.lemma_propagated();
    board.lemma_narrowing(board);
}

/// The bound on the grids that a search visits grows with the number of empty cells.
pub proof fn lemma_node_bound_grows(few: nat, many: nat)
    requires
        few <= many,
    ensures
        node_bound(few) <= node_bound(many),
    decreases many,
{
    if few < many {
        lemma_node_bound_grows(few, (many - 1) as nat);
    }
}

/// No more than `n` of the cells before cell `n` are empty.
pub proof fn lemma_vacancies_bounded(grid: Seq<u8>, n: int)
    requires
        0 <= n <= 81,
    ensures
        vacancies(grid, n) <= n,
    decreases n,
{
    if n > 0 {
        lemma_vacancies_bounded(grid, n - 1);
    }
}

/// Termination of the search. The search goes one cell deeper with every digit it places,
/// so no deeper than the number of empty cells, which is at most 81; and the number of
/// grids it visits is bounded by a number that depends on the number of empty cells alone.
pub proof fn law_search_bounded(grid: Seq<u8>)
    requires
        grid.len() == 81,
    ensures
        vacancies(grid, 81) <= 81,
        node_bound(vacancies(grid, 81)) <= node_bound(81),
{
    lemma_vacancies_bounded(grid, 81);
    lemma_node_bound_grows(vacancies(grid, 81), 81);
}

} // verus!
