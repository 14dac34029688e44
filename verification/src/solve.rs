//! Propagation to a fixpoint, and the solver that falls back on the search.

use crate::board::SudokuBoard;
use crate::digits::is_digit;
use crate::model::{BoardView, Technique};
use crate::rules::{
    conflict_free, extends, is_full, lemma_full_conflict_free, lemma_solvable_conflict_free,
    solvable, solves,
};
use crate::search::{
    completable, first_completion, lemma_completion_solves, lemma_exists_first, lemma_searched,
    lemma_solution_completes,
};
use crate::topology::{is_cell, lemma_peer_slot, peer_at, peer_slot, peers};
use vstd::prelude::*;

verus! {

/// How a solve ended.
#[derive(Clone, Copy, Debug, PartialEq, Eq, Structural)]
pub enum Outcome {
    /// Propagation alone filled the grid.
    SolvedByLogic,
    /// Propagation stalled and the search filled the grid.
    SolvedBySearch,
    /// The puzzle has no solution.
    Unsolved,
}

impl Outcome {
    /// Whether the grid was filled.
    pub open spec fn filled(self) -> bool {
        self != Outcome::Unsolved
    }

    /// Whether the grid was filled.
    pub fn is_solved(&self) -> (yes: bool)
        ensures
            yes == self.filled(),
    {
        match self {
            Outcome::Unsolved => false,
            _ => true,
        }
    }
}

impl BoardView {
    /// How a solve of this board ends.
    pub open spec fn outcome(self) -> Outcome {
        if self.solved_by_logic() {
            Outcome::SolvedByLogic
        } else if solvable(self.grid) {
            Outcome::SolvedBySearch
        } else {
            Outcome::Unsolved
        }
    }

    /// The board after one propagation pass: Singles, naked pairs, naked triples, hidden
    /// pairs, hidden triples, X-Wing and, where it is switched on, Y-Wing, each used once
    /// and in this order.
    pub open spec fn pass(self) -> BoardView {
        let done = self.singles_applied().applied(Technique::NakedPairs).applied(
            Technique::NakedTriples,
        ).applied(Technique::HiddenPairs).applied(Technique::HiddenTriples).applied(
            Technique::XWing,
        );
        if self.y_wing {
            done.applied(Technique::YWing)
        } else {
            done
        }
    }

    /// The board after passes have been repeated until one filled the grid or changed
    /// nothing.
    pub open spec fn propagated(self) -> BoardView
        decreases self.potential(),
    {
        let next = self.pass();
        if !is_full(next.grid) && next.potential() < self.potential() {
            next.propagated()
        } else {
            next
        }
    }

    /// The number of passes that propagation makes.
    pub open spec fn passes(self) -> nat
        decreases self.potential(),
    {
        let next = self.pass();
        if !is_full(next.grid) && next.potential() < self.potential() {
            1 + next.passes()
        } else {
            1
        }
    }

    /// The board that the solver leaves. A grid with a conflict is left as it is. Else the
    /// board is propagated, and searched if that did not fill it.
    pub open spec fn solved(self) -> BoardView {
        if !conflict_free(self.grid) {
            self
        } else if is_full(self.propagated().grid) {
            self.propagated()
        } else {
            self.propagated().searched()
        }
    }

    /// Whether the solver fills the grid by propagation alone.
    pub open spec fn solved_by_logic(self) -> bool {
        conflict_free(self.grid) && is_full(self.propagated().grid)
    }

    /// What one use of a technique keeps and changes.
    pub proof fn lemma_applied(self, t: Technique)
        requires
            self.wf(),
        ensures
            self.applied(t).wf(),
            self.narrows_to(self.applied(t)),
            self.applied(t).grid == self.grid,
            self.applied(t).y_wing == self.y_wing,
            self.applied(t).potential() <= self.potential(),
            self.applied(t) != self <==> self.applied(t).potential() < self.potential(),
            forall|s: Seq<u8>| self.admits(s) ==> self.applied(t).admits(s),
    {
        self.lemma_narrowed(t);
    }

    /// A pass keeps the board well formed, only narrows it, keeps every possible solution
    /// possible and a conflict-free grid conflict-free. It lowers the potential unless it
    /// leaves the board exactly as it was.
    pub proof fn lemma_pass(self)
        requires
            self.wf(),
        ensures
            self.pass().wf(),
            self.narrows_to(self.pass()),
            self.pass().y_wing == self.y_wing,
            self.pass().potential() <= self.potential(),
            self.pass() != self <==> self.pass().potential() < self.potential(),
            forall|s: Seq<u8>| self.admits(s) ==> self.pass().admits(s),
            conflict_free(self.grid) ==> conflict_free(self.pass().grid),
    {
        let b1 = self.singles_applied();
        self.lemma_singles_applied();
        let b2 = b1.applied(Technique::NakedPairs);
        b1.lemma_applied(Technique::NakedPairs);
        self.lemma_narrows_twice(b1, b2);
        let b3 = b2.applied(Technique::NakedTriples);
        b2.lemma_applied(Technique::NakedTriples);
        self.lemma_narrows_twice(b2, b3);
        let b4 = b3.applied(Technique::HiddenPairs);
        b3.lemma_applied(Technique::HiddenPairs);
        self.lemma_narrows_twice(b3, b4);
        let b5 = b4.applied(Technique::HiddenTriples);
        b4.lemma_applied(Technique::HiddenTriples);
        self.lemma_narrows_twice(b4, b5);
        let b6 = b5.applied(Technique::XWing);
        b5.lemma_applied(Technique::XWing);
        self.lemma_narrows_twice(b5, b6);
        if self.y_wing {
            let b7 = b6.applied(Technique::YWing);
            b6.lemma_applied(Technique::YWing);
            self.lemma_narrows_twice(b6, b7);
        }
    }

    /// Propagation keeps the board well formed, only narrows it, keeps every possible
    /// solution possible and a conflict-free grid conflict-free.
    pub proof fn lemma_propagated(self)
        requires
            self.wf(),
        ensures
            self.propagated().wf(),
            self.narrows_to(self.propagated()),
            self.propagated().potential() <= self.potential(),
            forall|s: Seq<u8>| self.admits(s) ==> self.propagated().admits(s),
            conflict_free(self.grid) ==> conflict_free(self.propagated().grid),
            self.passes() <= self.potential() + 1,
        decreases self.potential(),
    {
        let next = self.pass();
        self.lemma_pass();
        if !is_full(next.grid) && next.potential() < self.potential() {
            next.lemma_propagated();
            self.lemma_narrows_twice(next, next.propagated());
        }
    }

    /// The solver fills the grid exactly when the puzzle has a solution, and then with a
    /// solution of the puzzle.
    pub proof fn lemma_solved(self)
        requires
            self.wf(),
        ensures
            self.solved().wf(),
            is_full(self.solved().grid) && conflict_free(self.grid) <==> solvable(self.grid),
            solvable(self.grid) ==> solves(self.grid, self.solved().grid),
            !solvable(self.grid) && conflict_free(self.grid) ==> self.solved().grid
                == self.propagated().grid,
            conflict_free(self.grid) && !is_full(self.propagated().grid) ==> (completable(
                self.propagated().grid,
            ) <==> solvable(self.grid)),
    {
        if !conflict_free(self.grid) {
            if solvable(self.grid) {
                let s = choose|s: Seq<u8>| solves(self.grid, s);
                lemma_solvable_conflict_free(self.grid, s);
            }
        } else {
            let p = self.propagated();
            self.lemma_propagated();
            assert(extends(self.grid, p.grid)) by {
                assert forall|k: int| is_cell(k) && #[trigger] self.grid[k] != 0 implies p.grid[k]
                    == self.grid[k] by {}
            }
            if is_full(p.grid) {
                lemma_full_conflict_free(p.grid);
                assert(solves(self.grid, p.grid));
            } else {
                p.lemma_board_searched();
                let q = p.searched();
                if completable(p.grid) {
                    lemma_exists_first(p.grid);
                    let c = choose|c: Seq<u8>| first_completion(p.grid, c);
                    lemma_searched(p.grid, c);
                    lemma_completion_solves(p.grid, c);
                    assert(q.grid == c);
                    assert(extends(self.grid, c)) by {
                        assert forall|k: int| is_cell(k) && #[trigger] self.grid[k] != 0 implies c[k]
                            == self.grid[k] by {
                            assert(p.grid[k] == self.grid[k]);
                        }
                    }
                    assert(solves(self.grid, c));
                    assert(is_full(c)) by {
                        assert forall|k: int| is_cell(k) implies #[trigger] c[k] != 0 by {
                            assert(is_digit(c[k]));
                        }
                    }
                } else {
                    if solvable(self.grid) {
                        let s = choose|s: Seq<u8>| solves(self.grid, s);
                        assert(self.admits(s));
                        assert(p.admits(s));
                        assert(extends(p.grid, s)) by {
                            assert forall|k: int| is_cell(k) && #[trigger] p.grid[k] != 0 implies s[k]
                                == p.grid[k] by {}
                        }
                        lemma_solution_completes(p.grid, s);
                    }
                }
            }
        }
    }
}

impl SudokuBoard {
    /// Whether every placed value is a digit and no two peers hold the same one.
    pub fn is_conflict_free(&self) -> (ok: bool)
        requires
            self.wf(),
        ensures
            ok == conflict_free(self@.grid),
    {
        let mut k: usize = 0;
        while k < 81
            invariant
                k <= 81,
                self.wf(),
                forall|a: int| 0 <= a < k ==> #[trigger] self.grid@[a] <= 9,
                forall|a: int, b: int|
                    0 <= a < k && peers(a, b) && #[trigger] self.grid@[a] != 0 ==> self.grid@[a]
                        != #[trigger] self.grid@[b],
            decreases 81 - k,
        {
            let v = self.grid[k];
            if v > 9 {
                return false;
            }
            if v != 0 {
                let mut j: usize = 0;
                while j < 20
                    invariant
                        j <= 20,
                        k < 81,
                        self.wf(),
                        v == self.grid@[k as int],
                        v != 0,
                        forall|m: int| 0 <= m < j ==> #[trigger] self.grid@[peer_at(k as int, m)]
                            != v,
                    decreases 20 - j,
                {
                    let c = self.units.peer(k, j);
                    if self.grid[c] == v {
                        assert(peers(k as int, c as int));
                        return false;
                    }
                    j = j + 1;
                }
                proof {
                    assert forall|b: int| peers(k as int, b) implies #[trigger] self.grid@[b]
                        != v by {
                        lemma_peer_slot(k as int, b);
                        assert(self.grid@[peer_at(k as int, peer_slot(k as int, b))] != v);
                    }
                }
            }
            k = k + 1;
        }
        true
    }

    /// One propagation pass: every technique once, in the fixed order. Returns whether any
    /// of them changed the board.
    pub fn propagate_once(&mut self) -> (progress: bool)
        requires
            old(self).wf(),
        ensures
            final(self).wf(),
            final(self)@ == old(self)@.pass(),
            progress == (final(self)@ != old(self)@),
            progress <==> final(self)@.potential() < old(self)@.potential(),
            forall|s: Seq<u8>| old(self)@.admits(s) ==> final(self)@.admits(s),
    {
        let singles = self.fill_single_candidates();
        let pairs = self.naked_pairs();
        let triples = self.naked_triples();
        let hidden_pairs = self.hidden_pairs();
        let hidden_triples = self.hidden_triples();
        let x_wing = self.x_wing();
        let y_wing = if self.y_wing {
            self.y_wing()
        } else {
            false
        };
        proof {
            let b0 = old(self)@;
            let b1 = b0.singles_applied();
            b0.lemma_singles_applied();
            let b2 = b1.applied(Technique::NakedPairs);
            b1.lemma_applied(Technique::NakedPairs);
            let b3 = b2.applied(Technique::NakedTriples);
            b2.lemma_applied(Technique::NakedTriples);
            let b4 = b3.applied(Technique::HiddenPairs);
            b3.lemma_applied(Technique::HiddenPairs);
            let b5 = b4.applied(Technique::HiddenTriples);
            b4.lemma_applied(Technique::HiddenTriples);
            let b6 = b5.applied(Technique::XWing);
            b5.lemma_applied(Technique::XWing);
            if b0.y_wing {
                b6.lemma_applied(Technique::YWing);
            }
            b0.lemma_pass();
        }
        singles || pairs || triples || hidden_pairs || hidden_triples || x_wing || y_wing
    }

    /// Propagation: passes are repeated until one fills the grid or changes nothing. Returns
    /// whether the grid is full.
    pub fn propagate(&mut self) -> (full: bool)
        requires
            old(self).wf(),
        ensures
            final(self).wf(),
            final(self)@ == old(self)@.propagated(),
            full == is_full(final(self)@.grid),
            forall|s: Seq<u8>| old(self)@.admits(s) ==> final(self)@.admits(s),
    {
        proof {
            old(self)@.lemma_propagated();
        }
        loop
            invariant_except_break
                self.wf(),
                self@.propagated() == old(self)@.propagated(),
            ensures
                self.wf(),
                self@ == old(self)@.propagated(),
            decreases self@.potential(),
        {
            let ghost before = self@;
            let progress = self.propagate_once();
            proof {
                before.lemma_pass();
            }
            if !progress || self.is_solved() {
                break;
            }
        }
        self.is_solved()
    }

    /// Solves the puzzle: propagation until the grid is full or a pass changes nothing, then
    /// the backtracking search if cells are still empty. A grid in which two peers hold the
    /// same value, or a value is no digit, is rejected at once and left as it is.
    ///
    /// Returns whether the grid was filled, which is the case exactly when the puzzle has a
    /// solution; the grid then holds one.
    pub fn solve(&mut self) -> (ok: bool)
        requires
            old(self).wf(),
        ensures
            final(self).wf(),
            final(self)@ == old(self)@.solved(),
            ok == solvable(old(self)@.grid),
            ok ==> solves(old(self)@.grid, final(self)@.grid),
    {
        self.solve_outcome().is_solved()
    }

    /// Solves the puzzle as `solve` does, and tells how it ended: by propagation alone, by
    /// the search, or without a solution.
    pub fn solve_outcome(&mut self) -> (outcome: Outcome)
        requires
            old(self).wf(),
        ensures
            final(self).wf(),
            final(self)@ == old(self)@.solved(),
            outcome == old(self)@.outcome(),
            outcome.filled() == solvable(old(self)@.grid),
            outcome.filled() ==> solves(old(self)@.grid, final(self)@.grid),
    {
        if !self.is_conflict_free() {
            proof {
                old(self)@.lemma_solved();
            }
            return Outcome::Unsolved;
        }
        if self.propagate() {
            proof {
                old(self)@.lemma_solved();
            }
            return Outcome::SolvedByLogic;
        }
        proof {
            old(self)@.lemma_solved();
            self@.lemma_board_searched();
        }
        if self.brute_force() {
            Outcome::SolvedBySearch
        } else {
            Outcome::Unsolved
        }
    }
}

} // verus!
