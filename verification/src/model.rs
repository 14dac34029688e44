//! The mathematical model of a board, over which the solver's contracts are stated.

use crate::digits::{is_digit, lemma_digit_count, lemma_digit_subset, only_digits};
use crate::rules::{solves, valid_solution};
use crate::topology::{is_cell, peers};
use vstd::prelude::*;

verus! {

/// The deduction techniques that the solver knows.
#[derive(Clone, Copy, Debug, PartialEq, Eq, Structural)]
pub enum Technique {
    Singles,
    NakedPairs,
    NakedTriples,
    HiddenPairs,
    HiddenTriples,
    XWing,
    YWing,
}

/// How often each technique has changed the board.
#[derive(Clone, Copy, Debug)]
pub struct MethodCounts {
    pub singles: usize,
    pub naked_pairs: usize,
    pub naked_triples: usize,
    pub hidden_pairs: usize,
    pub hidden_triples: usize,
    pub x_wing: usize,
    pub y_wing: usize,
}

impl MethodCounts {
    /// The count of technique `t`.
    pub open spec fn count(self, t: Technique) -> usize {
        match t {
            Technique::Singles => self.singles,
            Technique::NakedPairs => self.naked_pairs,
            Technique::NakedTriples => self.naked_triples,
            Technique::HiddenPairs => self.hidden_pairs,
            Technique::HiddenTriples => self.hidden_triples,
            Technique::XWing => self.x_wing,
            Technique::YWing => self.y_wing,
        }
    }

    /// The tally with one more use of technique `t`.
    pub open spec fn credited(self, t: Technique) -> MethodCounts {
        match t {
            Technique::Singles => MethodCounts { singles: (self.singles + 1) as usize, ..self },
            Technique::NakedPairs => MethodCounts {
                naked_pairs: (self.naked_pairs + 1) as usize,
                ..self
            },
            Technique::NakedTriples => MethodCounts {
                naked_triples: (self.naked_triples + 1) as usize,
                ..self
            },
            Technique::HiddenPairs => MethodCounts {
                hidden_pairs: (self.hidden_pairs + 1) as usize,
                ..self
            },
            Technique::HiddenTriples => MethodCounts {
                hidden_triples: (self.hidden_triples + 1) as usize,
                ..self
            },
            Technique::XWing => MethodCounts { x_wing: (self.x_wing + 1) as usize, ..self },
            Technique::YWing => MethodCounts { y_wing: (self.y_wing + 1) as usize, ..self },
        }
    }

    /// The tally in which no technique has been used.
    pub open spec fn none() -> MethodCounts {
        MethodCounts {
            singles: 0,
            naked_pairs: 0,
            naked_triples: 0,
            hidden_pairs: 0,
            hidden_triples: 0,
            x_wing: 0,
            y_wing: 0,
        }
    }

    /// The tally in which no technique has been used.
    pub fn zero() -> (counts: MethodCounts)
        ensures
            counts == MethodCounts::none(),
    {
        MethodCounts {
            singles: 0,
            naked_pairs: 0,
            naked_triples: 0,
            hidden_pairs: 0,
            hidden_triples: 0,
            x_wing: 0,
            y_wing: 0,
        }
    }

    /// The count of technique `t`.
    pub fn get(&self, t: Technique) -> (n: usize)
        ensures
            n == self.count(t),
    {
        match t {
            Technique::Singles => self.singles,
            Technique::NakedPairs => self.naked_pairs,
            Technique::NakedTriples => self.naked_triples,
            Technique::HiddenPairs => self.hidden_pairs,
            Technique::HiddenTriples => self.hidden_triples,
            Technique::XWing => self.x_wing,
            Technique::YWing => self.y_wing,
        }
    }

    /// Counts one more use of technique `t`.
    pub fn credit(&self, t: Technique) -> (counts: MethodCounts)
        requires
            self.count(t) < usize::MAX,
        ensures
            counts == self.credited(t),
    {
        match t {
            Technique::Singles => MethodCounts { singles: self.singles + 1, ..*self },
            Technique::NakedPairs => MethodCounts { naked_pairs: self.naked_pairs + 1, ..*self },
            Technique::NakedTriples => MethodCounts {
                naked_triples: self.naked_triples + 1,
                ..*self
            },
            Technique::HiddenPairs => MethodCounts {
                hidden_pairs: self.hidden_pairs + 1,
                ..*self
            },
            Technique::HiddenTriples => MethodCounts {
                hidden_triples: self.hidden_triples + 1,
                ..*self
            },
            Technique::XWing => MethodCounts { x_wing: self.x_wing + 1, ..*self },
            Technique::YWing => MethodCounts { y_wing: self.y_wing + 1, ..*self },
        }
    }
}

/// The largest potential a board can have: nine candidates and one empty cell, 81 times.
pub open spec fn max_potential() -> nat {
    810
}

/// What cell `k` adds to the potential: its candidates, and one more while it is empty.
pub open spec fn cell_weight(grid: Seq<u8>, cands: Seq<Set<u8>>, k: int) -> nat {
    cands[k].len() + if grid[k] == 0 {
        1nat
    } else {
        0nat
    }
}

/// The weights of the cells before `n`, added up.
pub open spec fn weight_below(grid: Seq<u8>, cands: Seq<Set<u8>>, n: int) -> nat
    decreases n,
{
    if n <= 0 {
        0
    } else {
        weight_below(grid, cands, n - 1) + cell_weight(grid, cands, n - 1)
    }
}

/// A board as the contracts see it.
pub struct BoardView {
    /// The 81 cell values in row-major order, 0 for an empty cell.
    pub grid: Seq<u8>,
    /// The candidate set of each cell.
    pub cands: Seq<Set<u8>>,
    /// The tally of techniques.
    pub counts: MethodCounts,
    /// Whether a propagation pass includes the Y-Wing technique.
    pub y_wing: bool,
}

impl BoardView {
    /// Whether digit `d` is a candidate of cell `k`.
    pub open spec fn has(self, k: int, d: u8) -> bool {
        self.cands[k].contains(d)
    }

    /// The board has 81 cells, and candidates are digits.
    pub open spec fn shaped(self) -> bool {
        &&& self.grid.len() == 81
        &&& self.cands.len() == 81
        &&& forall|k: int| is_cell(k) ==> only_digits(#[trigger] self.cands[k])
    }

    /// The candidate sets agree with the grid: a filled cell has no candidates, and no
    /// candidate of a cell is a value that one of its peers holds.
    pub open spec fn consistent(self) -> bool {
        &&& self.shaped()
        &&& forall|k: int|
            #![trigger self.cands[k]]
            #![trigger self.grid[k]]
            is_cell(k) && self.grid[k] != 0 ==> self.cands[k] == Set::<u8>::empty()
        &&& forall|k: int, j: int| #[trigger]
            peers(k, j) && self.grid[j] != 0 ==> !self.cands[k].contains(self.grid[j])
    }

    /// What cell `k` adds to the potential: its candidates, and one more while it is empty.
    pub open spec fn cell_weight(self, k: int) -> nat {
        cell_weight(self.grid, self.cands, k)
    }

    /// The work that is left on the board: the number of candidates plus the number of empty
    /// cells. Every change that a technique makes lowers it.
    pub open spec fn potential(self) -> nat {
        weight_below(self.grid, self.cands, 81)
    }

    /// Whether cell `k` differs between this board and `next`, in value or in candidates.
    pub open spec fn differs_at(self, next: BoardView, k: int) -> bool {
        next.cands[k] != self.cands[k] || next.grid[k] != self.grid[k]
    }

    /// No candidate set excludes the digit that a solution of the puzzle has in that cell.
    pub open spec fn faithful(self) -> bool {
        forall|s: Seq<u8>| #[trigger] solves(self.grid, s) ==> self.admits(s)
    }

    /// The invariant of a board: it is consistent and faithful, and no technique has been
    /// counted more often than the potential it has used up.
    pub open spec fn wf(self) -> bool {
        &&& self.consistent()
        &&& self.faithful()
        &&& forall|t: Technique| #[trigger] self.counts.count(t) + self.potential() <= max_potential()
    }

    /// Whether the solved grid `s` is still possible: it agrees with every placed value, and
    /// in every empty cell its digit is still a candidate.
    pub open spec fn admits(self, s: Seq<u8>) -> bool {
        &&& valid_solution(s)
        &&& forall|k: int|
            #![trigger self.cands[k]]
            #![trigger self.grid[k]]
            #![trigger s[k]]
            is_cell(k) ==> if self.grid[k] != 0 {
                s[k] == self.grid[k]
            } else {
                self.cands[k].contains(s[k])
            }
    }

    /// Whether `next` came from this board by filling cells and dropping candidates only.
    pub open spec fn narrows_to(self, next: BoardView) -> bool {
        &&& forall|k: int|
            #![trigger next.cands[k]]
            #![trigger self.cands[k]]
            is_cell(k) ==> next.cands[k].subset_of(self.cands[k])
        &&& forall|k: int|
            #![trigger next.grid[k]]
            #![trigger self.grid[k]]
            is_cell(k) && self.grid[k] != 0 ==> next.grid[k] == self.grid[k]
    }

    /// The board with technique `t` counted once more.
    pub open spec fn credited(self, t: Technique) -> BoardView {
        BoardView { counts: self.counts.credited(t), ..self }
    }

    /// The board after digit `v` has been placed in cell `k`: the cell is filled and has no
    /// candidates left, and `v` is no candidate of any peer.
    pub open spec fn assign(self, k: int, v: u8) -> BoardView {
        BoardView {
            grid: self.grid.update(k, v),
            cands: Seq::new(
                81,
                |j: int|
                    if j == k {
                        Set::<u8>::empty()
                    } else if peers(k, j) {
                        self.cands[j].remove(v)
                    } else {
                        self.cands[j]
                    },
            ),
            ..self
        }
    }

    /// The candidates that the grid alone leaves to cell `k`: none for a filled cell, else
    /// every digit that no peer holds.
    pub open spec fn fresh_candidates(grid: Seq<u8>, k: int) -> Set<u8> {
        if grid[k] != 0 {
            Set::<u8>::empty()
        } else {
            Set::new(|d: u8| is_digit(d) && forall|j: int| peers(k, j) ==> #[trigger] grid[j] != d)
        }
    }

    /// The board on which a solve of the puzzle `grid` starts: the candidates are those that
    /// the grid leaves, no technique has been counted and Y-Wing is off.
    pub open spec fn opening(grid: Seq<u8>) -> BoardView {
        BoardView {
            grid,
            cands: Seq::new(81, |k: int| BoardView::fresh_candidates(grid, k)),
            counts: MethodCounts::none(),
            y_wing: false,
        }
    }

    /// The board with every candidate set computed anew from the grid.
    pub open spec fn refreshed(self) -> BoardView {
        BoardView {
            cands: Seq::new(81, |k: int| BoardView::fresh_candidates(self.grid, k)),
            ..self
        }
    }

    /// A board stays faithful when it is narrowed in a way that keeps possible every solution
    /// that agrees with the new grid.
    pub proof fn lemma_faithful_kept(self, next: BoardView)
        requires
            self.faithful(),
            self.narrows_to(next),
            self.grid.len() == 81,
            next.grid.len() == 81,
            forall|s: Seq<u8>| self.admits(s) && #[trigger] solves(next.grid, s) ==> next.admits(s),
        ensures
            next.faithful(),
    {
        assert forall|s: Seq<u8>| #[trigger] solves(next.grid, s) implies next.admits(s) by {
            assert forall|k: int| is_cell(k) && #[trigger] self.grid[k] != 0 implies s[k]
                == self.grid[k] by {
                assert(next.grid[k] == self.grid[k]);
            }
            assert(solves(self.grid, s));
        }
    }

    /// A cell weighs at most ten.
    pub proof fn lemma_cell_weight(self, k: int)
        requires
            self.shaped(),
            is_cell(k),
        ensures
            self.cell_weight(k) <= 10,
    {
        lemma_digit_count(self.cands[k]);
    }

    /// The weight of the first `n` cells is at most ten each.
    pub proof fn lemma_weight_bound(self, n: int)
        requires
            self.shaped(),
            0 <= n <= 81,
        ensures
            weight_below(self.grid, self.cands, n) <= 10 * n,
        decreases n,
    {
        if n > 0 {
            self.lemma_weight_bound(n - 1);
            self.lemma_cell_weight(n - 1);
        }
    }

    /// Narrowing a cell does not raise its weight, and lowers it where the cell changes.
    pub proof fn lemma_cell_narrows(self, next: BoardView, k: int)
        requires
            self.shaped(),
            next.shaped(),
            self.narrows_to(next),
            is_cell(k),
        ensures
            next.cell_weight(k) <= self.cell_weight(k),
            self.differs_at(next, k) ==> next.cell_weight(k) < self.cell_weight(k),
    {
        assert(next.cands[k].subset_of(self.cands[k]));
        lemma_digit_subset(next.cands[k], self.cands[k]);
    }

    /// Narrowing the first `n` cells does not raise their weight, and lowers it where one of
    /// them changes.
    pub proof fn lemma_weight_narrows(self, next: BoardView, n: int)
        requires
            self.shaped(),
            next.shaped(),
            self.narrows_to(next),
            0 <= n <= 81,
        ensures
            weight_below(next.grid, next.cands, n) <= weight_below(self.grid, self.cands, n),
            forall|k: int|
                0 <= k < n && #[trigger] self.differs_at(next, k) ==> weight_below(
                    next.grid,
                    next.cands,
                    n,
                ) < weight_below(self.grid, self.cands, n),
        decreases n,
    {
        if n > 0 {
            self.lemma_weight_narrows(next, n - 1);
            self.lemma_cell_narrows(next, n - 1);
        }
    }

    /// Narrowing a board lowers its potential unless it leaves grid and candidates as they
    /// were.
    pub proof fn lemma_narrowing(self, next: BoardView)
        requires
            self.shaped(),
            next.shaped(),
            self.narrows_to(next),
        ensures
            next.potential() <= self.potential(),
            self.potential() <= max_potential(),
            next.grid == self.grid && next.cands == self.cands ==> next.potential()
                == self.potential(),
            next.grid != self.grid || next.cands != self.cands ==> next.potential()
                < self.potential(),
    {
        self.lemma_weight_narrows(next, 81);
        self.lemma_weight_bound(81);
        if next.grid != self.grid {
            assert(!(next.grid =~= self.grid));
            let k = choose|k: int| 0 <= k < 81 && next.grid[k] != self.grid[k];
            assert(self.differs_at(next, k));
        }
        if next.cands != self.cands {
            assert(!(next.cands =~= self.cands));
            let k = choose|k: int| 0 <= k < 81 && next.cands[k] != self.cands[k];
            assert(self.differs_at(next, k));
        }
    }
}

} // verus!
