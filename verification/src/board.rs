//! The board: cell values, candidate sets and the tally of techniques.

use crate::digits::{is_digit, only_digits, DigitSet};
use crate::model::{max_potential, BoardView, MethodCounts, Technique};
use crate::rules::{fits, is_full, solves};
use crate::topology::{
    cell_at, cell_index, col_of, is_cell, lemma_peer_at, lemma_peer_slot, peer_at, peer_slot,
    peers, row_of, Units,
};
use vstd::prelude::*;

verus! {

/// The 81 values of a grid given by rows, in row-major order.
pub open spec fn flatten(rows: [[u8; 9]; 9]) -> Seq<u8> {
    Seq::new(81, |k: int| rows[row_of(k)][col_of(k)])
}

/// A Sudoku board: the grid, the candidates of each cell, the geometry and the tally.
pub struct SudokuBoard {
    pub(crate) grid: Vec<u8>,
    pub(crate) method_counts: MethodCounts,
    pub(crate) units: Units,
    pub(crate) candidates: Vec<DigitSet>,
    pub(crate) y_wing: bool,
}

impl BoardView {
    /// Computing the candidates anew from the grid gives a consistent and faithful board.
    pub proof fn lemma_refreshed(self)
        requires
            self.grid.len() == 81,
        ensures
            self.refreshed().consistent(),
            self.refreshed().faithful(),
    {
        let next = self.refreshed();
        assert forall|s: Seq<u8>| #[trigger] solves(next.grid, s) implies next.admits(s) by {
            assert forall|k: int| is_cell(k) implies if next.grid[k] != 0 {
                s[k] == next.grid[k]
            } else {
                next.cands[k].contains(s[k])
            } by {
                if next.grid[k] == 0 {
                    assert(is_digit(s[k]));
                    assert forall|j: int| peers(k, j) implies #[trigger] self.grid[j] != s[k] by {
                        if self.grid[j] != 0 {
                            assert(s[j] == self.grid[j]);
                            assert(s[k] != s[j]);
                        }
                    }
                }
            }
        }
        assert forall|k: int, j: int| #[trigger]
            peers(k, j) && next.grid[j] != 0 implies !next.cands[k].contains(next.grid[j]) by {
            assert(next.cands[k] == BoardView::fresh_candidates(self.grid, k));
        }
    }

    /// Placing a digit in an empty cell, or once more in the cell that holds it, keeps the
    /// board well formed and only narrows it.
    pub proof fn lemma_assign(self, k: int, v: u8)
        requires
            self.wf(),
            is_cell(k),
            is_digit(v),
            self.grid[k] == 0 || self.grid[k] == v,
        ensures
            self.assign(k, v).wf(),
            self.narrows_to(self.assign(k, v)),
            self.grid[k] == 0 ==> self.assign(k, v).potential() < self.potential(),
            self.grid[k] == v ==> self.assign(k, v) == self,
    {
        let next = self.assign(k, v);
        assert(next.shaped());
        assert(self.narrows_to(next));
        assert forall|a: int, j: int| #[trigger]
            peers(a, j) && next.grid[j] != 0 implies !next.cands[a].contains(next.grid[j]) by {
            if a != k {
                if j == k {
                    assert(peers(k, a));
                } else {
                    assert(!self.cands[a].contains(self.grid[j]));
                }
            }
        }
        self.lemma_narrowing(next);
        if self.grid[k] == 0 {
            assert(next.grid[k] != self.grid[k]);
            assert(next.grid != self.grid);
        }
        if self.grid[k] == v {
            assert(next.grid =~= self.grid);
            assert forall|j: int| 0 <= j < 81 implies next.cands[j] == self.cands[j] by {
                if j == k {
                } else if peers(k, j) {
                    assert(peers(j, k));
                    assert(!self.cands[j].contains(self.grid[k]));
                    assert(self.cands[j].remove(v) =~= self.cands[j]);
                }
            }
            assert(next.cands =~= self.cands);
        }
        assert forall|j: int| is_cell(j) && next.grid[j] != 0 implies next.cands[j]
            == Set::<u8>::empty() by {
            if j != k {
                assert(self.cands[j] == Set::<u8>::empty());
                assert(self.cands[j].remove(v) =~= Set::<u8>::empty());
            }
        }
        assert(next.consistent());
        assert forall|s: Seq<u8>| self.admits(s) && #[trigger] solves(next.grid, s) implies next.admits(
            s,
        ) by {
            assert(s[k] == next.grid[k]);
            self.lemma_assign_admits(k, v, s);
        }
        self.lemma_faithful_kept(next);
        assert forall|t: Technique|
            (#[trigger] next.counts.count(t)) + next.potential() <= max_potential() by {
            assert(self.counts.count(t) + self.potential() <= max_potential());
        }
    }

    /// Placing the digit that a solved grid has in a cell keeps that grid possible.
    pub proof fn lemma_assign_admits(self, k: int, v: u8, s: Seq<u8>)
        requires
            self.shaped(),
            is_cell(k),
            self.admits(s),
            s[k] == v,
        ensures
            self.assign(k, v).admits(s),
    {
        let next = self.assign(k, v);
        assert forall|j: int| is_cell(j) implies if next.grid[j] != 0 {
            s[j] == next.grid[j]
        } else {
            next.cands[j].contains(s[j])
        } by {
            if j != k && peers(k, j) {
                assert(s[k] != s[j]);
            }
        }
    }
}

impl Clone for SudokuBoard {
    fn clone(&self) -> (copy: SudokuBoard)
        ensures
            copy@ == self@,
            self.wf() ==> copy.wf(),
    {
        let copy = SudokuBoard {
            grid: self.grid.clone(),
            method_counts: self.method_counts,
            units: self.units.clone(),
            candidates: self.candidates.clone(),
            y_wing: self.y_wing,
        };
        proof {
            assert(copy.grid@ =~= self.grid@);
            assert(copy.candidates@ =~= self.candidates@);
            assert(copy@.cands =~= self@.cands);
        }
        copy
    }
}

impl SudokuBoard {
    /// The board as the contracts see it.
    pub open(crate) spec fn view(&self) -> BoardView {
        BoardView {
            grid: self.grid@,
            cands: Seq::new(81, |k: int| self.candidates@[k]@),
            counts: self.method_counts,
            y_wing: self.y_wing,
        }
    }

    /// The tables have their sizes and the geometry is in place.
    pub open(crate) spec fn shaped(&self) -> bool {
        &&& self.grid@.len() == 81
        &&& self.candidates@.len() == 81
        &&& self.units.wf()
    }

    /// The invariant of a board, which every constructor establishes and every method keeps.
    pub open(crate) spec fn wf(&self) -> bool {
        self.shaped() && self@.wf()
    }

    /// The view of a board of the right shape is shaped.
    pub(crate) proof fn lemma_shaped(&self)
        requires
            self.shaped(),
        ensures
            self@.shaped(),
    {
        assert forall|k: int| is_cell(k) implies only_digits(
            #[trigger] self@.cands[k],
        ) by {
            self.candidates@[k].lemma_view();
        }
    }

    /// An empty board: no cell is filled and every digit is a candidate everywhere.
    pub fn new() -> (board: SudokuBoard)
        ensures
            board.wf(),
            board@ == BoardView::opening(Seq::new(81, |k: int| 0u8)),
    {
        let rows = [[0u8; 9]; 9];
        let board = SudokuBoard::from(rows);
        assert(flatten(rows) =~= Seq::new(81, |k: int| 0u8));
        board
    }

    /// The board of the puzzle that `rows` gives, 0 standing for an empty cell. The
    /// candidates are those that the grid leaves, the tally is empty and Y-Wing is off.
    pub fn from(rows: [[u8; 9]; 9]) -> (board: SudokuBoard)
        ensures
            board.wf(),
            board@ == BoardView::opening(flatten(rows)),
    {
        let mut grid: Vec<u8> = Vec::new();
        let mut candidates: Vec<DigitSet> = Vec::new();
        let mut k: usize = 0;
        while k < 81
            invariant
                k <= 81,
                grid@.len() == k,
                candidates@.len() == k,
                forall|j: int| 0 <= j < k ==> #[trigger] grid@[j] == flatten(rows)[j],
            decreases 81 - k,
        {
            grid.push(rows[k / 9][k % 9]);
            candidates.push(DigitSet::empty());
            k = k + 1;
        }
        let mut board = SudokuBoard {
            grid,
            method_counts: MethodCounts::zero(),
            units: SudokuBoard::compute_units(),
            candidates,
            y_wing: false,
        };
        assert(board@.grid =~= flatten(rows));
        board.compute_candidates();
        proof {
            let b = board@;
            b.lemma_refreshed();
            assert(b.refreshed().cands =~= b.cands);
            b.lemma_narrowing(b);
        }
        board
    }

    /// Sets every candidate set to what the grid leaves: nothing for a filled cell, and for
    /// an empty one every digit that none of its peers holds.
    pub(crate) fn compute_candidates(&mut self)
        requires
            old(self).shaped(),
        ensures
            final(self).shaped(),
            final(self)@ == old(self)@.refreshed(),
            final(self)@.consistent(),
    {
        let mut k: usize = 0;
        while k < 81
            invariant
                k <= 81,
                self.shaped(),
                self.grid == old(self).grid,
                self.method_counts == old(self).method_counts,
                self.y_wing == old(self).y_wing,
                forall|j: int|
                    0 <= j < k ==> (#[trigger] self.candidates@[j])@ == BoardView::fresh_candidates(
                        self.grid@,
                        j,
                    ),
            decreases 81 - k,
        {
            let mut set = DigitSet::empty();
            if self.grid[k] == 0 {
                set = DigitSet::full();
                let mut j: usize = 0;
                while j < 20
                    invariant
                        j <= 20,
                        k < 81,
                        self.shaped(),
                        forall|d: u8|
                            #![trigger set@.contains(d)]
                            set@.contains(d) <==> is_digit(d) && unseen(
                                self.grid@,
                                k as int,
                                j as int,
                                d,
                            ),
                    decreases 20 - j,
                {
                    let c = self.units.peer(k, j);
                    let ghost before = set@;
                    set = set.without(self.grid[c]);
                    proof {
                        assert forall|d: u8|
                            #![trigger set@.contains(d)]
                            set@.contains(d) <==> is_digit(d) && unseen(
                                self.grid@,
                                k as int,
                                j + 1,
                                d,
                            ) by {
                            assert(before.contains(d) <==> is_digit(d) && unseen(
                                self.grid@,
                                k as int,
                                j as int,
                                d,
                            ));
                            if unseen(self.grid@, k as int, j + 1, d) {
                                assert(self.grid@[peer_at(k as int, j as int)] != d);
                            }
                        }
                    }
                    j = j + 1;
                }
                proof {
                    let fresh = BoardView::fresh_candidates(self.grid@, k as int);
                    assert forall|d: u8| set@.contains(d) == fresh.contains(d) by {
                        assert(set@.contains(d) <==> is_digit(d) && unseen(
                            self.grid@,
                            k as int,
                            20,
                            d,
                        ));
                        if set@.contains(d) {
                            assert forall|c: int| peers(k as int, c) implies #[trigger] self.grid@[c]
                                != d by {
                                lemma_peer_slot(k as int, c);
                                assert(self.grid@[peer_at(k as int, peer_slot(k as int, c))] != d);
                            }
                        }
                        if fresh.contains(d) {
                            assert forall|m: int| 0 <= m < 20 implies #[trigger] self.grid@[peer_at(
                                k as int,
                                m,
                            )] != d by {
                                lemma_peer_at(k as int, m);
                            }
                        }
                    }
                    assert(set@ =~= fresh);
                }
            }
            self.candidates[k] = set;
            k = k + 1;
        }
        proof {
            assert(self@.cands =~= old(self)@.refreshed().cands);
            old(self)@.lemma_refreshed();
        }
    }

    /// Counts one more use of technique `method`.
    pub(crate) fn increment_method_count(&mut self, method: Technique)
        requires
            old(self).method_counts.count(method) < usize::MAX,
        ensures
            final(self)@ == old(self)@.credited(method),
            final(self).grid == old(self).grid,
            final(self).candidates == old(self).candidates,
            final(self).units == old(self).units,
    {
        self.method_counts = self.method_counts.credit(method);
    }

    /// Places `value` in the cell of row `row` and column `col`: the cell loses its
    /// candidates, and `value` is no longer a candidate of any peer. Placing the value that
    /// the cell already holds changes nothing.
    pub fn set_value(&mut self, row: usize, col: usize, value: u8)
        requires
            old(self).wf(),
            row < 9,
            col < 9,
            is_digit(value),
            old(self)@.grid[cell_at(row as int, col as int)] == 0 || old(self)@.grid[cell_at(
                row as int,
                col as int,
            )] == value,
        ensures
            final(self).wf(),
            final(self)@ == old(self)@.assign(cell_at(row as int, col as int), value),
            old(self)@.grid[cell_at(row as int, col as int)] == value ==> final(self)@ == old(
                self,
            )@,
    {
        let k = cell_index(row, col);
        self.grid[k] = value;
        self.candidates[k] = DigitSet::empty();
        let mut j: usize = 0;
        while j < 20
            invariant
                j <= 20,
                k < 81,
                self.shaped(),
                old(self).shaped(),
                self.grid@ == old(self).grid@.update(k as int, value),
                self.method_counts == old(self).method_counts,
                self.y_wing == old(self).y_wing,
                forall|x: int|
                    is_cell(x) ==> (#[trigger] self.candidates@[x])@ == (if x == k {
                        Set::<u8>::empty()
                    } else if peers(k as int, x) && peer_slot(k as int, x) < j {
                        old(self).candidates@[x]@.remove(value)
                    } else {
                        old(self).candidates@[x]@
                    }),
            decreases 20 - j,
        {
            let c = self.units.peer(k, j);
            let narrowed = self.candidates[c].without(value);
            proof {
                lemma_peer_at(k as int, j as int);
                assert forall|x: int| peers(k as int, x) && x != c implies peer_slot(k as int, x)
                    != j by {
                    lemma_peer_slot(k as int, x);
                }
            }
            self.candidates[c] = narrowed;
            j = j + 1;
        }
        proof {
            let next = old(self)@.assign(k as int, value);
            assert forall|x: int| 0 <= x < 81 implies self@.cands[x] == next.cands[x] by {
                if peers(k as int, x) {
                    lemma_peer_slot(k as int, x);
                }
            }
            assert(self@.cands =~= next.cands);
            old(self)@.lemma_assign(k as int, value);
        }
    }

    /// Whether no cell is empty.
    pub fn is_solved(&self) -> (full: bool)
        requires
            self.wf(),
        ensures
            full == is_full(self@.grid),
    {
        let mut k: usize = 0;
        while k < 81
            invariant
                k <= 81,
                self.grid@.len() == 81,
                forall|j: int| 0 <= j < k ==> #[trigger] self.grid@[j] != 0,
            decreases 81 - k,
        {
            if self.grid[k] == 0 {
                return false;
            }
            k = k + 1;
        }
        true
    }

    /// Whether `num` stands nowhere in the row, the column and the box of the cell in row
    /// `row` and column `col`, the cell itself included.
    pub fn is_valid(&self, row: usize, col: usize, num: u8) -> (ok: bool)
        requires
            self.wf(),
            row < 9,
            col < 9,
        ensures
            ok == fits(self@.grid, cell_at(row as int, col as int), num),
    {
        let k = cell_index(row, col);
        grid_fits(&self.grid, &self.units, k, num)
    }

    /// The first empty cell in row-major order, as row and column.
    pub fn find_empty(&self) -> (found: Option<(usize, usize)>)
        requires
            self.wf(),
        ensures
            match found {
                Some((row, col)) => {
                    &&& row < 9
                    &&& col < 9
                    &&& first_empty(self@.grid, cell_at(row as int, col as int))
                },
                None => is_full(self@.grid),
            },
    {
        match grid_find_empty(&self.grid, 0) {
            Some(k) => Some((k / 9, k % 9)),
            None => None,
        }
    }

    /// The value of the cell in row `row` and column `col`, 0 for an empty cell.
    pub fn value(&self, row: usize, col: usize) -> (v: u8)
        requires
            self.wf(),
            row < 9,
            col < 9,
        ensures
            v == self@.grid[cell_at(row as int, col as int)],
    {
        self.grid[cell_index(row, col)]
    }

    /// The candidate set of the cell in row `row` and column `col`.
    pub fn candidates(&self, row: usize, col: usize) -> (set: DigitSet)
        requires
            self.wf(),
            row < 9,
            col < 9,
        ensures
            set@ == self@.cands[cell_at(row as int, col as int)],
    {
        self.candidates[cell_index(row, col)]
    }

    /// How often each technique has changed the board.
    pub fn method_counts(&self) -> (counts: MethodCounts)
        ensures
            counts == self@.counts,
    {
        self.method_counts
    }

    /// Whether a propagation pass includes the Y-Wing technique.
    pub fn uses_y_wing(&self) -> (on: bool)
        ensures
            on == self@.y_wing,
    {
        self.y_wing
    }

    /// Switches the Y-Wing technique on or off for the propagation passes to come.
    pub fn set_y_wing(&mut self, on: bool)
        requires
            old(self).wf(),
        ensures
            final(self).wf(),
            final(self)@ == (BoardView { y_wing: on, ..old(self)@ }),
    {
        self.y_wing = on;
    }
}

/// Whether none of the first `j` peers of cell `k` holds `d`.
pub open spec fn unseen(grid: Seq<u8>, k: int, j: int, d: u8) -> bool {
    forall|m: int| 0 <= m < j ==> #[trigger] grid[peer_at(k, m)] != d
}

/// Whether `k` is the first empty cell of `grid` in row-major order.
pub open spec fn first_empty(grid: Seq<u8>, k: int) -> bool {
    &&& is_cell(k)
    &&& grid[k] == 0
    &&& forall|j: int| 0 <= j < k ==> #[trigger] grid[j] != 0
}

/// Whether `num` stands neither in cell `k` nor in any of its peers.
pub(crate) fn grid_fits(grid: &Vec<u8>, units: &Units, k: usize, num: u8) -> (ok: bool)
    requires
        grid@.len() == 81,
        units.wf(),
        k < 81,
    ensures
        ok == fits(grid@, k as int, num),
{
    if grid[k] == num {
        return false;
    }
    let mut j: usize = 0;
    while j < 20
        invariant
            j <= 20,
            k < 81,
            grid@.len() == 81,
            units.wf(),
            grid@[k as int] != num,
            forall|m: int| 0 <= m < j ==> #[trigger] grid@[peer_at(k as int, m)] != num,
        decreases 20 - j,
    {
        let c = units.peer(k, j);
        if grid[c] == num {
            return false;
        }
        j = j + 1;
    }
    proof {
        assert forall|c: int| peers(k as int, c) implies #[trigger] grid@[c] != num by {
            lemma_peer_slot(k as int, c);
            assert(grid@[peer_at(k as int, peer_slot(k as int, c))] != num);
        }
    }
    true
}

/// The digits that the peers of cell `k` hold.
pub(crate) fn peer_values(grid: &Vec<u8>, units: &Units, k: usize) -> (seen: DigitSet)
    requires
        grid@.len() == 81,
        units.wf(),
        k < 81,
    ensures
        forall|d: u8|
            #![trigger seen@.contains(d)]
            is_digit(d) ==> (seen@.contains(d) <==> !(forall|j: int|
                peers(k as int, j) ==> #[trigger] grid@[j] != d)),
{
    let mut seen = DigitSet::empty();
    let mut j: usize = 0;
    while j < 20
        invariant
            j <= 20,
            k < 81,
            grid@.len() == 81,
            units.wf(),
            forall|d: u8|
                #![trigger seen@.contains(d)]
                seen@.contains(d) <==> is_digit(d) && !unseen(grid@, k as int, j as int, d),
        decreases 20 - j,
    {
        let c = units.peer(k, j);
        let ghost before = seen@;
        seen = seen.with(grid[c]);
        proof {
            assert forall|d: u8|
                #![trigger seen@.contains(d)]
                seen@.contains(d) <==> is_digit(d) && !unseen(grid@, k as int, j + 1, d) by {
                assert(before.contains(d) <==> is_digit(d) && !unseen(grid@, k as int, j as int, d));
                if unseen(grid@, k as int, j + 1, d) {
                    assert(grid@[peer_at(k as int, j as int)] != d);
                    assert(unseen(grid@, k as int, j as int, d));
                }
                if !unseen(grid@, k as int, j + 1, d) && unseen(grid@, k as int, j as int, d) {
                    assert(grid@[peer_at(k as int, j as int)] == d);
                }
            }
        }
        j = j + 1;
    }
    proof {
        assert forall|d: u8|
            #![trigger seen@.contains(d)]
            is_digit(d) implies (seen@.contains(d) <==> !(forall|j: int|
                peers(k as int, j) ==> #[trigger] grid@[j] != d)) by {
            assert(seen@.contains(d) <==> is_digit(d) && !unseen(grid@, k as int, 20, d));
            if unseen(grid@, k as int, 20, d) {
                assert forall|c: int| peers(k as int, c) implies #[trigger] grid@[c] != d by {
                    lemma_peer_slot(k as int, c);
                    assert(grid@[peer_at(k as int, peer_slot(k as int, c))] != d);
                }
            }
            if forall|c: int| peers(k as int, c) ==> #[trigger] grid@[c] != d {
                assert forall|m: int| 0 <= m < 20 implies #[trigger] grid@[peer_at(k as int, m)]
                    != d by {
                    lemma_peer_at(k as int, m);
                }
            }
        }
    }
    seen
}

/// The first empty cell of `grid` in row-major order, none of the cells before `from` being
/// empty.
pub(crate) fn grid_find_empty(grid: &Vec<u8>, from: usize) -> (found: Option<usize>)
    requires
        grid@.len() == 81,
        from <= 81,
        forall|j: int| 0 <= j < from ==> #[trigger] grid@[j] != 0,
    ensures
        match found {
            Some(k) => first_empty(grid@, k as int) && from <= k,
            None => is_full(grid@),
        },
{
    let mut k: usize = from;
    while k < 81
        invariant
            k <= 81,
            from <= k,
            grid@.len() == 81,
            forall|j: int| 0 <= j < k ==> #[trigger] grid@[j] != 0,
        decreases 81 - k,
    {
        if grid[k] == 0 {
            return Some(k);
        }
        k = k + 1;
    }
    None
}

} // verus!
