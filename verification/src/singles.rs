//! Singles: a cell with exactly one candidate takes that digit.

use crate::board::SudokuBoard;
use crate::digits::{is_digit, lemma_one_member, lemma_some_member};
use crate::model::{max_potential, BoardView, Technique};
use crate::rules::conflict_free;
use crate::topology::{cell_at, is_cell, peers};
use vstd::prelude::*;

verus! {

impl BoardView {
    /// Whether cell `k` is empty and has exactly one candidate.
    pub open spec fn is_single(self, k: int) -> bool {
        self.grid[k] == 0 && self.cands[k].len() == 1
    }

    /// The candidate of a cell that has exactly one.
    pub open spec fn the_single(self, k: int) -> u8 {
        choose|d: u8| self.cands[k].contains(d)
    }

    /// The board after cell `k` has taken its digit, if it has exactly one candidate.
    pub open spec fn settled(self, k: int) -> BoardView {
        if self.is_single(k) {
            self.assign(k, self.the_single(k))
        } else {
            self
        }
    }

    /// The board after the cells before `n` have been visited in row-major order, each
    /// taking its digit if it has exactly one candidate when its turn comes.
    pub open spec fn swept(self, n: int) -> BoardView
        decreases n,
    {
        if n <= 0 {
            self
        } else {
            self.swept(n - 1).settled(n - 1)
        }
    }

    /// The board after sweeps over all cells have been repeated until one placed nothing.
    pub open spec fn singles_done(self) -> BoardView
        decreases self.potential(),
    {
        let next = self.swept(81);
        if next.potential() < self.potential() {
            next.singles_done()
        } else {
            next
        }
    }

    /// The board after one use of Singles, counted in the tally if it placed any digit.
    pub open spec fn singles_applied(self) -> BoardView {
        let done = self.singles_done();
        if done.grid != self.grid {
            done.credited(Technique::Singles)
        } else {
            done
        }
    }

    /// Whether some empty cell of this board is filled in `next`.
    pub open spec fn filled_more(self, next: BoardView) -> bool {
        exists|k: int| is_cell(k) && #[trigger] self.grid[k] == 0 && next.grid[k] != 0
    }

    /// Narrowing a narrowed board narrows the first one.
    pub proof fn lemma_narrows_twice(self, mid: BoardView, next: BoardView)
        requires
            self.narrows_to(mid),
            mid.narrows_to(next),
        ensures
            self.narrows_to(next),
            self.filled_more(mid) ==> self.filled_more(next),
    {
        assert forall|k: int| is_cell(k) implies (#[trigger] next.cands[k]).subset_of(
            self.cands[k],
        ) by {
            assert(mid.cands[k].subset_of(self.cands[k]));
        }
        assert forall|k: int| is_cell(k) && #[trigger] self.grid[k] != 0 implies next.grid[k]
            == self.grid[k] by {
            assert(mid.grid[k] == self.grid[k]);
        }
        if self.filled_more(mid) {
            let k = choose|k: int| is_cell(k) && #[trigger] self.grid[k] == 0 && mid.grid[k] != 0;
            assert(next.grid[k] == mid.grid[k]);
        }
    }

    /// The one candidate of a cell is a digit, and a possible solution has it there.
    pub proof fn lemma_the_single(self, k: int)
        requires
            self.shaped(),
            is_cell(k),
            self.is_single(k),
        ensures
            is_digit(self.the_single(k)),
            self.cands[k].contains(self.the_single(k)),
            forall|d: u8| self.cands[k].contains(d) ==> d == self.the_single(k),
    {
        let d = lemma_some_member(self.cands[k]);
        assert forall|e: u8| self.cands[k].contains(e) implies e == self.the_single(k) by {
            lemma_one_member(self.cands[k], e, self.the_single(k));
        }
    }

    /// Letting a cell take its one candidate keeps the board well formed and every possible
    /// solution possible, and a conflict-free grid conflict-free.
    pub proof fn lemma_settled(self, k: int)
        requires
            self.wf(),
            is_cell(k),
        ensures
            self.settled(k).wf(),
            self.narrows_to(self.settled(k)),
            self.is_single(k) ==> self.settled(k).potential() < self.potential()
                && self.filled_more(self.settled(k)),
            !self.is_single(k) ==> self.settled(k) == self,
            self.settled(k).counts == self.counts,
            self.settled(k).y_wing == self.y_wing,
            forall|s: Seq<u8>| self.admits(s) ==> self.settled(k).admits(s),
            conflict_free(self.grid) ==> conflict_free(self.settled(k).grid),
    {
        if self.is_single(k) {
            let v = self.the_single(k);
            let next = self.assign(k, v);
            self.lemma_the_single(k);
            self.lemma_assign(k, v);
            assert(self.grid[k] == 0 && next.grid[k] != 0);
            assert forall|s: Seq<u8>| self.admits(s) implies next.admits(s) by {
                assert(self.cands[k].contains(s[k]));
                self.lemma_assign_admits(k, v, s);
            }
            if conflict_free(self.grid) {
                assert forall|a: int, b: int| peers(a, b) && #[trigger] next.grid[a] != 0 implies next.grid[a]
                    != #[trigger] next.grid[b] by {
                    if a == k {
                        assert(peers(k, b));
                        if self.grid[b] != 0 {
                            assert(!self.cands[k].contains(self.grid[b]));
                        }
                    } else if b == k {
                        assert(peers(k, a));
                        assert(!self.cands[k].contains(self.grid[a]));
                    } else {
                        assert(self.grid[a] != self.grid[b]);
                    }
                }
                assert forall|j: int| is_cell(j) implies #[trigger] next.grid[j] <= 9 by {
                    if j != k {
                        assert(self.grid[j] <= 9);
                    }
                }
            }
        }
    }

    /// A sweep keeps the board well formed, only narrows it, and keeps every possible
    /// solution possible. It changes the board just when it fills a cell, and then lowers
    /// the potential.
    pub proof fn lemma_swept(self, n: int)
        requires
            self.wf(),
            0 <= n <= 81,
        ensures
            self.swept(n).wf(),
            self.narrows_to(self.swept(n)),
            self.swept(n).potential() <= self.potential(),
            self.swept(n) != self ==> self.swept(n).potential() < self.potential()
                && self.filled_more(self.swept(n)),
            self.swept(n).counts == self.counts,
            self.swept(n).y_wing == self.y_wing,
            forall|s: Seq<u8>| self.admits(s) ==> self.swept(n).admits(s),
            conflict_free(self.grid) ==> conflict_free(self.swept(n).grid),
        decreases n,
    {
        if n > 0 {
            let mid = self.swept(n - 1);
            self.lemma_swept(n - 1);
            mid.lemma_settled(n - 1);
            self.lemma_narrows_twice(mid, mid.settled(n - 1));
        }
    }

    /// Singles keeps the board well formed, only narrows it, and keeps every possible
    /// solution possible. It changes the board just when it fills a cell. On the board that
    /// it leaves, a further sweep places nothing.
    pub proof fn lemma_singles_done(self)
        requires
            self.wf(),
        ensures
            self.singles_done().wf(),
            self.narrows_to(self.singles_done()),
            self.singles_done().potential() <= self.potential(),
            self.singles_done() != self ==> self.singles_done().potential() < self.potential()
                && self.filled_more(self.singles_done()),
            self.singles_done().counts == self.counts,
            self.singles_done().y_wing == self.y_wing,
            self.singles_done().swept(81) == self.singles_done(),
            forall|s: Seq<u8>| self.admits(s) ==> self.singles_done().admits(s),
            conflict_free(self.grid) ==> conflict_free(self.singles_done().grid),
        decreases self.potential(),
    {
        let next = self.swept(81);
        self.lemma_swept(81);
        if next.potential() < self.potential() {
            next.lemma_singles_done();
            self.lemma_narrows_twice(next, next.singles_done());
        }
    }

    /// One use of Singles keeps the board well formed and every possible solution possible.
    pub proof fn lemma_singles_applied(self)
        requires
            self.wf(),
        ensures
            self.singles_applied().wf(),
            self.narrows_to(self.singles_applied()),
            self.singles_applied().potential() <= self.potential(),
            self.singles_applied() != self <==> self.singles_applied().potential()
                < self.potential(),
            self.singles_applied().grid != self.grid <==> self.singles_applied() != self,
            self.singles_applied().y_wing == self.y_wing,
            forall|s: Seq<u8>| self.admits(s) ==> self.singles_applied().admits(s),
            conflict_free(self.grid) ==> conflict_free(self.singles_applied().grid),
    {
        let done = self.singles_done();
        self.lemma_singles_done();
        if done != self {
            let k = choose|k: int| is_cell(k) && #[trigger] self.grid[k] == 0 && done.grid[k] != 0;
            assert(done.grid != self.grid);
            let counted = done.credited(Technique::Singles);
            assert forall|u: Technique|
                (#[trigger] counted.counts.count(u)) + counted.potential() <= max_potential() by {
                assert(self.counts.count(u) + self.potential() <= max_potential());
            }
        }
    }
}

impl SudokuBoard {
    /// Singles: every empty cell that has exactly one candidate takes that digit, in sweeps
    /// over the board in row-major order that are repeated until one places nothing.
    /// Returns whether any digit was placed; if so the use is counted in the tally.
    pub fn fill_single_candidates(&mut self) -> (changed: bool)
        requires
            old(self).wf(),
        ensures
            final(self).wf(),
            final(self)@ == old(self)@.singles_applied(),
            changed == (final(self)@.grid != old(self)@.grid),
            changed <==> final(self)@.potential() < old(self)@.potential(),
            forall|s: Seq<u8>| old(self)@.admits(s) ==> final(self)@.admits(s),
    {
        let mut changed = false;
        loop
            invariant
                self.wf(),
                self@.singles_done() == old(self)@.singles_done(),
                changed <==> self@.potential() < old(self)@.potential(),
                !changed ==> self@ == old(self)@,
                old(self)@.wf(),
            ensures
                self.wf(),
                self@ == old(self)@.singles_done(),
                changed <==> self@ != old(self)@,
            decreases self@.potential(),
        {
            let ghost before = self@;
            let mut progress = false;
            let mut k: usize = 0;
            while k < 81
                invariant
                    k <= 81,
                    self.wf(),
                    before.wf(),
                    self@ == before.swept(k as int),
                    progress <==> self@ != before,
                decreases 81 - k,
            {
                proof {
                    before.lemma_swept(k as int);
                    self@.lemma_settled(k as int);
                    before.lemma_swept(k + 1);
                }
                if self.grid[k] == 0 && self.candidates[k].len() == 1 {
                    let value = self.candidates[k].lowest();
                    proof {
                        self@.lemma_the_single(k as int);
                        assert(self@.cands[k as int].contains(value)) by {
                            if self@.cands[k as int] == Set::<u8>::empty() {
                                assert(self@.cands[k as int].len() == 0);
                            }
                        }
                        assert(cell_at((k / 9) as int, (k % 9) as int) == k);
                    }
                    self.set_value(k / 9, k % 9, value);
                    progress = true;
                }
                k = k + 1;
            }
            proof {
                before.lemma_swept(81);
                old(self)@.lemma_singles_done();
                before.lemma_singles_done();
            }
            if !progress {
                break;
            }
            changed = true;
        }
        proof {
            old(self)@.lemma_singles_done();
            old(self)@.lemma_singles_applied();
        }
        if changed {
            self.increment_method_count(Technique::Singles);
        }
        changed
    }
}

} // verus!
