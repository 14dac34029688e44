//! The elimination techniques: each takes away, in one sweep over the board, every
//! candidate that its pattern excludes on the board as it stood before the sweep.

use crate::board::SudokuBoard;
use crate::digits::{only_digits, DigitSet};
use crate::model::{max_potential, BoardView, Technique};
use crate::topology::{is_cell, peers};
use vstd::prelude::*;

verus! {

impl BoardView {
    /// The board after a search for hidden subgroups of `size` digits: hidden pairs for 2,
    /// hidden triples for 3, and nothing for any other size. The tally stays as it is.
    pub open spec fn hidden_narrowed(self, size: int) -> BoardView {
        if size == 2 {
            self.narrowed(Technique::HiddenPairs)
        } else if size == 3 {
            self.narrowed(Technique::HiddenTriples)
        } else {
            self
        }
    }

    /// One use of a technique keeps the board well formed, only narrows it, lowers its
    /// potential if it changes anything, and keeps every possible solution possible.
    pub proof fn lemma_narrowed(self, t: Technique)
        requires
            self.wf(),
        ensures
            self.narrowed(t).wf(),
            self.applied(t).wf(),
            self.narrows_to(self.narrowed(t)),
            self.changed_by(t) ==> self.narrowed(t).potential() < self.potential(),
            !self.changed_by(t) ==> self.narrowed(t) == self,
            self.applied(t).potential() == self.narrowed(t).potential(),
            forall|s: Seq<u8>| self.admits(s) ==> self.narrowed(t).admits(s),
            forall|s: Seq<u8>| self.admits(s) ==> self.applied(t).admits(s),
    {
        let next = self.narrowed(t);
        assert forall|k: int| is_cell(k) implies only_digits(#[trigger] next.cands[k]) && (
        #[trigger] next.cands[k]).subset_of(self.cands[k]) by {
            assert(only_digits(self.cands[k]));
        }
        assert(next.shaped());
        assert(self.narrows_to(next));
        assert forall|k: int| is_cell(k) && next.grid[k] != 0 implies next.cands[k] == Set::<
            u8,
        >::empty() by {
            assert(self.cands[k] == Set::<u8>::empty());
            assert(next.cands[k] =~= Set::<u8>::empty());
        }
        assert forall|k: int, j: int| #[trigger]
            peers(k, j) && next.grid[j] != 0 implies !next.cands[k].contains(next.grid[j]) by {
            assert(!self.cands[k].contains(self.grid[j]));
        }
        assert(next.consistent());
        self.lemma_narrowing(next);
        assert forall|s: Seq<u8>| self.admits(s) implies next.admits(s) by {
            assert forall|k: int| is_cell(k) implies if next.grid[k] != 0 {
                s[k] == next.grid[k]
            } else {
                next.cands[k].contains(s[k])
            } by {
                if self.grid[k] == 0 {
                    assert(self.cands[k].contains(s[k]));
                    if self.excludes(t, k, s[k]) {
                        self.lemma_excludes_sound(t, s, k, s[k]);
                    }
                }
            }
        }
        self.lemma_faithful_kept(next);
        assert forall|u: Technique|
            (#[trigger] next.counts.count(u)) + next.potential() <= max_potential() by {
            assert(self.counts.count(u) + self.potential() <= max_potential());
        }
        if !self.changed_by(t) {
            assert(next == self);
        } else {
            let done = next.credited(t);
            assert forall|u: Technique|
                (#[trigger] done.counts.count(u)) + done.potential() <= max_potential() by {
                assert(self.counts.count(u) + self.potential() <= max_potential());
            }
        }
    }
}

impl SudokuBoard {
    /// Whether technique `t` takes digit `d` away from cell `k`.
    fn excludes(&self, t: Technique, k: usize, d: u8) -> (found: bool)
        requires
            self.wf(),
            k < 81,
        ensures
            found == self@.excludes(t, k as int, d),
    {
        match t {
            Technique::Singles => false,
            Technique::NakedPairs => self.naked_pair_excludes(k, d),
            Technique::NakedTriples => self.naked_triple_excludes(k, d),
            Technique::HiddenPairs => self.hidden_pair_excludes(k, d),
            Technique::HiddenTriples => self.hidden_triple_excludes(k, d),
            Technique::XWing => self.x_wing_excludes(k, d),
            Technique::YWing => self.y_wing_excludes(k, d),
        }
    }

    /// The candidates that technique `t` leaves to cell `k`.
    fn kept(&self, t: Technique, k: usize) -> (set: DigitSet)
        requires
            self.wf(),
            k < 81,
        ensures
            set@ == self@.kept(t, k as int),
    {
        let mut set = self.candidates[k];
        let mut d: u8 = 1;
        proof {
            self.lemma_shaped();
            assert(only_digits(self@.cands[k as int]));
        }
        while d <= 9
            invariant
                self.wf(),
                k < 81,
                1 <= d <= 10,
                forall|e: u8|
                    #![trigger set@.contains(e)]
                    set@.contains(e) <==> self@.cands[k as int].contains(e) && !(e < d
                        && self@.excludes(t, k as int, e)),
            decreases 10 - d,
        {
            if set.contains(d) && self.excludes(t, k, d) {
                set = set.without(d);
            }
            d = d + 1;
        }
        proof {
            self.lemma_shaped();
            assert forall|e: u8| set@.contains(e) == self@.kept(t, k as int).contains(e) by {
                if self@.cands[k as int].contains(e) {
                    assert(only_digits(self@.cands[k as int]));
                }
            }
            assert(set@ =~= self@.kept(t, k as int));
        }
        set
    }

    /// Takes away every candidate that technique `t` excludes, without counting the use.
    fn narrow(&mut self, t: Technique) -> (changed: bool)
        requires
            old(self).wf(),
        ensures
            final(self).wf(),
            final(self)@ == old(self)@.narrowed(t),
            changed == old(self)@.changed_by(t),
    {
        let mut next: Vec<DigitSet> = Vec::new();
        let mut changed = false;
        let mut k: usize = 0;
        while k < 81
            invariant
                self.wf(),
                *self == *old(self),
                k <= 81,
                next@.len() == k,
                forall|j: int| 0 <= j < k ==> (#[trigger] next@[j])@ == self@.kept(t, j),
                changed <==> exists|j: int| 0 <= j < k && #[trigger] self@.kept(t, j) != self@.cands[j],
            decreases 81 - k,
        {
            let set = self.kept(t, k);
            if !set.equals(&self.candidates[k]) {
                changed = true;
            }
            next.push(set);
            k = k + 1;
        }
        self.candidates = next;
        proof {
            let before = old(self)@;
            let after = before.narrowed(t);
            assert(self@.cands =~= after.cands);
            before.lemma_narrowed(t);
            if changed {
                let j = choose|j: int| 0 <= j < 81 && #[trigger] before.kept(t, j) != before.cands[j];
                assert(after.cands[j] != before.cands[j]);
            } else {
                assert(after.cands =~= before.cands);
            }
        }
        changed
    }

    /// Uses technique `t` once, and counts the use if it changed the board.
    pub(crate) fn apply(&mut self, t: Technique) -> (changed: bool)
        requires
            old(self).wf(),
        ensures
            final(self).wf(),
            final(self)@ == old(self)@.applied(t),
            changed == old(self)@.changed_by(t),
            changed <==> final(self)@.potential() < old(self)@.potential(),
            forall|s: Seq<u8>| old(self)@.admits(s) ==> final(self)@.admits(s),
    {
        let changed = self.narrow(t);
        proof {
            old(self)@.lemma_narrowed(t);
        }
        if changed {
            assert(self@.counts.count(t) + self@.potential() <= max_potential());
            self.increment_method_count(t);
        }
        changed
    }

    /// Naked pairs: where two cells of a unit hold the same two candidates, these two digits
    /// leave every other cell of the unit. Returns whether any candidate left.
    pub fn naked_pairs(&mut self) -> (changed: bool)
        requires
            old(self).wf(),
        ensures
            final(self).wf(),
            final(self)@ == old(self)@.applied(Technique::NakedPairs),
            changed == old(self)@.changed_by(Technique::NakedPairs),
            forall|s: Seq<u8>| old(self)@.admits(s) ==> final(self)@.admits(s),
    {
        self.apply(Technique::NakedPairs)
    }

    /// Naked triples: where three cells of a unit hold the same three candidates, these
    /// three digits leave every other cell of the unit. Returns whether any candidate left.
    pub fn naked_triples(&mut self) -> (changed: bool)
        requires
            old(self).wf(),
        ensures
            final(self).wf(),
            final(self)@ == old(self)@.applied(Technique::NakedTriples),
            changed == old(self)@.changed_by(Technique::NakedTriples),
            forall|s: Seq<u8>| old(self)@.admits(s) ==> final(self)@.admits(s),
    {
        self.apply(Technique::NakedTriples)
    }

    /// Hidden subgroups of `size` digits (2 or 3): where that many digits are candidates in
    /// the same cells of a unit only, and in as many cells, these cells keep no other
    /// candidate. Any other size changes nothing. The use is not counted in the tally.
    pub fn hidden_subgroup(&mut self, size: usize) -> (changed: bool)
        requires
            old(self).wf(),
        ensures
            final(self).wf(),
            final(self)@ == old(self)@.hidden_narrowed(size as int),
            changed == (final(self)@ != old(self)@),
            forall|s: Seq<u8>| old(self)@.admits(s) ==> final(self)@.admits(s),
    {
        if size == 2 {
            proof {
                old(self)@.lemma_narrowed(Technique::HiddenPairs);
            }
            self.narrow(Technique::HiddenPairs)
        } else if size == 3 {
            proof {
                old(self)@.lemma_narrowed(Technique::HiddenTriples);
            }
            self.narrow(Technique::HiddenTriples)
        } else {
            false
        }
    }

    /// Hidden pairs: hidden subgroups of two digits, counted in the tally if any candidate
    /// left. Returns whether any did.
    pub fn hidden_pairs(&mut self) -> (changed: bool)
        requires
            old(self).wf(),
        ensures
            final(self).wf(),
            final(self)@ == old(self)@.applied(Technique::HiddenPairs),
            changed == old(self)@.changed_by(Technique::HiddenPairs),
            forall|s: Seq<u8>| old(self)@.admits(s) ==> final(self)@.admits(s),
    {
        let changed = self.hidden_subgroup(2);
        proof {
            old(self)@.lemma_narrowed(Technique::HiddenPairs);
        }
        if changed {
            assert(self@.counts.count(Technique::HiddenPairs) + self@.potential()
                <= max_potential());
            self.increment_method_count(Technique::HiddenPairs);
        }
        changed
    }

    /// Hidden triples: hidden subgroups of three digits, counted in the tally if any
    /// candidate left. Returns whether any did.
    pub fn hidden_triples(&mut self) -> (changed: bool)
        requires
            old(self).wf(),
        ensures
            final(self).wf(),
            final(self)@ == old(self)@.applied(Technique::HiddenTriples),
            changed == old(self)@.changed_by(Technique::HiddenTriples),
            forall|s: Seq<u8>| old(self)@.admits(s) ==> final(self)@.admits(s),
    {
        let changed = self.hidden_subgroup(3);
        proof {
            old(self)@.lemma_narrowed(Technique::HiddenTriples);
        }
        if changed {
            assert(self@.counts.count(Technique::HiddenTriples) + self@.potential()
                <= max_potential());
            self.increment_method_count(Technique::HiddenTriples);
        }
        changed
    }

    /// X-Wing: where two rows confine a digit to the same two columns, the digit leaves
    /// these columns in every other row; and the same with rows and columns exchanged.
    /// Returns whether any candidate left.
    pub fn x_wing(&mut self) -> (changed: bool)
        requires
            old(self).wf(),
        ensures
            final(self).wf(),
            final(self)@ == old(self)@.applied(Technique::XWing),
            changed == old(self)@.changed_by(Technique::XWing),
            forall|s: Seq<u8>| old(self)@.admits(s) ==> final(self)@.admits(s),
    {
        self.apply(Technique::XWing)
    }

    /// Y-Wing: where a pivot with the candidates a and b has a peer with a and c and a peer
    /// with b and c, the digit c leaves every cell that is a peer of both these wings, the
    /// pivot excepted. Returns whether any candidate left.
    pub fn y_wing(&mut self) -> (changed: bool)
        requires
            old(self).wf(),
        ensures
            final(self).wf(),
            final(self)@ == old(self)@.applied(Technique::YWing),
            changed == old(self)@.changed_by(Technique::YWing),
            forall|s: Seq<u8>| old(self)@.admits(s) ==> final(self)@.admits(s),
    {
        self.apply(Technique::YWing)
    }
}

} // verus!
