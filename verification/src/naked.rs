//! The search for naked pairs and naked triples.

use crate::board::SudokuBoard;
use crate::topology::{in_unit, lemma_units_of_cell, unit_cell, unit_holding, unit_of};
use vstd::prelude::*;

verus! {

impl SudokuBoard {
    /// Whether the cell at position `i` of unit `u` forms, with a later cell of the unit, a
    /// naked pair that takes `d` away from cell `k`.
    fn naked_pair_from(&self, u: usize, i: usize, k: usize, d: u8) -> (found: bool)
        requires
            self.wf(),
            u < 27,
            i < 9,
            k < 81,
            in_unit(u as int, k as int),
        ensures
            found == exists|j: int| #[trigger]
                self@.naked_pair_hits(u as int, i as int, j, k as int, d),
    {
        let p = self.units.unit_cell(u, i);
        if p == k || self.candidates[p].len() != 2 || !self.candidates[p].contains(d) {
            return false;
        }
        let mut j: usize = i + 1;
        while j < 9
            invariant
                self.wf(),
                u < 27,
                i < j <= 9,
                k < 81,
                p == unit_cell(u as int, i as int),
                p < 81,
                p != k,
                in_unit(u as int, k as int),
                self@.cands[p as int].len() == 2,
                self@.cands[p as int].contains(d),
                forall|m: int| i < m < j ==> !#[trigger] self@.naked_pair_hits(
                    u as int,
                    i as int,
                    m,
                    k as int,
                    d,
                ),
            decreases 9 - j,
        {
            let q = self.units.unit_cell(u, j);
            if q != k && self.candidates[q].equals(&self.candidates[p]) {
                assert(self@.naked_pair_hits(u as int, i as int, j as int, k as int, d));
                return true;
            }
            j = j + 1;
        }
        false
    }

    /// Whether unit `u` holds a naked pair that takes `d` away from its cell `k`.
    fn naked_pair_in(&self, u: usize, k: usize, d: u8) -> (found: bool)
        requires
            self.wf(),
            u < 27,
            k < 81,
            in_unit(u as int, k as int),
        ensures
            found == exists|i: int, j: int| #[trigger]
                self@.naked_pair_hits(u as int, i, j, k as int, d),
    {
        let mut i: usize = 0;
        while i < 9
            invariant
                self.wf(),
                u < 27,
                i <= 9,
                k < 81,
                in_unit(u as int, k as int),
                forall|m: int, j: int| 0 <= m < i ==> !#[trigger] self@.naked_pair_hits(
                    u as int,
                    m,
                    j,
                    k as int,
                    d,
                ),
            decreases 9 - i,
        {
            if self.naked_pair_from(u, i, k, d) {
                return true;
            }
            i = i + 1;
        }
        false
    }

    /// Whether a naked pair takes digit `d` away from cell `k`.
    pub(crate) fn naked_pair_excludes(&self, k: usize, d: u8) -> (found: bool)
        requires
            self.wf(),
            k < 81,
        ensures
            found == self@.naked_pair_excludes(k as int, d),
    {
        let mut kind: usize = 0;
        while kind < 3
            invariant
                self.wf(),
                kind <= 3,
                k < 81,
                forall|n: int, i: int, j: int| 0 <= n < kind ==> !#[trigger] self@.naked_pair_hits(
                    unit_of(k as int, n),
                    i,
                    j,
                    k as int,
                    d,
                ),
            decreases 3 - kind,
        {
            let u = unit_holding(k, kind);
            if self.naked_pair_in(u, k, d) {
                return true;
            }
            kind = kind + 1;
        }
        proof {
            assert forall|u: int, i: int, j: int| !#[trigger] self@.naked_pair_hits(
                u,
                i,
                j,
                k as int,
                d,
            ) by {
                lemma_units_of_cell(u, k as int);
                if self@.naked_pair_hits(u, i, j, k as int, d) {
                    assert(u == unit_of(k as int, 0) || u == unit_of(k as int, 1) || u == unit_of(
                        k as int,
                        2,
                    ));
                }
            }
        }
        false
    }

    /// Whether the cells at positions `i` and `j` of unit `u` form, with a later cell of the
    /// unit, a naked triple that takes `d` away from cell `k`.
    fn naked_triple_from(&self, u: usize, i: usize, j: usize, k: usize, d: u8) -> (found: bool)
        requires
            self.wf(),
            u < 27,
            i < j < 9,
            k < 81,
            in_unit(u as int, k as int),
        ensures
            found == exists|l: int| #[trigger]
                self@.naked_triple_hits(u as int, i as int, j as int, l, k as int, d),
    {
        let p = self.units.unit_cell(u, i);
        let q = self.units.unit_cell(u, j);
        if p == k || q == k || self.candidates[p].len() != 3 || !self.candidates[p].contains(d)
            || !self.candidates[q].equals(&self.candidates[p]) {
            return false;
        }
        let mut l: usize = j + 1;
        while l < 9
            invariant
                self.wf(),
                u < 27,
                i < j < l <= 9,
                k < 81,
                p == unit_cell(u as int, i as int),
                p < 81,
                p != k,
                unit_cell(u as int, j as int) != k,
                in_unit(u as int, k as int),
                self@.cands[p as int].len() == 3,
                self@.cands[p as int].contains(d),
                self@.cands[unit_cell(u as int, j as int)] == self@.cands[p as int],
                forall|m: int| j < m < l ==> !#[trigger] self@.naked_triple_hits(
                    u as int,
                    i as int,
                    j as int,
                    m,
                    k as int,
                    d,
                ),
            decreases 9 - l,
        {
            let r = self.units.unit_cell(u, l);
            if r != k && self.candidates[r].equals(&self.candidates[p]) {
                assert(self@.naked_triple_hits(
                    u as int,
                    i as int,
                    j as int,
                    l as int,
                    k as int,
                    d,
                ));
                return true;
            }
            l = l + 1;
        }
        false
    }

    /// Whether unit `u` holds a naked triple that takes `d` away from its cell `k`.
    fn naked_triple_in(&self, u: usize, k: usize, d: u8) -> (found: bool)
        requires
            self.wf(),
            u < 27,
            k < 81,
            in_unit(u as int, k as int),
        ensures
            found == exists|i: int, j: int, l: int| #[trigger]
                self@.naked_triple_hits(u as int, i, j, l, k as int, d),
    {
        let mut i: usize = 0;
        while i < 9
            invariant
                self.wf(),
                u < 27,
                i <= 9,
                k < 81,
                in_unit(u as int, k as int),
                forall|m: int, j: int, l: int| 0 <= m < i ==> !#[trigger] self@.naked_triple_hits(
                    u as int,
                    m,
                    j,
                    l,
                    k as int,
                    d,
                ),
            decreases 9 - i,
        {
            let mut j: usize = i + 1;
            while j < 9
                invariant
                    self.wf(),
                    u < 27,
                    i < j <= 9,
                    k < 81,
                    in_unit(u as int, k as int),
                    forall|n: int, l: int| i < n < j ==> !#[trigger] self@.naked_triple_hits(
                        u as int,
                        i as int,
                        n,
                        l,
                        k as int,
                        d,
                    ),
                decreases 9 - j,
            {
                if self.naked_triple_from(u, i, j, k, d) {
                    return true;
                }
                j = j + 1;
            }
            i = i + 1;
        }
        false
    }

    /// Whether a naked triple takes digit `d` away from cell `k`.
    pub(crate) fn naked_triple_excludes(&self, k: usize, d: u8) -> (found: bool)
        requires
            self.wf(),
            k < 81,
        ensures
            found == self@.naked_triple_excludes(k as int, d),
    {
        let mut kind: usize = 0;
        while kind < 3
            invariant
                self.wf(),
                kind <= 3,
                k < 81,
                forall|n: int, i: int, j: int, l: int|
                    0 <= n < kind ==> !#[trigger] self@.naked_triple_hits(
                        unit_of(k as int, n),
                        i,
                        j,
                        l,
                        k as int,
                        d,
                    ),
            decreases 3 - kind,
        {
            let u = unit_holding(k, kind);
            if self.naked_triple_in(u, k, d) {
                return true;
            }
            kind = kind + 1;
        }
        proof {
            assert forall|u: int, i: int, j: int, l: int| !#[trigger] self@.naked_triple_hits(
                u,
                i,
                j,
                l,
                k as int,
                d,
            ) by {
                lemma_units_of_cell(u, k as int);
                if self@.naked_triple_hits(u, i, j, l, k as int, d) {
                    assert(u == unit_of(k as int, 0) || u == unit_of(k as int, 1) || u == unit_of(
                        k as int,
                        2,
                    ));
                }
            }
        }
        false
    }
}

} // verus!
