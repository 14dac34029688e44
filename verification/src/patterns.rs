//! The patterns that the elimination techniques look for, and why each is sound.
//!
//! A pattern is judged on the board as it stands when a technique starts. `excludes` says
//! which candidates a technique takes away; the lemmas show that none of them is the digit
//! that a solution has in that cell.

use crate::digits::{is_digit, lemma_digit_count, lemma_three_members, lemma_two_members};
use crate::model::{BoardView, Technique};
use crate::rules::lemma_unit_holds_digit;
use crate::topology::{
    in_unit, is_cell, is_pos, is_unit, lemma_same_unit_peers, lemma_unit_cell,
    lemma_unit_cells_differ, peers, pos_in_unit, unit_cell,
};
use vstd::prelude::*;

verus! {

impl BoardView {
    /// Whether digit `d` is a candidate at position `m` of unit `u`.
    pub open spec fn has_at(self, u: int, m: int, d: u8) -> bool {
        self.cands[unit_cell(u, m)].contains(d)
    }

    /// The cells at positions `i` and `j` of unit `u`, other than cell `k` of that unit, hold
    /// the same two candidates, `d` among them.
    pub open spec fn naked_pair_hits(self, u: int, i: int, j: int, k: int, d: u8) -> bool {
        &&& is_unit(u)
        &&& 0 <= i < j < 9
        &&& in_unit(u, k)
        &&& unit_cell(u, i) != k
        &&& unit_cell(u, j) != k
        &&& self.cands[unit_cell(u, i)].len() == 2
        &&& self.cands[unit_cell(u, j)] == self.cands[unit_cell(u, i)]
        &&& self.cands[unit_cell(u, i)].contains(d)
    }

    /// Naked pair: two other cells of a unit of `k` share one candidate set of two digits,
    /// and `d` is one of the two.
    pub open spec fn naked_pair_excludes(self, k: int, d: u8) -> bool {
        exists|u: int, i: int, j: int| #[trigger] self.naked_pair_hits(u, i, j, k, d)
    }

    /// The cells at positions `i`, `j` and `l` of unit `u`, other than cell `k` of that
    /// unit, hold the same three candidates, `d` among them.
    pub open spec fn naked_triple_hits(self, u: int, i: int, j: int, l: int, k: int, d: u8)
        -> bool {
        &&& is_unit(u)
        &&& 0 <= i < j < l < 9
        &&& in_unit(u, k)
        &&& unit_cell(u, i) != k
        &&& unit_cell(u, j) != k
        &&& unit_cell(u, l) != k
        &&& self.cands[unit_cell(u, i)].len() == 3
        &&& self.cands[unit_cell(u, j)] == self.cands[unit_cell(u, i)]
        &&& self.cands[unit_cell(u, l)] == self.cands[unit_cell(u, i)]
        &&& self.cands[unit_cell(u, i)].contains(d)
    }

    /// Naked triple: three other cells of a unit of `k` share one candidate set of three
    /// digits, and `d` is one of the three.
    pub open spec fn naked_triple_excludes(self, k: int, d: u8) -> bool {
        exists|u: int, i: int, j: int, l: int| #[trigger] self.naked_triple_hits(u, i, j, l, k, d)
    }

    /// In unit `u` digit `a` is a candidate at positions `i` and `j` and nowhere else.
    pub open spec fn confined_to_two(self, u: int, a: u8, i: int, j: int) -> bool {
        &&& 0 <= i < j < 9
        &&& forall|m: int| is_pos(m) ==> (#[trigger] self.has_at(u, m, a) <==> m == i || m == j)
    }

    /// In unit `u` digit `a` is a candidate at positions `i`, `j` and `l` and nowhere else.
    pub open spec fn confined_to_three(self, u: int, a: u8, i: int, j: int, l: int) -> bool {
        &&& 0 <= i < j < l < 9
        &&& forall|m: int|
            is_pos(m) ==> (#[trigger] self.has_at(u, m, a) <==> m == i || m == j || m == l)
    }

    /// In unit `u` the digits `a` and `b` are both confined to positions `i` and `j`, cell `k`
    /// stands at one of the two, and `d` is another digit.
    pub open spec fn hidden_pair_hits(self, u: int, a: u8, b: u8, i: int, j: int, k: int, d: u8)
        -> bool {
        &&& is_unit(u)
        &&& is_digit(a)
        &&& is_digit(b)
        &&& a < b
        &&& self.confined_to_two(u, a, i, j)
        &&& self.confined_to_two(u, b, i, j)
        &&& (k == unit_cell(u, i) || k == unit_cell(u, j))
        &&& d != a
        &&& d != b
    }

    /// Hidden pair: in a unit of `k` two digits are candidates in the same two cells only,
    /// `k` is one of these cells, and `d` is neither of the two digits.
    pub open spec fn hidden_pair_excludes(self, k: int, d: u8) -> bool {
        exists|u: int, a: u8, b: u8, i: int, j: int| #[trigger]
            self.hidden_pair_hits(u, a, b, i, j, k, d)
    }

    /// In unit `u` the digits `a`, `b` and `c` are all confined to positions `i`, `j` and
    /// `l`, cell `k` stands at one of the three, and `d` is another digit.
    pub open spec fn hidden_triple_hits(
        self,
        u: int,
        a: u8,
        b: u8,
        c: u8,
        i: int,
        j: int,
        l: int,
        k: int,
        d: u8,
    ) -> bool {
        &&& is_unit(u)
        &&& is_digit(a)
        &&& is_digit(b)
        &&& is_digit(c)
        &&& a < b < c
        &&& self.confined_to_three(u, a, i, j, l)
        &&& self.confined_to_three(u, b, i, j, l)
        &&& self.confined_to_three(u, c, i, j, l)
        &&& (k == unit_cell(u, i) || k == unit_cell(u, j) || k == unit_cell(u, l))
        &&& d != a
        &&& d != b
        &&& d != c
    }

    /// Hidden triple: in a unit of `k` three digits are candidates in the same three cells
    /// only, `k` is one of these cells, and `d` is none of the three digits.
    pub open spec fn hidden_triple_excludes(self, k: int, d: u8) -> bool {
        exists|u: int, a: u8, b: u8, c: u8, i: int, j: int, l: int| #[trigger]
            self.hidden_triple_hits(u, a, b, c, i, j, l, k, d)
    }

    /// The lines `u1` and `u2`, two rows or two columns, both confine digit `d` to the
    /// positions `i` and `j`, and cell `k` stands at one of these positions in a third line
    /// of the same kind.
    pub open spec fn x_wing_hits(self, u1: int, u2: int, i: int, j: int, k: int, d: u8) -> bool {
        &&& is_digit(d)
        &&& is_cell(k)
        &&& (0 <= u1 < u2 < 9 || 9 <= u1 < u2 < 18)
        &&& self.confined_to_two(u1, d, i, j)
        &&& self.confined_to_two(u2, d, i, j)
        &&& !in_unit(u1, k)
        &&& !in_unit(u2, k)
        &&& (pos_in_unit(u1, k) == i || pos_in_unit(u1, k) == j)
    }

    /// X-Wing: two rows confine `d` to the same two columns and `k` lies in one of these
    /// columns in another row; or the same with rows and columns exchanged.
    pub open spec fn x_wing_excludes(self, k: int, d: u8) -> bool {
        exists|u1: int, u2: int, i: int, j: int| #[trigger] self.x_wing_hits(u1, u2, i, j, k, d)
    }

    /// The pivot `p` holds the candidates `a` and `b`, its peers `w1` and `w2` hold `a` with
    /// `d` and `b` with `d`, and cell `k` is a peer of both wings and not the pivot.
    pub open spec fn y_wing_hits(self, p: int, w1: int, w2: int, a: u8, b: u8, k: int, d: u8)
        -> bool {
        &&& is_digit(a)
        &&& is_digit(b)
        &&& is_digit(d)
        &&& a != b
        &&& a != d
        &&& b != d
        &&& peers(p, w1)
        &&& peers(p, w2)
        &&& peers(k, w1)
        &&& peers(k, w2)
        &&& k != p
        &&& self.cands[p] == set![a, b]
        &&& self.cands[w1] == set![a, d]
        &&& self.cands[w2] == set![b, d]
    }

    /// Y-Wing: `k` sees both wings of a pivot whose two candidates each pair up with `d` in
    /// one wing.
    pub open spec fn y_wing_excludes(self, k: int, d: u8) -> bool {
        exists|p: int, w1: int, w2: int, a: u8, b: u8| #[trigger]
            self.y_wing_hits(p, w1, w2, a, b, k, d)
    }

    /// Whether technique `t` takes digit `d` away from cell `k`. Singles takes no candidate
    /// away by itself: it places digits.
    pub open spec fn excludes(self, t: Technique, k: int, d: u8) -> bool {
        match t {
            Technique::Singles => false,
            Technique::NakedPairs => self.naked_pair_excludes(k, d),
            Technique::NakedTriples => self.naked_triple_excludes(k, d),
            Technique::HiddenPairs => self.hidden_pair_excludes(k, d),
            Technique::HiddenTriples => self.hidden_triple_excludes(k, d),
            Technique::XWing => self.x_wing_excludes(k, d),
            Technique::YWing => self.y_wing_excludes(k, d),
        }
    }

    /// The candidates that technique `t` leaves to cell `k`.
    pub open spec fn kept(self, t: Technique, k: int) -> Set<u8> {
        Set::new(|d: u8| self.cands[k].contains(d) && !self.excludes(t, k, d))
    }

    /// The board after technique `t` has taken away every candidate that it excludes. The
    /// grid and the tally stay as they are.
    pub open spec fn narrowed(self, t: Technique) -> BoardView {
        BoardView { cands: Seq::new(81, |k: int| self.kept(t, k)), ..self }
    }

    /// Whether technique `t` takes any candidate away.
    pub open spec fn changed_by(self, t: Technique) -> bool {
        self.narrowed(t).cands != self.cands
    }

    /// The board after one use of technique `t`, counted in the tally if it changed
    /// anything.
    pub open spec fn applied(self, t: Technique) -> BoardView {
        if self.changed_by(t) {
            self.narrowed(t).credited(t)
        } else {
            self
        }
    }

    /// An empty cell holds, in a possible solution, one of its candidates; a cell with
    /// candidates is empty.
    pub proof fn lemma_admits_cell(self, s: Seq<u8>, k: int)
        requires
            self.consistent(),
            self.admits(s),
            is_cell(k),
        ensures
            is_digit(s[k]),
            self.cands[k] != Set::<u8>::empty() ==> self.grid[k] == 0 && self.cands[k].contains(
                s[k],
            ),
    {
    }

    /// Where a unit confines a digit to two positions, a possible solution has it at one of
    /// them.
    pub proof fn lemma_confined_to_two(self, s: Seq<u8>, u: int, a: u8, i: int, j: int)
        requires
            self.consistent(),
            self.admits(s),
            is_unit(u),
            is_digit(a),
            self.confined_to_two(u, a, i, j),
        ensures
            s[unit_cell(u, i)] == a || s[unit_cell(u, j)] == a,
    {
        let m = lemma_unit_holds_digit(s, u, a);
        let z = unit_cell(u, m);
        lemma_unit_cell(u, m);
        lemma_unit_cell(u, i);
        assert(self.has_at(u, i, a));
        if self.grid[z] != 0 {
            let p = unit_cell(u, i);
            if p != z {
                lemma_same_unit_peers(u, p, z);
                assert(peers(p, z));
            }
        } else {
            assert(self.has_at(u, m, a));
        }
    }

    /// Where a unit confines a digit to three positions, a possible solution has it at one
    /// of them.
    pub proof fn lemma_confined_to_three(self, s: Seq<u8>, u: int, a: u8, i: int, j: int, l: int)
        requires
            self.consistent(),
            self.admits(s),
            is_unit(u),
            is_digit(a),
            self.confined_to_three(u, a, i, j, l),
        ensures
            s[unit_cell(u, i)] == a || s[unit_cell(u, j)] == a || s[unit_cell(u, l)] == a,
    {
        let m = lemma_unit_holds_digit(s, u, a);
        let z = unit_cell(u, m);
        lemma_unit_cell(u, m);
        lemma_unit_cell(u, i);
        assert(self.has_at(u, i, a));
        if self.grid[z] != 0 {
            let p = unit_cell(u, i);
            if p != z {
                lemma_same_unit_peers(u, p, z);
                assert(peers(p, z));
            }
        } else {
            assert(self.has_at(u, m, a));
        }
    }

    /// A naked pair takes no digit of a possible solution away.
    pub proof fn lemma_naked_pair_sound(self, s: Seq<u8>, k: int, d: u8)
        requires
            self.consistent(),
            self.admits(s),
            is_cell(k),
            self.naked_pair_excludes(k, d),
        ensures
            s[k] != d,
    {
        let (u, i, j) = choose|u: int, i: int, j: int| #[trigger]
            self.naked_pair_hits(u, i, j, k, d);
        let p = unit_cell(u, i);
        let q = unit_cell(u, j);
        lemma_unit_cell(u, i);
        lemma_unit_cell(u, j);
        lemma_unit_cells_differ(u, i, j);
        lemma_same_unit_peers(u, k, p);
        lemma_same_unit_peers(u, k, q);
        lemma_digit_count(self.cands[p]);
        self.lemma_admits_cell(s, p);
        self.lemma_admits_cell(s, q);
        assert(self.cands[p].contains(d));
        assert(s[p] != s[q]);
        lemma_two_members(self.cands[p], s[p], s[q], d);
        assert(s[k] != s[p] && s[k] != s[q]);
    }

    /// A naked triple takes no digit of a possible solution away.
    pub proof fn lemma_naked_triple_sound(self, s: Seq<u8>, k: int, d: u8)
        requires
            self.consistent(),
            self.admits(s),
            is_cell(k),
            self.naked_triple_excludes(k, d),
        ensures
            s[k] != d,
    {
        let (u, i, j, l) = choose|u: int, i: int, j: int, l: int| #[trigger]
            self.naked_triple_hits(u, i, j, l, k, d);
        let p = unit_cell(u, i);
        let q = unit_cell(u, j);
        let r = unit_cell(u, l);
        lemma_unit_cell(u, i);
        lemma_unit_cell(u, j);
        lemma_unit_cell(u, l);
        lemma_unit_cells_differ(u, i, j);
        lemma_unit_cells_differ(u, i, l);
        lemma_unit_cells_differ(u, j, l);
        lemma_same_unit_peers(u, k, p);
        lemma_same_unit_peers(u, k, q);
        lemma_same_unit_peers(u, k, r);
        lemma_digit_count(self.cands[p]);
        self.lemma_admits_cell(s, p);
        self.lemma_admits_cell(s, q);
        self.lemma_admits_cell(s, r);
        assert(self.cands[p].contains(d));
        assert(s[p] != s[q] && s[p] != s[r] && s[q] != s[r]);
        lemma_three_members(self.cands[p], s[p], s[q], s[r], d);
        assert(s[k] != s[p] && s[k] != s[q] && s[k] != s[r]);
    }

    /// A hidden pair takes no digit of a possible solution away.
    pub proof fn lemma_hidden_pair_sound(self, s: Seq<u8>, k: int, d: u8)
        requires
            self.consistent(),
            self.admits(s),
            is_cell(k),
            self.hidden_pair_excludes(k, d),
        ensures
            s[k] != d,
    {
        let (u, a, b, i, j) = choose|u: int, a: u8, b: u8, i: int, j: int| #[trigger]
            self.hidden_pair_hits(u, a, b, i, j, k, d);
        self.lemma_confined_to_two(s, u, a, i, j);
        self.lemma_confined_to_two(s, u, b, i, j);
    }

    /// A hidden triple takes no digit of a possible solution away.
    pub proof fn lemma_hidden_triple_sound(self, s: Seq<u8>, k: int, d: u8)
        requires
            self.consistent(),
            self.admits(s),
            is_cell(k),
            self.hidden_triple_excludes(k, d),
        ensures
            s[k] != d,
    {
        let (u, a, b, c, i, j, l) = choose|u: int, a: u8, b: u8, c: u8, i: int, j: int, l: int|
         #[trigger]
            self.hidden_triple_hits(u, a, b, c, i, j, l, k, d);
        self.lemma_confined_to_three(s, u, a, i, j, l);
        self.lemma_confined_to_three(s, u, b, i, j, l);
        self.lemma_confined_to_three(s, u, c, i, j, l);
    }

    /// An X-Wing takes no digit of a possible solution away.
    pub proof fn lemma_x_wing_sound(self, s: Seq<u8>, k: int, d: u8)
        requires
            self.consistent(),
            self.admits(s),
            is_cell(k),
            self.x_wing_excludes(k, d),
        ensures
            s[k] != d,
    {
        let (u1, u2, i, j) = choose|u1: int, u2: int, i: int, j: int| #[trigger]
            self.x_wing_hits(u1, u2, i, j, k, d);
        self.lemma_confined_to_two(s, u1, d, i, j);
        self.lemma_confined_to_two(s, u2, d, i, j);
        lemma_unit_cell(u1, i);
        lemma_unit_cell(u1, j);
        lemma_unit_cell(u2, i);
        lemma_unit_cell(u2, j);
        assert(peers(unit_cell(u1, i), unit_cell(u2, i)));
        assert(peers(unit_cell(u1, j), unit_cell(u2, j)));
        assert(s[unit_cell(u1, i)] != s[unit_cell(u2, i)]);
        assert(s[unit_cell(u1, j)] != s[unit_cell(u2, j)]);
        if pos_in_unit(u1, k) == i {
            assert(peers(k, unit_cell(u1, i)));
            assert(peers(k, unit_cell(u2, i)));
            assert(s[k] != s[unit_cell(u1, i)]);
            assert(s[k] != s[unit_cell(u2, i)]);
        } else {
            assert(peers(k, unit_cell(u1, j)));
            assert(peers(k, unit_cell(u2, j)));
            assert(s[k] != s[unit_cell(u1, j)]);
            assert(s[k] != s[unit_cell(u2, j)]);
        }
    }

    /// A Y-Wing takes no digit of a possible solution away.
    pub proof fn lemma_y_wing_sound(self, s: Seq<u8>, k: int, d: u8)
        requires
            self.consistent(),
            self.admits(s),
            is_cell(k),
            self.y_wing_excludes(k, d),
        ensures
            s[k] != d,
    {
        let (p, w1, w2, a, b) = choose|p: int, w1: int, w2: int, a: u8, b: u8| #[trigger]
            self.y_wing_hits(p, w1, w2, a, b, k, d);
        assert(self.cands[p].contains(a));
        assert(self.cands[w1].contains(a));
        assert(self.cands[w2].contains(b));
        self.lemma_admits_cell(s, p);
        self.lemma_admits_cell(s, w1);
        self.lemma_admits_cell(s, w2);
        assert(s[p] != s[w1]);
        assert(s[p] != s[w2]);
        assert(s[k] != s[w1]);
        assert(s[k] != s[w2]);
    }

    /// No technique takes away the digit that a possible solution has in a cell.
    pub proof fn lemma_excludes_sound(self, t: Technique, s: Seq<u8>, k: int, d: u8)
        requires
            self.consistent(),
            self.admits(s),
            is_cell(k),
            self.excludes(t, k, d),
        ensures
            s[k] != d,
    {
        match t {
            Technique::Singles => {},
            Technique::NakedPairs => self.lemma_naked_pair_sound(s, k, d),
            Technique::NakedTriples => self.lemma_naked_triple_sound(s, k, d),
            Technique::HiddenPairs => self.lemma_hidden_pair_sound(s, k, d),
            Technique::HiddenTriples => self.lemma_hidden_triple_sound(s, k, d),
            Technique::XWing => self.lemma_x_wing_sound(s, k, d),
            Technique::YWing => self.lemma_y_wing_sound(s, k, d),
        }
    }
}

} // verus!
