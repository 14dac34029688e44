//! The search for X-Wings and Y-Wings.

use crate::board::SudokuBoard;
use crate::digits::{is_digit, lemma_pair_len, DigitSet};
use crate::topology::{
    are_peers, in_unit, lemma_peer_slot, lies_in, peer_at, peer_slot, peers, pos_in_unit,
    position_in,
};
use vstd::prelude::*;

verus! {

impl SudokuBoard {
    /// Whether line `u1` forms, with a later line of its kind, an X-Wing that takes `d` away
    /// from cell `k`. Lines are rows when `base` is 0 and columns when it is 9.
    fn x_wing_from(&self, u1: usize, base: usize, k: usize, d: u8) -> (found: bool)
        requires
            self.wf(),
            base == 0 || base == 9,
            base <= u1 < base + 9,
            k < 81,
            is_digit(d),
        ensures
            found == exists|u2: int, i: int, j: int| #[trigger]
                self@.x_wing_hits(u1 as int, u2, i, j, k as int, d),
    {
        let at = position_in(u1, k);
        let first = self.positions_of(u1, d);
        proof {
            assert forall|u2: int, i: int, j: int| #[trigger]
                self@.x_wing_hits(u1 as int, u2, i, j, k as int, d) implies first@.len() == 2
                && first@[0] == i && first@[1] == j && (at == i || at == j) && !in_unit(
                u1 as int,
                k as int,
            ) by {
                self@.lemma_listed_pair(u1 as int, d, first@, i, j);
            }
        }
        if lies_in(u1, k) || first.len() != 2 || (first[0] != at && first[1] != at) {
            return false;
        }
        let mut u2: usize = u1 + 1;
        while u2 < base + 9
            invariant
                self.wf(),
                base == 0 || base == 9,
                base <= u1 < u2 <= base + 9,
                k < 81,
                is_digit(d),
                !in_unit(u1 as int, k as int),
                at == pos_in_unit(u1 as int, k as int),
                first@.len() == 2,
                first@[0] == at || first@[1] == at,
                self@.lists_positions(u1 as int, d, first@),
                forall|v: int, i: int, j: int| u1 < v < u2 ==> !#[trigger] self@.x_wing_hits(
                    u1 as int,
                    v,
                    i,
                    j,
                    k as int,
                    d,
                ),
            decreases base + 9 - u2,
        {
            if !lies_in(u2, k) {
                let second = self.positions_of(u2, d);
                proof {
                    assert forall|i: int, j: int| #[trigger]
                        self@.x_wing_hits(u1 as int, u2 as int, i, j, k as int, d) implies second@.len()
                        == 2 && second@[0] == first@[0] && second@[1] == first@[1] by {
                        self@.lemma_listed_pair(u1 as int, d, first@, i, j);
                        self@.lemma_listed_pair(u2 as int, d, second@, i, j);
                    }
                }
                if second.len() == 2 && second[0] == first[0] && second[1] == first[1] {
                    proof {
                        let i = first@[0] as int;
                        let j = first@[1] as int;
                        self@.lemma_listed_pair(u1 as int, d, first@, i, j);
                        self@.lemma_listed_pair(u2 as int, d, second@, i, j);
                        assert(self@.x_wing_hits(u1 as int, u2 as int, i, j, k as int, d));
                    }
                    return true;
                }
            }
            u2 = u2 + 1;
        }
        false
    }

    /// Whether two rows, or two columns when `base` is 9, form an X-Wing that takes `d` away
    /// from cell `k`.
    fn x_wing_among(&self, base: usize, k: usize, d: u8) -> (found: bool)
        requires
            self.wf(),
            base == 0 || base == 9,
            k < 81,
            is_digit(d),
        ensures
            found == exists|u1: int, u2: int, i: int, j: int|
                base <= u1 < base + 9 && #[trigger] self@.x_wing_hits(u1, u2, i, j, k as int, d),
    {
        let mut u1: usize = base;
        while u1 < base + 9
            invariant
                self.wf(),
                base == 0 || base == 9,
                base <= u1 <= base + 9,
                k < 81,
                is_digit(d),
                forall|v: int, u2: int, i: int, j: int|
                    base <= v < u1 ==> !#[trigger] self@.x_wing_hits(v, u2, i, j, k as int, d),
            decreases base + 9 - u1,
        {
            if self.x_wing_from(u1, base, k, d) {
                return true;
            }
            u1 = u1 + 1;
        }
        false
    }

    /// Whether an X-Wing takes digit `d` away from cell `k`.
    pub(crate) fn x_wing_excludes(&self, k: usize, d: u8) -> (found: bool)
        requires
            self.wf(),
            k < 81,
        ensures
            found == self@.x_wing_excludes(k as int, d),
    {
        if d < 1 || d > 9 {
            return false;
        }
        if self.x_wing_among(0, k, d) {
            return true;
        }
        if self.x_wing_among(9, k, d) {
            return true;
        }
        proof {
            assert forall|u1: int, u2: int, i: int, j: int| !#[trigger] self@.x_wing_hits(
                u1,
                u2,
                i,
                j,
                k as int,
                d,
            ) by {
                if self@.x_wing_hits(u1, u2, i, j, k as int, d) {
                    assert(0 <= u1 < 9 || 9 <= u1 < 18);
                }
            }
        }
        false
    }

    /// Whether some pivot makes the cells `w1` and `w2` the wings of a Y-Wing that takes `d`
    /// away from cell `k`, `a` being the other candidate of `w1`.
    fn y_wing_between(&self, w1: usize, w2: usize, a: u8, k: usize, d: u8) -> (found: bool)
        requires
            self.wf(),
            k < 81,
            w1 < 81,
            w2 < 81,
            is_digit(d),
            is_digit(a),
            a != d,
            peers(k as int, w1 as int),
            peers(k as int, w2 as int),
            self@.cands[w1 as int] == set![a, d],
        ensures
            found == exists|p: int, b: u8| #[trigger]
                self@.y_wing_hits(p, w1 as int, w2 as int, a, b, k as int, d),
    {
        let second = self.candidates[w2];
        proof {
            second.lemma_view();
            assert forall|p: int, b: u8| #[trigger]
                self@.y_wing_hits(p, w1 as int, w2 as int, a, b, k as int, d) implies second@.len()
                == 2 && second@.contains(d) by {
                lemma_pair_len(b, d);
            }
        }
        if second.len() != 2 || !second.contains(d) {
            return false;
        }
        let b = second.partner_of(d);
        proof {
            assert forall|p: int, c: u8| #[trigger]
                self@.y_wing_hits(p, w1 as int, w2 as int, a, c, k as int, d) implies c == b && a
                != b by {
                assert(set![c, d].contains(c));
                assert(set![b, d].contains(c));
            }
        }
        if b == a {
            return false;
        }
        let target = DigitSet::empty().with(a).with(b);
        assert(target@ == set![a, b]);
        let mut z: usize = 0;
        while z < 20
            invariant
                self.wf(),
                z <= 20,
                k < 81,
                w1 < 81,
                w2 < 81,
                is_digit(d),
                is_digit(a),
                is_digit(b),
                a != d,
                b != d,
                a != b,
                peers(k as int, w1 as int),
                peers(k as int, w2 as int),
                self@.cands[w1 as int] == set![a, d],
                self@.cands[w2 as int] == set![b, d],
                target@ == set![a, b],
                forall|m: int| 0 <= m < z ==> !#[trigger] self@.y_wing_hits(
                    peer_at(w1 as int, m),
                    w1 as int,
                    w2 as int,
                    a,
                    b,
                    k as int,
                    d,
                ),
            decreases 20 - z,
        {
            let p = self.units.peer(w1, z);
            if p != k && are_peers(p, w2) && self.candidates[p].equals(&target) {
                assert(self@.y_wing_hits(p as int, w1 as int, w2 as int, a, b, k as int, d));
                return true;
            }
            z = z + 1;
        }
        proof {
            assert forall|p: int, c: u8| !#[trigger] self@.y_wing_hits(
                p,
                w1 as int,
                w2 as int,
                a,
                c,
                k as int,
                d,
            ) by {
                if self@.y_wing_hits(p, w1 as int, w2 as int, a, c, k as int, d) {
                    lemma_peer_slot(w1 as int, p);
                    assert(!self@.y_wing_hits(
                        peer_at(w1 as int, peer_slot(w1 as int, p)),
                        w1 as int,
                        w2 as int,
                        a,
                        b,
                        k as int,
                        d,
                    ));
                }
            }
        }
        false
    }

    /// Whether cell `w1` is one wing of a Y-Wing that takes `d` away from its peer `k`.
    fn y_wing_with(&self, w1: usize, k: usize, d: u8) -> (found: bool)
        requires
            self.wf(),
            k < 81,
            w1 < 81,
            is_digit(d),
            peers(k as int, w1 as int),
        ensures
            found == exists|p: int, w2: int, a: u8, b: u8| #[trigger]
                self@.y_wing_hits(p, w1 as int, w2, a, b, k as int, d),
    {
        let first = self.candidates[w1];
        proof {
            first.lemma_view();
            assert forall|p: int, w2: int, a: u8, b: u8| #[trigger]
                self@.y_wing_hits(p, w1 as int, w2, a, b, k as int, d) implies first@.len() == 2
                && first@.contains(d) by {
                lemma_pair_len(a, d);
            }
        }
        if first.len() != 2 || !first.contains(d) {
            return false;
        }
        let a = first.partner_of(d);
        proof {
            assert forall|p: int, w2: int, c: u8, b: u8| #[trigger]
                self@.y_wing_hits(p, w1 as int, w2, c, b, k as int, d) implies c == a by {
                assert(set![c, d].contains(c));
                assert(set![a, d].contains(c));
            }
        }
        let mut y: usize = 0;
        while y < 20
            invariant
                self.wf(),
                y <= 20,
                k < 81,
                w1 < 81,
                is_digit(d),
                is_digit(a),
                a != d,
                peers(k as int, w1 as int),
                self@.cands[w1 as int] == set![a, d],
                forall|m: int, p: int, b: u8| 0 <= m < y ==> !#[trigger] self@.y_wing_hits(
                    p,
                    w1 as int,
                    peer_at(k as int, m),
                    a,
                    b,
                    k as int,
                    d,
                ),
            decreases 20 - y,
        {
            let w2 = self.units.peer(k, y);
            if self.y_wing_between(w1, w2, a, k, d) {
                return true;
            }
            y = y + 1;
        }
        proof {
            assert forall|p: int, w2: int, c: u8, b: u8| !#[trigger] self@.y_wing_hits(
                p,
                w1 as int,
                w2,
                c,
                b,
                k as int,
                d,
            ) by {
                if self@.y_wing_hits(p, w1 as int, w2, c, b, k as int, d) {
                    lemma_peer_slot(k as int, w2);
                    assert(!self@.y_wing_hits(
                        p,
                        w1 as int,
                        peer_at(k as int, peer_slot(k as int, w2)),
                        a,
                        b,
                        k as int,
                        d,
                    ));
                }
            }
        }
        false
    }

    /// Whether a Y-Wing takes digit `d` away from cell `k`.
    pub(crate) fn y_wing_excludes(&self, k: usize, d: u8) -> (found: bool)
        requires
            self.wf(),
            k < 81,
        ensures
            found == self@.y_wing_excludes(k as int, d),
    {
        if d < 1 || d > 9 {
            return false;
        }
        let mut x: usize = 0;
        while x < 20
            invariant
                self.wf(),
                x <= 20,
                k < 81,
                is_digit(d),
                forall|m: int, p: int, w2: int, a: u8, b: u8|
                    0 <= m < x ==> !#[trigger] self@.y_wing_hits(
                        p,
                        peer_at(k as int, m),
                        w2,
                        a,
                        b,
                        k as int,
                        d,
                    ),
            decreases 20 - x,
        {
            let w1 = self.units.peer(k, x);
            if self.y_wing_with(w1, k, d) {
                return true;
            }
            x = x + 1;
        }
        proof {
            assert forall|p: int, w1: int, w2: int, a: u8, b: u8| !#[trigger] self@.y_wing_hits(
                p,
                w1,
                w2,
                a,
                b,
                k as int,
                d,
            ) by {
                if self@.y_wing_hits(p, w1, w2, a, b, k as int, d) {
                    lemma_peer_slot(k as int, w1);
                    assert(!self@.y_wing_hits(
                        p,
                        peer_at(k as int, peer_slot(k as int, w1)),
                        w2,
                        a,
                        b,
                        k as int,
                        d,
                    ));
                }
            }
        }
        false
    }
}

} // verus!
