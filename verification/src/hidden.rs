//! The search for hidden pairs and hidden triples.

use crate::board::SudokuBoard;
use crate::model::BoardView;
use crate::topology::{
    in_unit, is_pos, lemma_pos_in_unit, lemma_unit_cell, lemma_units_of_cell, pos_in_unit,
    position_in, unit_cell, unit_holding, unit_of,
};
use vstd::prelude::*;

verus! {

impl BoardView {
    /// Whether `v` lists, in rising order, the positions of unit `u` at which `a` is a
    /// candidate.
    pub open spec fn lists_positions(self, u: int, a: u8, v: Seq<usize>) -> bool {
        &&& forall|n: int| 0 <= n < v.len() ==> is_pos(#[trigger] v[n] as int) && self.has_at(
            u,
            v[n] as int,
            a,
        )
        &&& forall|n: int, m: int| 0 <= n < m < v.len() ==> #[trigger] v[n] < #[trigger] v[m]
        &&& forall|x: int|
            is_pos(x) && #[trigger] self.has_at(u, x, a) ==> exists|n: int|
                0 <= n < v.len() && #[trigger] v[n] == x
    }

    /// A list of positions holds no position twice.
    pub proof fn lemma_listed_once(self, u: int, a: u8, v: Seq<usize>, n: int, x: int)
        requires
            self.lists_positions(u, a, v),
            0 <= n < v.len(),
            0 <= x < v.len(),
            v[n] == v[x],
        ensures
            n == x,
    {
        if n < x {
            assert(v[n] < v[x]);
        }
        if x < n {
            assert(v[x] < v[n]);
        }
    }

    /// A digit is confined to two positions just when its list of positions holds these two.
    pub proof fn lemma_listed_pair(self, u: int, a: u8, v: Seq<usize>, i: int, j: int)
        requires
            self.lists_positions(u, a, v),
        ensures
            self.confined_to_two(u, a, i, j) <==> v.len() == 2 && v[0] == i && v[1] == j,
    {
        if self.confined_to_two(u, a, i, j) {
            assert(self.has_at(u, i, a));
            assert(self.has_at(u, j, a));
            let n = choose|n: int| 0 <= n < v.len() && #[trigger] v[n] == i;
            let m = choose|m: int| 0 <= m < v.len() && #[trigger] v[m] == j;
            assert(n < m) by {
                if m < n {
                    assert(v[m] < v[n]);
                }
            }
            assert(0 == n) by {
                assert(self.has_at(u, v[0] as int, a));
                if v[0] == i {
                    self.lemma_listed_once(u, a, v, n, 0);
                } else {
                    self.lemma_listed_once(u, a, v, m, 0);
                }
            }
            assert(1 == m) by {
                assert(self.has_at(u, v[1] as int, a));
                if v[1] == i {
                    self.lemma_listed_once(u, a, v, n, 1);
                } else {
                    self.lemma_listed_once(u, a, v, m, 1);
                }
            }
            if v.len() > 2 {
                assert(self.has_at(u, v[2] as int, a));
                if v[2] == i {
                    self.lemma_listed_once(u, a, v, n, 2);
                } else {
                    self.lemma_listed_once(u, a, v, m, 2);
                }
            }
        }
        if v.len() == 2 && v[0] == i && v[1] == j {
            assert(v[0] < v[1]);
            assert forall|x: int| is_pos(x) implies (#[trigger] self.has_at(u, x, a) <==> x == i
                || x == j) by {
                if self.has_at(u, x, a) {
                    let n = choose|n: int| 0 <= n < v.len() && #[trigger] v[n] == x;
                }
            }
        }
    }

    /// A digit is confined to three positions just when its list of positions holds these
    /// three.
    pub proof fn lemma_listed_triple(self, u: int, a: u8, v: Seq<usize>, i: int, j: int, l: int)
        requires
            self.lists_positions(u, a, v),
        ensures
            self.confined_to_three(u, a, i, j, l) <==> v.len() == 3 && v[0] == i && v[1] == j
                && v[2] == l,
    {
        if self.confined_to_three(u, a, i, j, l) {
            assert(self.has_at(u, i, a));
            assert(self.has_at(u, j, a));
            assert(self.has_at(u, l, a));
            let n = choose|n: int| 0 <= n < v.len() && #[trigger] v[n] == i;
            let m = choose|m: int| 0 <= m < v.len() && #[trigger] v[m] == j;
            let o = choose|o: int| 0 <= o < v.len() && #[trigger] v[o] == l;
            assert(n < m) by {
                if m < n {
                    assert(v[m] < v[n]);
                }
            }
            assert(m < o) by {
                if o < m {
                    assert(v[o] < v[m]);
                }
            }
            assert(0 == n) by {
                assert(self.has_at(u, v[0] as int, a));
                if v[0] == i {
                    self.lemma_listed_once(u, a, v, n, 0);
                } else if v[0] == j {
                    self.lemma_listed_once(u, a, v, m, 0);
                } else {
                    self.lemma_listed_once(u, a, v, o, 0);
                }
            }
            assert(1 == m) by {
                assert(self.has_at(u, v[1] as int, a));
                if v[1] == i {
                    self.lemma_listed_once(u, a, v, n, 1);
                } else if v[1] == j {
                    self.lemma_listed_once(u, a, v, m, 1);
                } else {
                    self.lemma_listed_once(u, a, v, o, 1);
                }
            }
            assert(2 == o) by {
                assert(self.has_at(u, v[2] as int, a));
                if v[2] == i {
                    self.lemma_listed_once(u, a, v, n, 2);
                } else if v[2] == j {
                    self.lemma_listed_once(u, a, v, m, 2);
                } else {
                    self.lemma_listed_once(u, a, v, o, 2);
                }
            }
            if v.len() > 3 {
                assert(self.has_at(u, v[3] as int, a));
                if v[3] == i {
                    self.lemma_listed_once(u, a, v, n, 3);
                } else if v[3] == j {
                    self.lemma_listed_once(u, a, v, m, 3);
                } else {
                    self.lemma_listed_once(u, a, v, o, 3);
                }
            }
        }
        if v.len() == 3 && v[0] == i && v[1] == j && v[2] == l {
            assert(v[0] < v[1]);
            assert(v[1] < v[2]);
            assert forall|x: int| is_pos(x) implies (#[trigger] self.has_at(u, x, a) <==> x == i
                || x == j || x == l) by {
                if self.has_at(u, x, a) {
                    let n = choose|n: int| 0 <= n < v.len() && #[trigger] v[n] == x;
                }
            }
        }
    }
}

impl SudokuBoard {
    /// The positions of unit `u` at which `a` is a candidate, in rising order.
    pub(crate) fn positions_of(&self, u: usize, a: u8) -> (v: Vec<usize>)
        requires
            self.wf(),
            u < 27,
        ensures
            self@.lists_positions(u as int, a, v@),
            v@.len() <= 9,
    {
        let mut v: Vec<usize> = Vec::new();
        let mut m: usize = 0;
        while m < 9
            invariant
                self.wf(),
                u < 27,
                m <= 9,
                v@.len() <= m,
                forall|n: int|
                    0 <= n < v@.len() ==> (#[trigger] v@[n]) < m && self@.has_at(
                        u as int,
                        v@[n] as int,
                        a,
                    ),
                forall|n: int, o: int| 0 <= n < o < v@.len() ==> #[trigger] v@[n] < #[trigger] v@[o],
                forall|x: int|
                    0 <= x < m && #[trigger] self@.has_at(u as int, x, a) ==> exists|n: int|
                        0 <= n < v@.len() && #[trigger] v@[n] == x,
            decreases 9 - m,
        {
            let c = self.units.unit_cell(u, m);
            if self.candidates[c].contains(a) {
                let ghost before = v@;
                v.push(m);
                proof {
                    assert(self@.has_at(u as int, m as int, a));
                    assert forall|x: int|
                        0 <= x < m + 1 && #[trigger] self@.has_at(u as int, x, a) implies exists|
                        n: int,
                    | 0 <= n < v@.len() && #[trigger] v@[n] == x by {
                        if x < m {
                            let n = choose|n: int| 0 <= n < before.len() && #[trigger] before[n] == x;
                            assert(v@[n] == x);
                        } else {
                            assert(v@[v@.len() - 1] == x);
                        }
                    }
                }
            } else {
                assert(!self@.has_at(u as int, m as int, a));
            }
            m = m + 1;
        }
        v
    }

    /// Whether in unit `u` the digit `a` and a larger digit form a hidden pair that takes `d`
    /// away from cell `k`.
    fn hidden_pair_from(&self, u: usize, a: u8, k: usize, d: u8) -> (found: bool)
        requires
            self.wf(),
            u < 27,
            1 <= a <= 9,
            k < 81,
            in_unit(u as int, k as int),
        ensures
            found == exists|b: u8, i: int, j: int| #[trigger]
                self@.hidden_pair_hits(u as int, a, b, i, j, k as int, d),
    {
        let at = position_in(u, k);
        let first = self.positions_of(u, a);
        proof {
            lemma_pos_in_unit(u as int, k as int);
            assert forall|b: u8, i: int, j: int| #[trigger]
                self@.hidden_pair_hits(u as int, a, b, i, j, k as int, d) implies first@.len() == 2
                && first@[0] == i && first@[1] == j && (at == i || at == j) && a != d by {
                self@.lemma_listed_pair(u as int, a, first@, i, j);
                lemma_unit_cell(u as int, i);
                lemma_unit_cell(u as int, j);
            }
        }
        if a == d || first.len() != 2 || (first[0] != at && first[1] != at) {
            return false;
        }
        let mut b: u8 = a + 1;
        while b <= 9
            invariant
                self.wf(),
                u < 27,
                1 <= a < b <= 10,
                k < 81,
                in_unit(u as int, k as int),
                a != d,
                at == pos_in_unit(u as int, k as int),
                first@.len() == 2,
                first@[0] == at || first@[1] == at,
                self@.lists_positions(u as int, a, first@),
                forall|c: u8, i: int, j: int| a < c < b ==> !#[trigger] self@.hidden_pair_hits(
                    u as int,
                    a,
                    c,
                    i,
                    j,
                    k as int,
                    d,
                ),
            decreases 10 - b,
        {
            if b != d {
                let second = self.positions_of(u, b);
                proof {
                    assert forall|i: int, j: int| #[trigger]
                        self@.hidden_pair_hits(u as int, a, b, i, j, k as int, d) implies second@.len()
                        == 2 && second@[0] == first@[0] && second@[1] == first@[1] by {
                        self@.lemma_listed_pair(u as int, a, first@, i, j);
                        self@.lemma_listed_pair(u as int, b, second@, i, j);
                    }
                }
                if second.len() == 2 && second[0] == first[0] && second[1] == first[1] {
                    proof {
                        let i = first@[0] as int;
                        let j = first@[1] as int;
                        self@.lemma_listed_pair(u as int, a, first@, i, j);
                        self@.lemma_listed_pair(u as int, b, second@, i, j);
                        lemma_pos_in_unit(u as int, k as int);
                        assert(self@.hidden_pair_hits(u as int, a, b, i, j, k as int, d));
                    }
                    return true;
                }
            }
            b = b + 1;
        }
        false
    }

    /// Whether unit `u` holds a hidden pair that takes `d` away from its cell `k`.
    fn hidden_pair_in(&self, u: usize, k: usize, d: u8) -> (found: bool)
        requires
            self.wf(),
            u < 27,
            k < 81,
            in_unit(u as int, k as int),
        ensures
            found == exists|a: u8, b: u8, i: int, j: int| #[trigger]
                self@.hidden_pair_hits(u as int, a, b, i, j, k as int, d),
    {
        let mut a: u8 = 1;
        while a <= 9
            invariant
                self.wf(),
                u < 27,
                1 <= a <= 10,
                k < 81,
                in_unit(u as int, k as int),
                forall|c: u8, b: u8, i: int, j: int| c < a ==> !#[trigger] self@.hidden_pair_hits(
                    u as int,
                    c,
                    b,
                    i,
                    j,
                    k as int,
                    d,
                ),
            decreases 10 - a,
        {
            if self.hidden_pair_from(u, a, k, d) {
                return true;
            }
            a = a + 1;
        }
        false
    }

    /// Whether a hidden pair takes digit `d` away from cell `k`.
    pub(crate) fn hidden_pair_excludes(&self, k: usize, d: u8) -> (found: bool)
        requires
            self.wf(),
            k < 81,
        ensures
            found == self@.hidden_pair_excludes(k as int, d),
    {
        let mut kind: usize = 0;
        while kind < 3
            invariant
                self.wf(),
                kind <= 3,
                k < 81,
                forall|n: int, a: u8, b: u8, i: int, j: int|
                    0 <= n < kind ==> !#[trigger] self@.hidden_pair_hits(
                        unit_of(k as int, n),
                        a,
                        b,
                        i,
                        j,
                        k as int,
                        d,
                    ),
            decreases 3 - kind,
        {
            let u = unit_holding(k, kind);
            if self.hidden_pair_in(u, k, d) {
                return true;
            }
            kind = kind + 1;
        }
        proof {
            assert forall|u: int, a: u8, b: u8, i: int, j: int| !#[trigger] self@.hidden_pair_hits(
                u,
                a,
                b,
                i,
                j,
                k as int,
                d,
            ) by {
                if self@.hidden_pair_hits(u, a, b, i, j, k as int, d) {
                    lemma_unit_cell(u, i);
                    lemma_unit_cell(u, j);
                    lemma_units_of_cell(u, k as int);
                    assert(u == unit_of(k as int, 0) || u == unit_of(k as int, 1) || u == unit_of(
                        k as int,
                        2,
                    ));
                }
            }
        }
        false
    }

    /// Whether in unit `u` the digits `a` and `b` form, with a larger digit, a hidden triple
    /// that takes `d` away from cell `k`.
    fn hidden_triple_from(&self, u: usize, a: u8, b: u8, k: usize, d: u8) -> (found: bool)
        requires
            self.wf(),
            u < 27,
            1 <= a < b <= 9,
            k < 81,
            in_unit(u as int, k as int),
        ensures
            found == exists|c: u8, i: int, j: int, l: int| #[trigger]
                self@.hidden_triple_hits(u as int, a, b, c, i, j, l, k as int, d),
    {
        let at = position_in(u, k);
        let first = self.positions_of(u, a);
        let second = self.positions_of(u, b);
        proof {
            lemma_pos_in_unit(u as int, k as int);
            assert forall|c: u8, i: int, j: int, l: int| #[trigger]
                self@.hidden_triple_hits(
                    u as int,
                    a,
                    b,
                    c,
                    i,
                    j,
                    l,
                    k as int,
                    d,
                ) implies first@.len() == 3 && first@[0] == i && first@[1] == j && first@[2] == l
                && second@.len() == 3 && second@[0] == i && second@[1] == j && second@[2] == l && (
            at == i || at == j || at == l) && a != d && b != d by {
                self@.lemma_listed_triple(u as int, a, first@, i, j, l);
                self@.lemma_listed_triple(u as int, b, second@, i, j, l);
                lemma_unit_cell(u as int, i);
                lemma_unit_cell(u as int, j);
                lemma_unit_cell(u as int, l);
            }
        }
        if a == d || b == d || first.len() != 3 || second.len() != 3 {
            return false;
        }
        if second[0] != first[0] || second[1] != first[1] || second[2] != first[2] {
            return false;
        }
        if first[0] != at && first[1] != at && first[2] != at {
            return false;
        }
        let mut c: u8 = b + 1;
        while c <= 9
            invariant
                self.wf(),
                u < 27,
                1 <= a < b < c <= 10,
                k < 81,
                in_unit(u as int, k as int),
                a != d,
                b != d,
                at == pos_in_unit(u as int, k as int),
                first@.len() == 3,
                second@.len() == 3,
                second@[0] == first@[0],
                second@[1] == first@[1],
                second@[2] == first@[2],
                first@[0] == at || first@[1] == at || first@[2] == at,
                self@.lists_positions(u as int, a, first@),
                self@.lists_positions(u as int, b, second@),
                forall|e: u8, i: int, j: int, l: int|
                    b < e < c ==> !#[trigger] self@.hidden_triple_hits(
                        u as int,
                        a,
                        b,
                        e,
                        i,
                        j,
                        l,
                        k as int,
                        d,
                    ),
            decreases 10 - c,
        {
            if c != d {
                let third = self.positions_of(u, c);
                proof {
                    assert forall|i: int, j: int, l: int| #[trigger]
                        self@.hidden_triple_hits(
                            u as int,
                            a,
                            b,
                            c,
                            i,
                            j,
                            l,
                            k as int,
                            d,
                        ) implies third@.len() == 3 && third@[0] == first@[0] && third@[1]
                        == first@[1] && third@[2] == first@[2] by {
                        self@.lemma_listed_triple(u as int, a, first@, i, j, l);
                        self@.lemma_listed_triple(u as int, c, third@, i, j, l);
                    }
                }
                if third.len() == 3 && third[0] == first[0] && third[1] == first[1] && third[2]
                    == first[2] {
                    proof {
                        let i = first@[0] as int;
                        let j = first@[1] as int;
                        let l = first@[2] as int;
                        self@.lemma_listed_triple(u as int, a, first@, i, j, l);
                        self@.lemma_listed_triple(u as int, b, second@, i, j, l);
                        self@.lemma_listed_triple(u as int, c, third@, i, j, l);
                        lemma_pos_in_unit(u as int, k as int);
                        assert(self@.hidden_triple_hits(
                            u as int,
                            a,
                            b,
                            c,
                            i,
                            j,
                            l,
                            k as int,
                            d,
                        ));
                    }
                    return true;
                }
            }
            c = c + 1;
        }
        false
    }

    /// Whether unit `u` holds a hidden triple that takes `d` away from its cell `k`.
    fn hidden_triple_in(&self, u: usize, k: usize, d: u8) -> (found: bool)
        requires
            self.wf(),
            u < 27,
            k < 81,
            in_unit(u as int, k as int),
        ensures
            found == exists|a: u8, b: u8, c: u8, i: int, j: int, l: int| #[trigger]
                self@.hidden_triple_hits(u as int, a, b, c, i, j, l, k as int, d),
    {
        let mut a: u8 = 1;
        while a <= 9
            invariant
                self.wf(),
                u < 27,
                1 <= a <= 10,
                k < 81,
                in_unit(u as int, k as int),
                forall|e: u8, b: u8, c: u8, i: int, j: int, l: int|
                    e < a ==> !#[trigger] self@.hidden_triple_hits(
                        u as int,
                        e,
                        b,
                        c,
                        i,
                        j,
                        l,
                        k as int,
                        d,
                    ),
            decreases 10 - a,
        {
            let mut b: u8 = a + 1;
            while b <= 9
                invariant
                    self.wf(),
                    u < 27,
                    1 <= a < b <= 10,
                    k < 81,
                    in_unit(u as int, k as int),
                    forall|e: u8, c: u8, i: int, j: int, l: int|
                        a < e < b ==> !#[trigger] self@.hidden_triple_hits(
                            u as int,
                            a,
                            e,
                            c,
                            i,
                            j,
                            l,
                            k as int,
                            d,
                        ),
                decreases 10 - b,
            {
                if self.hidden_triple_from(u, a, b, k, d) {
                    return true;
                }
                b = b + 1;
            }
            a = a + 1;
        }
        false
    }

    /// Whether a hidden triple takes digit `d` away from cell `k`.
    pub(crate) fn hidden_triple_excludes(&self, k: usize, d: u8) -> (found: bool)
        requires
            self.wf(),
            k < 81,
        ensures
            found == self@.hidden_triple_excludes(k as int, d),
    {
        let mut kind: usize = 0;
        while kind < 3
            invariant
                self.wf(),
                kind <= 3,
                k < 81,
                forall|n: int, a: u8, b: u8, c: u8, i: int, j: int, l: int|
                    0 <= n < kind ==> !#[trigger] self@.hidden_triple_hits(
                        unit_of(k as int, n),
                        a,
                        b,
                        c,
                        i,
                        j,
                        l,
                        k as int,
                        d,
                    ),
            decreases 3 - kind,
        {
            let u = unit_holding(k, kind);
            if self.hidden_triple_in(u, k, d) {
                return true;
            }
            kind = kind + 1;
        }
        proof {
            assert forall|u: int, a: u8, b: u8, c: u8, i: int, j: int, l: int| !#[trigger]
                self@.hidden_triple_hits(u, a, b, c, i, j, l, k as int, d) by {
                if self@.hidden_triple_hits(u, a, b, c, i, j, l, k as int, d) {
                    lemma_unit_cell(u, i);
                    lemma_unit_cell(u, j);
                    lemma_unit_cell(u, l);
                    lemma_units_of_cell(u, k as int);
                    assert(u == unit_of(k as int, 0) || u == unit_of(k as int, 1) || u == unit_of(
                        k as int,
                        2,
                    ));
                }
            }
        }
        false
    }
}

} // verus!
