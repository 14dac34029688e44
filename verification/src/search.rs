//! Backtracking search: fills the empty cells in row-major order, trying the digits of each
//! in rising order, and undoes a choice that leads nowhere.

use crate::board::{first_empty, grid_find_empty, peer_values, SudokuBoard};
use crate::digits::{is_digit, DigitSet};
use crate::model::{max_potential, BoardView, Technique};
use crate::rules::{conflict_free, fits, is_full, solves};
use crate::topology::{is_cell, peers, Units};
use vstd::prelude::*;

verus! {

/// Whether cell `k` of `c` holds a digit that none of its peers holds.
pub open spec fn placed_ok(c: Seq<u8>, k: int) -> bool {
    &&& is_digit(c[k])
    &&& forall|j: int| peers(k, j) ==> #[trigger] c[j] != c[k]
}

/// Whether the search may end in `c` when it starts from `g`: `c` keeps what `g` holds, and
/// every cell that `g` leaves empty holds a digit that none of its peers holds.
pub open spec fn completes(g: Seq<u8>, c: Seq<u8>) -> bool {
    &&& g.len() == 81
    &&& c.len() == 81
    &&& forall|k: int|
        #![trigger c[k]]
        #![trigger g[k]]
        is_cell(k) ==> if g[k] != 0 {
            c[k] == g[k]
        } else {
            placed_ok(c, k)
        }
}

/// Whether the search can fill `g`.
pub open spec fn completable(g: Seq<u8>) -> bool {
    exists|c: Seq<u8>| completes(g, c)
}

/// Whether `a` comes before `b` in the order of the search: in the first cell in which they
/// differ, `a` holds the smaller value.
pub open spec fn comes_before(a: Seq<u8>, b: Seq<u8>) -> bool {
    exists|k: int| is_cell(k) && #[trigger] a[k] < b[k] && forall|j: int| 0 <= j < k ==> a[j] == b[j]
}

/// Whether `c` is the first grid, in the order of the search, in which it may end when it
/// starts from `g`.
pub open spec fn first_completion(g: Seq<u8>, c: Seq<u8>) -> bool {
    &&& completes(g, c)
    &&& forall|x: Seq<u8>| #[trigger] completes(g, x) ==> x == c || comes_before(c, x)
}

/// The grid that the search leaves: the first in which it may end, or `g` itself if there
/// is none.
pub open spec fn searched(g: Seq<u8>) -> Seq<u8> {
    if completable(g) {
        choose|c: Seq<u8>| first_completion(g, c)
    } else {
        g
    }
}

/// The number of empty cells before cell `n`.
pub open spec fn vacancies(g: Seq<u8>, n: int) -> nat
    decreases n,
{
    if n <= 0 {
        0
    } else {
        vacancies(g, n - 1) + if g[n - 1] == 0 {
            1nat
        } else {
            0nat
        }
    }
}

/// Filling an empty cell leaves one empty cell fewer.
pub proof fn lemma_vacancies_fill(g: Seq<u8>, k: int, v: u8, n: int)
    requires
        g.len() == 81,
        is_cell(k),
        g[k] == 0,
        v != 0,
        0 <= n <= 81,
    ensures
        vacancies(g.update(k, v), n) == vacancies(g, n) - if k < n {
            1int
        } else {
            0int
        },
    decreases n,
{
    if n > 0 {
        lemma_vacancies_fill(g, k, v, n - 1);
    }
}

/// Of two different grids, at most one comes before the other.
pub proof fn lemma_comes_before_once(a: Seq<u8>, b: Seq<u8>)
    requires
        comes_before(a, b),
    ensures
        !comes_before(b, a),
        a != b,
{
    let k = choose|k: int|
        is_cell(k) && #[trigger] a[k] < b[k] && forall|j: int| 0 <= j < k ==> a[j] == b[j];
    if comes_before(b, a) {
        let m = choose|m: int|
            is_cell(m) && #[trigger] b[m] < a[m] && forall|j: int| 0 <= j < m ==> b[j] == a[j];
        if k < m {
            assert(b[k] == a[k]);
        } else if m < k {
            assert(a[m] == b[m]);
        }
    }
}

/// There is at most one first completion.
pub proof fn lemma_first_completion_unique(g: Seq<u8>, c: Seq<u8>, x: Seq<u8>)
    requires
        first_completion(g, c),
        first_completion(g, x),
    ensures
        c == x,
{
    if c != x {
        assert(completes(g, x));
        assert(completes(g, c));
        lemma_comes_before_once(c, x);
    }
}

/// Where the search can end, it ends in the first completion.
pub proof fn lemma_searched(g: Seq<u8>, c: Seq<u8>)
    requires
        first_completion(g, c),
    ensures
        completable(g),
        searched(g) == c,
{
    let x = choose|x: Seq<u8>| first_completion(g, x);
    lemma_first_completion_unique(g, c, x);
}

/// A solution of the puzzle is a grid in which the search may end.
pub proof fn lemma_solution_completes(g: Seq<u8>, s: Seq<u8>)
    requires
        g.len() == 81,
        solves(g, s),
    ensures
        completes(g, s),
{
    assert forall|k: int| is_cell(k) implies if g[k] != 0 {
        s[k] == g[k]
    } else {
        placed_ok(s, k)
    } by {
        assert(is_digit(s[k]));
        assert forall|j: int| peers(k, j) implies #[trigger] s[j] != s[k] by {
            assert(peers(j, k));
        }
    }
}

/// Started from a conflict-free grid, the search ends in solutions of the puzzle only.
pub proof fn lemma_completion_solves(g: Seq<u8>, c: Seq<u8>)
    requires
        conflict_free(g),
        completes(g, c),
    ensures
        solves(g, c),
{
    assert forall|k: int| is_cell(k) implies is_digit(#[trigger] c[k]) by {
        if g[k] != 0 {
            assert(g[k] <= 9);
        }
    }
    assert forall|a: int, b: int| peers(a, b) implies #[trigger] c[a] != #[trigger] c[b] by {
        assert(peers(b, a));
        if g[a] == 0 {
            assert(placed_ok(c, a));
        } else if g[b] == 0 {
            assert(placed_ok(c, b));
        } else {
            assert(g[a] != g[b]);
        }
    }
}

/// A full grid is its own and only completion.
pub proof fn lemma_full_completes(g: Seq<u8>)
    requires
        g.len() == 81,
        is_full(g),
    ensures
        first_completion(g, g),
{
    assert forall|x: Seq<u8>| #[trigger] completes(g, x) implies x == g || comes_before(g, x) by {
        assert(x =~= g);
    }
}

/// What placing `v` in the first empty cell `k` of `g` means for the completions of `g`.
pub proof fn lemma_place(g: Seq<u8>, k: int, v: u8, x: Seq<u8>)
    requires
        g.len() == 81,
        first_empty(g, k),
        is_digit(v),
        x.len() == 81,
        x[k] == v,
    ensures
        completes(g, x) ==> fits(g, k, v) && completes(g.update(k, v), x),
        fits(g, k, v) && completes(g.update(k, v), x) ==> completes(g, x),
{
    let h = g.update(k, v);
    if completes(g, x) {
        assert(placed_ok(x, k));
        assert forall|j: int| peers(k, j) implies #[trigger] g[j] != v by {
            if g[j] != 0 {
                assert(x[j] == g[j]);
            }
        }
        assert forall|j: int| is_cell(j) implies if h[j] != 0 {
            x[j] == h[j]
        } else {
            placed_ok(x, j)
        } by {
            if j != k {
                assert(h[j] == g[j]);
            }
        }
    }
    if fits(g, k, v) && completes(h, x) {
        assert forall|j: int| is_cell(j) implies if g[j] != 0 {
            x[j] == g[j]
        } else {
            placed_ok(x, j)
        } by {
            if j == k {
                assert forall|i: int| peers(k, i) implies #[trigger] x[i] != x[k] by {
                    if h[i] != 0 {
                        assert(x[i] == h[i]);
                        assert(g[i] != v);
                    } else {
                        assert(placed_ok(x, i));
                        assert(peers(i, k));
                    }
                }
            } else {
                assert(h[j] == g[j]);
            }
        }
    }
}

/// The largest number of grids that the search visits when `n` cells are empty: the grid
/// it starts from, and for each of the nine digits what a search with one empty cell fewer
/// visits.
pub open spec fn node_bound(n: nat) -> nat
    decreases n,
{
    if n == 0 {
        1
    } else {
        1 + 9 * node_bound((n - 1) as nat)
    }
}

/// Fills the empty cells of `grid` by backtracking, none of the cells before `from` being
/// empty. Returns whether it could, and how many grids it visited; if it could not, the grid
/// is left as it was.
pub(crate) fn search(grid: &mut Vec<u8>, units: &Units, from: usize) -> (out: (bool, Ghost<nat>))
    requires
        old(grid)@.len() == 81,
        units.wf(),
        from <= 81,
        forall|j: int| 0 <= j < from ==> #[trigger] old(grid)@[j] != 0,
    ensures
        final(grid)@.len() == 81,
        out.0 == completable(old(grid)@),
        out.0 ==> first_completion(old(grid)@, final(grid)@),
        !out.0 ==> final(grid)@ == old(grid)@,
        out.1@ <= node_bound(vacancies(old(grid)@, 81)),
    decreases vacancies(old(grid)@, 81),
{
    let ghost g = grid@;
    match grid_find_empty(grid, from) {
        None => {
            proof {
                lemma_full_completes(g);
            }
            (true, Ghost(1))
        },
        Some(k) => {
            let mut num: u8 = 1;
            let ghost mut visited: nat = 1;
            let ghost below = node_bound((vacancies(g, 81) - 1) as nat);
            let seen = peer_values(grid, units, k);
            proof {
                lemma_vacancies_fill(g, k as int, 1, 81);
            }
            while num <= 9
                invariant
                    1 <= num <= 10,
                    k < 81,
                    units.wf(),
                    grid@ == g,
                    g == old(grid)@,
                    g.len() == 81,
                    first_empty(g, k as int),
                    forall|d: u8| is_digit(d) ==> (#[trigger] seen@.contains(d) <==> !fits(g, k as int, d)),
                    vacancies(g, 81) >= 1,
                    below == node_bound((vacancies(g, 81) - 1) as nat),
                    visited <= 1 + (num - 1) * below,
                    forall|x: Seq<u8>| #[trigger] completes(g, x) ==> x[k as int] >= num,
                decreases 10 - num,
            {
                let ghost h = g.update(k as int, num);
                proof {
                    assert(1 + (num - 1) * below + below == 1 + num * below) by (nonlinear_arith);
                    assert(1 + num * below <= 1 + 9 * below) by (nonlinear_arith)
                        requires
                            num <= 9,
                            below >= 0,
                    ;
                }
                if !seen.contains(num) {
                    grid[k] = num;
                    proof {
                        lemma_vacancies_fill(g, k as int, num, 81);
                    }
                    let (found, Ghost(more)) = search(grid, units, k + 1);
                    proof {
                        visited = visited + more;
                    }
                    if found {
                        proof {
                            let c = grid@;
                            lemma_place(g, k as int, num, c);
                            assert forall|x: Seq<u8>| #[trigger] completes(g, x) implies x == c
                                || comes_before(c, x) by {
                                if x[k as int] == num {
                                    lemma_place(g, k as int, num, x);
                                } else {
                                    assert(c[k as int] < x[k as int]);
                                    assert forall|j: int| 0 <= j < k implies c[j] == x[j] by {
                                        assert(g[j] != 0);
                                    }
                                }
                            }
                        }
                        return (true, Ghost(visited));
                    }
                    grid[k] = 0;
                    proof {
                        assert(grid@ =~= g);
                        assert forall|x: Seq<u8>| #[trigger] completes(g, x) implies x[k as int]
                            != num by {
                            if x[k as int] == num {
                                lemma_place(g, k as int, num, x);
                            }
                        }
                    }
                } else {
                    proof {
                        assert forall|x: Seq<u8>| #[trigger] completes(g, x) implies x[k as int]
                            != num by {
                            if x[k as int] == num {
                                lemma_place(g, k as int, num, x);
                            }
                        }
                    }
                }
                num = num + 1;
            }
            proof {
                assert forall|x: Seq<u8>| !completes(g, x) by {
                    if completes(g, x) {
                        assert(x[k as int] >= 10);
                        assert(placed_ok(x, k as int));
                    }
                }
            }
            (false, Ghost(visited))
        },
    }
}

impl BoardView {
    /// The board that the search leaves: where it can fill the grid, the grid is the first
    /// completion and no cell has a candidate left; where it cannot, nothing has changed.
    pub open spec fn searched(self) -> BoardView {
        if completable(self.grid) {
            BoardView {
                grid: searched(self.grid),
                cands: Seq::new(81, |k: int| Set::<u8>::empty()),
                ..self
            }
        } else {
            self
        }
    }

    /// The search keeps the board well formed and never raises its potential.
    pub proof fn lemma_board_searched(self)
        requires
            self.wf(),
        ensures
            self.searched().wf(),
            self.narrows_to(self.searched()),
            self.searched().potential() <= self.potential(),
    {
        let next = self.searched();
        if completable(self.grid) {
            let c = choose|c: Seq<u8>| completes(self.grid, c);
            let first = choose|c: Seq<u8>| first_completion(self.grid, c);
            lemma_exists_first(self.grid);
            assert(first_completion(self.grid, first));
            assert(completes(self.grid, first));
            assert forall|k: int| is_cell(k) implies #[trigger] next.grid[k] != 0 by {
                if self.grid[k] == 0 {
                    assert(placed_ok(first, k));
                }
            }
            assert(next.shaped());
            assert(self.narrows_to(next));
            assert(next.consistent());
            self.lemma_narrowing(next);
            assert forall|s: Seq<u8>| #[trigger] solves(next.grid, s) implies next.admits(s) by {
                assert forall|k: int| is_cell(k) implies s[k] == next.grid[k] by {
                    assert(next.grid[k] != 0);
                }
            }
            assert forall|u: Technique|
                (#[trigger] next.counts.count(u)) + next.potential()
                    <= max_potential() by {
                assert(self.counts.count(u) + self.potential() <= max_potential());
            }
        } else {
            self.lemma_narrowing(self);
        }
    }
}

/// Where the search can end at all, it has a first completion.
pub proof fn lemma_exists_first(g: Seq<u8>)
    requires
        g.len() == 81,
        completable(g),
    ensures
        exists|c: Seq<u8>| first_completion(g, c),
    decreases vacancies(g, 81),
{
    if is_full(g) {
        lemma_full_completes(g);
    } else {
        let k = lemma_first_empty(g, 81);
        lemma_exists_first_from(g, k, 1);
    }
}

/// A grid with an empty cell before cell `n` has a first empty cell.
pub proof fn lemma_first_empty(g: Seq<u8>, n: int) -> (k: int)
    requires
        g.len() == 81,
        0 <= n <= 81,
        exists|j: int| 0 <= j < n && #[trigger] g[j] == 0,
    ensures
        first_empty(g, k),
        k < n,
    decreases n,
{
    if exists|j: int| 0 <= j < n - 1 && #[trigger] g[j] == 0 {
        lemma_first_empty(g, n - 1)
    } else {
        let j = choose|j: int| 0 <= j < n && #[trigger] g[j] == 0;
        assert(j == n - 1);
        n - 1
    }
}

/// Where some completion holds at least `v` in the first empty cell `k`, and none holds
/// less, there is a first completion.
pub proof fn lemma_exists_first_from(g: Seq<u8>, k: int, v: u8)
    requires
        g.len() == 81,
        first_empty(g, k),
        completable(g),
        1 <= v <= 10,
        forall|x: Seq<u8>| #[trigger] completes(g, x) ==> x[k] >= v,
    ensures
        exists|c: Seq<u8>| first_completion(g, c),
    decreases vacancies(g, 81), 10 - v,
{
    let some = choose|c: Seq<u8>| completes(g, c);
    assert(placed_ok(some, k));
    if v == 10 {
        assert(some[k] >= 10);
    } else {
        let h = g.update(k, v);
        if fits(g, k, v) && completable(h) {
            lemma_vacancies_fill(g, k, v, 81);
            lemma_exists_first(h);
            let c = choose|c: Seq<u8>| first_completion(h, c);
            lemma_place(g, k, v, c);
            assert forall|x: Seq<u8>| #[trigger] completes(g, x) implies x == c || comes_before(
                c,
                x,
            ) by {
                if x[k] == v {
                    lemma_place(g, k, v, x);
                } else {
                    assert(c[k] < x[k]);
                    assert forall|j: int| 0 <= j < k implies c[j] == x[j] by {
                        assert(g[j] != 0);
                    }
                }
            }
            assert(first_completion(g, c));
        } else {
            assert forall|x: Seq<u8>| #[trigger] completes(g, x) implies x[k] >= v + 1 by {
                if x[k] == v {
                    lemma_place(g, k, v, x);
                }
            }
            lemma_exists_first_from(g, k, (v + 1) as u8);
        }
    }
}

impl SudokuBoard {
    /// Backtracking search over the grid alone: the candidate sets are not consulted. Returns
    /// whether the grid could be filled. If so, the grid is the first completion in the
    /// order of the search and no cell has a candidate left; if not, the board is left
    /// as it was.
    pub fn brute_force(&mut self) -> (found: bool)
        requires
            old(self).wf(),
        ensures
            final(self).wf(),
            found == completable(old(self)@.grid),
            found ==> first_completion(old(self)@.grid, final(self)@.grid),
            final(self)@ == old(self)@.searched(),
    {
        let (found, _) = search(&mut self.grid, &self.units, 0);
        if found {
            let mut k: usize = 0;
            while k < 81
                invariant
                    k <= 81,
                    self.shaped(),
                    self.method_counts == old(self).method_counts,
                    self.y_wing == old(self).y_wing,
                    first_completion(old(self)@.grid, self.grid@),
                    forall|j: int| 0 <= j < k ==> (#[trigger] self.candidates@[j])@ == Set::<
                        u8,
                    >::empty(),
                decreases 81 - k,
            {
                self.candidates[k] = DigitSet::empty();
                k = k + 1;
            }
            proof {
                lemma_searched(old(self)@.grid, self.grid@);
                assert(self@.cands =~= old(self)@.searched().cands);
            }
        }
        proof {
            old(self)@.lemma_board_searched();
        }
        found
    }
}

} // verus!
