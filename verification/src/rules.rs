//! What it means for a grid to be a Sudoku solution.
//!
//! A grid is a sequence of 81 cell values in row-major order; 0 stands for an empty cell.

use crate::digits::{digit_count, is_digit, lemma_digit_count, lemma_digit_subset};
use crate::topology::{is_cell, is_pos, is_unit, lemma_unit_cell, lemma_unit_cells_differ, peers, unit_cell};
use vstd::prelude::*;

verus! {

/// Whether no cell of `g` is empty.
pub open spec fn is_full(g: Seq<u8>) -> bool {
    forall|k: int| is_cell(k) ==> #[trigger] g[k] != 0
}

/// A solved grid: every cell holds a digit, and no two peers hold the same one.
pub open spec fn valid_solution(s: Seq<u8>) -> bool {
    &&& s.len() == 81
    &&& forall|k: int| is_cell(k) ==> is_digit(#[trigger] s[k])
    &&& forall|a: int, b: int| peers(a, b) ==> #[trigger] s[a] != #[trigger] s[b]
}

/// Whether `c` keeps every value that `g` has placed.
pub open spec fn extends(g: Seq<u8>, c: Seq<u8>) -> bool {
    &&& c.len() == 81
    &&& forall|k: int| is_cell(k) && #[trigger] g[k] != 0 ==> c[k] == g[k]
}

/// A grid whose placed values are digits, no two peers holding the same one.
pub open spec fn conflict_free(g: Seq<u8>) -> bool {
    &&& g.len() == 81
    &&& forall|k: int| is_cell(k) ==> #[trigger] g[k] <= 9
    &&& forall|a: int, b: int| peers(a, b) && #[trigger] g[a] != 0 ==> g[a] != #[trigger] g[b]
}

/// Whether `v` stands neither in cell `k` of `g` nor in any peer of it.
pub open spec fn fits(g: Seq<u8>, k: int, v: u8) -> bool {
    &&& g[k] != v
    &&& forall|j: int| peers(k, j) ==> #[trigger] g[j] != v
}

/// Whether `s` is a solution of the puzzle that `g` poses.
pub open spec fn solves(g: Seq<u8>, s: Seq<u8>) -> bool {
    valid_solution(s) && extends(g, s)
}

/// Whether the puzzle that `g` poses has a solution.
pub open spec fn solvable(g: Seq<u8>) -> bool {
    exists|s: Seq<u8>| solves(g, s)
}

/// The values that `s` holds in unit `u`, by position.
pub open spec fn unit_values(s: Seq<u8>, u: int) -> Seq<u8> {
    Seq::new(9, |i: int| s[unit_cell(u, i)])
}

/// In a solved grid every unit holds every digit.
pub proof fn lemma_unit_holds_digit(s: Seq<u8>, u: int, d: u8) -> (i: int)
    requires
        valid_solution(s),
        is_unit(u),
        is_digit(d),
    ensures
        is_pos(i),
        s[unit_cell(u, i)] == d,
{
    let vals = unit_values(s, u);
    if forall|i: int| is_pos(i) ==> vals[i] != d {
        assert forall|i: int, j: int|
            0 <= i < vals.len() && 0 <= j < vals.len() && i != j implies vals[i] != vals[j] by {
            lemma_unit_cells_differ(u, i, j);
        }
        vals.unique_seq_to_set();
        let all = Set::new(|e: u8| is_digit(e));
        let rest = all.remove(d);
        lemma_digit_count(all);
        lemma_digit_count(rest);
        assert(digit_count(rest) + 1 == digit_count(all));
        assert forall|e: u8| vals.to_set().contains(e) implies rest.contains(e) by {
            let i = choose|i: int| 0 <= i < vals.len() && vals[i] == e;
            lemma_unit_cell(u, i);
            assert(is_pos(i));
            assert(vals[i] == s[unit_cell(u, i)]);
            assert(is_digit(s[unit_cell(u, i)]));
            assert(vals[i] != d);
        }
        lemma_digit_subset(vals.to_set(), rest);
        assert(false);
    }
    let i = choose|i: int| is_pos(i) && vals[i] == d;
    i
}

/// In a solved grid a digit stands at one position of a unit only.
pub proof fn lemma_unit_holds_digit_once(s: Seq<u8>, u: int, i: int, j: int)
    requires
        valid_solution(s),
        is_unit(u),
        is_pos(i),
        is_pos(j),
        s[unit_cell(u, i)] == s[unit_cell(u, j)],
    ensures
        i == j,
{
    if i != j {
        lemma_unit_cells_differ(u, i, j);
    }
}

/// A conflict-free grid that is full is a solved grid.
pub proof fn lemma_full_conflict_free(g: Seq<u8>)
    requires
        conflict_free(g),
        is_full(g),
    ensures
        valid_solution(g),
{
    assert forall|k: int| is_cell(k) implies is_digit(#[trigger] g[k]) by {}
}

/// What a solution extends is conflict-free.
pub proof fn lemma_solvable_conflict_free(g: Seq<u8>, s: Seq<u8>)
    requires
        g.len() == 81,
        solves(g, s),
    ensures
        conflict_free(g),
{
    assert forall|k: int| is_cell(k) implies #[trigger] g[k] <= 9 by {
        if g[k] != 0 {
            assert(is_digit(s[k]));
        }
    }
    assert forall|a: int, b: int| peers(a, b) && #[trigger] g[a] != 0 implies g[a]
        != #[trigger] g[b] by {
        if g[b] != 0 {
            assert(s[a] != s[b]);
        }
    }
}

} // verus!
