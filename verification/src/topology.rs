//! The geometry of the board: cells, the 27 units and the peer relation.
//!
//! Cells are numbered 0 to 80 in row-major order. Units are numbered 0 to 26: the nine rows,
//! then the nine columns, then the nine boxes. Inside a unit the nine cells have positions 0
//! to 8.

use crate::board::SudokuBoard;
use vstd::prelude::*;

verus! {

/// Whether `k` numbers a cell of the board.
pub open spec fn is_cell(k: int) -> bool {
    0 <= k < 81
}

/// The number of the cell in row `row` and column `col`.
pub open spec fn cell_at(row: int, col: int) -> int {
    row * 9 + col
}

/// The row of cell `k`.
pub open spec fn row_of(k: int) -> int {
    k / 9
}

/// The column of cell `k`.
pub open spec fn col_of(k: int) -> int {
    k % 9
}

/// The 3×3 box of cell `k`, boxes being numbered in row-major order.
pub open spec fn box_of(k: int) -> int {
    (k / 27) * 3 + (k % 9) / 3
}

/// Two different cells that share a row, a column or a box.
pub open spec fn peers(a: int, b: int) -> bool {
    &&& is_cell(a)
    &&& is_cell(b)
    &&& a != b
    &&& (row_of(a) == row_of(b) || col_of(a) == col_of(b) || box_of(a) == box_of(b))
}

/// Whether `u` numbers a unit.
pub open spec fn is_unit(u: int) -> bool {
    0 <= u < 27
}

/// Whether `i` is a position inside a unit.
pub open spec fn is_pos(i: int) -> bool {
    0 <= i < 9
}

/// The cell at position `i` of unit `u`.
pub open spec fn unit_cell(u: int, i: int) -> int {
    if u < 9 {
        u * 9 + i
    } else if u < 18 {
        i * 9 + (u - 9)
    } else {
        (((u - 18) / 3) * 3 + i / 3) * 9 + ((u - 18) % 3) * 3 + i % 3
    }
}

/// Whether cell `k` lies in unit `u`.
pub open spec fn in_unit(u: int, k: int) -> bool {
    ||| 0 <= u < 9 && row_of(k) == u
    ||| 9 <= u < 18 && col_of(k) == u - 9
    ||| 18 <= u < 27 && box_of(k) == u - 18
}

/// The position that cell `k` has in unit `u`, for a cell of that unit.
pub open spec fn pos_in_unit(u: int, k: int) -> int {
    if u < 9 {
        col_of(k)
    } else if u < 18 {
        row_of(k)
    } else {
        (row_of(k) % 3) * 3 + col_of(k) % 3
    }
}

/// The unit of kind `kind` (0 row, 1 column, 2 box) that holds cell `k`.
pub open spec fn unit_of(k: int, kind: int) -> int {
    if kind == 0 {
        row_of(k)
    } else if kind == 1 {
        9 + col_of(k)
    } else {
        18 + box_of(k)
    }
}

/// Every position of a unit holds a cell of that unit, at that position.
pub proof fn lemma_unit_cell(u: int, i: int)
    requires
        is_unit(u),
        is_pos(i),
    ensures
        is_cell(unit_cell(u, i)),
        in_unit(u, unit_cell(u, i)),
        pos_in_unit(u, unit_cell(u, i)) == i,
{
    let k = unit_cell(u, i);
    if u < 9 {
        assert(k / 9 == u && k % 9 == i);
    } else if u < 18 {
        assert(k / 9 == i && k % 9 == u - 9);
    } else {
        let b = u - 18;
        let row = (b / 3) * 3 + i / 3;
        let col = (b % 3) * 3 + i % 3;
        assert(0 <= row < 9 && 0 <= col < 9);
        assert(k == row * 9 + col);
        assert(k / 9 == row && k % 9 == col);
        assert(k / 27 == b / 3);
        assert(col / 3 == b % 3);
        assert(row % 3 == i / 3);
        assert(col % 3 == i % 3);
    }
}

/// A cell of a unit is the one that stands at its position there.
pub proof fn lemma_pos_in_unit(u: int, k: int)
    requires
        is_unit(u),
        is_cell(k),
        in_unit(u, k),
    ensures
        is_pos(pos_in_unit(u, k)),
        unit_cell(u, pos_in_unit(u, k)) == k,
{
    let r = k / 9;
    let c = k % 9;
    assert(k == 9 * r + c);
    assert(k / 27 == r / 3);
    if u >= 18 {
        let b = u - 18;
        let pos = (r % 3) * 3 + c % 3;
        assert(b == (r / 3) * 3 + c / 3);
        assert(b / 3 == r / 3);
        assert(b % 3 == c / 3);
        assert(pos / 3 == r % 3);
        assert(pos % 3 == c % 3);
    }
}

/// Two positions of one unit hold the same cell only if they are the same position.
pub proof fn lemma_unit_cells_differ(u: int, i: int, j: int)
    requires
        is_unit(u),
        is_pos(i),
        is_pos(j),
        i != j,
    ensures
        unit_cell(u, i) != unit_cell(u, j),
        peers(unit_cell(u, i), unit_cell(u, j)),
{
    lemma_unit_cell(u, i);
    lemma_unit_cell(u, j);
}

/// A cell lies in exactly three units: its row, its column and its box.
pub proof fn lemma_units_of_cell(u: int, k: int)
    requires
        is_cell(k),
    ensures
        is_unit(unit_of(k, 0)) && in_unit(unit_of(k, 0), k),
        is_unit(unit_of(k, 1)) && in_unit(unit_of(k, 1), k),
        is_unit(unit_of(k, 2)) && in_unit(unit_of(k, 2), k),
        is_unit(u) && in_unit(u, k) ==> u == unit_of(k, 0) || u == unit_of(k, 1) || u == unit_of(
            k,
            2,
        ),
{
    let row = k / 9;
    let col = k % 9;
    assert(0 <= row < 9 && 0 <= col < 9);
    assert(0 <= k / 27 < 3);
    assert(0 <= col / 3 < 3);
}

/// Two different cells of one unit are peers.
pub proof fn lemma_same_unit_peers(u: int, a: int, b: int)
    requires
        is_unit(u),
        is_cell(a),
        is_cell(b),
        in_unit(u, a),
        in_unit(u, b),
        a != b,
    ensures
        peers(a, b),
{
    if u < 9 {
        assert(row_of(a) == row_of(b));
    } else if u < 18 {
        assert(col_of(a) == col_of(b));
    } else {
        assert(box_of(a) == box_of(b));
    }
}

/// The `j`-th of the numbers 0, 1, 2, ... with `hole` left out.
pub open spec fn skip(j: int, hole: int) -> int {
    if j < hole {
        j
    } else {
        j + 1
    }
}

/// The place that `x` has among the numbers 0, 1, 2, ... with `hole` left out.
pub open spec fn unskip(x: int, hole: int) -> int {
    if x < hole {
        x
    } else {
        x - 1
    }
}

/// The `j`-th of the 20 peers of cell `k`: first the 8 others of its row, then the 8 others
/// of its column, then the 4 cells of its box that lie in another row and another column.
pub open spec fn peer_at(k: int, j: int) -> int {
    let row = row_of(k);
    let col = col_of(k);
    if j < 8 {
        row * 9 + skip(j, col)
    } else if j < 16 {
        skip(j - 8, row) * 9 + col
    } else {
        ((row / 3) * 3 + skip((j - 16) / 2, row % 3)) * 9 + (col / 3) * 3 + skip(
            (j - 16) % 2,
            col % 3,
        )
    }
}

/// The place that peer `c` has among the 20 peers of cell `k`.
pub open spec fn peer_slot(k: int, c: int) -> int {
    if row_of(c) == row_of(k) {
        unskip(col_of(c), col_of(k))
    } else if col_of(c) == col_of(k) {
        8 + unskip(row_of(c), row_of(k))
    } else {
        16 + 2 * unskip(row_of(c) % 3, row_of(k) % 3) + unskip(col_of(c) % 3, col_of(k) % 3)
    }
}

/// Each of the 20 places holds a peer, and a different one.
pub proof fn lemma_peer_at(k: int, j: int)
    requires
        is_cell(k),
        0 <= j < 20,
    ensures
        peers(k, peer_at(k, j)),
        peer_slot(k, peer_at(k, j)) == j,
{
    let row = k / 9;
    let col = k % 9;
    let c = peer_at(k, j);
    assert(k == row * 9 + col);
    if j < 8 {
        let x = skip(j, col);
        assert(0 <= x < 9 && x != col);
        assert(c == row * 9 + x);
        assert(c / 9 == row && c % 9 == x);
        assert(unskip(x, col) == j);
    } else if j < 16 {
        let y = skip(j - 8, row);
        assert(0 <= y < 9 && y != row);
        assert(c == y * 9 + col);
        assert(c / 9 == y && c % 9 == col);
        assert(unskip(y, row) == j - 8);
    } else {
        let m = (j - 16) / 2;
        let n = (j - 16) % 2;
        let y = skip(m, row % 3);
        let x = skip(n, col % 3);
        assert(0 <= m < 2 && 0 <= n < 2);
        assert(0 <= y < 3 && y != row % 3);
        assert(0 <= x < 3 && x != col % 3);
        let r2 = (row / 3) * 3 + y;
        let c2 = (col / 3) * 3 + x;
        assert(0 <= r2 < 9 && 0 <= c2 < 9);
        assert(c == r2 * 9 + c2);
        assert(c / 9 == r2 && c % 9 == c2);
        assert(r2 / 3 == row / 3 && r2 % 3 == y);
        assert(c2 / 3 == col / 3 && c2 % 3 == x);
        assert(r2 != row && c2 != col);
        assert(c / 27 == r2 / 3);
        assert(k / 27 == row / 3);
        assert(box_of(c) == box_of(k));
        assert(unskip(y, row % 3) == m);
        assert(unskip(x, col % 3) == n);
        assert(16 + 2 * m + n == j);
    }
}

/// Every peer of a cell stands at one of the 20 places.
pub proof fn lemma_peer_slot(k: int, c: int)
    requires
        peers(k, c),
    ensures
        0 <= peer_slot(k, c) < 20,
        peer_at(k, peer_slot(k, c)) == c,
{
    let row = k / 9;
    let col = k % 9;
    let r2 = c / 9;
    let c2 = c % 9;
    assert(k == row * 9 + col);
    assert(c == r2 * 9 + c2);
    if r2 == row {
        let j = unskip(c2, col);
        assert(0 <= j < 8);
        assert(skip(j, col) == c2);
    } else if c2 == col {
        let j = unskip(r2, row);
        assert(0 <= j < 8);
        assert(skip(j, row) == r2);
    } else {
        assert(k / 27 == row / 3);
        assert(c / 27 == r2 / 3);
        assert(row / 3 == r2 / 3);
        assert(col / 3 == c2 / 3);
        let m = unskip(r2 % 3, row % 3);
        let n = unskip(c2 % 3, col % 3);
        assert(r2 % 3 != row % 3);
        assert(c2 % 3 != col % 3);
        assert(0 <= m < 2 && 0 <= n < 2);
        let j = 16 + 2 * m + n;
        assert((j - 16) / 2 == m && (j - 16) % 2 == n);
        assert(skip(m, row % 3) == r2 % 3);
        assert(skip(n, col % 3) == c2 % 3);
        assert((row / 3) * 3 + r2 % 3 == r2);
        assert((col / 3) * 3 + c2 % 3 == c2);
    }
}

/// The precomputed geometry: the cells of each unit and the peers of each cell.
pub struct Units {
    cells: Vec<Vec<usize>>,
    peers: Vec<Vec<usize>>,
}

impl Units {
    /// The tables hold the 9 cells of each of the 27 units and the 20 peers of each of the
    /// 81 cells.
    pub closed spec fn wf(&self) -> bool {
        &&& self.cells@.len() == 27
        &&& forall|u: int| is_unit(u) ==> (#[trigger] self.cells@[u])@.len() == 9
        &&& forall|u: int, i: int|
            is_unit(u) && is_pos(i) ==> (#[trigger] self.cells@[u]@[i]) == unit_cell(u, i)
        &&& self.peers@.len() == 81
        &&& forall|k: int| is_cell(k) ==> (#[trigger] self.peers@[k])@.len() == 20
        &&& forall|k: int, j: int|
            is_cell(k) && 0 <= j < 20 ==> (#[trigger] self.peers@[k]@[j]) == peer_at(k, j)
    }

    /// The cell at position `i` of unit `u`.
    pub fn unit_cell(&self, u: usize, i: usize) -> (k: usize)
        requires
            self.wf(),
            u < 27,
            i < 9,
        ensures
            k == unit_cell(u as int, i as int),
            k < 81,
    {
        proof {
            lemma_unit_cell(u as int, i as int);
        }
        self.cells[u][i]
    }

    /// The 20 peers of cell `k`: each cell but `k` that shares a row, a column or a box with
    /// it, once.
    pub fn peers_of(&self, k: usize) -> (list: &Vec<usize>)
        requires
            self.wf(),
            k < 81,
        ensures
            list@.len() == 20,
            forall|j: int| 0 <= j < 20 ==> #[trigger] list@[j] == peer_at(k as int, j),
            forall|j: int| 0 <= j < 20 ==> peers(k as int, #[trigger] list@[j] as int),
            forall|c: int|
                peers(k as int, c) ==> 0 <= peer_slot(k as int, c) < 20 && #[trigger] list@[peer_slot(
                    k as int,
                    c,
                )] == c,
            forall|i: int, j: int| 0 <= i < j < 20 ==> #[trigger] list@[i] != #[trigger] list@[j],
    {
        let list = &self.peers[k];
        proof {
            assert forall|j: int| 0 <= j < 20 implies peers(k as int, #[trigger] list@[j] as int) by {
                lemma_peer_at(k as int, j);
            }
            assert forall|c: int| peers(k as int, c) implies 0 <= peer_slot(k as int, c) < 20
                && #[trigger] list@[peer_slot(k as int, c)] == c by {
                lemma_peer_slot(k as int, c);
            }
            assert forall|i: int, j: int| 0 <= i < j < 20 implies #[trigger] list@[i]
                != #[trigger] list@[j] by {
                lemma_peer_at(k as int, i);
                lemma_peer_at(k as int, j);
            }
        }
        list
    }

    /// The `j`-th peer of cell `k`.
    pub fn peer(&self, k: usize, j: usize) -> (c: usize)
        requires
            self.wf(),
            k < 81,
            j < 20,
        ensures
            c == peer_at(k as int, j as int),
            peers(k as int, c as int),
            c < 81,
    {
        proof {
            lemma_peer_at(k as int, j as int);
        }
        self.peers[k][j]
    }
}

/// The cell at position `i` of unit `u`, computed.
fn unit_cell_of(u: usize, i: usize) -> (k: usize)
    requires
        u < 27,
        i < 9,
    ensures
        k == unit_cell(u as int, i as int),
{
    if u < 9 {
        u * 9 + i
    } else if u < 18 {
        i * 9 + (u - 9)
    } else {
        (((u - 18) / 3) * 3 + i / 3) * 9 + ((u - 18) % 3) * 3 + i % 3
    }
}

/// The `j`-th of the numbers 0, 1, 2, ... with `hole` left out.
fn skip_over(j: usize, hole: usize) -> (x: usize)
    requires
        j < 100,
    ensures
        x == skip(j as int, hole as int),
{
    if j < hole {
        j
    } else {
        j + 1
    }
}

/// The `j`-th peer of cell `k`, computed.
fn peer_of(k: usize, j: usize) -> (c: usize)
    requires
        k < 81,
        j < 20,
    ensures
        c == peer_at(k as int, j as int),
{
    let row = k / 9;
    let col = k % 9;
    if j < 8 {
        row * 9 + skip_over(j, col)
    } else if j < 16 {
        skip_over(j - 8, row) * 9 + col
    } else {
        ((row / 3) * 3 + skip_over((j - 16) / 2, row % 3)) * 9 + (col / 3) * 3 + skip_over(
            (j - 16) % 2,
            col % 3,
        )
    }
}

impl Clone for Units {
    fn clone(&self) -> (copy: Units)
        ensures
            self.wf() ==> copy.wf(),
    {
        let copy = Units { cells: self.cells.clone(), peers: self.peers.clone() };
        proof {
            if self.wf() {
                assert forall|u: int| is_unit(u) implies (#[trigger] copy.cells@[u])@.len()
                    == 9 by {
                    assert(cloned::<Vec<usize>>(self.cells@[u], copy.cells@[u]));
                }
            }
        }
        copy
    }
}

impl SudokuBoard {
    /// Builds the tables of the geometry: for each of the 27 units its 9 cells, and for
    /// each of the 81 cells its 20 peers.
    pub fn compute_units() -> (units: Units)
        ensures
            units.wf(),
    {
        let mut cells: Vec<Vec<usize>> = Vec::new();
        let mut u: usize = 0;
        while u < 27
            invariant
                u <= 27,
                cells@.len() == u,
                forall|v: int| 0 <= v < u ==> (#[trigger] cells@[v])@.len() == 9,
                forall|v: int, i: int|
                    0 <= v < u && is_pos(i) ==> (#[trigger] cells@[v]@[i]) == unit_cell(v, i),
            decreases 27 - u,
        {
            let mut unit: Vec<usize> = Vec::new();
            let mut i: usize = 0;
            while i < 9
                invariant
                    u < 27,
                    i <= 9,
                    unit@.len() == i,
                    forall|m: int| 0 <= m < i ==> (#[trigger] unit@[m]) == unit_cell(u as int, m),
                decreases 9 - i,
            {
                unit.push(unit_cell_of(u, i));
                i = i + 1;
            }
            cells.push(unit);
            u = u + 1;
        }
        let mut peers: Vec<Vec<usize>> = Vec::new();
        let mut k: usize = 0;
        while k < 81
            invariant
                k <= 81,
                peers@.len() == k,
                forall|c: int| 0 <= c < k ==> (#[trigger] peers@[c])@.len() == 20,
                forall|c: int, j: int|
                    0 <= c < k && 0 <= j < 20 ==> (#[trigger] peers@[c]@[j]) == peer_at(c, j),
            decreases 81 - k,
        {
            let mut list: Vec<usize> = Vec::new();
            let mut j: usize = 0;
            while j < 20
                invariant
                    k < 81,
                    j <= 20,
                    list@.len() == j,
                    forall|m: int| 0 <= m < j ==> (#[trigger] list@[m]) == peer_at(k as int, m),
                decreases 20 - j,
            {
                list.push(peer_of(k, j));
                j = j + 1;
            }
            peers.push(list);
            k = k + 1;
        }
        Units { cells, peers }
    }
}

/// The unit of kind `kind` (0 row, 1 column, 2 box) that holds cell `k`.
pub fn unit_holding(k: usize, kind: usize) -> (u: usize)
    requires
        k < 81,
        kind < 3,
    ensures
        u == unit_of(k as int, kind as int),
        u < 27,
        in_unit(u as int, k as int),
{
    if kind == 0 {
        k / 9
    } else if kind == 1 {
        9 + k % 9
    } else {
        18 + (k / 27) * 3 + (k % 9) / 3
    }
}

/// The position that cell `k` has in unit `u`; for a cell outside a row or a column, the
/// position at which that line crosses the cell's own column or row.
pub fn position_in(u: usize, k: usize) -> (m: usize)
    requires
        u < 27,
        k < 81,
    ensures
        m == pos_in_unit(u as int, k as int),
        m < 9,
{
    if u < 9 {
        k % 9
    } else if u < 18 {
        k / 9
    } else {
        ((k / 9) % 3) * 3 + (k % 9) % 3
    }
}

/// Whether cell `k` lies in unit `u`.
pub fn lies_in(u: usize, k: usize) -> (b: bool)
    requires
        u < 27,
        k < 81,
    ensures
        b == in_unit(u as int, k as int),
{
    if u < 9 {
        k / 9 == u
    } else if u < 18 {
        k % 9 == u - 9
    } else {
        (k / 27) * 3 + (k % 9) / 3 == u - 18
    }
}

/// Whether the cells `a` and `b` are peers.
pub fn are_peers(a: usize, b: usize) -> (yes: bool)
    requires
        a < 81,
        b < 81,
    ensures
        yes == peers(a as int, b as int),
{
    a != b && (a / 9 == b / 9 || a % 9 == b % 9 || (a / 27) * 3 + (a % 9) / 3 == (b / 27) * 3 + (b
        % 9) / 3)
}

/// The number of the cell in row `row` and column `col`.
pub fn cell_index(row: usize, col: usize) -> (k: usize)
    requires
        row < 9,
        col < 9,
    ensures
        k == cell_at(row as int, col as int),
        is_cell(k as int),
        row_of(k as int) == row,
        col_of(k as int) == col,
{
    row * 9 + col
}

} // verus!
