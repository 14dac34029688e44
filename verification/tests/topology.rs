use sudoku_solver::board::SudokuBoard;
use sudoku_solver::topology::{are_peers, cell_index, lies_in, position_in, unit_holding};

#[test]
fn cell_index_is_row_major() {
    assert_eq!(cell_index(0, 0), 0);
    assert_eq!(cell_index(0, 8), 8);
    assert_eq!(cell_index(4, 4), 40);
    assert_eq!(cell_index(8, 8), 80);
    assert_eq!(cell_index(7, 2), 65);
}

#[test]
fn units_are_rows_then_columns_then_boxes() {
    let units = SudokuBoard::compute_units();
    let row3: Vec<usize> = (0..9).map(|i| units.unit_cell(3, i)).collect();
    assert_eq!(row3, vec![27, 28, 29, 30, 31, 32, 33, 34, 35]);
    let col3: Vec<usize> = (0..9).map(|i| units.unit_cell(12, i)).collect();
    assert_eq!(col3, vec![3, 12, 21, 30, 39, 48, 57, 66, 75]);
    let box2: Vec<usize> = (0..9).map(|i| units.unit_cell(20, i)).collect();
    assert_eq!(box2, vec![6, 7, 8, 15, 16, 17, 24, 25, 26]);
    let box8: Vec<usize> = (0..9).map(|i| units.unit_cell(26, i)).collect();
    assert_eq!(box8, vec![60, 61, 62, 69, 70, 71, 78, 79, 80]);
}

#[test]
fn every_cell_lies_in_three_units_of_nine_cells() {
    let units = SudokuBoard::compute_units();
    for k in 0..81 {
        let holding: Vec<usize> = (0..27).filter(|&u| lies_in(u, k)).collect();
        assert_eq!(holding, vec![unit_holding(k, 0), unit_holding(k, 1), unit_holding(k, 2)]);
        for &u in &holding {
            assert_eq!(units.unit_cell(u, position_in(u, k)), k);
        }
    }
    for u in 0..27 {
        let mut cells: Vec<usize> = (0..9).map(|i| units.unit_cell(u, i)).collect();
        cells.sort();
        cells.dedup();
        assert_eq!(cells.len(), 9);
        for &k in &cells {
            assert!(lies_in(u, k));
        }
    }
}

#[test]
fn peers_of_the_corner_cell() {
    let units = SudokuBoard::compute_units();
    let peers: Vec<usize> = (0..20).map(|j| units.peer(0, j)).collect();
    assert_eq!(
        peers,
        vec![1, 2, 3, 4, 5, 6, 7, 8, 9, 18, 27, 36, 45, 54, 63, 72, 10, 11, 19, 20]
    );
}

#[test]
fn peers_of_lists_the_twenty_peers() {
    let units = SudokuBoard::compute_units();
    assert_eq!(
        units.peers_of(0),
        &vec![1, 2, 3, 4, 5, 6, 7, 8, 9, 18, 27, 36, 45, 54, 63, 72, 10, 11, 19, 20]
    );
    assert_eq!(
        units.peers_of(80),
        &vec![72, 73, 74, 75, 76, 77, 78, 79, 8, 17, 26, 35, 44, 53, 62, 71, 60, 61, 69, 70]
    );
    for k in 0..81 {
        let list = units.peers_of(k);
        assert_eq!(list.len(), 20);
        for j in 0..20 {
            assert_eq!(list[j], units.peer(k, j));
        }
    }
}

#[test]
fn peers_of_the_centre_cell() {
    let units = SudokuBoard::compute_units();
    let peers: Vec<usize> = (0..20).map(|j| units.peer(40, j)).collect();
    assert_eq!(
        peers,
        vec![36, 37, 38, 39, 41, 42, 43, 44, 4, 13, 22, 31, 49, 58, 67, 76, 30, 32, 48, 50]
    );
}

#[test]
fn every_cell_has_twenty_different_peers() {
    let units = SudokuBoard::compute_units();
    for k in 0..81 {
        let mut listed: Vec<usize> = (0..20).map(|j| units.peer(k, j)).collect();
        listed.sort();
        listed.dedup();
        let expected: Vec<usize> = (0..81)
            .filter(|&c| {
                c != k
                    && (c / 9 == k / 9
                        || c % 9 == k % 9
                        || (c / 27 == k / 27 && (c % 9) / 3 == (k % 9) / 3))
            })
            .collect();
        assert_eq!(expected.len(), 20);
        assert_eq!(listed, expected);
        for c in 0..81 {
            assert_eq!(are_peers(k, c), expected.contains(&c));
        }
    }
}

#[test]
fn peer_relation_on_chosen_cells() {
    assert!(are_peers(0, 8));
    assert!(are_peers(0, 72));
    assert!(are_peers(0, 20));
    assert!(!are_peers(0, 0));
    assert!(!are_peers(0, 21));
    assert!(!are_peers(0, 80));
    assert!(are_peers(40, 30));
    assert!(!are_peers(40, 29));
}

#[test]
fn positions_in_units() {
    assert_eq!(unit_holding(40, 0), 4);
    assert_eq!(unit_holding(40, 1), 13);
    assert_eq!(unit_holding(40, 2), 22);
    assert_eq!(unit_holding(80, 2), 26);
    assert_eq!(position_in(4, 40), 4);
    assert_eq!(position_in(13, 40), 4);
    assert_eq!(position_in(22, 40), 4);
    assert_eq!(position_in(26, 70), 4);
    assert_eq!(position_in(18, 20), 8);
    assert_eq!(position_in(7, 65), 2);
    assert_eq!(position_in(11, 65), 7);
}

#[test]
fn cloned_units_hold_the_same_tables() {
    let units = SudokuBoard::compute_units();
    let copy = units.clone();
    for u in 0..27 {
        for i in 0..9 {
            assert_eq!(copy.unit_cell(u, i), units.unit_cell(u, i));
        }
    }
    for k in 0..81 {
        for j in 0..20 {
            assert_eq!(copy.peer(k, j), units.peer(k, j));
        }
    }
}
