use sudoku_solver::board::SudokuBoard;
use sudoku_solver::digits::DigitSet;
use sudoku_solver::model::Technique;

const PUZZLE: [[u8; 9]; 9] = [
    [5, 3, 0, 0, 7, 0, 0, 0, 0],
    [6, 0, 0, 1, 9, 5, 0, 0, 0],
    [0, 9, 8, 0, 0, 0, 0, 6, 0],
    [8, 0, 0, 0, 6, 0, 0, 0, 3],
    [4, 0, 0, 8, 0, 3, 0, 0, 1],
    [7, 0, 0, 0, 2, 0, 0, 0, 6],
    [0, 6, 0, 0, 0, 0, 2, 8, 0],
    [0, 0, 0, 4, 1, 9, 0, 0, 5],
    [0, 0, 0, 0, 8, 0, 0, 7, 9],
];

const SOLUTION: [[u8; 9]; 9] = [
    [5, 3, 4, 6, 7, 8, 9, 1, 2],
    [6, 7, 2, 1, 9, 5, 3, 4, 8],
    [1, 9, 8, 3, 4, 2, 5, 6, 7],
    [8, 5, 9, 7, 6, 1, 4, 2, 3],
    [4, 2, 6, 8, 5, 3, 7, 9, 1],
    [7, 1, 3, 9, 2, 4, 8, 5, 6],
    [9, 6, 1, 5, 3, 7, 2, 8, 4],
    [2, 8, 7, 4, 1, 9, 6, 3, 5],
    [3, 4, 5, 2, 8, 6, 1, 7, 9],
];

fn digits_in(set: &DigitSet) -> Vec<u8> {
    (1..=9u8).filter(|&d| set.contains(d)).collect()
}

fn candidates_of(board: &SudokuBoard) -> Vec<Vec<u8>> {
    (0..81).map(|k| digits_in(&board.candidates(k / 9, k % 9))).collect()
}

fn values_of(board: &SudokuBoard) -> Vec<u8> {
    (0..81).map(|k| board.value(k / 9, k % 9)).collect()
}

#[test]
fn from_keeps_the_grid() {
    let board = SudokuBoard::from(PUZZLE);
    for r in 0..9 {
        for c in 0..9 {
            assert_eq!(board.value(r, c), PUZZLE[r][c]);
        }
    }
    assert!(!board.uses_y_wing());
}

#[test]
fn from_computes_candidates_from_peers() {
    let board = SudokuBoard::from(PUZZLE);
    assert_eq!(digits_in(&board.candidates(0, 2)), vec![1, 2, 4]);
    assert_eq!(digits_in(&board.candidates(1, 1)), vec![2, 4, 7]);
    assert_eq!(digits_in(&board.candidates(2, 0)), vec![1, 2]);
    assert_eq!(digits_in(&board.candidates(4, 4)), vec![5]);
    assert_eq!(digits_in(&board.candidates(8, 0)), vec![1, 2, 3]);
    assert_eq!(digits_in(&board.candidates(0, 0)), Vec::<u8>::new());
    assert_eq!(digits_in(&board.candidates(8, 8)), Vec::<u8>::new());
}

#[test]
fn filled_cells_have_no_candidates_and_candidates_avoid_peers() {
    let board = SudokuBoard::from(PUZZLE);
    for k in 0..81 {
        let set = board.candidates(k / 9, k % 9);
        if PUZZLE[k / 9][k % 9] != 0 {
            assert_eq!(set.len(), 0);
        } else {
            for d in 1..=9u8 {
                let seen = (0..81).any(|j| {
                    j != k
                        && (j / 9 == k / 9
                            || j % 9 == k % 9
                            || (j / 27 == k / 27 && (j % 9) / 3 == (k % 9) / 3))
                        && PUZZLE[j / 9][j % 9] == d
                });
                assert_eq!(set.contains(d), !seen);
            }
        }
    }
}

#[test]
fn new_board_is_empty_with_all_candidates() {
    let board = SudokuBoard::new();
    for r in 0..9 {
        for c in 0..9 {
            assert_eq!(board.value(r, c), 0);
            assert_eq!(board.candidates(r, c).len(), 9);
        }
    }
    let counts = board.method_counts();
    assert_eq!(counts.singles, 0);
    assert_eq!(counts.naked_pairs, 0);
    assert_eq!(counts.naked_triples, 0);
    assert_eq!(counts.hidden_pairs, 0);
    assert_eq!(counts.hidden_triples, 0);
    assert_eq!(counts.x_wing, 0);
    assert_eq!(counts.y_wing, 0);
    assert!(!board.is_solved());
    assert_eq!(board.find_empty(), Some((0, 0)));
}

#[test]
fn values_that_are_no_digits_leave_candidates_alone() {
    let mut rows = [[0u8; 9]; 9];
    rows[0][0] = 200;
    rows[0][1] = 10;
    let board = SudokuBoard::from(rows);
    assert_eq!(board.value(0, 0), 200);
    assert_eq!(board.candidates(0, 0).len(), 0);
    assert_eq!(board.candidates(0, 1).len(), 0);
    assert_eq!(board.candidates(0, 2).len(), 9);
    assert!(!board.is_conflict_free());
}

#[test]
fn set_value_fills_the_cell_and_narrows_its_peers() {
    let mut board = SudokuBoard::from(PUZZLE);
    let before = candidates_of(&board);
    board.set_value(0, 2, 4);
    assert_eq!(board.value(0, 2), 4);
    assert_eq!(digits_in(&board.candidates(0, 2)), Vec::<u8>::new());
    assert_eq!(digits_in(&board.candidates(1, 1)), vec![2, 7]);
    assert_eq!(digits_in(&board.candidates(2, 0)), vec![1, 2]);
    let after = candidates_of(&board);
    for k in 0..81usize {
        let peer = k != 2 && (k / 9 == 0 || k % 9 == 2 || (k / 27 == 0 && (k % 9) / 3 == 0));
        let mut expected = before[k].clone();
        if k == 2 {
            expected.clear();
        } else if peer {
            expected.retain(|&d| d != 4);
        }
        assert_eq!(after[k], expected);
        if k != 2 {
            assert_eq!(board.value(k / 9, k % 9), PUZZLE[k / 9][k % 9]);
        }
    }
}

#[test]
fn set_value_twice_changes_nothing_more() {
    let mut board = SudokuBoard::from(PUZZLE);
    board.set_value(0, 2, 4);
    let values = values_of(&board);
    let candidates = candidates_of(&board);
    board.set_value(0, 2, 4);
    assert_eq!(values_of(&board), values);
    assert_eq!(candidates_of(&board), candidates);
}

#[test]
fn is_valid_looks_at_row_column_and_box() {
    let board = SudokuBoard::from(PUZZLE);
    assert!(board.is_valid(0, 2, 4));
    assert!(board.is_valid(0, 2, 1));
    assert!(!board.is_valid(0, 2, 5));
    assert!(!board.is_valid(0, 2, 7));
    assert!(!board.is_valid(0, 2, 8));
    assert!(!board.is_valid(0, 2, 6));
    assert!(board.is_valid(4, 4, 5));
    assert!(!board.is_valid(4, 4, 6));
    assert!(!board.is_valid(0, 0, 5));
    assert!(board.is_valid(0, 0, 1));
}

#[test]
fn find_empty_is_the_first_in_row_major_order() {
    let board = SudokuBoard::from(PUZZLE);
    assert_eq!(board.find_empty(), Some((0, 2)));
    let mut rows = SOLUTION;
    rows[5][7] = 0;
    rows[8][8] = 0;
    assert_eq!(SudokuBoard::from(rows).find_empty(), Some((5, 7)));
    assert_eq!(SudokuBoard::from(SOLUTION).find_empty(), None);
}

#[test]
fn is_solved_means_full() {
    assert!(!SudokuBoard::from(PUZZLE).is_solved());
    assert!(SudokuBoard::from(SOLUTION).is_solved());
    let mut rows = SOLUTION;
    rows[0][0] = 3;
    assert!(SudokuBoard::from(rows).is_solved());
    rows[8][8] = 0;
    assert!(!SudokuBoard::from(rows).is_solved());
}

#[test]
fn is_conflict_free_finds_duplicates_among_peers() {
    assert!(SudokuBoard::from(PUZZLE).is_conflict_free());
    assert!(SudokuBoard::from(SOLUTION).is_conflict_free());
    assert!(SudokuBoard::new().is_conflict_free());
    let mut in_row = PUZZLE;
    in_row[0][8] = 5;
    assert!(!SudokuBoard::from(in_row).is_conflict_free());
    let mut in_col = PUZZLE;
    in_col[8][0] = 5;
    assert!(!SudokuBoard::from(in_col).is_conflict_free());
    let mut in_box = PUZZLE;
    in_box[2][0] = 3;
    assert!(!SudokuBoard::from(in_box).is_conflict_free());
}

#[test]
fn y_wing_can_be_switched() {
    let mut board = SudokuBoard::from(PUZZLE);
    assert!(!board.uses_y_wing());
    board.set_y_wing(true);
    assert!(board.uses_y_wing());
    assert_eq!(values_of(&board), values_of(&SudokuBoard::from(PUZZLE)));
    assert_eq!(candidates_of(&board), candidates_of(&SudokuBoard::from(PUZZLE)));
    board.set_y_wing(false);
    assert!(!board.uses_y_wing());
}

#[test]
fn clone_copies_the_board() {
    let mut board = SudokuBoard::from(PUZZLE);
    board.fill_single_candidates();
    board.set_y_wing(true);
    let copy = board.clone();
    assert_eq!(values_of(&copy), values_of(&board));
    assert_eq!(candidates_of(&copy), candidates_of(&board));
    assert_eq!(copy.method_counts().get(Technique::Singles), 1);
    assert!(copy.uses_y_wing());
}

#[test]
fn technique_names() {
    assert_eq!(Technique::Singles.name(), "singles");
    assert_eq!(Technique::NakedPairs.name(), "naked_pairs");
    assert_eq!(Technique::NakedTriples.name(), "naked_triples");
    assert_eq!(Technique::HiddenPairs.name(), "hidden_pairs");
    assert_eq!(Technique::HiddenTriples.name(), "hidden_triples");
    assert_eq!(Technique::XWing.name(), "x_wing");
    assert_eq!(Technique::YWing.name(), "y_wing");
}
