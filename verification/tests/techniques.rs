use sudoku_solver::board::SudokuBoard;
use sudoku_solver::model::Technique;

fn rows_from(text: &str) -> [[u8; 9]; 9] {
    let digits: Vec<u8> = text.bytes().map(|b| b - b'0').collect();
    assert_eq!(digits.len(), 81);
    let mut rows = [[0u8; 9]; 9];
    for k in 0..81 {
        rows[k / 9][k % 9] = digits[k];
    }
    rows
}

fn candidates_of(board: &SudokuBoard) -> Vec<Vec<u8>> {
    (0..81)
        .map(|k| {
            let set = board.candidates(k / 9, k % 9);
            (1..=9u8).filter(|&d| set.contains(d)).collect()
        })
        .collect()
}

fn values_of(board: &SudokuBoard) -> Vec<u8> {
    (0..81).map(|k| board.value(k / 9, k % 9)).collect()
}

fn removed(before: &Vec<Vec<u8>>, after: &Vec<Vec<u8>>) -> Vec<(usize, u8)> {
    let mut gone = Vec::new();
    for k in 0..81 {
        for &d in &before[k] {
            if !after[k].contains(&d) {
                gone.push((k, d));
            }
        }
        for &d in &after[k] {
            assert!(before[k].contains(&d));
        }
    }
    gone
}

fn admits(board: &SudokuBoard, solution: &[[u8; 9]; 9]) -> bool {
    (0..81).all(|k| {
        let v = board.value(k / 9, k % 9);
        let s = solution[k / 9][k % 9];
        if v != 0 {
            v == s
        } else {
            board.candidates(k / 9, k % 9).contains(s)
        }
    })
}

fn total(board: &SudokuBoard) -> usize {
    let counts = board.method_counts();
    counts.singles
        + counts.naked_pairs
        + counts.naked_triples
        + counts.hidden_pairs
        + counts.hidden_triples
        + counts.x_wing
        + counts.y_wing
}

const NAKED_PAIR_PUZZLE: &str =
    "850300200000000067000000030300900026000008000400000700003000418090000050600005070";
const NAKED_PAIR_SOLUTION: &str =
    "857361249931482567246597831385974126762158394419236785573629418198743652624815973";
const NAKED_TRIPLE_PUZZLE: &str =
    "000008060459000087600000300004000000805020070901380256100002703000000602040000500";
const NAKED_TRIPLE_SOLUTION: &str =
    "327418965459236187618975324264759831835621479971384256186592743593847612742163598";
const HIDDEN_PAIR_PUZZLE: &str =
    "008000050005006870000500100500030000069000000000000200100792640702600300000850721";
const HIDDEN_PAIR_SOLUTION: &str =
    "318427956945316872276589134521938467869274513437165298183792645752641389694853721";
const HIDDEN_TRIPLE_PUZZLE: &str =
    "900608200000004000060000000000010708006040100100035002500080630009500001040020070";
const HIDDEN_TRIPLE_SOLUTION: &str =
    "953678214217394586468152397395216748726849153184735962572481639839567421641923875";
const Y_WING_PUZZLE: &str =
    "300000804250010607860070000010500020030407050048162970080035700005020361020000009";
const Y_WING_SOLUTION: &str =
    "379256814254819637861374295617593428932487156548162973186935742495728361723641589";
const PLAIN_PUZZLE: &str =
    "530070000600195000098000060800060003400803001700020006060000280000419005000080079";
const PLAIN_SOLUTION: &str =
    "534678912672195348198342567859761423426853791713924856961537284287419635345286179";

#[test]
fn naked_pairs_removes_the_pair_from_the_rest_of_the_unit() {
    let mut board = SudokuBoard::from(rows_from(NAKED_PAIR_PUZZLE));
    let before = candidates_of(&board);
    let grid = values_of(&board);
    assert!(board.naked_pairs());
    assert_eq!(removed(&before, &candidates_of(&board)), vec![(52, 9)]);
    assert_eq!(values_of(&board), grid);
    assert_eq!(board.method_counts().naked_pairs, 1);
    assert_eq!(total(&board), 1);
    assert!(admits(&board, &rows_from(NAKED_PAIR_SOLUTION)));
}

#[test]
fn naked_pairs_a_second_time_finds_nothing() {
    let mut board = SudokuBoard::from(rows_from(NAKED_PAIR_PUZZLE));
    assert!(board.naked_pairs());
    let after = candidates_of(&board);
    assert!(!board.naked_pairs());
    assert_eq!(candidates_of(&board), after);
    assert_eq!(board.method_counts().naked_pairs, 1);
}

#[test]
fn naked_pairs_by_hand() {
    let mut rows = [[0u8; 9]; 9];
    rows[0] = [0, 0, 3, 4, 5, 6, 7, 0, 0];
    rows[3][0] = 8;
    rows[6][0] = 9;
    rows[4][1] = 9;
    rows[7][1] = 8;
    let mut board = SudokuBoard::from(rows);
    let before = candidates_of(&board);
    assert_eq!(before[0], vec![1, 2]);
    assert_eq!(before[1], vec![1, 2]);
    assert_eq!(before[7], vec![1, 2, 8, 9]);
    assert_eq!(before[8], vec![1, 2, 8, 9]);
    assert_eq!(before[9], vec![1, 2, 4, 5, 6, 7]);
    assert!(board.naked_pairs());
    let after = candidates_of(&board);
    assert_eq!(after[0], vec![1, 2]);
    assert_eq!(after[1], vec![1, 2]);
    assert_eq!(after[7], vec![8, 9]);
    assert_eq!(after[8], vec![8, 9]);
    assert_eq!(after[9], vec![4, 5, 6, 7]);
    assert_eq!(after[20], vec![4, 5, 6, 7, 8, 9]);
    assert_eq!(after[2], Vec::<u8>::new());
    assert_eq!(after[27], Vec::<u8>::new());
    assert_eq!(after[36], before[36]);
    assert_eq!(board.method_counts().naked_pairs, 1);
}

#[test]
fn naked_triples_removes_the_triple_from_the_rest_of_the_unit() {
    let mut board = SudokuBoard::from(rows_from(NAKED_TRIPLE_PUZZLE));
    let before = candidates_of(&board);
    let grid = values_of(&board);
    assert!(board.naked_triples());
    assert_eq!(removed(&before, &candidates_of(&board)), vec![(63, 3), (63, 7)]);
    assert_eq!(values_of(&board), grid);
    assert_eq!(board.method_counts().naked_triples, 1);
    assert_eq!(total(&board), 1);
    assert!(admits(&board, &rows_from(NAKED_TRIPLE_SOLUTION)));
}

#[test]
fn hidden_pairs_keeps_only_the_pair_in_its_cells() {
    let mut board = SudokuBoard::from(rows_from(HIDDEN_PAIR_PUZZLE));
    let before = candidates_of(&board);
    let grid = values_of(&board);
    assert!(board.hidden_pairs());
    assert_eq!(removed(&before, &candidates_of(&board)), vec![(55, 3), (64, 4), (64, 9)]);
    assert_eq!(values_of(&board), grid);
    assert_eq!(board.method_counts().hidden_pairs, 1);
    assert_eq!(total(&board), 1);
    assert!(admits(&board, &rows_from(HIDDEN_PAIR_SOLUTION)));
}

#[test]
fn hidden_triples_keeps_only_the_triple_in_its_cells() {
    let mut board = SudokuBoard::from(rows_from(HIDDEN_TRIPLE_PUZZLE));
    let before = candidates_of(&board);
    let grid = values_of(&board);
    assert!(board.hidden_triples());
    assert_eq!(
        removed(&before, &candidates_of(&board)),
        vec![(12, 7), (12, 9), (21, 7), (21, 9), (23, 7), (23, 9)]
    );
    assert_eq!(values_of(&board), grid);
    assert_eq!(board.method_counts().hidden_triples, 1);
    assert_eq!(total(&board), 1);
    assert!(admits(&board, &rows_from(HIDDEN_TRIPLE_SOLUTION)));
}

#[test]
fn hidden_subgroup_of_two_is_hidden_pairs_without_the_count() {
    let mut board = SudokuBoard::from(rows_from(HIDDEN_PAIR_PUZZLE));
    let before = candidates_of(&board);
    assert!(board.hidden_subgroup(2));
    assert_eq!(removed(&before, &candidates_of(&board)), vec![(55, 3), (64, 4), (64, 9)]);
    assert_eq!(total(&board), 0);
}

#[test]
fn hidden_subgroup_of_three_is_hidden_triples_without_the_count() {
    let mut board = SudokuBoard::from(rows_from(HIDDEN_TRIPLE_PUZZLE));
    let before = candidates_of(&board);
    assert!(board.hidden_subgroup(3));
    assert_eq!(
        removed(&before, &candidates_of(&board)),
        vec![(12, 7), (12, 9), (21, 7), (21, 9), (23, 7), (23, 9)]
    );
    assert_eq!(total(&board), 0);
}

#[test]
fn hidden_subgroup_of_another_size_does_nothing() {
    for size in [0usize, 1, 4, 9, 100] {
        let mut board = SudokuBoard::from(rows_from(HIDDEN_PAIR_PUZZLE));
        let before = candidates_of(&board);
        assert!(!board.hidden_subgroup(size));
        assert_eq!(candidates_of(&board), before);
        assert_eq!(total(&board), 0);
    }
}

#[test]
fn x_wing_removes_the_digit_from_the_cross_lines() {
    let mut board = SudokuBoard::from(rows_from(HIDDEN_PAIR_PUZZLE));
    let before = candidates_of(&board);
    let grid = values_of(&board);
    assert!(board.x_wing());
    assert_eq!(removed(&before, &candidates_of(&board)), vec![(44, 5), (53, 5)]);
    assert_eq!(values_of(&board), grid);
    assert_eq!(board.method_counts().x_wing, 1);
    assert_eq!(total(&board), 1);
    assert!(admits(&board, &rows_from(HIDDEN_PAIR_SOLUTION)));
}

#[test]
fn y_wing_removes_the_shared_digit_from_cells_that_see_both_wings() {
    let mut board = SudokuBoard::from(rows_from(Y_WING_PUZZLE));
    let before = candidates_of(&board);
    let grid = values_of(&board);
    assert!(board.y_wing());
    assert_eq!(removed(&before, &candidates_of(&board)), vec![(38, 6), (38, 9)]);
    assert_eq!(values_of(&board), grid);
    assert_eq!(board.method_counts().y_wing, 1);
    assert_eq!(total(&board), 1);
    assert!(admits(&board, &rows_from(Y_WING_SOLUTION)));
}

#[test]
fn techniques_find_nothing_on_an_empty_board() {
    let mut board = SudokuBoard::new();
    assert!(!board.fill_single_candidates());
    assert!(!board.naked_pairs());
    assert!(!board.naked_triples());
    assert!(!board.hidden_pairs());
    assert!(!board.hidden_triples());
    assert!(!board.x_wing());
    assert!(!board.y_wing());
    assert_eq!(total(&board), 0);
    for k in 0..81 {
        assert_eq!(board.candidates(k / 9, k % 9).len(), 9);
    }
}

#[test]
fn singles_places_the_only_candidate() {
    let mut board = SudokuBoard::from(rows_from(PLAIN_PUZZLE));
    assert_eq!(board.value(4, 4), 0);
    assert_eq!(board.candidates(4, 4).len(), 1);
    assert!(board.fill_single_candidates());
    assert_eq!(board.value(4, 4), 5);
    assert_eq!(board.method_counts().singles, 1);
    assert_eq!(total(&board), 1);
    assert!(admits(&board, &rows_from(PLAIN_SOLUTION)));
    for k in 0..81 {
        if board.value(k / 9, k % 9) == 0 {
            assert!(board.candidates(k / 9, k % 9).len() != 1);
        } else {
            assert_eq!(board.candidates(k / 9, k % 9).len(), 0);
        }
    }
    assert!(!board.fill_single_candidates());
    assert_eq!(board.method_counts().singles, 1);
}

#[test]
fn singles_alone_solves_the_plain_puzzle() {
    let mut board = SudokuBoard::from(rows_from(PLAIN_PUZZLE));
    assert!(board.fill_single_candidates());
    assert!(board.is_solved());
    assert_eq!(values_of(&board), values_of(&SudokuBoard::from(rows_from(PLAIN_SOLUTION))));
    assert_eq!(board.method_counts().get(Technique::Singles), 1);
}

#[test]
fn singles_on_a_board_without_singles_changes_nothing() {
    let mut board = SudokuBoard::from(rows_from(NAKED_PAIR_PUZZLE));
    let before = candidates_of(&board);
    let grid = values_of(&board);
    assert!(!board.fill_single_candidates());
    assert_eq!(candidates_of(&board), before);
    assert_eq!(values_of(&board), grid);
    assert_eq!(total(&board), 0);
}
