use sudoku_solver::board::SudokuBoard;
use sudoku_solver::error::Error;
use sudoku_solver::puzzle::{
    pick_random_puzzle, pick_worst_backtracking, picked, Difficulty, Puzzle, Variation, W,
};

const PUZZLE: [[u8; 9]; 9] = [
    [5, 3, 0, 0, 7, 0, 0, 0, 0],
    [6, 0, 0, 1, 9, 5, 0, 0, 0],
    [0, 9, 8, 0, 0, 0, 0, 6, 0],
    [8, 0, 0, 0, 6, 0, 0, 0, 3],
    [4, 0, 0, 8, 0, 3, 0, 0, 1],
    [7, 0, 0, 0, 2, 0, 0, 0, 6],
    [0, 6, 0, 0, 0, 0, 2, 8, 0],
    [0, 0, 0, 4, 1, 9, 0, 0, 5],
    [0, 0, 0, 0, 8, 0, 0, 7, 9],
];

fn named(name: &str, first: u8) -> Puzzle {
    let mut rows = [[0u8; 9]; 9];
    rows[0][0] = first;
    Puzzle::new(
        name.to_string(),
        Variation::Standard,
        Difficulty::Medium,
        SudokuBoard::from(rows),
    )
}

#[test]
fn puzzle_keeps_what_it_was_made_of() {
    let puzzle = Puzzle::new(
        "Grid 01".to_string(),
        Variation::Killer,
        Difficulty::Extreme,
        SudokuBoard::from(PUZZLE),
    );
    assert_eq!(puzzle.name(), "Grid 01");
    assert_eq!(puzzle.variation(), Variation::Killer);
    assert_eq!(puzzle.difficulty(), Difficulty::Extreme);
    assert_eq!(puzzle.board().value(0, 0), 5);
    assert_eq!(puzzle.board().value(0, 2), 0);
}

#[test]
fn puzzle_solve_solves_its_board() {
    let mut puzzle = Puzzle::new(
        "Grid 01".to_string(),
        Variation::Standard,
        Difficulty::Easy,
        SudokuBoard::from(PUZZLE),
    );
    assert!(puzzle.solve());
    assert!(puzzle.board().is_solved());
    assert_eq!(puzzle.board().value(0, 2), 4);
    assert_eq!(puzzle.board().value(8, 0), 3);
    assert_eq!(puzzle.name(), "Grid 01");
    assert_eq!(puzzle.difficulty(), Difficulty::Easy);
}

#[test]
fn puzzle_solve_outcome_tells_how_it_ended() {
    let mut puzzle = Puzzle::new(
        "Grid 01".to_string(),
        Variation::Standard,
        Difficulty::Easy,
        SudokuBoard::from(PUZZLE),
    );
    assert_eq!(puzzle.solve_outcome(), sudoku_solver::solve::Outcome::SolvedByLogic);
    assert!(puzzle.board().is_solved());
}

#[test]
fn puzzle_solve_fails_on_a_clash() {
    let mut rows = PUZZLE;
    rows[0][2] = 5;
    let mut puzzle = Puzzle::new(
        "Broken".to_string(),
        Variation::Standard,
        Difficulty::Hard,
        SudokuBoard::from(rows),
    );
    assert!(!puzzle.solve());
    assert_eq!(puzzle.board().value(0, 2), 5);
    assert_eq!(puzzle.board().value(0, 3), 0);
}

#[test]
fn puzzle_clone_is_a_copy() {
    let puzzle = named("Grid 07", 7);
    let mut copy = puzzle.clone();
    assert_eq!(copy.name(), "Grid 07");
    assert_eq!(copy.variation(), Variation::Standard);
    assert_eq!(copy.difficulty(), Difficulty::Medium);
    assert_eq!(copy.board().value(0, 0), 7);
    assert!(copy.solve());
    assert_eq!(puzzle.board().value(0, 1), 0);
}

#[test]
fn pick_worst_backtracking_takes_the_first_of_that_name() {
    let puzzles = vec![
        named("Grid 01", 1),
        named("Worst Case Backtrack", 2),
        named("Grid 03", 3),
        named("Worst Case Backtrack", 4),
    ];
    let picked = pick_worst_backtracking(puzzles).unwrap();
    assert_eq!(picked.name(), "Worst Case Backtrack");
    assert_eq!(picked.board().value(0, 0), 2);
}

#[test]
fn pick_worst_backtracking_wants_the_exact_name() {
    let puzzles = vec![
        named("Worst Case Backtrack ", 1),
        named("worst case backtrack", 2),
        named("Worst Case", 3),
        named("", 4),
    ];
    match pick_worst_backtracking(puzzles) {
        Err(Error::Generic(message)) => {
            assert_eq!(message, "Worst Case Backtrack puzzle not found")
        }
        _ => panic!("a puzzle was picked"),
    }
}

#[test]
fn pick_worst_backtracking_fails_on_no_puzzles() {
    match pick_worst_backtracking(Vec::new()) {
        Err(error) => assert_eq!(
            error.message(),
            "Generic Worst Case Backtrack puzzle not found"
        ),
        Ok(_) => panic!("a puzzle was picked"),
    }
}

#[test]
fn pick_random_puzzle_picks_one_of_the_puzzles() {
    let puzzles = vec![named("Grid 01", 1), named("Grid 02", 2), named("Grid 03", 3)];
    let mut seen = [false; 4];
    for _ in 0..200 {
        let puzzle = pick_random_puzzle(&puzzles).unwrap();
        let first = puzzle.board().value(0, 0) as usize;
        assert!(first >= 1 && first <= 3);
        assert_eq!(puzzle.name(), &format!("Grid 0{}", first));
        seen[first] = true;
    }
    assert!(seen[1] && seen[2] && seen[3]);
    assert_eq!(puzzles.len(), 3);
}

#[test]
fn pick_random_puzzle_of_one_puzzle_is_that_puzzle() {
    let puzzles = vec![named("Only", 9)];
    let puzzle = pick_random_puzzle(&puzzles).unwrap();
    assert_eq!(puzzle.name(), "Only");
    assert_eq!(puzzle.board().value(0, 0), 9);
}

#[test]
fn pick_random_puzzle_fails_on_no_puzzles() {
    match pick_random_puzzle(&Vec::new()) {
        Err(Error::Generic(message)) => {
            assert_eq!(message, "Failed to randomly select a puzzle")
        }
        _ => panic!("a puzzle was picked"),
    }
}

#[test]
fn picked_copies_the_choice_or_reports_that_there_was_none() {
    let puzzle = named("Grid 05", 5);
    let copy = picked(Some(&puzzle)).unwrap();
    assert_eq!(copy.name(), "Grid 05");
    assert_eq!(copy.board().value(0, 0), 5);
    match picked(None) {
        Err(Error::Generic(message)) => {
            assert_eq!(message, "Failed to randomly select a puzzle")
        }
        _ => panic!("a puzzle was picked"),
    }
}

#[test]
fn error_messages() {
    assert_eq!(Error::Generic("boom".to_string()).message(), "Generic boom");
    assert_eq!(Error::IO("disk gone".to_string()).message(), "disk gone");
    assert_eq!(Error::NoPuzzlesFound.message(), "No puzzles found in the file");
    assert_eq!(
        Error::RandomSelectionFailed.message(),
        "Failed to randomly select a puzzle"
    );
}

#[test]
fn wrapper_holds_its_value() {
    let wrapped = W(17u32);
    assert_eq!(wrapped.0, 17);
    let text = W("abc".to_string());
    assert_eq!(text.0, "abc");
}
