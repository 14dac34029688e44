use sudoku_solver::board::SudokuBoard;
use sudoku_solver::error::Error;
use sudoku_solver::import::{
    chars_of, digit_of, parse_sudoku_puzzles, split_lines, starts_with_grid, text_of,
};
use sudoku_solver::puzzle::{Difficulty, Puzzle, Variation};

const TWO_PUZZLES: &str = "Grid 01\n\
530070000\n\
600195000\n\
098000060\n\
800060003\n\
400803001\n\
700020006\n\
060000280\n\
000419005\n\
000080079\n\
Grid 02\n\
000000000\n\
000003085\n\
001020000\n\
000507000\n\
004000100\n\
090000000\n\
500000073\n\
002010000\n\
000040009\n";

fn lines_as_strings(text: &str) -> Vec<String> {
    split_lines(&chars_of(text)).iter().map(|line| line.iter().collect()).collect()
}

fn failure(text: &str) -> String {
    match parse_sudoku_puzzles(text) {
        Err(Error::Generic(message)) => message,
        Err(_) => panic!("another error"),
        Ok(_) => panic!("puzzles were read"),
    }
}

#[test]
fn digit_of_reads_decimal_digits_only() {
    assert_eq!(digit_of('0'), 0);
    assert_eq!(digit_of('1'), 1);
    assert_eq!(digit_of('5'), 5);
    assert_eq!(digit_of('9'), 9);
    assert_eq!(digit_of('.'), 0);
    assert_eq!(digit_of('a'), 0);
    assert_eq!(digit_of(' '), 0);
    assert_eq!(digit_of('/'), 0);
    assert_eq!(digit_of(':'), 0);
    assert_eq!(digit_of('٣'), 0);
    assert_eq!(digit_of('·'), 0);
}

#[test]
fn chars_and_text_round_trip() {
    assert_eq!(chars_of("a·9\n"), vec!['a', '·', '9', '\n']);
    assert_eq!(chars_of(""), Vec::<char>::new());
    assert_eq!(text_of(&vec!['G', 'r', 'i', 'd', ' ', '√']), "Grid √");
    assert_eq!(text_of(&Vec::new()), "");
}

#[test]
fn split_lines_splits_as_the_standard_library_does() {
    for text in [
        "",
        "\n",
        "\n\n",
        "one",
        "one\n",
        "one\ntwo",
        "one\ntwo\n",
        "one\r\ntwo\r\n",
        "one\r\ntwo\r",
        "one\r",
        "\r",
        "\r\n",
        "a\r\r\nb",
        "a\n\nb\n\n",
        "\nfirst empty",
        "bare\rreturn\ninside",
        "·é\n√",
    ] {
        let expected: Vec<String> = text.lines().map(|line| line.to_string()).collect();
        assert_eq!(lines_as_strings(text), expected);
    }
}

#[test]
fn split_lines_on_chosen_texts() {
    assert_eq!(lines_as_strings("one\r\ntwo\n\nthree"), vec!["one", "two", "", "three"]);
    assert_eq!(lines_as_strings("x\r"), vec!["x\r"]);
    assert_eq!(lines_as_strings("\n"), vec![""]);
    assert_eq!(lines_as_strings(""), Vec::<String>::new());
}

#[test]
fn starts_with_grid_wants_the_four_letters() {
    assert!(starts_with_grid(&chars_of("Grid")));
    assert!(starts_with_grid(&chars_of("Grid 01")));
    assert!(starts_with_grid(&chars_of("Gridlock")));
    assert!(!starts_with_grid(&chars_of("Gri")));
    assert!(!starts_with_grid(&chars_of("grid 01")));
    assert!(!starts_with_grid(&chars_of(" Grid 01")));
    assert!(!starts_with_grid(&chars_of("")));
    assert!(!starts_with_grid(&chars_of("123456789")));
}

#[test]
fn reads_two_puzzles() {
    let puzzles = parse_sudoku_puzzles(TWO_PUZZLES).unwrap();
    assert_eq!(puzzles.len(), 2);
    assert_eq!(puzzles[0].name(), "Grid 01");
    assert_eq!(puzzles[1].name(), "Grid 02");
    assert_eq!(puzzles[0].variation(), Variation::Standard);
    assert_eq!(puzzles[0].difficulty(), Difficulty::Medium);
    assert_eq!(puzzles[0].board().value(0, 0), 5);
    assert_eq!(puzzles[0].board().value(0, 1), 3);
    assert_eq!(puzzles[0].board().value(0, 2), 0);
    assert_eq!(puzzles[0].board().value(8, 8), 9);
    assert_eq!(puzzles[0].board().value(7, 3), 4);
    assert_eq!(puzzles[1].board().value(0, 0), 0);
    assert_eq!(puzzles[1].board().value(1, 5), 3);
    assert_eq!(puzzles[1].board().value(8, 8), 9);
    assert_eq!(puzzles[1].board().candidates(0, 0).len(), 7);
    assert!(!puzzles[1].board().candidates(0, 0).contains(5));
    assert!(!puzzles[1].board().candidates(0, 0).contains(1));
    assert_eq!(puzzles[0].board().method_counts().singles, 0);
}

#[test]
fn read_puzzles_can_be_solved() {
    let mut puzzles = parse_sudoku_puzzles(TWO_PUZZLES).unwrap();
    assert!(puzzles[0].solve());
    assert_eq!(puzzles[0].board().value(0, 2), 4);
}

#[test]
fn reads_other_characters_as_empty_cells() {
    let text = "Grid √\r\n53..7....\r\n6..195...\r\n.98....6.\r\n8...6...3\r\n4..8.3..1\r\n7...2...6\r\n.6....28.\r\n...419..5\r\n....8·x79\r\n";
    let puzzles = parse_sudoku_puzzles(text).unwrap();
    assert_eq!(puzzles.len(), 1);
    assert_eq!(puzzles[0].name(), "Grid √");
    let expected = SudokuBoard::from([
        [5, 3, 0, 0, 7, 0, 0, 0, 0],
        [6, 0, 0, 1, 9, 5, 0, 0, 0],
        [0, 9, 8, 0, 0, 0, 0, 6, 0],
        [8, 0, 0, 0, 6, 0, 0, 0, 3],
        [4, 0, 0, 8, 0, 3, 0, 0, 1],
        [7, 0, 0, 0, 2, 0, 0, 0, 6],
        [0, 6, 0, 0, 0, 0, 2, 8, 0],
        [0, 0, 0, 4, 1, 9, 0, 0, 5],
        [0, 0, 0, 0, 8, 0, 0, 7, 9],
    ]);
    for r in 0..9 {
        for c in 0..9 {
            assert_eq!(puzzles[0].board().value(r, c), expected.value(r, c));
        }
    }
}

#[test]
fn passes_over_lines_between_puzzles() {
    let text = format!("Sudoku puzzles\n\n{}\nthe end\n123456789\n", TWO_PUZZLES);
    let puzzles = parse_sudoku_puzzles(&text).unwrap();
    assert_eq!(puzzles.len(), 2);
    assert_eq!(puzzles[1].name(), "Grid 02");
}

#[test]
fn reads_a_last_row_without_line_end() {
    let text = TWO_PUZZLES.trim_end();
    let puzzles = parse_sudoku_puzzles(text).unwrap();
    assert_eq!(puzzles.len(), 2);
    assert_eq!(puzzles[1].board().value(8, 8), 9);
}

#[test]
fn fails_on_a_text_without_puzzles() {
    assert_eq!(failure(""), "No puzzles found in the file");
    assert_eq!(failure("nothing here\n123456789\n"), "No puzzles found in the file");
    assert_eq!(failure("grid 01\n"), "No puzzles found in the file");
}

#[test]
fn fails_on_a_row_of_another_length() {
    let text = "Grid 01\n530070000\n60019500\n098000060\n";
    assert_eq!(failure(text), "Row 2 in puzzle Grid 01 doesn't have exactly 9 digits");
    let text = "Grid 09\n5300700001\n";
    assert_eq!(failure(text), "Row 1 in puzzle Grid 09 doesn't have exactly 9 digits");
    let text = "Grid A\n530070000\n600195000\n098000060\n800060003\n400803001\n700020006\n060000280\n000419005\n\n";
    assert_eq!(failure(text), "Row 9 in puzzle Grid A doesn't have exactly 9 digits");
}

#[test]
fn fails_on_a_name_that_stands_where_a_row_should() {
    let text = "Grid 01\n530070000\nGrid 02\n";
    assert_eq!(failure(text), "Row 2 in puzzle Grid 01 doesn't have exactly 9 digits");
}

#[test]
fn fails_on_missing_rows() {
    assert_eq!(failure("Grid 01"), "Not enough rows for puzzle Grid 01");
    assert_eq!(failure("Grid 01\n"), "Not enough rows for puzzle Grid 01");
    let text = "Grid 7\n530070000\n600195000\n098000060\n";
    assert_eq!(failure(text), "Not enough rows for puzzle Grid 7");
}

#[test]
fn fails_on_the_first_bad_puzzle_after_good_ones() {
    let text = format!("{}Grid 03\n12345\n", TWO_PUZZLES);
    assert_eq!(failure(&text), "Row 1 in puzzle Grid 03 doesn't have exactly 9 digits");
}

#[test]
fn renders_the_grid_in_a_frame() {
    let board = SudokuBoard::from([
        [5, 3, 0, 0, 7, 0, 0, 0, 0],
        [6, 0, 0, 1, 9, 5, 0, 0, 0],
        [0, 9, 8, 0, 0, 0, 0, 6, 0],
        [8, 0, 0, 0, 6, 0, 0, 0, 3],
        [4, 0, 0, 8, 0, 3, 0, 0, 1],
        [7, 0, 0, 0, 2, 0, 0, 0, 6],
        [0, 6, 0, 0, 0, 0, 2, 8, 0],
        [0, 0, 0, 4, 1, 9, 0, 0, 5],
        [0, 0, 0, 0, 8, 0, 0, 7, 9],
    ]);
    let expected = "\
┌───────┬───────┬───────┐
│ 5 3 · │ · 7 · │ · · · │
│ 6 · · │ 1 9 5 │ · · · │
│ · 9 8 │ · · · │ · 6 · │
├───────┼───────┼───────┤
│ 8 · · │ · 6 · │ · · 3 │
│ 4 · · │ 8 · 3 │ · · 1 │
│ 7 · · │ · 2 · │ · · 6 │
├───────┼───────┼───────┤
│ · 6 · │ · · · │ 2 8 · │
│ · · · │ 4 1 9 │ · · 5 │
│ · · · │ · 8 · │ · 7 9 │
└───────┴───────┴───────┘
";
    assert_eq!(board.render(), expected);
}

#[test]
fn renders_values_of_more_than_one_digit() {
    let mut rows = [[0u8; 9]; 9];
    rows[0][0] = 10;
    rows[0][1] = 255;
    rows[0][2] = 109;
    rows[0][3] = 90;
    let text = SudokuBoard::from(rows).render();
    let second = text.lines().nth(1).unwrap();
    assert_eq!(second, "│ 10 255 109 │ 90 · · │ · · · │");
}

#[test]
fn renders_a_puzzle_under_its_name() {
    let puzzle = Puzzle::new(
        "Grid 01".to_string(),
        Variation::Standard,
        Difficulty::Medium,
        SudokuBoard::new(),
    );
    let text = puzzle.render();
    let lines: Vec<&str> = text.lines().collect();
    assert_eq!(lines.len(), 14);
    assert_eq!(lines[0], "Puzzle: Grid 01");
    assert_eq!(lines[1], "┌───────┬───────┬───────┐");
    assert_eq!(lines[2], "│ · · · │ · · · │ · · · │");
    assert_eq!(lines[5], "├───────┼───────┼───────┤");
    assert_eq!(lines[13], "└───────┴───────┴───────┘");
    assert!(text.ends_with("┘\n"));
}
