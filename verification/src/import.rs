//! Reading puzzles from text.
//!
//! A puzzle is a line that starts with "Grid", which is its name, followed by nine lines of
//! nine characters each: a decimal digit stands for itself and any other character for an
//! empty cell. Lines between puzzles are passed over.

use crate::board::{flatten, SudokuBoard};
use crate::error::Error;
use crate::model::BoardView;
use crate::puzzle::{Difficulty, Puzzle, PuzzleView, Variation};
use crate::topology::{col_of, row_of};
use vstd::prelude::*;
use vstd::string::StringExecFns;

verus! {

/// `String::push` of the standard library appends one character to a string.
pub assume_specification[ String::push ](text: &mut String, ch: char)
    ensures
        final(text)@ == old(text)@.push(ch),
;

/// The value of a character that is a decimal digit, and 0 for any other character.
pub open spec fn digit_value(c: char) -> u8 {
    if '0' <= c <= '9' {
        (c as u32 - '0' as u32) as u8
    } else {
        0
    }
}

/// The place of the first line feed at or after `from`, or the length of the text if there
/// is none.
pub open spec fn line_end(text: Seq<char>, from: int) -> int
    decreases text.len() - from,
{
    if from >= text.len() {
        text.len() as int
    } else if text[from] == '\n' {
        from
    } else {
        line_end(text, from + 1)
    }
}

/// A line without the carriage return that it may end in.
pub open spec fn without_return(line: Seq<char>) -> Seq<char> {
    if line.len() > 0 && line.last() == '\r' {
        line.drop_last()
    } else {
        line
    }
}

/// The lines of the text from place `from` on. A line ends before a line feed, or before a
/// carriage return and a line feed; the last line may end with the text.
pub open spec fn lines_from(text: Seq<char>, from: int) -> Seq<Seq<char>>
    decreases text.len() - from,
{
    if from < 0 || from >= text.len() {
        Seq::empty()
    } else {
        let end = line_end(text, from);
        if from <= end < text.len() {
            seq![without_return(text.subrange(from, end))] + lines_from(text, end + 1)
        } else {
            seq![text.subrange(from, text.len() as int)]
        }
    }
}

/// The lines of a text.
pub open spec fn lines_of(text: Seq<char>) -> Seq<Seq<char>> {
    lines_from(text, 0)
}

/// The texts that a vector of lines holds.
pub open spec fn texts(lines: Seq<Vec<char>>) -> Seq<Seq<char>> {
    Seq::new(lines.len(), |i: int| lines[i]@)
}

/// Whether a line starts with "Grid".
pub open spec fn is_header(line: Seq<char>) -> bool {
    line.len() >= 4 && line[0] == 'G' && line[1] == 'r' && line[2] == 'i' && line[3] == 'd'
}

/// Whether the `i`-th row of the puzzle whose name is line `at` is missing or has no nine
/// characters.
pub open spec fn bad_row(lines: Seq<Seq<char>>, at: int, i: int) -> bool {
    at + 1 + i >= lines.len() || lines[at + 1 + i].len() != 9
}

/// The first bad row at or after row `from` of the puzzle whose name is line `at`, or 9 if
/// its rows from there on are all good.
pub open spec fn first_bad_row(lines: Seq<Seq<char>>, at: int, from: int) -> int
    decreases 9 - from,
{
    if from >= 9 {
        9
    } else if bad_row(lines, at, from) {
        from
    } else {
        first_bad_row(lines, at, from + 1)
    }
}

/// The character that stands for the number `n`, for a number from 0 to 9.
pub open spec fn numeral(n: int) -> char {
    if n == 0 {
        '0'
    } else if n == 1 {
        '1'
    } else if n == 2 {
        '2'
    } else if n == 3 {
        '3'
    } else if n == 4 {
        '4'
    } else if n == 5 {
        '5'
    } else if n == 6 {
        '6'
    } else if n == 7 {
        '7'
    } else if n == 8 {
        '8'
    } else {
        '9'
    }
}

/// What is reported of the bad row `i` of the puzzle whose name is line `at`.
pub open spec fn row_error(lines: Seq<Seq<char>>, at: int, i: int) -> Seq<char> {
    if at + 1 + i >= lines.len() {
        "Not enough rows for puzzle "@ + lines[at]
    } else {
        "Row "@.push(numeral(i + 1)) + " in puzzle "@ + lines[at]
            + " doesn't have exactly 9 digits"@
    }
}

/// The grid that the nine lines after line `at` give.
pub open spec fn grid_at(lines: Seq<Seq<char>>, at: int) -> Seq<u8> {
    Seq::new(81, |k: int| digit_value(lines[at + 1 + row_of(k)][col_of(k)]))
}

/// The puzzle whose name is line `at`.
pub open spec fn puzzle_at(lines: Seq<Seq<char>>, at: int) -> PuzzleView {
    PuzzleView {
        name: lines[at],
        variation: Variation::Standard,
        difficulty: Difficulty::Medium,
        board: BoardView::opening(grid_at(lines, at)),
    }
}

/// What reading the lines from line `at` on gives, `done` being the puzzles read before: all
/// the puzzles, or the message of the first failure. No puzzle at all is a failure.
pub open spec fn read_from(lines: Seq<Seq<char>>, at: int, done: Seq<PuzzleView>) -> Result<
    Seq<PuzzleView>,
    Seq<char>,
>
    decreases lines.len() - at,
{
    if at < 0 || at >= lines.len() {
        if done.len() == 0 {
            Err("No puzzles found in the file"@)
        } else {
            Ok(done)
        }
    } else if !is_header(lines[at]) {
        read_from(lines, at + 1, done)
    } else if first_bad_row(lines, at, 0) >= 9 && at + 10 <= lines.len() {
        read_from(lines, at + 10, done.push(puzzle_at(lines, at)))
    } else {
        Err(row_error(lines, at, first_bad_row(lines, at, 0)))
    }
}

/// What reading a text gives: its puzzles, or the message of the first failure.
pub open spec fn read_text(text: Seq<char>) -> Result<Seq<PuzzleView>, Seq<char>> {
    read_from(lines_of(text), 0, Seq::empty())
}

/// The puzzles of a vector as the contracts see them.
pub open spec fn views(puzzles: Seq<Puzzle>) -> Seq<PuzzleView> {
    Seq::new(puzzles.len(), |i: int| puzzles[i]@)
}

/// The value of a character that is a decimal digit, and 0 for any other character.
pub fn digit_of(c: char) -> (d: u8)
    ensures
        d == digit_value(c),
        d <= 9,
{
    if '0' <= c && c <= '9' {
        (c as u32 - '0' as u32) as u8
    } else {
        0
    }
}

/// The characters of a text.
pub fn chars_of(text: &str) -> (chars: Vec<char>)
    ensures
        chars@ == text@,
{
    let mut chars: Vec<char> = Vec::new();
    for c in it: text.chars()
        invariant
            chars@ == it.seq().take(it.index()),
            it.seq() == text@,
    {
        chars.push(c);
    }
    chars
}

/// The text that a vector of characters holds.
pub fn text_of(chars: &Vec<char>) -> (text: String)
    ensures
        text@ == chars@,
{
    let mut text = String::new();
    let mut i: usize = 0;
    while i < chars.len()
        invariant
            i <= chars@.len(),
            text@ == chars@.take(i as int),
        decreases chars@.len() - i,
    {
        text.push(chars[i]);
        proof {
            assert(chars@.take(i + 1) =~= chars@.take(i as int).push(chars@[i as int]));
        }
        i = i + 1;
    }
    proof {
        assert(chars@.take(chars@.len() as int) =~= chars@);
    }
    text
}

/// The end of a line is the same seen from any place in the line.
proof fn lemma_line_end(text: Seq<char>, from: int, to: int)
    requires
        0 <= from <= to <= text.len(),
        forall|j: int| from <= j < to ==> text[j] != '\n',
    ensures
        line_end(text, from) == line_end(text, to),
    decreases to - from,
{
    if from < to {
        lemma_line_end(text, from + 1, to);
    }
}

/// The lines of a text.
pub fn split_lines(chars: &Vec<char>) -> (lines: Vec<Vec<char>>)
    ensures
        texts(lines@) == lines_of(chars@),
{
    let ghost text = chars@;
    let mut lines: Vec<Vec<char>> = Vec::new();
    let mut from: usize = 0;
    while from < chars.len()
        invariant
            from <= text.len(),
            text == chars@,
            texts(lines@) + lines_from(text, from as int) == lines_of(text),
        decreases text.len() - from,
    {
        let mut line: Vec<char> = Vec::new();
        let mut end: usize = from;
        while end < chars.len() && chars[end] != '\n'
            invariant
                from <= end <= text.len(),
                text == chars@,
                line@ == text.subrange(from as int, end as int),
                forall|j: int| from <= j < end ==> text[j] != '\n',
            decreases text.len() - end,
        {
            line.push(chars[end]);
            proof {
                assert(text.subrange(from as int, end + 1) =~= text.subrange(
                    from as int,
                    end as int,
                ).push(text[end as int]));
            }
            end = end + 1;
        }
        proof {
            lemma_line_end(text, from as int, end as int);
            assert(line_end(text, from as int) == end);
        }
        let ghost before = texts(lines@);
        if end < chars.len() {
            let n = line.len();
            if n > 0 && line[n - 1] == '\r' {
                line.pop();
            }
            assert(line@ =~= without_return(text.subrange(from as int, end as int)));
            lines.push(line);
            proof {
                assert(texts(lines@) =~= before + seq![
                    without_return(text.subrange(from as int, end as int)),
                ]);
                assert(texts(lines@) + lines_from(text, end + 1) =~= before + lines_from(
                    text,
                    from as int,
                ));
            }
            from = end + 1;
        } else {
            lines.push(line);
            proof {
                assert(texts(lines@) =~= before + seq![text.subrange(from as int, end as int)]);
                assert(texts(lines@) + lines_from(text, end as int) =~= before + lines_from(
                    text,
                    from as int,
                ));
            }
            from = end;
        }
    }
    proof {
        assert(texts(lines@) + lines_from(text, from as int) =~= texts(lines@));
    }
    lines
}

/// Whether a line starts with "Grid".
pub fn starts_with_grid(line: &Vec<char>) -> (yes: bool)
    ensures
        yes == is_header(line@),
{
    line.len() >= 4 && line[0] == 'G' && line[1] == 'r' && line[2] == 'i' && line[3] == 'd'
}

/// The text that stands for the number `n`, for a number from 1 to 9.
fn numeral_of(n: usize) -> (c: char)
    requires
        1 <= n <= 9,
    ensures
        c == numeral(n as int),
{
    if n == 1 {
        '1'
    } else if n == 2 {
        '2'
    } else if n == 3 {
        '3'
    } else if n == 4 {
        '4'
    } else if n == 5 {
        '5'
    } else if n == 6 {
        '6'
    } else if n == 7 {
        '7'
    } else if n == 8 {
        '8'
    } else {
        '9'
    }
}

/// The error for row `i` of the puzzle whose name is line `at`, which is missing or has no
/// nine characters.
fn row_failure(lines: &Vec<Vec<char>>, at: usize, i: usize) -> (error: Error)
    requires
        at < lines@.len(),
        i < 9,
    ensures
        error matches Error::Generic(message) && message@ == row_error(
            texts(lines@),
            at as int,
            i as int,
        ),
{
    let name = text_of(&lines[at]);
    if i >= lines.len() - at - 1 {
        Error::Generic(String::from_str("Not enough rows for puzzle ").concat(name.as_str()))
    } else {
        let mut message = String::from_str("Row ");
        message.push(numeral_of(i + 1));
        message.append(" in puzzle ");
        message.append(name.as_str());
        message.append(" doesn't have exactly 9 digits");
        Error::Generic(message)
    }
}

/// The puzzles that a text holds. Fails on the first puzzle that lacks a row or has a row
/// of another length than nine, and on a text without any puzzle.
pub fn parse_sudoku_puzzles(content: &str) -> (outcome: Result<Vec<Puzzle>, Error>)
    ensures
        match outcome {
            Ok(puzzles) => {
                &&& read_text(content@) == Ok::<Seq<PuzzleView>, Seq<char>>(views(puzzles@))
                &&& forall|i: int| 0 <= i < puzzles@.len() ==> (#[trigger] puzzles@[i]).wf()
            },
            Err(error) => error matches Error::Generic(message) && read_text(content@) == Err::<
                Seq<PuzzleView>,
                Seq<char>,
            >(message@),
        },
{
    let chars = chars_of(content);
    let lines = split_lines(&chars);
    let ghost all = texts(lines@);
    let mut puzzles: Vec<Puzzle> = Vec::new();
    let mut at: usize = 0;
    assert(views(puzzles@) =~= Seq::<PuzzleView>::empty());
    while at < lines.len()
        invariant
            at <= lines@.len(),
            all == texts(lines@),
            all == lines_of(content@),
            read_from(all, at as int, views(puzzles@)) == read_text(content@),
            forall|i: int| 0 <= i < puzzles@.len() ==> (#[trigger] puzzles@[i]).wf(),
        decreases lines@.len() - at,
    {
        if !starts_with_grid(&lines[at]) {
            at = at + 1;
        } else {
            let mut rows = [[0u8; 9]; 9];
            let mut i: usize = 0;
            while i < 9
                invariant
                    i <= 9,
                    at < lines@.len(),
                    all == texts(lines@),
                    is_header(all[at as int]),
                    read_from(all, at as int, views(puzzles@)) == read_text(content@),
                    first_bad_row(all, at as int, 0) == first_bad_row(all, at as int, i as int),
                    forall|r: int| 0 <= r < i ==> !bad_row(all, at as int, r),
                    forall|r: int, c: int|
                        0 <= r < i && 0 <= c < 9 ==> #[trigger] rows[r][c] == digit_value(
                            all[at + 1 + r][c],
                        ),
                decreases 9 - i,
            {
                if i >= lines.len() - at - 1 || lines[at + 1 + i].len() != 9 {
                    assert(bad_row(all, at as int, i as int));
                    return Err(row_failure(&lines, at, i));
                }
                assert(!bad_row(all, at as int, i as int));
                let below = at + 1 + i;
                let mut row = [0u8; 9];
                let mut j: usize = 0;
                while j < 9
                    invariant
                        j <= 9,
                        below < lines@.len(),
                        lines@[below as int]@.len() == 9,
                        forall|c: int|
                            0 <= c < j ==> #[trigger] row[c] == digit_value(
                                lines@[below as int]@[c],
                            ),
                    decreases 9 - j,
                {
                    row[j] = digit_of(lines[below][j]);
                    j = j + 1;
                }
                rows[i] = row;
                i = i + 1;
            }
            assert(!bad_row(all, at as int, 8));
            let name = text_of(&lines[at]);
            let board = SudokuBoard::from(rows);
            let puzzle = Puzzle::new(name, Variation::Standard, Difficulty::Medium, board);
            proof {
                assert(flatten(rows) =~= grid_at(all, at as int));
                assert(puzzle@ == puzzle_at(all, at as int));
                assert(views(puzzles@.push(puzzle)) =~= views(puzzles@).push(puzzle@));
            }
            puzzles.push(puzzle);
            at = at + 10;
        }
    }
    if puzzles.len() == 0 {
        return Err(Error::Generic(String::from_str("No puzzles found in the file")));
    }
    Ok(puzzles)
}

} // verus!
