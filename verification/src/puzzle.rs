//! Named puzzles and the ways to pick one.

use crate::board::SudokuBoard;
use crate::error::Error;
use crate::model::BoardView;
use crate::rules::{solvable, solves};
use crate::solve::Outcome;
use rand::seq::IndexedRandom;
use vstd::prelude::*;
use vstd::string::StringExecFns;

verus! {

/// How hard a puzzle is meant to be.
#[derive(Clone, Copy, Debug, PartialEq, Eq, Structural)]
pub enum Difficulty {
    Easy,
    Medium,
    Hard,
    Extreme,
}

/// The kind of Sudoku that a puzzle is.
#[derive(Clone, Copy, Debug, PartialEq, Eq, Structural)]
pub enum Variation {
    Standard,
    Sandwhich,
    Killer,
}

/// A value wrapped in a type of this library.
pub struct W<T>(pub T);

/// A puzzle: a board with its name and what is known of its kind.
pub struct Puzzle {
    name: String,
    variation: Variation,
    difficulty: Difficulty,
    board: SudokuBoard,
}

/// A puzzle as the contracts see it.
pub struct PuzzleView {
    pub name: Seq<char>,
    pub variation: Variation,
    pub difficulty: Difficulty,
    pub board: BoardView,
}

impl Clone for Puzzle {
    fn clone(&self) -> (copy: Puzzle)
        ensures
            copy@ == self@,
            self.wf() ==> copy.wf(),
    {
        Puzzle {
            name: self.name.clone(),
            variation: self.variation,
            difficulty: self.difficulty,
            board: self.board.clone(),
        }
    }
}

impl Puzzle {
    /// The puzzle as the contracts see it.
    pub closed spec fn view(&self) -> PuzzleView {
        PuzzleView {
            name: self.name@,
            variation: self.variation,
            difficulty: self.difficulty,
            board: self.board@,
        }
    }

    /// The board of a puzzle is well formed.
    pub closed spec fn wf(&self) -> bool {
        self.board.wf()
    }

    /// A puzzle of the given name and kind on the given board.
    pub fn new(name: String, variation: Variation, difficulty: Difficulty, board: SudokuBoard) -> (puzzle:
        Puzzle)
        requires
            board.wf(),
        ensures
            puzzle.wf(),
            puzzle@ == (PuzzleView { name: name@, variation, difficulty, board: board@ }),
    {
        Puzzle { name, variation, difficulty, board }
    }

    /// The name of the puzzle.
    pub fn name(&self) -> (name: &String)
        ensures
            name@ == self@.name,
    {
        &self.name
    }

    /// The kind of Sudoku.
    pub fn variation(&self) -> (variation: Variation)
        ensures
            variation == self@.variation,
    {
        self.variation
    }

    /// How hard the puzzle is meant to be.
    pub fn difficulty(&self) -> (difficulty: Difficulty)
        ensures
            difficulty == self@.difficulty,
    {
        self.difficulty
    }

    /// The board of the puzzle.
    pub fn board(&self) -> (board: &SudokuBoard)
        ensures
            board@ == self@.board,
            self.wf() ==> board.wf(),
    {
        &self.board
    }

    /// Solves the puzzle on its board. Returns whether the grid was filled, which is the case
    /// exactly when the puzzle has a solution; the grid then holds one.
    pub fn solve(&mut self) -> (ok: bool)
        requires
            old(self).wf(),
        ensures
            final(self).wf(),
            final(self)@ == (PuzzleView { board: old(self)@.board.solved(), ..old(self)@ }),
            ok == solvable(old(self)@.board.grid),
            ok ==> solves(old(self)@.board.grid, final(self)@.board.grid),
    {
        self.board.solve()
    }

    /// Solves the puzzle as `solve` does, and tells how it ended.
    pub fn solve_outcome(&mut self) -> (outcome: Outcome)
        requires
            old(self).wf(),
        ensures
            final(self).wf(),
            final(self)@ == (PuzzleView { board: old(self)@.board.solved(), ..old(self)@ }),
            outcome == old(self)@.board.outcome(),
            outcome.filled() == solvable(old(self)@.board.grid),
    {
        self.board.solve_outcome()
    }
}

/// One of `puzzles`, picked at random by `choose` of the rand crate with the thread's
/// generator. Not proved: that `choose` returns `None` for an empty slice only, and else a
/// reference to one of the slice's elements. Which element comes is left open.
#[verifier::external_body]
fn choose_one<'a>(puzzles: &'a Vec<Puzzle>) -> (choice: Option<&'a Puzzle>)
    ensures
        match choice {
            Some(puzzle) => exists|i: int| 0 <= i < puzzles@.len() && puzzles@[i] == *puzzle,
            None => puzzles@.len() == 0,
        },
{
    puzzles.choose(&mut rand::rng())
}

/// What a random pick amounts to: a copy of the puzzle that was chosen, or an error where
/// there was none to choose.
pub fn picked(choice: Option<&Puzzle>) -> (outcome: Result<Puzzle, Error>)
    ensures
        match choice {
            Some(puzzle) => outcome matches Ok(copy) && copy@ == puzzle@ && (puzzle.wf()
                ==> copy.wf()),
            None => outcome matches Err(Error::Generic(message)) && message@
                == "Failed to randomly select a puzzle"@,
        },
{
    match choice {
        Some(puzzle) => Ok(puzzle.clone()),
        None => Err(Error::Generic(String::from_str("Failed to randomly select a puzzle"))),
    }
}

/// A copy of one of `puzzles`, picked at random; an error if there is none.
pub fn pick_random_puzzle(puzzles: &Vec<Puzzle>) -> (outcome: Result<Puzzle, Error>)
    ensures
        match outcome {
            Ok(copy) => exists|i: int| 0 <= i < puzzles@.len() && copy@ == (#[trigger] puzzles@[i])@,
            Err(error) => {
                &&& puzzles@.len() == 0
                &&& error matches Error::Generic(message)
                &&& message@ == "Failed to randomly select a puzzle"@
            },
        },
        puzzles@.len() > 0 ==> outcome is Ok,
{
    picked(choose_one(puzzles))
}

/// Whether `name` is the name of the puzzle on which backtracking works longest.
pub open spec fn is_worst_case(name: Seq<char>) -> bool {
    name == "Worst Case Backtrack"@
}

/// The first of `puzzles` that is named "Worst Case Backtrack".
pub fn pick_worst_backtracking(puzzles: Vec<Puzzle>) -> (picked: Result<Puzzle, Error>)
    ensures
        match picked {
            Ok(puzzle) => exists|i: int|
                0 <= i < puzzles@.len() && puzzles@[i] == puzzle && is_worst_case(puzzle@.name)
                    && forall|j: int| 0 <= j < i ==> !is_worst_case(#[trigger] puzzles@[j]@.name),
            Err(error) => {
                &&& forall|j: int|
                    0 <= j < puzzles@.len() ==> !is_worst_case(#[trigger] puzzles@[j]@.name)
                &&& error matches Error::Generic(message)
                &&& message@ == "Worst Case Backtrack puzzle not found"@
            },
        },
{
    let mut rest = puzzles;
    let wanted = String::from_str("Worst Case Backtrack");
    let mut i: usize = 0;
    while i < rest.len()
        invariant
            i <= rest@.len(),
            rest@ == puzzles@,
            wanted@ == "Worst Case Backtrack"@,
            forall|j: int| 0 <= j < i ==> !is_worst_case(#[trigger] puzzles@[j]@.name),
        decreases rest@.len() - i,
    {
        if rest[i].name == wanted {
            return Ok(rest.remove(i));
        }
        i = i + 1;
    }
    Err(Error::Generic(String::from_str("Worst Case Backtrack puzzle not found")))
}

} // verus!
