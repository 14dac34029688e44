//! A 9×9 Sudoku solver: constraint propagation to a fixpoint, then backtracking.
//!
//! The contracts are stated over a mathematical model of the board (`model`), the rules of
//! the game (`rules`) and the geometry of the grid (`topology`). The techniques are
//! described by the patterns they look for (`patterns`) and carried out by `singles` and
//! `eliminate`, with the searches for the patterns in `naked`, `hidden` and `wings`.
//! `search` is the backtracking fallback and `solve` puts propagation and search together.
//! `laws` states what holds of the solver as a whole. `puzzle`, `import`, `render` and
//! `error` surround the solver with named puzzles, their text form and their failures.

pub mod board;
pub mod digits;
pub mod eliminate;
pub mod error;
pub mod hidden;
pub mod import;
pub mod laws;
pub mod model;
pub mod naked;
pub mod patterns;
pub mod puzzle;
pub mod render;
pub mod rules;
pub mod search;
pub mod singles;
pub mod solve;
pub mod topology;
pub mod wings;
