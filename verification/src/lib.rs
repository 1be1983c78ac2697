//! Deduction of certain mines and certain safe cells on a square
//! minesweeper-style grid, for several rule variants.
//!
//! Two solvers read a board. The rule-based solver (`algorithms`) works on zones,
//! sets of unrevealed cells with the numbers of mines that they may hold; `truth`
//! proves that it says nothing false. The exact solver states the board as
//! constraints (`linear_programming_solvers`, `plus_linear_solvers`) and probes
//! each cell with an integer program (`probing`); `optimum`, `games` and `baseline`
//! prove what follows from true optima.

pub mod algorithms;
pub mod baseline;
pub mod board;
pub mod games;
pub mod generation;
pub mod geometry;
pub mod grid;
pub mod linear_programming_solvers;
pub mod optimum;
pub mod plus_linear_solvers;
pub mod probing;
pub mod rules;
pub mod seqs;
pub mod text;
pub mod truth;
pub mod zone;
