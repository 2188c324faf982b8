//! Word-search puzzles: a rectangular grid of letters in which every word of a list runs
//! once in a straight line, in one of the eight compass directions, and every other cell
//! holds a filler letter.
//!
//! [`puzzle::make_grid`] goes from words as they were typed to the finished rows of letters.
//! [`sizing`] decides how large the grid is, [`grid::Grid`] places the words and fills the
//! rest, and [`direction::Direction`] names the eight directions and the starting cells that
//! each of them admits. [`cells`] is the mathematical model that the contracts are written
//! in, [`random`] is the only place where chance enters, and [`legend`] lays out the list of
//! words that is printed beneath a puzzle.

pub mod cells;
pub mod direction;
pub mod error;
pub mod grid;
pub mod legend;
pub mod puzzle;
pub mod random;
pub mod sizing;
