//! What can go wrong while a puzzle is made.

use vstd::prelude::*;

verus! {

/// The ways in which making a puzzle fails. Every failure ends the run; nothing is retried
/// and no half-finished grid is handed out.
#[derive(Debug, PartialEq, Eq)]
pub enum GridError {
    /// There is no word to hide.
    EmptyWordList,
    /// No attempt to place `word` succeeded within its budget of `attempts` tries.
    PlacementExhausted { word: String, attempts: usize },
    /// A word of `len` letters has no legal starting cell on a `width` × `height` grid.
    InvalidDimension { len: usize, width: usize, height: usize },
}

} // verus!
