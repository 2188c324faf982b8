//! The random source. Everything that is left to chance is drawn here, from a generator
//! that the caller hands in, so that a seeded generator gives a reproducible puzzle.
//!
//! Nothing is proved of these functions: each states what the `rand` crate does, whatever
//! the generator yields.

use rand::rngs::StdRng;
use rand::seq::SliceRandom;
use rand::Rng;
use std::ops::RangeInclusive;
use vstd::prelude::*;

verus! {

/// `rand::rngs::StdRng`, the generator that the library draws from. Its state is not
/// modelled.
#[verifier::external_type_specification]
#[verifier::external_body]
pub struct ExStdRng(rand::rngs::StdRng);

/// `Rng::gen_range` on an inclusive range of `usize`: the number drawn lies in the range.
/// `gen_range` panics on a range whose start is above its end, which the precondition
/// excludes.
#[verifier::external_body]
pub(crate) fn draw_index(rng: &mut StdRng, range: RangeInclusive<usize>) -> (n: usize)
    requires
        range@.start <= range@.end,
    ensures
        range@.start <= n <= range@.end,
{
    rng.gen_range(range)
}

/// `Rng::gen_range` on an inclusive range of `char`: the character drawn lies in the range.
/// `gen_range` panics on a range whose start is above its end, which the precondition
/// excludes.
#[verifier::external_body]
pub(crate) fn draw_letter(rng: &mut StdRng, range: RangeInclusive<char>) -> (c: char)
    requires
        range@.start <= range@.end,
    ensures
        range@.start <= c <= range@.end,
{
    rng.gen_range(range)
}

/// `SliceRandom::shuffle` on the words: it swaps elements of the slice and does nothing
/// else, so the list holds the same words as before, each as often as before.
#[verifier::external_body]
pub(crate) fn shuffle_words(rng: &mut StdRng, words: &mut Vec<String>)
    ensures
        final(words)@.to_multiset() == old(words)@.to_multiset(),
{
    words.shuffle(rng)
}

} // verus!
