//! From a list of words as they were typed to a finished puzzle.

use crate::cells::{hides, inside, is_filler, occurs, rectangular, solid};
use crate::error::GridError;
use crate::grid::Grid;
use crate::sizing::{axis_size, default_size, longest, total_letters};
use rand::rngs::StdRng;
use vstd::prelude::*;

verus! {

/// What `str::to_uppercase` makes of a string: each character replaced by its uppercase
/// form, which for some characters is more than one character.
pub uninterp spec fn uppercase(word: Seq<char>) -> Seq<char>;

/// `str::to_uppercase`: the uppercase form of the whole string. The tables that it goes by
/// are part of the standard library and are not spelled out here.
#[verifier::external_body]
fn to_uppercase(word: &str) -> (upper: String)
    ensures
        upper@ == uppercase(word@),
{
    word.to_uppercase()
}

/// `String::push`: the character is appended to the end of the string.
pub assume_specification[ String::push ](s: &mut String, ch: char)
    ensures
        final(s)@ == old(s)@.push(ch),
;

/// The test that picks the letters `A` to `Z`.
pub open spec fn letter() -> spec_fn(char) -> bool {
    |c: char| is_filler(c)
}

/// The word as it is hidden in the puzzle: in upper case, and without whatever is no letter
/// from `A` to `Z` then.
pub open spec fn normalized(word: Seq<char>) -> Seq<char> {
    uppercase(word).filter(letter())
}

/// The words as they are hidden in the puzzle.
pub open spec fn normalized_all(words: Seq<Seq<char>>) -> Seq<Seq<char>> {
    Seq::new(words.len(), |i: int| normalized(words[i]))
}

/// The letters from `A` to `Z` of a word, in their order.
pub fn keep_letters(word: &str) -> (kept: String)
    ensures
        kept@ == word@.filter(letter()),
{
    let mut kept = String::new();
    proof {
        reveal(Seq::filter);
    }
    for c in it: word.chars()
        invariant
            it.seq() == word@,
            kept@ == word@.take(it.index() as int).filter(letter()),
    {
        proof {
            reveal(Seq::filter);
            let i = it.index() as int;
            assert(word@.take(i + 1).drop_last() =~= word@.take(i));
        }
        if 'A' <= c && c <= 'Z' {
            kept.push(c);
        }
    }
    proof {
        assert(word@.take(word@.len() as int) =~= word@);
    }
    kept
}

/// The word as it is hidden in the puzzle.
pub fn normalize(word: &str) -> (hidden: String)
    ensures
        hidden@ == normalized(word@),
{
    let upper = to_uppercase(word);
    keep_letters(upper.as_str())
}

/// Make a puzzle from words as they were typed: normalize them, size the grid for them,
/// and generate.
pub fn make_grid(
    words: &[String],
    width: Option<usize>,
    height: Option<usize>,
    rng: &mut StdRng,
) -> (r: Result<Vec<Vec<char>>, GridError>)
    ensures
        words@.len() == 0 <==> r == Err::<Vec<Vec<char>>, GridError>(GridError::EmptyWordList),
        r matches Ok(rows) ==> {
            let hidden = normalized_all(words.deep_view());
            let default = default_size(total_letters(hidden));
            let puzzle = solid(rows.deep_view());
            &&& rectangular(
                puzzle,
                axis_size(longest(hidden), width, default) as int,
                axis_size(longest(hidden), height, default) as int,
            )
            &&& forall|i: int|
                0 <= i < hidden.len() ==> hides(rows.deep_view(), #[trigger] hidden[i])
            &&& forall|x: int, y: int|
                inside(puzzle, x, y) ==> is_filler(#[trigger] rows.deep_view()[y][x])
        },
        r matches Err(e) ==> words@.len() > 0 ==> {
            &&& e matches GridError::PlacementExhausted { word, attempts }
            &&& normalized_all(words.deep_view()).contains(word@)
        },
        words@.len() == 1 && normalized(words@[0]@).len() > 0 ==> r is Ok,
        (exists|i: int| 0 <= i < words@.len() && normalized((#[trigger] words@[i])@).len() == 0)
            ==> r is Err,
{
    let mut hidden: Vec<String> = Vec::new();
    let mut i: usize = 0;
    while i < words.len()
        invariant
            i <= words.len(),
            hidden@.len() == i,
            forall|k: int| 0 <= k < i ==> (#[trigger] hidden@[k])@ == normalized(words@[k]@),
        decreases words.len() - i,
    {
        hidden.push(normalize(words[i].as_str()));
        i = i + 1;
    }
    assert(hidden.deep_view() =~= normalized_all(words.deep_view()));
    let ghost list = hidden.deep_view();
    match Grid::new(hidden, width, height) {
        Err(e) => Err(e),
        Ok(grid) => {
            let r = grid.generate(rng);
            proof {
                if r is Ok {
                    let rows = r->Ok_0;
                    let puzzle = solid(rows.deep_view());
                    assert forall|x: int, y: int| inside(puzzle, x, y) implies is_filler(
                        #[trigger] rows.deep_view()[y][x],
                    ) by {
                        let c = rows.deep_view()[y][x];
                        assert(puzzle[y][x] == Some(c));
                        if occurs(list, c) {
                            let (a, b) = choose|a: int, b: int|
                                0 <= a < list.len() && 0 <= b < list[a].len()
                                    && #[trigger] list[a][b] == c;
                            uppercase(words@[a]@).lemma_filter_pred(letter(), b);
                        }
                    }
                }
                if exists|i: int|
                    0 <= i < words@.len() && normalized((#[trigger] words@[i])@).len() == 0 {
                    let i = choose|i: int|
                        0 <= i < words@.len() && normalized((#[trigger] words@[i])@).len() == 0;
                    assert(list[i].len() == 0);
                }
            }
            r
        },
    }
}

} // verus!
