//! How large the grid is made: at least as long as the longest word on both axes, and by
//! default a square with room for twice the letters of all words.

use crate::error::GridError;
use vstd::prelude::*;

verus! {

/// The length of the longest of the first `n` words, 0 if there is none.
pub open spec fn longest_upto(words: Seq<Seq<char>>, n: int) -> nat
    decreases n,
{
    if n <= 0 {
        0
    } else {
        let rest = longest_upto(words, n - 1);
        if words[n - 1].len() > rest {
            words[n - 1].len()
        } else {
            rest
        }
    }
}

/// The length of the longest word, 0 if there is none.
pub open spec fn longest(words: Seq<Seq<char>>) -> nat {
    longest_upto(words, words.len() as int)
}

/// The number of letters in the first `n` words.
pub open spec fn total_letters_upto(words: Seq<Seq<char>>, n: int) -> nat
    decreases n,
{
    if n <= 0 {
        0
    } else {
        total_letters_upto(words, n - 1) + words[n - 1].len()
    }
}

/// The number of letters in all words: the number of words times their mean length.
pub open spec fn total_letters(words: Seq<Seq<char>>) -> nat {
    total_letters_upto(words, words.len() as int)
}

/// Whether `s` is the square root of `n`, rounded up: the least number whose square
/// reaches `n`.
pub open spec fn is_ceil_sqrt(s: nat, n: nat) -> bool {
    s * s >= n && (s > 0 ==> (s - 1) * (s - 1) < n)
}

/// The square root of `n`, rounded up.
pub open spec fn ceil_sqrt(n: nat) -> nat {
    choose|s: nat| is_ceil_sqrt(s, n)
}

/// The side of the square that a list with `total` letters gets where the caller asks for
/// no size: the square root of twice the letters, rounded up, and no more than the largest
/// `usize`.
pub open spec fn default_size(total: nat) -> nat {
    if ceil_sqrt(2 * total) <= usize::MAX {
        ceil_sqrt(2 * total)
    } else {
        usize::MAX as nat
    }
}

/// The size of one axis: what the caller asked for, or else the default, but never less
/// than the longest word.
pub open spec fn axis_size(longest: nat, wanted: Option<usize>, default: nat) -> nat {
    let size = match wanted {
        Some(size) => size as nat,
        None => default,
    };
    if longest > size {
        longest
    } else {
        size
    }
}

/// Some number is the square root of `n`, rounded up.
pub proof fn lemma_ceil_sqrt_exists(n: nat) -> (s: nat)
    ensures
        is_ceil_sqrt(s, n),
    decreases n,
{
    if n == 0 {
        0
    } else {
        let p = lemma_ceil_sqrt_exists((n - 1) as nat);
        if p * p >= n {
            p
        } else {
            assert((p + 1) * (p + 1) == p * p + 2 * p + 1) by (nonlinear_arith);
            p + 1
        }
    }
}

/// Only one number is the square root of `n`, rounded up.
pub proof fn lemma_ceil_sqrt_unique(n: nat, a: nat, b: nat)
    requires
        is_ceil_sqrt(a, n),
        is_ceil_sqrt(b, n),
    ensures
        a == b,
{
    if a < b {
        assert(a * a <= (b - 1) * (b - 1)) by (nonlinear_arith)
            requires
                0 <= a <= b - 1,
        ;
    } else if b < a {
        assert(b * b <= (a - 1) * (a - 1)) by (nonlinear_arith)
            requires
                0 <= b <= a - 1,
        ;
    }
}

/// `ceil_sqrt(n)` is the least number whose square reaches `n`, and the only one.
pub proof fn lemma_ceil_sqrt(n: nat)
    ensures
        is_ceil_sqrt(ceil_sqrt(n), n),
        forall|s: nat| is_ceil_sqrt(s, n) ==> s == ceil_sqrt(n),
{
    let witness = lemma_ceil_sqrt_exists(n);
    assert forall|s: nat| is_ceil_sqrt(s, n) implies s == ceil_sqrt(n) by {
        lemma_ceil_sqrt_unique(n, s, ceil_sqrt(n));
    }
}

/// Where no size is asked for, an axis is as long as the longest word or as the square
/// root of twice the letters, rounded up, whichever is more, so long as a `usize` holds
/// that root.
pub proof fn lemma_default_axis_size(longest: nat, total: nat)
    requires
        ceil_sqrt(2 * total) <= usize::MAX,
    ensures
        axis_size(longest, None, default_size(total)) == if longest > ceil_sqrt(2 * total) {
            longest
        } else {
            ceil_sqrt(2 * total)
        },
        is_ceil_sqrt(ceil_sqrt(2 * total), 2 * total),
{
    lemma_ceil_sqrt(2 * total);
}

/// No word is longer than the longest, and unless the list is empty the longest is the
/// length of one of the words.
pub proof fn lemma_longest(words: Seq<Seq<char>>)
    ensures
        forall|i: int| 0 <= i < words.len() ==> (#[trigger] words[i]).len() <= longest(words),
        words.len() > 0 ==> exists|i: int|
            0 <= i < words.len() && (#[trigger] words[i]).len() == longest(words),
{
    lemma_longest_upto(words, words.len() as int);
}

proof fn lemma_longest_upto(words: Seq<Seq<char>>, n: int)
    requires
        0 <= n <= words.len(),
    ensures
        forall|i: int| 0 <= i < n ==> (#[trigger] words[i]).len() <= longest_upto(words, n),
        n > 0 ==> exists|i: int|
            0 <= i < n && (#[trigger] words[i]).len() == longest_upto(words, n),
    decreases n,
{
    if n > 0 {
        lemma_longest_upto(words, n - 1);
    }
}

/// The length of the longest word and the number of letters of all words.
fn measure(words: &Vec<String>) -> (m: (usize, u128))
    ensures
        m.0 == longest(words.deep_view()),
        m.1 == total_letters(words.deep_view()),
{
    let ghost letters = words.deep_view();
    let mut longest_word: usize = 0;
    let mut total: u128 = 0;
    let mut i: usize = 0;
    while i < words.len()
        invariant
            i <= words.len(),
            letters == words.deep_view(),
            letters.len() == words.len(),
            longest_word == longest_upto(letters, i as int),
            total == total_letters_upto(letters, i as int),
            total <= i * usize::MAX,
        decreases words.len() - i,
    {
        let len = words[i].as_str().unicode_len();
        assert((i + 1) * usize::MAX <= u128::MAX) by (nonlinear_arith)
            requires
                0 <= i + 1 <= usize::MAX,
                usize::MAX <= 0xffff_ffff_ffff_ffff,
                u128::MAX == 0xffff_ffff_ffff_ffff_ffff_ffff_ffff_ffff,
        ;
        assert((i + 1) * usize::MAX == i * usize::MAX + usize::MAX) by (nonlinear_arith);
        if len > longest_word {
            longest_word = len;
        }
        total = total + len as u128;
        i = i + 1;
    }
    (longest_word, total)
}

/// The default side for a list with `total` letters.
fn default_size_for(total: u128) -> (side: usize)
    ensures
        side == default_size(total as nat),
{
    let mut side: usize = 0;
    loop
        invariant
            side > 0 ==> (side - 1) * (side - 1) < 2 * total,
        ensures
            side > 0 ==> (side - 1) * (side - 1) < 2 * total,
            side * side >= 2 * total || side == usize::MAX,
        decreases usize::MAX - side,
    {
        assert(side * side <= u128::MAX) by (nonlinear_arith)
            requires
                0 <= side <= 0xffff_ffff_ffff_ffff,
                u128::MAX == 0xffff_ffff_ffff_ffff_ffff_ffff_ffff_ffff,
        ;
        let square = (side as u128) * (side as u128);
        if side == usize::MAX || square / 2 >= total {
            break ;
        }
        side = side + 1;
    }
    proof {
        let root = ceil_sqrt(2 * total as nat);
        lemma_ceil_sqrt(2 * total as nat);
        if side * side >= 2 * total {
            assert(is_ceil_sqrt(side as nat, 2 * total as nat));
        } else {
            if root <= side {
                assert(root * root <= side * side) by (nonlinear_arith)
                    requires
                        0 <= root <= side,
                ;
            }
        }
    }
    side
}

/// The width and the height of the grid for a list of words: on each axis what the caller
/// asks for, or else the default size, but never less than the length of the longest word.
/// A list without words has no size.
pub fn dimensions(words: &Vec<String>, width: Option<usize>, height: Option<usize>) -> (r: Result<
    (usize, usize),
    GridError,
>)
    ensures
        r is Err <==> words@.len() == 0,
        r matches Err(e) ==> e == GridError::EmptyWordList,
        r matches Ok((w, h)) ==> {
            let letters = words.deep_view();
            let default = default_size(total_letters(letters));
            &&& w == axis_size(longest(letters), width, default)
            &&& h == axis_size(longest(letters), height, default)
            &&& w >= longest(letters)
            &&& h >= longest(letters)
            &&& width matches Some(asked) ==> w >= asked
            &&& height matches Some(asked) ==> h >= asked
        },
{
    if words.len() == 0 {
        return Err(GridError::EmptyWordList);
    }
    let (longest_word, total) = measure(words);
    let default = default_size_for(total);
    let w = match width {
        Some(size) => size,
        None => default,
    };
    let h = match height {
        Some(size) => size,
        None => default,
    };
    Ok(
        (
            if longest_word > w {
                longest_word
            } else {
                w
            },
            if longest_word > h {
                longest_word
            } else {
                h
            },
        ),
    )
}

} // verus!
