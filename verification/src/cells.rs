//! The mathematical model of a grid and of a word that runs across it.
//!
//! A grid is a sequence of rows, each a sequence of cells; the cell in column `x` of row `y`
//! is `cells[y][x]`. A cell is empty (`None`) or holds a letter. A word that starts at
//! `(x0, y0)` and runs in direction `dir` has its letter number `i` at
//! `(run_x(dir, x0, i), run_y(dir, y0, i))`.

use crate::direction::{legal_start, Direction};
use vstd::prelude::*;

verus! {

/// Rows of cells, each empty or holding a letter.
pub type Cells = Seq<Seq<Option<char>>>;

/// Rows of letters: a finished puzzle.
pub type Letters = Seq<Seq<char>>;

/// Whether `cells` has `height` rows of `width` cells each.
pub open spec fn rectangular(cells: Cells, width: int, height: int) -> bool {
    &&& cells.len() == height
    &&& forall|y: int| 0 <= y < height ==> (#[trigger] cells[y]).len() == width
}

/// Whether `(x, y)` is a cell of `cells`.
pub open spec fn inside(cells: Cells, x: int, y: int) -> bool {
    0 <= y < cells.len() && 0 <= x < cells[y].len()
}

/// The coordinate reached from `start` by `i` steps of `d` along one axis.
pub open spec fn shift(start: int, d: int, i: int) -> int {
    if d > 0 {
        start + i
    } else if d < 0 {
        start - i
    } else {
        start
    }
}

/// The column of letter number `i` of a word that starts in column `x0`.
pub open spec fn run_x(dir: Direction, x0: int, i: int) -> int {
    shift(x0, dir.dx(), i)
}

/// The row of letter number `i` of a word that starts in row `y0`.
pub open spec fn run_y(dir: Direction, y0: int, i: int) -> int {
    shift(y0, dir.dy(), i)
}

/// Which letter of a run from `(x0, y0)` the cell `(x, y)` would be, if it is on the run.
pub open spec fn run_index(dir: Direction, x0: int, y0: int, x: int, y: int) -> int {
    if dir.dx() > 0 {
        x - x0
    } else if dir.dx() < 0 {
        x0 - x
    } else if dir.dy() > 0 {
        y - y0
    } else {
        y0 - y
    }
}

/// Whether `(x, y)` is one of the first `len` cells of the run from `(x0, y0)`.
pub open spec fn on_run(dir: Direction, x0: int, y0: int, len: int, x: int, y: int) -> bool {
    let i = run_index(dir, x0, y0, x, y);
    0 <= i < len && x == run_x(dir, x0, i) && y == run_y(dir, y0, i)
}

/// Whether `letter` may be written at `(x, y)`: the cell exists and is empty or holds that
/// very letter.
pub open spec fn admits(cells: Cells, x: int, y: int, letter: char) -> bool {
    inside(cells, x, y) && (cells[y][x] is None || cells[y][x] == Some(letter))
}

/// Whether letter number `i` of `word` may be written where the run puts it.
pub open spec fn fits_at(
    cells: Cells,
    word: Seq<char>,
    dir: Direction,
    x0: int,
    y0: int,
    i: int,
) -> bool {
    admits(cells, run_x(dir, x0, i), run_y(dir, y0, i), word[i])
}

/// Whether `word` may be placed from `(x0, y0)` in direction `dir`: every letter of it
/// falls on a cell of the grid that is empty or already holds that letter.
pub open spec fn fits(cells: Cells, word: Seq<char>, dir: Direction, x0: int, y0: int) -> bool {
    forall|i: int| 0 <= i < word.len() ==> #[trigger] fits_at(cells, word, dir, x0, y0, i)
}

/// Whether letter number `i` of `word` stands where the run puts it.
pub open spec fn reads_at(
    cells: Cells,
    word: Seq<char>,
    dir: Direction,
    x0: int,
    y0: int,
    i: int,
) -> bool {
    let x = run_x(dir, x0, i);
    let y = run_y(dir, y0, i);
    inside(cells, x, y) && cells[y][x] == Some(word[i])
}

/// Whether `word` can be read from `(x0, y0)` in direction `dir`.
pub open spec fn reads(cells: Cells, word: Seq<char>, dir: Direction, x0: int, y0: int) -> bool {
    forall|i: int| 0 <= i < word.len() ==> #[trigger] reads_at(cells, word, dir, x0, y0, i)
}

/// Whether `word` can be read somewhere in `cells`: from a cell of the grid, in one of the
/// eight directions.
pub open spec fn placed(cells: Cells, word: Seq<char>) -> bool {
    exists|dir: Direction, x0: int, y0: int|
        inside(cells, x0, y0) && #[trigger] reads(cells, word, dir, x0, y0)
}

/// The grid after the first `n` letters of `word` have been written from `(x0, y0)` in
/// direction `dir`: the first `n` cells of the run hold those letters, every other cell is
/// as before.
pub open spec fn written_upto(
    cells: Cells,
    word: Seq<char>,
    dir: Direction,
    x0: int,
    y0: int,
    n: int,
) -> Cells {
    Seq::new(
        cells.len(),
        |y: int|
            Seq::new(
                cells[y].len(),
                |x: int|
                    if on_run(dir, x0, y0, n, x, y) {
                        Some(word[run_index(dir, x0, y0, x, y)])
                    } else {
                        cells[y][x]
                    },
            ),
    )
}

/// The grid after `word` has been written from `(x0, y0)` in direction `dir`: the cells of
/// the run hold the letters of the word, every other cell is as before.
pub open spec fn written(cells: Cells, word: Seq<char>, dir: Direction, x0: int, y0: int) -> Cells {
    written_upto(cells, word, dir, x0, y0, word.len() as int)
}

/// Whether `after` has the shape of `before` and every letter of `before` in its place.
pub open spec fn extends(before: Cells, after: Cells) -> bool {
    &&& after.len() == before.len()
    &&& forall|y: int| 0 <= y < before.len() ==> (#[trigger] after[y]).len() == before[y].len()
    &&& forall|x: int, y: int|
        inside(before, x, y) && before[y][x] is Some ==> #[trigger] after[y][x] == before[y][x]
}

/// Whether no cell of `cells` is empty.
pub open spec fn full(cells: Cells) -> bool {
    forall|x: int, y: int| inside(cells, x, y) ==> (#[trigger] cells[y][x]) is Some
}

/// The number of empty cells among the first `n` cells of `row`.
pub open spec fn blanks_in(row: Seq<Option<char>>, n: int) -> nat
    decreases n,
{
    if n <= 0 {
        0
    } else {
        blanks_in(row, n - 1) + if row[n - 1] is None {
            1nat
        } else {
            0nat
        }
    }
}

/// The number of empty cells in the first `n` rows of `cells`.
pub open spec fn blanks(cells: Cells, n: int) -> nat
    decreases n,
{
    if n <= 0 {
        0
    } else {
        blanks(cells, n - 1) + blanks_in(cells[n - 1], cells[n - 1].len() as int)
    }
}

/// The number of empty cells in `cells`.
pub open spec fn empty_cells(cells: Cells) -> nat {
    blanks(cells, cells.len() as int)
}

/// The number of attempts that a word gets: one for each empty cell, and no more than the
/// machine can count.
pub open spec fn retry_limit(cells: Cells) -> nat {
    if empty_cells(cells) <= usize::MAX {
        empty_cells(cells)
    } else {
        usize::MAX as nat
    }
}

/// The grid in which every cell holds the letter that `letters` has there.
pub open spec fn solid(letters: Letters) -> Cells {
    Seq::new(letters.len(), |y: int| Seq::new(letters[y].len(), |x: int| Some(letters[y][x])))
}

/// Whether letter number `i` of `word` stands in `letters` where the run puts it.
pub open spec fn spells_at(
    letters: Letters,
    word: Seq<char>,
    dir: Direction,
    x0: int,
    y0: int,
    i: int,
) -> bool {
    let x = run_x(dir, x0, i);
    let y = run_y(dir, y0, i);
    0 <= y < letters.len() && 0 <= x < letters[y].len() && letters[y][x] == word[i]
}

/// Whether reading from `(x0, y0)` in direction `dir` yields `word`, letter by letter.
pub open spec fn spells(
    letters: Letters,
    word: Seq<char>,
    dir: Direction,
    x0: int,
    y0: int,
) -> bool {
    forall|i: int| 0 <= i < word.len() ==> #[trigger] spells_at(letters, word, dir, x0, y0, i)
}

/// Whether `word` is hidden in the puzzle: there are a cell and one of the eight
/// directions such that reading from that cell in that direction yields the word.
pub open spec fn hides(letters: Letters, word: Seq<char>) -> bool {
    exists|dir: Direction, x0: int, y0: int|
        0 <= y0 < letters.len() && 0 <= x0 < letters[y0].len() && #[trigger] spells(
            letters,
            word,
            dir,
            x0,
            y0,
        )
}

/// Whether every cell of `cells` is empty.
pub open spec fn blank(cells: Cells) -> bool {
    forall|x: int, y: int| inside(cells, x, y) ==> (#[trigger] cells[y][x]) is None
}

/// Whether `c` is a letter of one of `words`.
pub open spec fn occurs(words: Seq<Seq<char>>, c: char) -> bool {
    exists|i: int, j: int|
        0 <= i < words.len() && 0 <= j < words[i].len() && #[trigger] words[i][j] == c
}

/// Whether every letter of `now` stood in `entry` already, is a letter of one of `words`,
/// or, where `filled` says that the grid has been filled, is a filler.
pub open spec fn accounted(entry: Cells, now: Cells, words: Seq<Seq<char>>, filled: bool) -> bool {
    forall|x: int, y: int|
        inside(now, x, y) ==> match (#[trigger] now[y][x]) {
            Some(c) => entry[y][x] == Some(c) || occurs(words, c) || (filled && is_filler(c)),
            None => true,
        }
}

/// Whether `c` is one of the letters that fill the cells which no word covers.
pub open spec fn is_filler(c: char) -> bool {
    'A' <= c <= 'Z'
}


/// Writing one more letter of a word changes the one cell that the run puts it on.
pub proof fn lemma_written_step(
    cells: Cells,
    word: Seq<char>,
    dir: Direction,
    x0: int,
    y0: int,
    n: int,
)
    requires
        0 <= n < word.len(),
        inside(cells, run_x(dir, x0, n), run_y(dir, y0, n)),
    ensures
        written_upto(cells, word, dir, x0, y0, n + 1) == ({
            let x = run_x(dir, x0, n);
            let y = run_y(dir, y0, n);
            let mid = written_upto(cells, word, dir, x0, y0, n);
            mid.update(y, mid[y].update(x, Some(word[n])))
        }),
{
    let x = run_x(dir, x0, n);
    let y = run_y(dir, y0, n);
    let mid = written_upto(cells, word, dir, x0, y0, n);
    let next = mid.update(y, mid[y].update(x, Some(word[n])));
    let goal = written_upto(cells, word, dir, x0, y0, n + 1);
    assert forall|r: int| 0 <= r < goal.len() implies goal[r] =~= next[r] by {
    }
}


/// A word that starts on a legal starting cell stays on the grid with all its letters.
pub proof fn lemma_legal_start_stays_inside(
    dir: Direction,
    len: int,
    width: int,
    height: int,
    x0: int,
    y0: int,
    i: int,
)
    requires
        legal_start(dir, len, width, height, x0, y0),
        0 <= i < len,
    ensures
        0 <= run_x(dir, x0, i) < width,
        0 <= run_y(dir, y0, i) < height,
{
}

/// On a grid without letters a word fits at each of its legal starting cells.
pub proof fn lemma_fits_on_blank(cells: Cells, word: Seq<char>, dir: Direction, x0: int, y0: int)
    requires
        blank(cells),
        rectangular(cells, cells[0].len() as int, cells.len() as int),
        cells.len() > 0,
        legal_start(dir, word.len() as int, cells[0].len() as int, cells.len() as int, x0, y0),
    ensures
        fits(cells, word, dir, x0, y0),
{
}

/// Writing a word where it fits keeps the shape of the grid and every letter that was
/// there, and afterwards the word can be read where it was written.
pub proof fn lemma_written(cells: Cells, word: Seq<char>, dir: Direction, x0: int, y0: int)
    requires
        fits(cells, word, dir, x0, y0),
    ensures
        extends(cells, written(cells, word, dir, x0, y0)),
        reads(written(cells, word, dir, x0, y0), word, dir, x0, y0),
{
    let after = written(cells, word, dir, x0, y0);
    assert forall|x: int, y: int|
        inside(cells, x, y) && cells[y][x] is Some implies #[trigger] after[y][x]
        == cells[y][x] by {
        if on_run(dir, x0, y0, word.len() as int, x, y) {
            assert(fits_at(cells, word, dir, x0, y0, run_index(dir, x0, y0, x, y)));
        }
    }
    assert forall|i: int| 0 <= i < word.len() implies #[trigger] reads_at(
        after,
        word,
        dir,
        x0,
        y0,
        i,
    ) by {
        assert(fits_at(cells, word, dir, x0, y0, i));
    }
}

/// Every letter of a grid in which a word was written stood there before or is a letter of
/// that word.
pub proof fn lemma_written_letters(
    cells: Cells,
    word: Seq<char>,
    dir: Direction,
    x0: int,
    y0: int,
    x: int,
    y: int,
)
    requires
        inside(cells, x, y),
    ensures
        written(cells, word, dir, x0, y0)[y][x] == cells[y][x] || exists|j: int|
            0 <= j < word.len() && written(cells, word, dir, x0, y0)[y][x] == Some(
                #[trigger] word[j],
            ),
{
}

/// A word that can be read in a grid can be read in every grid that extends it.
pub proof fn lemma_extends_keeps_reads(
    before: Cells,
    after: Cells,
    word: Seq<char>,
    dir: Direction,
    x0: int,
    y0: int,
)
    requires
        extends(before, after),
        reads(before, word, dir, x0, y0),
    ensures
        reads(after, word, dir, x0, y0),
{
    assert forall|i: int| 0 <= i < word.len() implies #[trigger] reads_at(
        after,
        word,
        dir,
        x0,
        y0,
        i,
    ) by {
        assert(reads_at(before, word, dir, x0, y0, i));
    }
}

/// A word that is placed in a grid is placed in every grid that extends it.
pub proof fn lemma_extends_keeps_placed(before: Cells, after: Cells, word: Seq<char>)
    requires
        extends(before, after),
        placed(before, word),
    ensures
        placed(after, word),
{
    let (dir, x0, y0) = choose|dir: Direction, x0: int, y0: int|
        inside(before, x0, y0) && #[trigger] reads(before, word, dir, x0, y0);
    lemma_extends_keeps_reads(before, after, word, dir, x0, y0);
}

/// Extending is transitive.
pub proof fn lemma_extends_transitive(a: Cells, b: Cells, c: Cells)
    requires
        extends(a, b),
        extends(b, c),
    ensures
        extends(a, c),
{
}

/// Where two words that can be read in one grid cross, they have the same letter.
pub proof fn lemma_crossing_letters_agree(
    cells: Cells,
    first: Seq<char>,
    first_dir: Direction,
    first_x0: int,
    first_y0: int,
    i: int,
    second: Seq<char>,
    second_dir: Direction,
    second_x0: int,
    second_y0: int,
    j: int,
)
    requires
        reads(cells, first, first_dir, first_x0, first_y0),
        reads(cells, second, second_dir, second_x0, second_y0),
        0 <= i < first.len(),
        0 <= j < second.len(),
        run_x(first_dir, first_x0, i) == run_x(second_dir, second_x0, j),
        run_y(first_dir, first_y0, i) == run_y(second_dir, second_y0, j),
    ensures
        first[i] == second[j],
{
    assert(reads_at(cells, first, first_dir, first_x0, first_y0, i));
    assert(reads_at(cells, second, second_dir, second_x0, second_y0, j));
}

/// A row that extends another has no more empty cells than it.
proof fn lemma_extends_blanks_in(before: Seq<Option<char>>, after: Seq<Option<char>>, n: int)
    requires
        0 <= n <= before.len(),
        after.len() == before.len(),
        forall|x: int| 0 <= x < before.len() && before[x] is Some ==> (#[trigger] after[x]) is Some,
    ensures
        blanks_in(after, n) <= blanks_in(before, n),
    decreases n,
{
    if n > 0 {
        lemma_extends_blanks_in(before, after, n - 1);
    }
}

proof fn lemma_extends_blanks(before: Cells, after: Cells, n: int)
    requires
        extends(before, after),
        0 <= n <= before.len(),
    ensures
        blanks(after, n) <= blanks(before, n),
    decreases n,
{
    if n > 0 {
        lemma_extends_blanks(before, after, n - 1);
        let y = n - 1;
        lemma_extends_blanks_in(before[y], after[y], before[y].len() as int);
    }
}

/// A grid that extends another has no more empty cells than it, so a word gets no more
/// attempts on it.
pub proof fn lemma_extends_shrinks_budget(before: Cells, after: Cells)
    requires
        extends(before, after),
    ensures
        empty_cells(after) <= empty_cells(before),
        retry_limit(after) <= retry_limit(before),
{
    lemma_extends_blanks(before, after, before.len() as int);
}

proof fn lemma_blanks_in_counts(row: Seq<Option<char>>, n: int, x: int)
    requires
        0 <= x < n <= row.len(),
        row[x] is None,
    ensures
        blanks_in(row, n) > 0,
    decreases n,
{
    if x < n - 1 {
        lemma_blanks_in_counts(row, n - 1, x);
    }
}

proof fn lemma_blanks_counts(cells: Cells, n: int, x: int, y: int)
    requires
        0 <= y < n <= cells.len(),
        0 <= x < cells[y].len(),
        cells[y][x] is None,
    ensures
        blanks(cells, n) > 0,
    decreases n,
{
    if y < n - 1 {
        lemma_blanks_counts(cells, n - 1, x, y);
    } else {
        lemma_blanks_in_counts(cells[y], cells[y].len() as int, x);
    }
}

/// A grid with an empty cell has at least one empty cell to count.
pub proof fn lemma_empty_cell_counts(cells: Cells, x: int, y: int)
    requires
        inside(cells, x, y),
        cells[y][x] is None,
    ensures
        empty_cells(cells) > 0,
        retry_limit(cells) > 0,
{
    lemma_blanks_counts(cells, cells.len() as int, x, y);
}


/// A puzzle hides a word exactly if the word is placed in the grid whose cells hold the
/// letters of the puzzle.
pub proof fn lemma_hides_what_is_placed(letters: Letters, word: Seq<char>)
    ensures
        hides(letters, word) <==> placed(solid(letters), word),
{
    let puzzle = solid(letters);
    if placed(puzzle, word) {
        let (dir, x0, y0) = choose|dir: Direction, x0: int, y0: int|
            inside(puzzle, x0, y0) && #[trigger] reads(puzzle, word, dir, x0, y0);
        assert forall|i: int| 0 <= i < word.len() implies #[trigger] spells_at(
            letters,
            word,
            dir,
            x0,
            y0,
            i,
        ) by {
            assert(reads_at(puzzle, word, dir, x0, y0, i));
        }
        assert(spells(letters, word, dir, x0, y0));
    }
    if hides(letters, word) {
        let (dir, x0, y0) = choose|dir: Direction, x0: int, y0: int|
            0 <= y0 < letters.len() && 0 <= x0 < letters[y0].len() && #[trigger] spells(
                letters,
                word,
                dir,
                x0,
                y0,
            );
        assert forall|i: int| 0 <= i < word.len() implies #[trigger] reads_at(
            puzzle,
            word,
            dir,
            x0,
            y0,
            i,
        ) by {
            assert(spells_at(letters, word, dir, x0, y0, i));
        }
        assert(reads(puzzle, word, dir, x0, y0));
    }
}


proof fn lemma_blank_row_counts(row: Seq<Option<char>>, n: int)
    requires
        0 <= n <= row.len(),
        forall|x: int| 0 <= x < row.len() ==> (#[trigger] row[x]) is None,
    ensures
        blanks_in(row, n) == n,
    decreases n,
{
    if n > 0 {
        lemma_blank_row_counts(row, n - 1);
    }
}

proof fn lemma_blank_rows_count(cells: Cells, width: int, n: int)
    requires
        blank(cells),
        0 <= n <= cells.len(),
        forall|y: int| 0 <= y < cells.len() ==> (#[trigger] cells[y]).len() == width,
    ensures
        blanks(cells, n) == n * width,
    decreases n,
{
    if n > 0 {
        lemma_blank_rows_count(cells, width, n - 1);
        let row = cells[n - 1];
        lemma_blank_row_counts(row, width);
        assert(n * width == (n - 1) * width + width) by (nonlinear_arith);
    } else {
        assert(n * width == 0) by (nonlinear_arith)
            requires
                n == 0,
        ;
    }
}

/// On a grid without letters every cell is empty: the first word gets as many attempts as
/// the grid has cells.
pub proof fn lemma_blank_grid_budget(cells: Cells, width: int, height: int)
    requires
        blank(cells),
        rectangular(cells, width, height),
    ensures
        empty_cells(cells) == width * height,
{
    lemma_blank_rows_count(cells, width, height);
    assert(height * width == width * height) by (nonlinear_arith);
}

} // verus!
