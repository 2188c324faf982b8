//! The puzzle grid and the engine that places words on it.

use crate::cells::{
    accounted, blank, blanks, blanks_in, empty_cells, extends, fits, fits_at, full, hides, inside,
    is_filler, lemma_empty_cell_counts, lemma_extends_keeps_placed, lemma_extends_shrinks_budget,
    lemma_extends_transitive, lemma_fits_on_blank, lemma_hides_what_is_placed,
    lemma_legal_start_stays_inside, lemma_written, lemma_written_letters, lemma_written_step,
    occurs, placed, reads, rectangular, retry_limit, shift, solid, written, written_upto, Cells,
};
use crate::direction::{has_start, legal_start, Direction};
use crate::error::GridError;
use crate::random::{draw_index, draw_letter, shuffle_words};
use crate::sizing::{axis_size, default_size, dimensions, lemma_longest, longest, total_letters};
use rand::rngs::StdRng;
use std::ops::RangeInclusive;
use vstd::prelude::*;

verus! {

/// A grid of cells under construction, together with the words that are to be hidden in it.
pub struct Grid {
    wordlist: Vec<String>,
    width: usize,
    height: usize,
    grid: Vec<Vec<Option<char>>>,
}

/// Where a word has been placed: the cell of its first letter and the direction in which
/// it runs.
#[derive(Clone, Copy, Debug, PartialEq, Eq, Structural)]
pub struct Placement {
    pub dir: Direction,
    pub x: usize,
    pub y: usize,
}

/// The coordinate reached from `start` by `i` steps of `d`, if it lies on an axis of `size`
/// cells.
fn coordinate(start: usize, d: isize, i: usize, size: usize) -> (c: Option<usize>)
    ensures
        c is Some <==> 0 <= shift(start as int, d as int, i as int) < size,
        c matches Some(v) ==> v == shift(start as int, d as int, i as int),
{
    if d > 0 {
        if i < size && start < size - i {
            Some(start + i)
        } else {
            None
        }
    } else if d < 0 {
        if i <= start && start - i < size {
            Some(start - i)
        } else {
            None
        }
    } else {
        if start < size {
            Some(start)
        } else {
            None
        }
    }
}

impl Grid {
    /// The words that are to be hidden, each as its sequence of letters.
    pub closed spec fn words(&self) -> Seq<Seq<char>> {
        Seq::new(self.wordlist@.len(), |i: int| self.wordlist@[i]@)
    }

    /// The number of columns.
    pub closed spec fn spec_width(&self) -> usize {
        self.width
    }

    /// The number of rows.
    pub closed spec fn spec_height(&self) -> usize {
        self.height
    }

    /// The cells, row by row.
    pub closed spec fn cells(&self) -> Cells {
        Seq::new(self.grid@.len(), |y: int| self.grid@[y]@)
    }

    /// What holds of every grid: it has `height` rows of `width` cells, and no word of its
    /// list is longer than an axis.
    pub open spec fn wf(&self) -> bool {
        &&& rectangular(self.cells(), self.width() as int, self.height() as int)
        &&& forall|i: int|
            0 <= i < self.words().len() ==> (#[trigger] self.words()[i]).len() <= self.width()
                && self.words()[i].len() <= self.height()
    }

    /// Whether `word` fits at every legal starting cell of every direction, so that the
    /// first attempt to place it succeeds whatever is drawn.
    pub open spec fn every_start_fits(&self, word: Seq<char>) -> bool {
        &&& has_start(word.len() as int, self.width() as int, self.height() as int)
        &&& forall|dir: Direction, x0: int, y0: int|
            legal_start(dir, word.len() as int, self.width() as int, self.height() as int, x0, y0)
                ==> #[trigger] fits(self.cells(), word, dir, x0, y0)
    }

    /// How far `fill` has come when it stands before cell `(x, y)`: the cells before it,
    /// row by row, hold a letter, the old one where there was one and a filler elsewhere;
    /// the cells from it on are as they were.
    spec fn filled_upto(before: Cells, now: Cells, x: int, y: int) -> bool {
        forall|c: int, r: int|
            inside(before, c, r) ==> if r < y || (r == y && c < x) {
                match (#[trigger] now[r][c]) {
                    Some(l) => before[r][c] == Some(l) || (before[r][c] is None && is_filler(l)),
                    None => false,
                }
            } else {
                now[r][c] == before[r][c]
            }
    }

    /// The rows as they are stored have the shape that the model has.
    proof fn lemma_rows(&self)
        requires
            rectangular(self.cells(), self.width as int, self.height as int),
        ensures
            self.grid@.len() == self.height,
            forall|y: int| 0 <= y < self.height ==> (#[trigger] self.grid@[y])@.len() == self.width,
            forall|y: int| 0 <= y < self.height ==> (#[trigger] self.cells()[y]) == self.grid@[y]@,
    {
        assert forall|y: int| 0 <= y < self.height implies (#[trigger] self.grid@[y])@.len()
            == self.width by {
            assert(self.cells()[y].len() == self.width);
        }
    }

    /// The number of columns.
    #[verifier::when_used_as_spec(spec_width)]
    pub fn width(&self) -> (w: usize)
        ensures
            w == self.width(),
    {
        self.width
    }

    /// The number of rows.
    #[verifier::when_used_as_spec(spec_height)]
    pub fn height(&self) -> (h: usize)
        ensures
            h == self.height(),
    {
        self.height
    }

    /// The empty grid for a list of words, as large as `dimensions` says. A list without
    /// words has no grid.
    pub fn new(wordlist: Vec<String>, width: Option<usize>, height: Option<usize>) -> (r: Result<
        Grid,
        GridError,
    >)
        ensures
            r is Err <==> wordlist@.len() == 0,
            r matches Err(e) ==> e == GridError::EmptyWordList,
            r matches Ok(grid) ==> {
                let letters = wordlist.deep_view();
                let default = default_size(total_letters(letters));
                &&& grid.wf()
                &&& grid.words() == letters
                &&& blank(grid.cells())
                &&& grid.width() == axis_size(longest(letters), width, default)
                &&& grid.height() == axis_size(longest(letters), height, default)
                &&& grid.width() >= longest(letters)
                &&& grid.height() >= longest(letters)
                &&& width matches Some(asked) ==> grid.width() >= asked
                &&& height matches Some(asked) ==> grid.height() >= asked
            },
    {
        let (w, h) = match dimensions(&wordlist, width, height) {
            Ok(size) => size,
            Err(e) => {
                return Err(e);
            },
        };
        let grid: Vec<Vec<Option<char>>> = vec![vec![None; w]; h];
        let made = Grid { wordlist, width: w, height: h, grid };
        proof {
            lemma_longest(made.words());
            assert(made.words() =~= wordlist.deep_view());
        }
        Ok(made)
    }

    /// The letter in column `x` of row `y`, if there is such a cell and it holds one.
    pub fn get(&self, x: usize, y: usize) -> (cell: Option<char>)
        requires
            self.wf(),
        ensures
            cell == if inside(self.cells(), x as int, y as int) {
                self.cells()[y as int][x as int]
            } else {
                None
            },
    {
        proof {
            self.lemma_rows();
        }
        if y < self.height && x < self.width {
            self.grid[y][x]
        } else {
            None
        }
    }

    /// Try to place the word into the grid, starting at `(x0, y0)` and running in direction
    /// `dir`. The word is placed if and only if it fits; a word that does not fit leaves
    /// the grid as it was.
    pub fn try_word(&mut self, word: &str, dir: Direction, x0: usize, y0: usize) -> (done: bool)
        requires
            old(self).wf(),
        ensures
            final(self).wf(),
            final(self).words() == old(self).words(),
            final(self).width() == old(self).width(),
            final(self).height() == old(self).height(),
            done == fits(old(self).cells(), word@, dir, x0 as int, y0 as int),
            done ==> final(self).cells() == written(
                old(self).cells(),
                word@,
                dir,
                x0 as int,
                y0 as int,
            ),
            done ==> reads(final(self).cells(), word@, dir, x0 as int, y0 as int),
            !done ==> final(self).cells() == old(self).cells(),
            extends(old(self).cells(), final(self).cells()),
    {
        let ghost before = self.cells();
        let len = word.unicode_len();
        let (dx, dy) = dir.next();
        // First check that it fits, so that a failed attempt writes nothing.
        let mut i: usize = 0;
        for letter in it: word.chars()
            invariant
                it.seq() == word@,
                i == it.index(),
                len == word@.len(),
                dx == dir.dx(),
                dy == dir.dy(),
                *self == *old(self),
                self.wf(),
                before == self.cells(),
                forall|k: int|
                    0 <= k < i ==> #[trigger] fits_at(before, word@, dir, x0 as int, y0 as int, k),
        {
            proof {
                self.lemma_rows();
            }
            let x = coordinate(x0, dx, i, self.width);
            let y = coordinate(y0, dy, i, self.height);
            let free = match (x, y) {
                (Some(x), Some(y)) => match self.grid[y][x] {
                    None => true,
                    Some(c) => c == letter,
                },
                _ => false,
            };
            if !free {
                assert(!fits_at(before, word@, dir, x0 as int, y0 as int, i as int));
                return false;
            }
            i = i + 1;
        }
        // It fits, so now actually place it.
        assert(self.cells() =~~= written_upto(before, word@, dir, x0 as int, y0 as int, 0));
        let mut k: usize = 0;
        for letter in it: word.chars()
            invariant
                it.seq() == word@,
                k == it.index(),
                len == word@.len(),
                dx == dir.dx(),
                dy == dir.dy(),
                self.wordlist == old(self).wordlist,
                self.width == old(self).width,
                self.height == old(self).height,
                rectangular(before, self.width as int, self.height as int),
                rectangular(self.cells(), self.width as int, self.height as int),
                fits(before, word@, dir, x0 as int, y0 as int),
                self.cells() == written_upto(before, word@, dir, x0 as int, y0 as int, k as int),
        {
            proof {
                assert(fits_at(before, word@, dir, x0 as int, y0 as int, k as int));
                self.lemma_rows();
            }
            let x = coordinate(x0, dx, k, self.width).unwrap();
            let y = coordinate(y0, dy, k, self.height).unwrap();
            self.grid[y][x] = Some(letter);
            proof {
                lemma_written_step(before, word@, dir, x0 as int, y0 as int, k as int);
            }
            k = k + 1;
        }
        proof {
            assert(forall|w: int|
                0 <= w < self.words().len() ==> self.words()[w] == old(self).words()[w]);
            lemma_written(before, word@, dir, x0 as int, y0 as int);
        }
        true
    }

    /// Return the number of empty cells remaining, which is the number of attempts that
    /// the next word gets.
    pub fn empty_count(&self) -> (n: usize)
        requires
            self.wf(),
        ensures
            n == retry_limit(self.cells()),
    {
        let mut n: usize = 0;
        let ghost mut seen: nat = 0;
        proof {
            self.lemma_rows();
        }
        for y in 0..self.height
            invariant
                self.wf(),
                self.grid@.len() == self.height,
                seen == blanks(self.cells(), y as int),
                n == seen || (n == usize::MAX && seen > usize::MAX),
        {
            let ghost mut in_row: nat = 0;
            proof {
                self.lemma_rows();
            }
            for x in 0..self.width
                invariant
                    self.wf(),
                    y < self.height,
                    self.grid@.len() == self.height,
                    self.grid@[y as int]@.len() == self.width,
                    self.cells()[y as int] == self.grid@[y as int]@,
                    seen == blanks(self.cells(), y as int),
                    in_row == blanks_in(self.cells()[y as int], x as int),
                    n == seen + in_row || (n == usize::MAX && seen + in_row > usize::MAX),
            {
                if self.grid[y][x].is_none() {
                    if n < usize::MAX {
                        n = n + 1;
                    }
                    proof {
                        in_row = in_row + 1;
                    }
                }
            }
            proof {
                seen = seen + in_row;
            }
        }
        n
    }

    /// Place one word: up to as many times as the grid has empty cells, draw a direction
    /// and one of its legal starting cells, and write the word there if it fits. The first
    /// attempt that fits ends the search and is handed back.
    ///
    /// A direction that has no legal start for the word counts as a failed attempt. When
    /// every attempt has failed the grid is as it was, and the failure names the word and
    /// the number of attempts.
    pub fn place_word(&mut self, word: &str, rng: &mut StdRng) -> (r: Result<Placement, GridError>)
        requires
            old(self).wf(),
        ensures
            final(self).wf(),
            final(self).words() == old(self).words(),
            final(self).width() == old(self).width(),
            final(self).height() == old(self).height(),
            extends(old(self).cells(), final(self).cells()),
            r matches Ok(at) ==> {
                &&& legal_start(
                    at.dir,
                    word@.len() as int,
                    old(self).width() as int,
                    old(self).height() as int,
                    at.x as int,
                    at.y as int,
                )
                &&& fits(old(self).cells(), word@, at.dir, at.x as int, at.y as int)
                &&& final(self).cells() == written(
                    old(self).cells(),
                    word@,
                    at.dir,
                    at.x as int,
                    at.y as int,
                )
                &&& reads(final(self).cells(), word@, at.dir, at.x as int, at.y as int)
                &&& placed(final(self).cells(), word@)
            },
            r matches Err(e) ==> {
                &&& final(self).cells() == old(self).cells()
                &&& e matches GridError::PlacementExhausted { word: w, attempts }
                &&& w@ == word@
                &&& attempts == retry_limit(old(self).cells())
            },
            !has_start(word@.len() as int, old(self).width() as int, old(self).height() as int)
                ==> r is Err,
            empty_cells(old(self).cells()) == 0 ==> r is Err,
            old(self).every_start_fits(word@) && empty_cells(old(self).cells()) > 0 ==> r is Ok,
    {
        let budget = self.empty_count();
        let len = word.unicode_len();
        let mut attempt: usize = 0;
        while attempt < budget
            invariant
                self.wf(),
                self.cells() == old(self).cells(),
                self.words() == old(self).words(),
                self.width == old(self).width,
                self.height == old(self).height,
                len == word@.len(),
                attempt <= budget,
                budget == retry_limit(self.cells()),
                self.every_start_fits(word@) ==> attempt == 0,
            decreases budget - attempt,
        {
            let number = draw_index(rng, RangeInclusive::new(0, 7));
            let dir = Direction::from_index(number).unwrap();
            match dir.ranges(len, self.width, self.height) {
                Ok((xs, ys)) => {
                    let x = draw_index(rng, xs);
                    let y = draw_index(rng, ys);
                    if self.try_word(word, dir, x, y) {
                        proof {
                            lemma_legal_start_stays_inside(
                                dir,
                                len as int,
                                self.width as int,
                                self.height as int,
                                x as int,
                                y as int,
                                0,
                            );
                        }
                        return Ok(Placement { dir, x, y });
                    }
                },
                Err(_) => {},
            }
            attempt = attempt + 1;
        }
        Err(GridError::PlacementExhausted { word: word.to_owned(), attempts: budget })
    }

    /// Finish the grid by filling in random letters in all the blank spaces. Cells that
    /// hold a letter keep it.
    pub fn fill(&mut self, rng: &mut StdRng)
        requires
            old(self).wf(),
        ensures
            final(self).wf(),
            final(self).words() == old(self).words(),
            final(self).width() == old(self).width(),
            final(self).height() == old(self).height(),
            extends(old(self).cells(), final(self).cells()),
            full(final(self).cells()),
            forall|x: int, y: int|
                inside(old(self).cells(), x, y) && old(self).cells()[y][x] is None ==> is_filler(
                    (#[trigger] final(self).cells()[y][x])->0,
                ),
    {
        let ghost before = self.cells();
        let width = self.width;
        let height = self.height;
        let mut y: usize = 0;
        while y < height
            invariant
                y <= height,
                self.wordlist == old(self).wordlist,
                self.width == width,
                self.height == height,
                rectangular(before, width as int, height as int),
                rectangular(self.cells(), width as int, height as int),
                Self::filled_upto(before, self.cells(), 0, y as int),
            decreases height - y,
        {
            let mut x: usize = 0;
            while x < width
                invariant
                    y < height,
                    x <= width,
                    self.wordlist == old(self).wordlist,
                    self.width == width,
                    self.height == height,
                    rectangular(before, width as int, height as int),
                    rectangular(self.cells(), width as int, height as int),
                    Self::filled_upto(before, self.cells(), x as int, y as int),
                decreases width - x,
            {
                proof {
                    self.lemma_rows();
                }
                if self.grid[y][x].is_none() {
                    let letter = draw_letter(rng, RangeInclusive::new('A', 'Z'));
                    let ghost mid = self.cells();
                    self.grid[y][x] = Some(letter);
                    assert(self.cells() =~= mid.update(
                        y as int,
                        mid[y as int].update(x as int, Some(letter)),
                    ));
                }
                x = x + 1;
            }
            y = y + 1;
        }
        proof {
            assert(forall|w: int|
                0 <= w < self.words().len() ==> self.words()[w] == old(self).words()[w]);
        }
    }

    /// Make the puzzle: shuffle the words, place them one after the other, fill the cells
    /// that are left, and hand out the rows of letters.
    ///
    /// The first word that cannot be placed ends the run; words placed before it are not
    /// moved to make room.
    pub fn generate(self, rng: &mut StdRng) -> (r: Result<Vec<Vec<char>>, GridError>)
        requires
            self.wf(),
        ensures
            r matches Ok(rows) ==> {
                let puzzle = solid(rows.deep_view());
                &&& rectangular(puzzle, self.width() as int, self.height() as int)
                &&& extends(self.cells(), puzzle)
                &&& forall|i: int|
                    0 <= i < self.words().len() ==> hides(
                        rows.deep_view(),
                        #[trigger] self.words()[i],
                    )
                &&& accounted(self.cells(), puzzle, self.words(), true)
            },
            r matches Err(e) ==> {
                &&& e matches GridError::PlacementExhausted { word, attempts }
                &&& self.words().contains(word@)
                &&& attempts <= retry_limit(self.cells())
                &&& exists|reached: Cells|
                    #![trigger retry_limit(reached)]
                    {
                        &&& extends(self.cells(), reached)
                        &&& accounted(self.cells(), reached, self.words(), false)
                        &&& attempts == retry_limit(reached)
                    }
            },
            self.words().len() == 0 ==> r is Ok,
            (exists|i: int| 0 <= i < self.words().len() && (#[trigger] self.words()[i]).len() == 0)
                ==> r is Err,
            self.words().len() == 1 && self.words()[0].len() > 0 && blank(self.cells()) ==> r is Ok,
    {
        let ghost entry = self.cells();
        let ghost entry_words = self.words();
        let ghost entry_list = self.wordlist@;
        let mut grid = self;
        shuffle_words(rng, &mut grid.wordlist);
        let ghost words = grid.words();
        proof {
            entry_list.to_multiset_ensures();
            grid.wordlist@.to_multiset_ensures();
            assert forall|i: int| 0 <= i < words.len() implies entry_words.contains(
                #[trigger] words[i],
            ) by {
                let word = grid.wordlist@[i];
                assert(entry_list.to_multiset().count(word) > 0);
                let j = choose|j: int| 0 <= j < entry_list.len() && entry_list[j] == word;
                assert(entry_words[j] == words[i]);
            }
            assert forall|j: int| 0 <= j < entry_words.len() implies words.contains(
                #[trigger] entry_words[j],
            ) by {
                let word = entry_list[j];
                assert(grid.wordlist@.to_multiset().count(word) > 0);
                let i = choose|i: int| 0 <= i < grid.wordlist@.len() && grid.wordlist@[i] == word;
                assert(words[i] == entry_words[j]);
            }
        }
        let count = grid.wordlist.len();
        let mut i: usize = 0;
        while i < count
            invariant
                i <= count,
                count == words.len(),
                grid.wf(),
                grid.words() == words,
                grid.width() == self.width(),
                grid.height() == self.height(),
                entry == self.cells(),
                entry_words == self.words(),
                extends(entry, grid.cells()),
                i == 0 ==> grid.cells() == entry,
                forall|k: int| 0 <= k < i ==> placed(grid.cells(), #[trigger] words[k]),
                forall|k: int| 0 <= k < i ==> (#[trigger] words[k]).len() > 0,
                accounted(entry, grid.cells(), words, false),
                forall|k: int| 0 <= k < words.len() ==> entry_words.contains(#[trigger] words[k]),
                forall|j: int|
                    0 <= j < entry_words.len() ==> words.contains(#[trigger] entry_words[j]),
                entry_words.len() == 1 ==> words.len() == 1 && words[0] == entry_words[0],
            decreases count - i,
        {
            let word = grid.wordlist[i].clone();
            let ghost before = grid.cells();
            assert(word@ == words[i as int]);
            proof {
                lemma_extends_shrinks_budget(entry, before);
                if entry_words.len() == 1 && entry_words[0].len() > 0 && blank(entry) {
                    // The one word meets an empty grid: it fits wherever it may start.
                    assert forall|dir: Direction, x0: int, y0: int|
                        legal_start(
                            dir,
                            word@.len() as int,
                            grid.width() as int,
                            grid.height() as int,
                            x0,
                            y0,
                        ) implies #[trigger] fits(before, word@, dir, x0, y0) by {
                        lemma_fits_on_blank(before, word@, dir, x0, y0);
                    }
                    lemma_empty_cell_counts(before, 0, 0);
                }
            }
            match grid.place_word(word.as_str(), rng) {
                Ok(at) => {
                    proof {
                        let after = grid.cells();
                        let (dir, x0, y0) = (at.dir, at.x as int, at.y as int);
                        lemma_written(before, word@, dir, x0, y0);
                        lemma_extends_transitive(entry, before, after);
                        assert forall|k: int| 0 <= k < i implies placed(
                            after,
                            #[trigger] words[k],
                        ) by {
                            lemma_extends_keeps_placed(before, after, words[k]);
                        }
                        assert forall|x: int, y: int| inside(after, x, y) implies match (
                        #[trigger] after[y][x]) {
                            Some(c) => entry[y][x] == Some(c) || occurs(words, c),
                            None => true,
                        } by {
                            lemma_written_letters(before, word@, dir, x0, y0, x, y);
                        }
                    }
                },
                Err(e) => {
                    proof {
                        assert(e->attempts == retry_limit(before));
                    }
                    return Err(e);
                },
            }
            i = i + 1;
        }
        let ghost placed_cells = grid.cells();
        grid.fill(rng);
        let ghost cells = grid.cells();
        proof {
            lemma_extends_transitive(entry, placed_cells, cells);
            assert forall|k: int| 0 <= k < words.len() implies placed(
                cells,
                #[trigger] words[k],
            ) by {
                lemma_extends_keeps_placed(placed_cells, cells, words[k]);
            }
            grid.lemma_rows();
        }
        let mut rows: Vec<Vec<char>> = Vec::new();
        let mut y: usize = 0;
        while y < grid.height
            invariant
                y <= grid.height,
                grid.wf(),
                cells == grid.cells(),
                full(cells),
                grid.grid@.len() == grid.height,
                rows@.len() == y,
                forall|r: int| 0 <= r < y ==> (#[trigger] rows@[r])@.len() == grid.width,
                forall|r: int, c: int|
                    0 <= r < y && 0 <= c < grid.width ==> cells[r][c] == Some(
                        #[trigger] rows@[r]@[c],
                    ),
            decreases grid.height - y,
        {
            let mut row: Vec<char> = Vec::new();
            let mut x: usize = 0;
            proof {
                grid.lemma_rows();
            }
            while x < grid.width
                invariant
                    y < grid.height,
                    x <= grid.width,
                    grid.wf(),
                    cells == grid.cells(),
                    full(cells),
                    grid.grid@.len() == grid.height,
                    grid.grid@[y as int]@.len() == grid.width,
                    cells[y as int] == grid.grid@[y as int]@,
                    row@.len() == x,
                    forall|c: int| 0 <= c < x ==> cells[y as int][c] == Some(#[trigger] row@[c]),
                decreases grid.width - x,
            {
                let letter = grid.grid[y][x].unwrap();
                row.push(letter);
                x = x + 1;
            }
            rows.push(row);
            y = y + 1;
        }
        proof {
            let puzzle = solid(rows.deep_view());
            assert(puzzle =~~= cells);
            assert forall|j: int| 0 <= j < entry_words.len() implies hides(
                rows.deep_view(),
                #[trigger] entry_words[j],
            ) by {
                lemma_hides_what_is_placed(rows.deep_view(), entry_words[j]);
            }
            assert forall|x: int, y: int| inside(puzzle, x, y) implies match (
            #[trigger] puzzle[y][x]) {
                Some(c) => entry[y][x] == Some(c) || occurs(entry_words, c) || is_filler(c),
                None => true,
            } by {
                assert(inside(placed_cells, x, y));
            }
        }
        Ok(rows)
    }
}

} // verus!
