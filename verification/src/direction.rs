//! The eight compass directions and the starting cells that each of them admits.

use crate::error::GridError;
use std::ops::RangeInclusive;
use vstd::prelude::*;

verus! {

/// One of the eight unit steps on the grid. `x` grows to the east and `y` grows to the south.
#[derive(Clone, Copy, Debug, PartialEq, Eq, Structural)]
pub enum Direction {
    East,
    Southeast,
    South,
    Southwest,
    West,
    Northwest,
    North,
    Northeast,
}

/// Whether a word of `len` letters has a legal starting cell on a `width` × `height` grid:
/// it has at least one letter and is no longer than either axis.
pub open spec fn has_start(len: int, width: int, height: int) -> bool {
    1 <= len <= width && len <= height
}

/// The smallest legal starting coordinate on an axis along which the step is `d`.
pub open spec fn lowest_start(d: int, len: int) -> int {
    if d < 0 {
        len - 1
    } else {
        0
    }
}

/// The largest legal starting coordinate on an axis of `size` cells along which the step is `d`.
pub open spec fn highest_start(d: int, len: int, size: int) -> int {
    if d < 0 {
        size - 1
    } else {
        size - len
    }
}

/// Whether `(x, y)` is a legal starting cell for a word of `len` letters that runs in
/// direction `dir` on a `width` × `height` grid.
pub open spec fn legal_start(
    dir: Direction,
    len: int,
    width: int,
    height: int,
    x: int,
    y: int,
) -> bool {
    &&& has_start(len, width, height)
    &&& lowest_start(dir.dx(), len) <= x <= highest_start(dir.dx(), len, width)
    &&& lowest_start(dir.dy(), len) <= y <= highest_start(dir.dy(), len, height)
}

impl Direction {
    /// The step `(dx, dy)` that leads from one letter of a word to the next.
    pub open spec fn step(self) -> (int, int) {
        match self {
            Direction::East => (1, 0),
            Direction::Southeast => (1, 1),
            Direction::South => (0, 1),
            Direction::Southwest => (-1, 1),
            Direction::West => (-1, 0),
            Direction::Northwest => (-1, -1),
            Direction::North => (0, -1),
            Direction::Northeast => (1, -1),
        }
    }

    /// The horizontal part of the step.
    pub open spec fn dx(self) -> int {
        self.step().0
    }

    /// The vertical part of the step.
    pub open spec fn dy(self) -> int {
        self.step().1
    }

    /// The direction with the given number, counted clockwise from east on a map whose
    /// north is up.
    pub open spec fn numbered(index: int) -> Option<Direction> {
        if index == 0 {
            Some(Direction::East)
        } else if index == 1 {
            Some(Direction::Southeast)
        } else if index == 2 {
            Some(Direction::South)
        } else if index == 3 {
            Some(Direction::Southwest)
        } else if index == 4 {
            Some(Direction::West)
        } else if index == 5 {
            Some(Direction::Northwest)
        } else if index == 6 {
            Some(Direction::North)
        } else if index == 7 {
            Some(Direction::Northeast)
        } else {
            None
        }
    }

    /// Return the next position after the current one, in (dx, dy) form.
    pub fn next(&self) -> (d: (isize, isize))
        ensures
            d.0 == self.dx(),
            d.1 == self.dy(),
    {
        match self {
            Direction::East => (1, 0),
            Direction::Southeast => (1, 1),
            Direction::South => (0, 1),
            Direction::Southwest => (-1, 1),
            Direction::West => (-1, 0),
            Direction::Northwest => (-1, -1),
            Direction::North => (0, -1),
            Direction::Northeast => (1, -1),
        }
    }

    /// The direction with the given number, if the number is below eight.
    pub fn from_index(index: usize) -> (dir: Option<Direction>)
        ensures
            dir == Direction::numbered(index as int),
            dir is Some <==> index < 8,
    {
        match index {
            0 => Some(Direction::East),
            1 => Some(Direction::Southeast),
            2 => Some(Direction::South),
            3 => Some(Direction::Southwest),
            4 => Some(Direction::West),
            5 => Some(Direction::Northwest),
            6 => Some(Direction::North),
            7 => Some(Direction::Northeast),
            _ => None,
        }
    }

    /// Return the allowable starting positions for a word of length len: the range of `x`
    /// and the range of `y`, both ends included.
    ///
    /// Where the step along an axis is negative the word needs `len - 1` cells before its
    /// start; elsewhere it needs `len` cells from its start on, also on an axis along which
    /// it does not move. A word without letters, or one longer than an axis, has no legal
    /// start and is reported instead of being given a range that wraps around.
    pub fn ranges(&self, len: usize, width: usize, height: usize) -> (r: Result<
        (RangeInclusive<usize>, RangeInclusive<usize>),
        GridError,
    >)
        ensures
            r is Ok <==> has_start(len as int, width as int, height as int),
            r matches Ok((xs, ys)) ==> {
                &&& !xs@.exhausted
                &&& xs@.start == lowest_start(self.dx(), len as int)
                &&& xs@.end == highest_start(self.dx(), len as int, width as int)
                &&& !ys@.exhausted
                &&& ys@.start == lowest_start(self.dy(), len as int)
                &&& ys@.end == highest_start(self.dy(), len as int, height as int)
            },
            r matches Err(e) ==> e == (GridError::InvalidDimension { len, width, height }),
    {
        if len == 0 || len > width || len > height {
            return Err(GridError::InvalidDimension { len, width, height });
        }
        let (dx, dy) = self.next();
        let (xmin, xmax) = if dx < 0 {
            (len - 1, width - 1)
        } else {
            (0, width - len)
        };
        let (ymin, ymax) = if dy < 0 {
            (len - 1, height - 1)
        } else {
            (0, height - len)
        };
        Ok((RangeInclusive::new(xmin, xmax), RangeInclusive::new(ymin, ymax)))
    }
}

} // verus!
