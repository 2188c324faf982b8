//! Where the words of the key stand beneath the puzzle: in columns of equal width, filled
//! from the left, the leftmost columns one row taller where the words do not divide evenly.

use vstd::arithmetic::div_mod::{lemma_fundamental_div_mod, lemma_mod_pos_bound};
use vstd::prelude::*;

verus! {

/// The number of rows in column number `column` when `length` words are laid out in
/// `columns` columns.
pub open spec fn rows_in_column(length: int, columns: int, column: int) -> int {
    length / columns + if length % columns > column {
        1int
    } else {
        0int
    }
}

/// The positions in one column that starts at `x`: `rows` of them, `y_stride` apart.
pub open spec fn column_positions(x: int, y_stride: int, rows: int) -> Seq<(int, int)> {
    Seq::new(rows as nat, |row: int| (x, row * y_stride))
}

/// The positions in the first `n` columns, column after column.
pub open spec fn positions_upto(
    col_width: int,
    y_stride: int,
    columns: int,
    length: int,
    n: int,
) -> Seq<(int, int)>
    decreases n,
{
    if n <= 0 {
        Seq::empty()
    } else {
        positions_upto(col_width, y_stride, columns, length, n - 1) + column_positions(
            (n - 1) * col_width,
            y_stride,
            rows_in_column(length, columns, n - 1),
        )
    }
}

/// The positions `(x, y)` of `length` words in `columns` columns across `image_width`.
pub open spec fn positions(image_width: int, y_stride: int, columns: int, length: int) -> Seq<
    (int, int),
> {
    positions_upto(image_width / columns, y_stride, columns, length, columns)
}

/// The positions as mathematical integers.
pub open spec fn as_points(v: Seq<(i32, i32)>) -> Seq<(int, int)> {
    Seq::new(v.len(), |k: int| (v[k].0 as int, v[k].1 as int))
}

/// The first `n` columns hold `length / columns` words each, and one more in each column
/// that is among the first `length % columns`.
pub proof fn lemma_positions_upto_len(
    col_width: int,
    y_stride: int,
    columns: int,
    length: int,
    n: int,
)
    requires
        columns > 0,
        length >= 0,
        0 <= n <= columns,
    ensures
        positions_upto(col_width, y_stride, columns, length, n).len() == n * (length / columns)
            + if n <= length % columns {
            n
        } else {
            length % columns
        },
    decreases n,
{
    lemma_mod_pos_bound(length, columns);
    let q = length / columns;
    assert(q >= 0) by (nonlinear_arith)
        requires
            q == length / columns,
            length >= 0,
            columns > 0,
    ;
    if n > 0 {
        lemma_positions_upto_len(col_width, y_stride, columns, length, n - 1);
        assert(n * q == (n - 1) * q + q) by (nonlinear_arith);
    } else {
        assert(n * q == 0) by (nonlinear_arith)
            requires
                n == 0,
        ;
    }
}

/// Every word gets a position: there are as many positions as words.
pub proof fn lemma_positions_len(image_width: int, y_stride: int, columns: int, length: int)
    requires
        columns > 0,
        length >= 0,
    ensures
        positions(image_width, y_stride, columns, length).len() == length,
{
    lemma_positions_upto_len(image_width / columns, y_stride, columns, length, columns);
    lemma_fundamental_div_mod(length, columns);
    lemma_mod_pos_bound(length, columns);
}

/// Return the (X, Y) coordinates of `length` words in the specified number of columns.
///
/// The coordinates must fit the type they are handed out in: the image is no wider than
/// the largest `i32`, and the last row of the tallest column lies no lower than that.
pub fn column_iter(image_width: u32, y_stride: u32, num_columns: u32, length: usize) -> (result:
    Vec<(i32, i32)>)
    requires
        num_columns > 0,
        length <= u32::MAX,
        image_width <= i32::MAX,
        (rows_in_column(length as int, num_columns as int, 0) - 1) * y_stride <= i32::MAX,
    ensures
        result@.len() == length,
        as_points(result@) == positions(
            image_width as int,
            y_stride as int,
            num_columns as int,
            length as int,
        ),
{
    let mut result: Vec<(i32, i32)> = Vec::new();
    let col_width = image_width / num_columns;
    let words = length as u32;
    let mut column: u32 = 0;
    while column < num_columns
        invariant
            column <= num_columns,
            num_columns > 0,
            words == length,
            col_width == image_width / num_columns,
            image_width <= i32::MAX,
            (rows_in_column(length as int, num_columns as int, 0) - 1) * y_stride <= i32::MAX,
            as_points(result@) == positions_upto(
                col_width as int,
                y_stride as int,
                num_columns as int,
                length as int,
                column as int,
            ),
        decreases num_columns - column,
    {
        let mut num_rows = words / num_columns;
        if words % num_columns > column {
            assert(words / num_columns < u32::MAX) by (nonlinear_arith)
                requires
                    num_columns >= 2,
                    0 <= words <= u32::MAX,
            ;
            num_rows += 1;
        }
        proof {
            lemma_fundamental_div_mod(image_width as int, num_columns as int);
            lemma_mod_pos_bound(image_width as int, num_columns as int);
            lemma_mod_pos_bound(length as int, num_columns as int);
        }
        assert(column * col_width <= image_width) by (nonlinear_arith)
            requires
                0 <= column < num_columns,
                col_width == image_width / num_columns,
                image_width == num_columns * (image_width / num_columns) + image_width
                    % num_columns,
                image_width % num_columns >= 0,
        ;
        let x = column * col_width;
        let ghost before = as_points(result@);
        let mut row: u32 = 0;
        while row < num_rows
            invariant
                row <= num_rows,
                num_rows == rows_in_column(length as int, num_columns as int, column as int),
                num_rows <= rows_in_column(length as int, num_columns as int, 0),
                (rows_in_column(length as int, num_columns as int, 0) - 1) * y_stride <= i32::MAX,
                x == column * col_width,
                x <= i32::MAX,
                as_points(result@) == before + column_positions(
                    x as int,
                    y_stride as int,
                    row as int,
                ),
            decreases num_rows - row,
        {
            assert(row * y_stride <= i32::MAX) by (nonlinear_arith)
                requires
                    0 <= row <= rows_in_column(length as int, num_columns as int, 0) - 1,
                    0 <= y_stride,
                    (rows_in_column(length as int, num_columns as int, 0) - 1) * y_stride
                        <= i32::MAX,
            ;
            let ghost so_far = as_points(result@);
            result.push((x as i32, (row * y_stride) as i32));
            assert(as_points(result@) =~= so_far.push((x as int, row * y_stride)));
            row += 1;
        }
        column += 1;
    }
    proof {
        lemma_positions_len(image_width as int, y_stride as int, num_columns as int, length as int);
    }
    result
}

} // verus!
