//! The dynamic-programming table of the subsequence computation, held in an
//! `array2d::Array2D<i32>`.

use vstd::prelude::*;
use array2d::Array2D;

verus! {

/// Declaration of `array2d::Array2D`, whose contents Verus sees only through
/// `table_rows`.
#[verifier::external_type_specification]
#[verifier::external_body]
#[verifier::reject_recursive_types(T)]
pub struct ExArray2D<T>(Array2D<T>);

/// What an `Array2D<i32>` holds, row by row: entry `[r][c]` is the element at
/// row `r` and column `c`.
pub uninterp spec fn table_rows(t: Array2D<i32>) -> Seq<Seq<i32>>;

/// True when `rows` is a grid of `num_rows` rows of `num_columns` entries.
pub open spec fn is_grid(rows: Seq<Seq<i32>>, num_rows: int, num_columns: int) -> bool {
    &&& rows.len() == num_rows
    &&& forall|r: int| 0 <= r < num_rows ==> #[trigger] rows[r].len() == num_columns
}

/// Calls `Array2D::filled_with(value, num_rows, num_columns)`.
/// The crate's source builds `vec![value; num_rows * num_columns]` and reads it
/// in row-major order, so every entry of the new grid is `value`. The product
/// and the allocation must fit the machine, which the `requires` states.
#[verifier::external_body]
pub(crate) fn table_filled(value: i32, num_rows: usize, num_columns: usize) -> (t: Array2D<i32>)
    requires
        num_rows * num_columns * 4 <= isize::MAX,
    ensures
        is_grid(table_rows(t), num_rows as int, num_columns as int),
        forall|r: int, c: int|
            0 <= r < num_rows && 0 <= c < num_columns ==> #[trigger] table_rows(t)[r][c] == value,
{
    Array2D::filled_with(value, num_rows, num_columns)
}

/// Reads `t[(row, column)]` through `Array2D`'s `Index` impl, which returns the
/// element at that row and column and panics out of bounds (left out by the
/// `requires`).
#[verifier::external_body]
pub(crate) fn table_get(t: &Array2D<i32>, row: usize, column: usize) -> (v: i32)
    requires
        row < table_rows(*t).len(),
        column < table_rows(*t)[row as int].len(),
    ensures
        v == table_rows(*t)[row as int][column as int],
{
    t[(row, column)]
}

/// Writes `t[(row, column)] = value` through `Array2D`'s `IndexMut` impl, which
/// changes that one element and panics out of bounds (left out by the
/// `requires`).
#[verifier::external_body]
pub(crate) fn table_set(t: &mut Array2D<i32>, row: usize, column: usize, value: i32)
    requires
        row < table_rows(*old(t)).len(),
        column < table_rows(*old(t))[row as int].len(),
    ensures
        table_rows(*final(t)) == table_rows(*old(t)).update(
            row as int,
            table_rows(*old(t))[row as int].update(column as int, value),
        ),
{
    t[(row, column)] = value;
}

} // verus!
