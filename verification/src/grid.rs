//! The rectangular table in which a batch of answers is returned: one row
//! per query, one column per neighbour, held in two-dimensional arrays of
//! ndarray.

use ndarray::{Array2, ShapeError};
use vstd::prelude::*;

verus! {

/// The error with which ndarray refuses a shape.
#[verifier::external_type_specification]
#[verifier::external_body]
pub struct ExShapeError(ShapeError);

/// A table of ids and a table of distances of one shape. The arrays are
/// ndarray's; what they hold is known through the four names below.
#[verifier::external_body]
pub struct AnswerTable {
    ids: Array2<i64>,
    distances: Array2<u32>,
}

/// The number of rows of the table.
pub uninterp spec fn table_rows(table: AnswerTable) -> nat;

/// The number of columns of the table.
pub uninterp spec fn table_cols(table: AnswerTable) -> nat;

/// The ids of the table, row after row, each row from its first column on.
pub uninterp spec fn table_ids(table: AnswerTable) -> Seq<i64>;

/// The distances of the table, row after row, each row from its first
/// column on.
pub uninterp spec fn table_distances(table: AnswerTable) -> Seq<u32>;

/// A table of `rows` by `cols` can be laid out, and `len` cells fill it
/// exactly: the product of the side lengths that are not zero does not exceed
/// `isize::MAX`, and `rows * cols` is `len`.
pub open spec fn fills(rows: usize, cols: usize, len: nat) -> bool {
    &&& (if rows == 0 {
        1
    } else {
        rows as int
    }) * (if cols == 0 {
        1
    } else {
        cols as int
    }) <= isize::MAX
    &&& rows * cols == len
}

/// Row `i` of cells that are laid out in rows of `cols` cells.
pub open spec fn row_of<T>(cells: Seq<T>, cols: nat, i: int) -> Seq<T> {
    cells.subrange(i * cols, (i + 1) * cols)
}

/// Lays ids and distances out as tables of `rows` by `cols`.
///
/// Calls `Array2::from_shape_vec` of ndarray with the shape `(rows, cols)`,
/// once for the ids and once for the distances. Relied on: a call succeeds
/// exactly when the shape can be laid out and the cells fill it, and the
/// array then has that shape and holds the cells row by row.
#[verifier::external_body]
pub(crate) fn lay_out(
    rows: usize,
    cols: usize,
    ids: Vec<i64>,
    distances: Vec<u32>,
) -> (r: Result<AnswerTable, ShapeError>)
    ensures
        r is Ok <==> (fills(rows, cols, ids@.len()) && fills(rows, cols, distances@.len())),
        r is Ok ==> table_rows(r->Ok_0) == rows,
        r is Ok ==> table_cols(r->Ok_0) == cols,
        r is Ok ==> table_ids(r->Ok_0) == ids@,
        r is Ok ==> table_distances(r->Ok_0) == distances@,
{
    let ids = Array2::from_shape_vec((rows, cols), ids)?;
    let distances = Array2::from_shape_vec((rows, cols), distances)?;
    Ok(AnswerTable { ids, distances })
}

/// Reads the shape of a table. Calls `dim` of ndarray on the array of ids.
#[verifier::external_body]
pub(crate) fn shape_of(table: &AnswerTable) -> (shape: (usize, usize))
    ensures
        shape.0 == table_rows(*table),
        shape.1 == table_cols(*table),
{
    table.ids.dim()
}

/// Copies the ids out of a table. Calls `iter` of ndarray, which visits the
/// cells row after row.
#[verifier::external_body]
pub(crate) fn ids_in(table: &AnswerTable) -> (ids: Vec<i64>)
    ensures
        ids@ == table_ids(*table),
{
    table.ids.iter().copied().collect()
}

/// Copies the distances out of a table. Calls `iter` of ndarray, which
/// visits the cells row after row.
#[verifier::external_body]
pub(crate) fn distances_in(table: &AnswerTable) -> (distances: Vec<u32>)
    ensures
        distances@ == table_distances(*table),
{
    table.distances.iter().copied().collect()
}

impl AnswerTable {
    /// The number of rows and of columns.
    pub fn shape(&self) -> (shape: (usize, usize))
        ensures
            shape.0 == table_rows(*self),
            shape.1 == table_cols(*self),
    {
        shape_of(self)
    }

    /// The ids, row after row.
    pub fn ids(&self) -> (ids: Vec<i64>)
        ensures
            ids@ == table_ids(*self),
    {
        ids_in(self)
    }

    /// The distances, row after row.
    pub fn distances(&self) -> (distances: Vec<u32>)
        ensures
            distances@ == table_distances(*self),
    {
        distances_in(self)
    }
}

} // verus!
