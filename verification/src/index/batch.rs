//! Answering a batch of queries as one table.

use rayon::prelude::{IntoParallelRefIterator, ParallelIterator};
use vstd::prelude::*;
use super::{all_fit, first_misfit_at, views, AnnIndex, Point};
use crate::errors::RustAnnError;
use crate::grid::{
    fills, lay_out, row_of, table_cols, table_distances, table_ids, table_rows, AnswerTable,
};
use crate::kernel::kernel_accepts;
use crate::metrics::Metric;

verus! {

/// Runs one search per query on the worker threads of rayon's pool.
///
/// Calls `par_iter`, `map` and `collect` of rayon on the queries. Relied on:
/// the closure is applied to each query once, and the results are collected
/// in the order of the queries.
#[verifier::external_body]
fn search_rows<K: Fn(Metric, &Point, &Point) -> u32 + Sync>(
    index: &AnnIndex,
    queries: &Vec<Point>,
    k: usize,
    kernel: &K,
) -> (rows: Vec<Result<(Vec<i64>, Vec<u32>), RustAnnError>>)
    requires
        index.wf(),
        kernel_accepts(kernel),
    ensures
        rows@.len() == queries@.len(),
        forall|i: int|
            0 <= i < queries@.len() ==> index.search_result(
                queries@[i],
                k,
                kernel,
                #[trigger] rows@[i],
            ),
{
    queries.par_iter().map(|query| index.search(query, k, kernel)).collect()
}

proof fn lemma_rows_end(i: int, rows: int, cols: int)
    requires
        0 <= i < rows,
        0 <= cols,
    ensures
        0 <= i * cols,
        i * cols + cols == (i + 1) * cols,
        (i + 1) * cols <= rows * cols,
{
    assert(i * cols + cols == (i + 1) * cols) by (nonlinear_arith);
    assert(0 <= i * cols) by (nonlinear_arith)
        requires
            0 <= i,
            0 <= cols,
    ;
    assert((i + 1) * cols <= rows * cols) by (nonlinear_arith)
        requires
            i + 1 <= rows,
            0 <= cols,
    ;
}

impl AnnIndex {
    /// What [`AnnIndex::search_batch`] returns: `DimensionMismatch` for the
    /// first query of the wrong length; otherwise `ReshapeError` where the
    /// answers do not fill a table of one row per query and `k` columns; and
    /// otherwise that table, whose row `i` is the answer to query `i`.
    pub open spec fn batch_result<K: Fn(Metric, &Point, &Point) -> u32>(
        &self,
        queries: Seq<Point>,
        k: usize,
        kernel: &K,
        r: Result<AnswerTable, RustAnnError>,
    ) -> bool {
        &&& forall|i: int|
            first_misfit_at(views(queries), self@.dim, i) ==> r == Err::<
                AnswerTable,
                RustAnnError,
            >(
                RustAnnError::DimensionMismatch {
                    expected: self@.dim,
                    found: queries[i].coords@.len() as usize,
                },
            )
        &&& all_fit(views(queries), self@.dim) && !fills(
            queries.len() as usize,
            k,
            (queries.len() * self.answer_len(k)) as nat,
        ) ==> r == Err::<AnswerTable, RustAnnError>(RustAnnError::ReshapeError)
        &&& all_fit(views(queries), self@.dim) && fills(
            queries.len() as usize,
            k,
            (queries.len() * self.answer_len(k)) as nat,
        ) ==> {
            &&& r is Ok
            &&& table_rows(r->Ok_0) == queries.len()
            &&& table_cols(r->Ok_0) == k
            &&& forall|i: int|
                0 <= i < queries.len() ==> self.is_answer(
                    #[trigger] queries[i],
                    k,
                    kernel,
                    (
                        row_of(table_ids(r->Ok_0), k as nat, i),
                        row_of(table_distances(r->Ok_0), k as nat, i),
                    ),
                )
        }
    }

    /// Answers every query of a batch and lays the answers out as a table of
    /// one row per query and `k` columns. The queries are searched
    /// independently of each other, in parallel.
    ///
    /// Fails with `DimensionMismatch` for the first query whose length is not
    /// the dimension of the index. Fails with `ReshapeError` when the answers
    /// do not fill the table, which is the case when there are queries and
    /// fewer than `k` entries are stored: rows are not padded.
    pub fn search_batch<K: Fn(Metric, &Point, &Point) -> u32 + Sync>(
        &self,
        queries: &Vec<Point>,
        k: usize,
        kernel: &K,
    ) -> (r: Result<AnswerTable, RustAnnError>)
        requires
            self.wf(),
            kernel_accepts(kernel),
        ensures
            self.batch_result(queries@, k, kernel, r),
    {
        let mut j: usize = 0;
        while j < queries.len()
            invariant
                j <= queries.len(),
                forall|i: int| 0 <= i < j ==> (#[trigger] queries@[i]).coords@.len() == self.dim,
            decreases queries.len() - j,
        {
            let found: usize = queries[j].coords.len();
            if found != self.dim {
                assert(first_misfit_at(views(queries@), self@.dim, j as int));
                assert forall|i: int|
                    first_misfit_at(views(queries@), self@.dim, i) implies i == j by {
                    if i < j {
                        assert(views(queries@)[i].coords.len() == self.dim);
                    } else if j < i {
                        assert(views(queries@)[j as int].coords.len() == self.dim);
                    }
                }
                assert(!all_fit(views(queries@), self@.dim)) by {
                    assert(views(queries@)[j as int].coords.len() != self.dim);
                }
                return Err(RustAnnError::DimensionMismatch { expected: self.dim, found });
            }
            j = j + 1;
        }
        assert(all_fit(views(queries@), self@.dim));
        assert forall|i: int| !first_misfit_at(views(queries@), self@.dim, i) by {
            if 0 <= i < queries@.len() {
                assert(views(queries@)[i].coords.len() == self.dim);
            }
        }
        let rows = search_rows(self, queries, k, kernel);
        let ghost per_row: int = self.answer_len(k);
        let ghost total: int = rows@.len() as int;
        let mut ids: Vec<i64> = Vec::new();
        let mut distances: Vec<u32> = Vec::new();
        let mut n: usize = 0;
        for row in it: rows.into_iter()
            invariant
                it.seq() == rows@,
                n == it.index(),
                total == rows@.len() == queries@.len(),
                total <= usize::MAX,
                per_row == self.answer_len(k),
                0 <= per_row,
                all_fit(views(queries@), self@.dim),
                forall|i: int|
                    0 <= i < queries@.len() ==> self.search_result(
                        queries@[i],
                        k,
                        kernel,
                        #[trigger] rows@[i],
                    ),
                ids@.len() == n * per_row,
                distances@.len() == n * per_row,
                forall|i: int|
                    0 <= i < n ==> self.is_answer(
                        #[trigger] queries@[i],
                        k,
                        kernel,
                        (row_of(ids@, per_row as nat, i), row_of(distances@, per_row as nat, i)),
                    ),
        {
            let ghost held_ids = ids@;
            let ghost held_distances = distances@;
            proof {
                assert(self.search_result(queries@[n as int], k, kernel, rows@[n as int]));
                assert(views(queries@)[n as int].coords.len() == self@.dim);
            }
            match row {
                Ok(found) => {
                    let (mut row_ids, mut row_distances) = found;
                    let ghost new_ids = row_ids@;
                    let ghost new_distances = row_distances@;
                    ids.append(&mut row_ids);
                    distances.append(&mut row_distances);
                    proof {
                        assert forall|i: int| 0 <= i < n + 1 implies self.is_answer(
                            #[trigger] queries@[i],
                            k,
                            kernel,
                            (
                                row_of(ids@, per_row as nat, i),
                                row_of(distances@, per_row as nat, i),
                            ),
                        ) by {
                            lemma_rows_end(i, n + 1, per_row);
                            if i < n {
                                lemma_rows_end(i, n as int, per_row);
                                assert(row_of(ids@, per_row as nat, i) =~= row_of(
                                    held_ids,
                                    per_row as nat,
                                    i,
                                ));
                                assert(row_of(distances@, per_row as nat, i) =~= row_of(
                                    held_distances,
                                    per_row as nat,
                                    i,
                                ));
                            } else {
                                assert(row_of(ids@, per_row as nat, i) =~= new_ids);
                                assert(row_of(distances@, per_row as nat, i) =~= new_distances);
                            }
                        }
                        lemma_rows_end(n as int, n + 1, per_row);
                    }
                },
                Err(e) => {
                    return Err(e);
                },
            }
            n = n + 1;
        }
        let count: usize = queries.len();
        match lay_out(count, k, ids, distances) {
            Ok(table) => {
                proof {
                    assert forall|i: int| 0 <= i < queries@.len() implies self.is_answer(
                        #[trigger] queries@[i],
                        k,
                        kernel,
                        (
                            row_of(table_ids(table), k as nat, i),
                            row_of(table_distances(table), k as nat, i),
                        ),
                    ) by {
                        assert(k == per_row) by (nonlinear_arith)
                            requires
                                count * k == count * per_row,
                                count > 0,
                        ;
                    }
                }
                Ok(table)
            },
            Err(_) => Err(RustAnnError::ReshapeError),
        }
    }
}

} // verus!
