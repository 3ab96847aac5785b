//! Answering one query, with or without a filter on the ids.

use vstd::prelude::*;
use super::{AnnIndex, Point};
use crate::errors::RustAnnError;
use crate::kernel::{
    filter_accepts, filtered_by, kept, kernel_accepts, lemma_kept_len, lemma_kept_member,
    lemma_kept_push, score_all, score_entry, scored_by,
};
use crate::metrics::{metric_in_force, resolve_metric, Metric};
use crate::rank::{ascending, ids_of, nearest, picked, scores_of, top_k};

verus! {

/// `found` is the answer to a query for the `k` nearest among candidates
/// with the given ids and distances: the ids and the distances of the ranking
/// of the distances, position by position.
pub open spec fn answers(scored: Seq<(i64, u32)>, k: int, found: (Seq<i64>, Seq<u32>)) -> bool {
    &&& found.0 == picked(ids_of(scored), nearest(scores_of(scored), k))
    &&& found.1 == picked(scores_of(scored), nearest(scores_of(scored), k))
}

/// The answer is a function of the candidates and of `k`: two searches that
/// get the same distances for the same entries return the same ids and the
/// same distances, in the same order.
pub proof fn lemma_same_distances_same_answer(
    scored: Seq<(i64, u32)>,
    k: int,
    first: (Seq<i64>, Seq<u32>),
    second: (Seq<i64>, Seq<u32>),
)
    requires
        answers(scored, k, first),
        answers(scored, k, second),
    ensures
        first == second,
{
}

impl AnnIndex {
    /// What [`AnnIndex::search`] returns for a query: `DimensionMismatch` for
    /// a query of the wrong length, and otherwise the answer for distances
    /// that the kernel returned for the stored entries.
    pub open spec fn search_result<K: Fn(Metric, &Point, &Point) -> u32>(
        &self,
        query: Point,
        k: usize,
        kernel: &K,
        r: Result<(Vec<i64>, Vec<u32>), RustAnnError>,
    ) -> bool {
        if query.coords@.len() != self@.dim {
            r == Err::<(Vec<i64>, Vec<u32>), RustAnnError>(
                RustAnnError::DimensionMismatch {
                    expected: self@.dim,
                    found: query.coords@.len() as usize,
                },
            )
        } else {
            &&& r is Ok
            &&& self.is_answer(query, k, kernel, (r->Ok_0.0@, r->Ok_0.1@))
        }
    }

    /// `found` holds the ids and the distances of the `k` entries nearest to
    /// `query`, nearest first, for distances that the kernel returned for
    /// the stored entries: as many as `k`, or as are stored where that is
    /// fewer, and in ascending order of distance.
    pub open spec fn is_answer<K: Fn(Metric, &Point, &Point) -> u32>(
        &self,
        query: Point,
        k: usize,
        kernel: &K,
        found: (Seq<i64>, Seq<u32>),
    ) -> bool {
        &&& exists|scored: Seq<(i64, u32)>|
            scored_by(
                kernel,
                metric_in_force(self@.metric, self@.minkowski_p),
                query,
                self.stored(),
                scored,
            ) && #[trigger] answers(scored, k as int, found)
        &&& found.0.len() == found.1.len()
        &&& found.0.len() == self.answer_len(k)
        &&& ascending(found.1)
    }

    /// How many neighbours a query for `k` gets: `k`, or all stored entries
    /// where fewer than `k` are stored.
    pub open spec fn answer_len(&self, k: usize) -> int {
        if k <= self@.entries.len() {
            k as int
        } else {
            self@.entries.len() as int
        }
    }

    /// Finds the `k` entries nearest to `query` and returns their ids and
    /// their distances, nearest first; all entries where fewer than `k` are
    /// stored, and nothing for `k == 0`. Entries at equal distance come in
    /// stored order, and entries whose distance is no number come last.
    ///
    /// Fails with `DimensionMismatch` when the query has not the dimension of
    /// the index; the kernel is then not called.
    pub fn search<K: Fn(Metric, &Point, &Point) -> u32 + Sync>(
        &self,
        query: &Point,
        k: usize,
        kernel: &K,
    ) -> (r: Result<(Vec<i64>, Vec<u32>), RustAnnError>)
        requires
            self.wf(),
            kernel_accepts(kernel),
        ensures
            self.search_result(*query, k, kernel, r),
    {
        let found: usize = query.coords.len();
        if found != self.dim {
            return Err(RustAnnError::DimensionMismatch { expected: self.dim, found });
        }
        let metric = resolve_metric(self.metric, self.minkowski_p);
        proof {
            assert forall|i: int| 0 <= i < self.entries@.len() implies call_requires(
                *kernel,
                (metric, query, &(#[trigger] self.entries@[i]).point),
            ) by {
                assert(self@.entries[i].point.coords.len() == self.dim);
            }
        }
        let scored = score_all(kernel, metric, query, &self.entries);
        let found = top_k(&scored, k);
        let r: Result<(Vec<i64>, Vec<u32>), RustAnnError> = Ok(found);
        proof {
            assert(scored_by(
                kernel,
                metric_in_force(self@.metric, self@.minkowski_p),
                *query,
                self.stored(),
                scored@,
            ));
            assert(answers(scored@, k as int, (r->Ok_0.0@, r->Ok_0.1@)));
        }
        r
    }
}

impl AnnIndex {
    /// What [`AnnIndex::search_filter_py`] returns for a query:
    /// `DimensionMismatch` for a query of the wrong length, and otherwise the
    /// answer among the entries whose id the filter let pass, for distances
    /// that the kernel returned for them. Every id in the answer is one that
    /// the filter let pass.
    pub open spec fn filtered_search_result<
        K: Fn(Metric, &Point, &Point) -> u32,
        F: Fn(i64) -> bool,
    >(
        &self,
        query: Point,
        k: usize,
        kernel: &K,
        filter: &F,
        r: Result<(Vec<i64>, Vec<u32>), RustAnnError>,
    ) -> bool {
        if query.coords@.len() != self@.dim {
            r == Err::<(Vec<i64>, Vec<u32>), RustAnnError>(
                RustAnnError::DimensionMismatch {
                    expected: self@.dim,
                    found: query.coords@.len() as usize,
                },
            )
        } else {
            &&& r is Ok
            &&& exists|keep: Seq<bool>, scored: Seq<(i64, u32)>| #[trigger]
                self.is_filtered_answer(
                    query,
                    k,
                    kernel,
                    filter,
                    keep,
                    scored,
                    (r->Ok_0.0@, r->Ok_0.1@),
                )
            &&& r->Ok_0.0@.len() == r->Ok_0.1@.len()
            &&& r->Ok_0.0@.len() <= k
            &&& r->Ok_0.0@.len() <= self@.entries.len()
            &&& ascending(r->Ok_0.1@)
            &&& forall|j: int|
                0 <= j < r->Ok_0.0@.len() ==> call_ensures(
                    *filter,
                    (#[trigger] r->Ok_0.0@[j],),
                    true,
                )
        }
    }

    /// `keep` is what the filter said of each stored entry, `scored` holds
    /// the ids of the entries that passed with distances that the kernel
    /// returned for them, and `found` is the answer among these: the `k`
    /// nearest, or all that passed where that is fewer.
    pub open spec fn is_filtered_answer<K: Fn(Metric, &Point, &Point) -> u32, F: Fn(i64) -> bool>(
        &self,
        query: Point,
        k: usize,
        kernel: &K,
        filter: &F,
        keep: Seq<bool>,
        scored: Seq<(i64, u32)>,
        found: (Seq<i64>, Seq<u32>),
    ) -> bool {
        &&& filtered_by(filter, self.stored(), keep)
        &&& scored_by(
            kernel,
            metric_in_force(self@.metric, self@.minkowski_p),
            query,
            kept(self.stored(), keep),
            scored,
        )
        &&& answers(scored, k as int, found)
        &&& found.0.len() == if k <= scored.len() {
            k as int
        } else {
            scored.len() as int
        }
    }

    /// Finds the `k` nearest among the entries whose id `filter` lets pass,
    /// and returns their ids and distances, nearest first. The filter is
    /// asked once per entry, in stored order, and the kernel is called only
    /// for the entries that passed.
    ///
    /// Fails with `DimensionMismatch` when the query has not the dimension of
    /// the index; neither the filter nor the kernel is then called.
    pub fn search_filter_py<K: Fn(Metric, &Point, &Point) -> u32, F: Fn(i64) -> bool>(
        &self,
        query: &Point,
        k: usize,
        kernel: &K,
        filter: &F,
    ) -> (r: Result<(Vec<i64>, Vec<u32>), RustAnnError>)
        requires
            self.wf(),
            kernel_accepts(kernel),
            filter_accepts(filter),
        ensures
            self.filtered_search_result(*query, k, kernel, filter, r),
    {
        let found: usize = query.coords.len();
        if found != self.dim {
            return Err(RustAnnError::DimensionMismatch { expected: self.dim, found });
        }
        let metric = resolve_metric(self.metric, self.minkowski_p);
        let mut scored: Vec<(i64, u32)> = Vec::new();
        let ghost mut keep: Seq<bool> = Seq::empty();
        let mut i: usize = 0;
        while i < self.entries.len()
            invariant
                i <= self.entries.len(),
                self.wf(),
                kernel_accepts(kernel),
                filter_accepts(filter),
                query.coords@.len() == self.dim,
                metric == metric_in_force(self@.metric, self@.minkowski_p),
                filtered_by(filter, self.entries@.take(i as int), keep),
                scored_by(kernel, metric, *query, kept(self.entries@.take(i as int), keep), scored@),
            decreases self.entries.len() - i,
        {
            let entry = &self.entries[i];
            let ghost seen = self.entries@.take(i as int);
            let ghost passed = kept(seen, keep);
            let ghost held = scored@;
            let allow: bool = filter(entry.id);
            proof {
                assert(self.entries@.take(i + 1) =~= seen.push(*entry));
                lemma_kept_push(seen, keep, *entry, allow);
                assert(self@.entries[i as int].point.coords.len() == self.dim);
            }
            if allow {
                let one = score_entry(kernel, metric, query, entry);
                scored.push(one);
                proof {
                    assert forall|j: int| 0 <= j < passed.len() implies passed.push(*entry)[j]
                        == passed[j] && scored@[j] == held[j] by {}
                }
            }
            proof {
                keep = keep.push(allow);
                assert forall|j: int| 0 <= j < seen.len() implies seen.push(*entry)[j]
                    == seen[j] by {}
            }
            i = i + 1;
        }
        assert(self.entries@.take(i as int) =~= self.entries@);
        let found = top_k(&scored, k);
        let r: Result<(Vec<i64>, Vec<u32>), RustAnnError> = Ok(found);
        proof {
            lemma_kept_len(self.entries@, keep);
            assert(self.is_filtered_answer(
                *query,
                k,
                kernel,
                filter,
                keep,
                scored@,
                (r->Ok_0.0@, r->Ok_0.1@),
            ));
            let order = nearest(scores_of(scored@), k as int);
            let passed = kept(self.entries@, keep);
            assert forall|j: int| 0 <= j < r->Ok_0.0@.len() implies call_ensures(
                *filter,
                (#[trigger] r->Ok_0.0@[j],),
                true,
            ) by {
                let p = order[j];
                assert(r->Ok_0.0@[j] == ids_of(scored@)[p]);
                assert(scored@[p].0 == passed[p].id);
                lemma_kept_member(self.entries@, keep, p);
                let i = choose|i: int|
                    0 <= i < self.entries@.len() && keep[i] && self.entries@[i] == passed[p];
                assert(call_ensures(*filter, (self.entries@[i].id,), keep[i]));
            }
        }
        r
    }
}

} // verus!
