//! A shared index behind a reader-writer lock.
//!
//! Searches and snapshots take the lock for reading and may run side by
//! side; additions and removals take it for writing and run alone. The lock
//! holds a whole index, so that nothing is ever seen of a batch that was
//! applied in part, and it has no poisoned state.
//!
//! A caller waits for the lock by spinning, and a search hands work to
//! rayon's pool while it holds the lock. So do not call a guarded index from
//! a task of that pool while another handle may write: the task that waits
//! for the search may be given the writer's task, which then waits for the
//! search below it to let go of the lock. A kernel that panics while a
//! search holds the lock leaves the lock held.

use std::sync::Arc;
use vstd::prelude::*;
use vstd::rwlock::{RwLock, RwLockPredicate};
use crate::errors::RustAnnError;
use crate::grid::AnswerTable;
use crate::index::{all_fit, first_misfit_at, views, AnnIndex, IndexView, Point};
use crate::kernel::kernel_accepts;
use crate::metrics::{Distance, Metric};
use crate::storage::{encoding, is_corrupt};

verus! {

/// What is fixed when a guarded index is made and holds of it ever after.
pub struct Fixed {
    pub dim: usize,
    pub metric: Distance,
    pub minkowski_p: Option<u32>,
}

impl RwLockPredicate<AnnIndex> for Fixed {
    /// The index under the lock is well formed and has the configuration
    /// with which the lock was made.
    open spec fn inv(self, index: AnnIndex) -> bool {
        &&& index.wf()
        &&& index@.dim == self.dim
        &&& index@.metric == self.metric
        &&& index@.minkowski_p == self.minkowski_p
    }
}

/// A handle to an index that several callers share.
pub struct ThreadSafeAnnIndex {
    inner: Arc<RwLock<AnnIndex, Fixed>>,
}

impl ThreadSafeAnnIndex {
    /// The configuration of the guarded index.
    pub closed spec fn fixed(&self) -> Fixed {
        self.inner.pred()
    }

    /// `index` is a state that the guarded index may be in.
    pub open spec fn guards(&self, index: AnnIndex) -> bool {
        self.fixed().inv(index)
    }

    /// Puts an index under a lock of its own.
    pub fn guard(index: AnnIndex) -> (shared: ThreadSafeAnnIndex)
        requires
            index.wf(),
        ensures
            shared.guards(index),
            shared.fixed() == (Fixed {
                dim: index@.dim,
                metric: index@.metric,
                minkowski_p: index@.minkowski_p,
            }),
    {
        let ghost fixed = Fixed {
            dim: index@.dim,
            metric: index@.metric,
            minkowski_p: index@.minkowski_p,
        };
        ThreadSafeAnnIndex { inner: Arc::new(RwLock::new(index, Ghost(fixed))) }
    }

    /// Makes an empty guarded index. Fails with `InvalidDimension` exactly
    /// when `dim` is zero.
    pub fn new(dim: usize, metric: Distance) -> (r: Result<ThreadSafeAnnIndex, RustAnnError>)
        ensures
            dim == 0 ==> r is Err && r->Err_0 == RustAnnError::InvalidDimension,
            dim > 0 ==> r is Ok && r->Ok_0.fixed() == (Fixed { dim, metric, minkowski_p: None }),
    {
        match AnnIndex::new(dim, metric) {
            Ok(index) => Ok(ThreadSafeAnnIndex::guard(index)),
            Err(e) => Err(e),
        }
    }

    /// Another handle to the same index.
    pub fn share(&self) -> (other: ThreadSafeAnnIndex)
        ensures
            other.fixed() == self.fixed(),
    {
        ThreadSafeAnnIndex { inner: self.inner.clone() }
    }

    /// Adds a batch, alone under the lock: see [`AnnIndex::add`]. A batch
    /// that is refused leaves the index as it was.
    pub fn add(&self, points: Vec<Point>, ids: Vec<i64>) -> (r: Result<(), RustAnnError>)
        ensures
            points@.len() != ids@.len() ==> r == Err::<(), RustAnnError>(
                RustAnnError::InputMismatch,
            ),
            forall|i: int|
                points@.len() == ids@.len() && first_misfit_at(views(points@), self.fixed().dim, i)
                    ==> r == Err::<(), RustAnnError>(
                    RustAnnError::DimensionMismatch {
                        expected: self.fixed().dim,
                        found: points@[i].coords@.len() as usize,
                    },
                ),
            points@.len() == ids@.len() && all_fit(views(points@), self.fixed().dim) ==> r is Ok,
    {
        let (mut index, handle) = self.inner.acquire_write();
        let r = index.add(points, ids);
        handle.release_write(index);
        r
    }

    /// Removes the entries with the given ids, alone under the lock: see
    /// [`AnnIndex::remove`].
    pub fn remove(&self, ids: &Vec<i64>) {
        let (mut index, handle) = self.inner.acquire_write();
        index.remove(ids);
        handle.release_write(index);
    }

    /// Searches the index as it stands while the lock is held for reading:
    /// see [`AnnIndex::search`].
    pub fn search<K: Fn(Metric, &Point, &Point) -> u32 + Sync>(
        &self,
        query: &Point,
        k: usize,
        kernel: &K,
    ) -> (r: Result<(Vec<i64>, Vec<u32>), RustAnnError>)
        requires
            kernel_accepts(kernel),
        ensures
            exists|index: AnnIndex|
                self.guards(index) && #[trigger] index.search_result(*query, k, kernel, r),
            query.coords@.len() != self.fixed().dim ==> r == Err::<
                (Vec<i64>, Vec<u32>),
                RustAnnError,
            >(
                RustAnnError::DimensionMismatch {
                    expected: self.fixed().dim,
                    found: query.coords@.len() as usize,
                },
            ),
            query.coords@.len() == self.fixed().dim ==> r is Ok,
    {
        let handle = self.inner.acquire_read();
        let r = handle.borrow().search(query, k, kernel);
        proof {
            assert(self.guards(handle.view()));
        }
        handle.release_read();
        r
    }

    /// Answers a batch of queries on the index as it stands while the lock
    /// is held for reading: see [`AnnIndex::search_batch`].
    pub fn search_batch<K: Fn(Metric, &Point, &Point) -> u32 + Sync>(
        &self,
        queries: &Vec<Point>,
        k: usize,
        kernel: &K,
    ) -> (r: Result<AnswerTable, RustAnnError>)
        requires
            kernel_accepts(kernel),
        ensures
            exists|index: AnnIndex|
                self.guards(index) && #[trigger] index.batch_result(queries@, k, kernel, r),
    {
        let handle = self.inner.acquire_read();
        let r = handle.borrow().search_batch(queries, k, kernel);
        proof {
            assert(self.guards(handle.view()));
        }
        handle.release_read();
        r
    }

    /// Writes a snapshot of the index as it stands while the lock is held
    /// for reading: see [`AnnIndex::save`].
    pub fn save(&self) -> (bytes: Vec<u8>)
        ensures
            exists|index: AnnIndex| self.guards(index) && bytes@ == #[trigger] encoding(index@),
    {
        let handle = self.inner.acquire_read();
        let bytes = handle.borrow().save();
        proof {
            assert(self.guards(handle.view()));
        }
        handle.release_read();
        bytes
    }

    /// Reads an index from a snapshot and puts it under a lock: see
    /// [`AnnIndex::load`].
    pub fn load(bytes: &Vec<u8>) -> (r: Result<ThreadSafeAnnIndex, RustAnnError>)
        ensures
            r matches Ok(shared) ==> exists|index: AnnIndex|
                shared.guards(index) && #[trigger] encoding(index@) == bytes@,
            r matches Err(e) ==> e == RustAnnError::CorruptData && is_corrupt(bytes@),
            forall|saved: IndexView|
                saved.wf() && #[trigger] encoding(saved) == bytes@ ==> r is Ok,
    {
        match AnnIndex::load(bytes) {
            Ok(index) => {
                let shared = ThreadSafeAnnIndex::guard(index);
                Ok(shared)
            },
            Err(e) => Err(e),
        }
    }
}

} // verus!
