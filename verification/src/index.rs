//! The brute-force index: a flat list of entries that is scanned in full.
//!
//! This file holds the data and the operations that change it entry by
//! entry. Removal, searching, batched searching and snapshots are in the
//! modules below.

mod batch;
mod removal;
mod search;
mod snapshot;

use vstd::prelude::*;
use crate::bytes::{signed_of, to_signed};
use crate::errors::RustAnnError;
use crate::metrics::{metric_in_force, resolve_metric, Distance, Metric};
use crate::scalar::{at_most_zero, is_at_most_zero};

pub use self::removal::{
    lemma_remove_is_idempotent, lemma_without_absent, lemma_without_keeps_shape,
    lemma_without_twice, without,
};
pub use self::search::{answers, lemma_same_distances_same_answer};
pub use self::snapshot::lemma_save_load_round_trip;

verus! {

/// A vector together with its squared norm, each number held as the bit
/// pattern of a single-precision value.
#[derive(Debug, Clone, PartialEq, Eq)]
pub struct Point {
    pub coords: Vec<u32>,
    pub sq_norm: u32,
}

/// What a [`Point`] holds.
pub struct PointView {
    pub coords: Seq<u32>,
    pub sq_norm: u32,
}

impl View for Point {
    type V = PointView;

    open spec fn view(&self) -> PointView {
        PointView { coords: self.coords@, sq_norm: self.sq_norm }
    }
}

/// One stored record: the caller's id and the point it tags.
#[derive(Debug, Clone, PartialEq, Eq)]
pub struct Entry {
    pub id: i64,
    pub point: Point,
}

/// What an [`Entry`] holds.
pub struct EntryView {
    pub id: i64,
    pub point: PointView,
}

impl View for Entry {
    type V = EntryView;

    open spec fn view(&self) -> EntryView {
        EntryView { id: self.id, point: self.point@ }
    }
}

/// What an index holds: its fixed configuration and its entries in the order
/// in which they were added.
pub struct IndexView {
    pub dim: usize,
    pub metric: Distance,
    pub minkowski_p: Option<u32>,
    pub entries: Seq<EntryView>,
}

impl IndexView {
    /// The dimension is positive, a Minkowski exponent is not zero or below,
    /// the entries can be counted in a `usize`, and every entry has as many
    /// coordinates as the dimension says.
    pub open spec fn wf(self) -> bool {
        &&& self.dim > 0
        &&& self.entries.len() <= usize::MAX
        &&& self.minkowski_p matches Some(p) ==> !at_most_zero(p)
        &&& forall|i: int|
            0 <= i < self.entries.len() ==> (#[trigger] self.entries[i]).point.coords.len()
                == self.dim
    }
}

/// The views of a list of values.
pub open spec fn views<T: View>(items: Seq<T>) -> Seq<T::V> {
    items.map_values(|t: T| t@)
}

/// The entries made by tagging each point with the id at its position.
pub open spec fn tagged(points: Seq<PointView>, ids: Seq<i64>) -> Seq<EntryView> {
    Seq::new(points.len(), |i: int| EntryView { id: ids[i], point: points[i] })
}

/// Position `i` holds the first point whose length is not `dim`.
pub open spec fn first_misfit_at(points: Seq<PointView>, dim: usize, i: int) -> bool {
    &&& 0 <= i < points.len()
    &&& points[i].coords.len() != dim
    &&& forall|j: int| 0 <= j < i ==> (#[trigger] points[j]).coords.len() == dim
}

/// Every point has length `dim`.
pub open spec fn all_fit(points: Seq<PointView>, dim: usize) -> bool {
    forall|j: int| 0 <= j < points.len() ==> (#[trigger] points[j]).coords.len() == dim
}

/// Either every point has length `dim`, or there is a first one that has
/// not.
pub proof fn lemma_fit_or_first_misfit(points: Seq<PointView>, dim: usize)
    ensures
        all_fit(points, dim) || exists|i: int| first_misfit_at(points, dim, i),
    decreases points.len(),
{
    if points.len() > 0 {
        let front = points.drop_last();
        lemma_fit_or_first_misfit(front, dim);
        if all_fit(front, dim) {
            if points.last().coords.len() == dim {
                assert forall|j: int| 0 <= j < points.len() implies (
                #[trigger] points[j]).coords.len() == dim by {
                    if j < front.len() {
                        assert(front[j] == points[j]);
                    }
                }
            } else {
                assert forall|j: int| 0 <= j < points.len() - 1 implies (
                #[trigger] points[j]).coords.len() == dim by {
                    assert(front[j] == points[j]);
                }
                assert(first_misfit_at(points, dim, points.len() - 1));
            }
        } else {
            let i = choose|i: int| first_misfit_at(front, dim, i);
            assert forall|j: int| 0 <= j < i implies (#[trigger] points[j]).coords.len()
                == dim by {
                assert(front[j] == points[j]);
            }
            assert(front[i] == points[i]);
            assert(first_misfit_at(points, dim, i));
        }
    }
}

/// A brute-force k-nearest-neighbour index over points of one dimension.
#[derive(Debug, Clone, PartialEq, Eq)]
pub struct AnnIndex {
    dim: usize,
    metric: Distance,
    minkowski_p: Option<u32>,
    entries: Vec<Entry>,
}

impl View for AnnIndex {
    type V = IndexView;

    closed spec fn view(&self) -> IndexView {
        IndexView {
            dim: self.dim,
            metric: self.metric,
            minkowski_p: self.minkowski_p,
            entries: views(self.entries@),
        }
    }
}

impl AnnIndex {
    /// The index is well formed: see [`IndexView::wf`].
    pub open spec fn wf(&self) -> bool {
        self@.wf()
    }

    /// The stored entries themselves, in stored order.
    pub closed spec fn stored(&self) -> Seq<Entry> {
        self.entries@
    }

    /// Makes an empty index for points of `dim` coordinates under `metric`.
    /// Fails with `InvalidDimension` exactly when `dim` is zero.
    pub fn new(dim: usize, metric: Distance) -> (r: Result<AnnIndex, RustAnnError>)
        ensures
            dim == 0 ==> r == Err::<AnnIndex, RustAnnError>(RustAnnError::InvalidDimension),
            dim > 0 ==> r is Ok && r->Ok_0.wf() && r->Ok_0@ == (IndexView {
                dim,
                metric,
                minkowski_p: None,
                entries: Seq::empty(),
            }),
    {
        if dim == 0 {
            return Err(RustAnnError::InvalidDimension);
        }
        let index = AnnIndex { dim, metric, minkowski_p: None, entries: Vec::new() };
        assert(index@.entries =~= Seq::empty());
        Ok(index)
    }

    /// Makes an empty index that measures the Minkowski distance with the
    /// exponent whose bit pattern is `p`. Fails with `InvalidDimension` when
    /// `dim` is zero, else with `InvalidParameter` when the exponent is zero
    /// or negative.
    pub fn new_minkowski(dim: usize, p: u32) -> (r: Result<AnnIndex, RustAnnError>)
        ensures
            dim == 0 ==> r == Err::<AnnIndex, RustAnnError>(RustAnnError::InvalidDimension),
            dim > 0 && at_most_zero(p) ==> r == Err::<AnnIndex, RustAnnError>(
                RustAnnError::InvalidParameter,
            ),
            dim > 0 && !at_most_zero(p) ==> r is Ok && r->Ok_0.wf() && r->Ok_0@ == (IndexView {
                dim,
                metric: Distance::Euclidean,
                minkowski_p: Some(p),
                entries: Seq::empty(),
            }),
    {
        if dim == 0 {
            return Err(RustAnnError::InvalidDimension);
        }
        if is_at_most_zero(p) {
            return Err(RustAnnError::InvalidParameter);
        }
        let index = AnnIndex {
            dim,
            metric: Distance::Euclidean,
            minkowski_p: Some(p),
            entries: Vec::new(),
        };
        assert(index@.entries =~= Seq::empty());
        Ok(index)
    }

    /// The number of coordinates of every stored point.
    pub fn dim(&self) -> (d: usize)
        ensures
            d == self@.dim,
    {
        self.dim
    }

    /// The metric that was selected when the index was made.
    pub fn metric(&self) -> (m: Distance)
        ensures
            m == self@.metric,
    {
        self.metric
    }

    /// The Minkowski exponent, where the index was made with one.
    pub fn minkowski_p(&self) -> (p: Option<u32>)
        ensures
            p == self@.minkowski_p,
    {
        self.minkowski_p
    }

    /// The metric by which distances to this index are measured.
    pub fn metric_in_force(&self) -> (m: Metric)
        ensures
            m == metric_in_force(self@.metric, self@.minkowski_p),
    {
        resolve_metric(self.metric, self.minkowski_p)
    }

    /// The number of stored entries.
    pub fn len(&self) -> (n: usize)
        ensures
            n == self@.entries.len(),
    {
        self.entries.len()
    }

    /// The stored entries, in stored order.
    pub fn entries(&self) -> (entries: &Vec<Entry>)
        ensures
            entries@ == self.stored(),
            views(entries@) == self@.entries,
    {
        &self.entries
    }

    /// Appends one entry per point, tagged with the id at the same position.
    ///
    /// The batch is refused as a whole, and the index left as it was, with
    /// `InputMismatch` when there are not as many ids as points, and otherwise
    /// with `DimensionMismatch` for the first point whose length is not the
    /// dimension of the index.
    pub fn add(&mut self, points: Vec<Point>, ids: Vec<i64>) -> (r: Result<(), RustAnnError>)
        requires
            old(self).wf(),
        ensures
            final(self).wf(),
            points@.len() != ids@.len() ==> r == Err::<(), RustAnnError>(
                RustAnnError::InputMismatch,
            ),
            forall|i: int|
                points@.len() == ids@.len() && first_misfit_at(views(points@), old(self)@.dim, i)
                    ==> r == Err::<(), RustAnnError>(
                    RustAnnError::DimensionMismatch {
                        expected: old(self)@.dim,
                        found: points@[i].coords@.len() as usize,
                    },
                ),
            points@.len() == ids@.len() && all_fit(views(points@), old(self)@.dim) ==> r is Ok,
            r is Err ==> *final(self) == *old(self),
            r is Ok ==> final(self)@ == (IndexView {
                entries: old(self)@.entries + tagged(views(points@), ids@),
                ..old(self)@
            }),
    {
        if points.len() != ids.len() {
            return Err(RustAnnError::InputMismatch);
        }
        let mut j: usize = 0;
        while j < points.len()
            invariant
                j <= points.len(),
                forall|i: int| 0 <= i < j ==> (#[trigger] points@[i]).coords@.len() == self.dim,
                *self == *old(self),
                old(self).wf(),
                points@.len() == ids@.len(),
            decreases points.len() - j,
        {
            let found: usize = points[j].coords.len();
            if found != self.dim {
                assert(first_misfit_at(views(points@), self@.dim, j as int));
                assert forall|i: int|
                    first_misfit_at(views(points@), self@.dim, i) implies i == j by {
                    if i < j {
                        assert(views(points@)[i].coords.len() == self.dim);
                    } else if j < i {
                        assert(views(points@)[j as int].coords.len() == self.dim);
                    }
                }
                return Err(RustAnnError::DimensionMismatch { expected: self.dim, found });
            }
            j = j + 1;
        }
        let ghost batch = tagged(views(points@), ids@);
        let ghost before = self@.entries;
        let mut n: usize = 0;
        for point in it: points.into_iter()
            invariant
                it.seq() == points@,
                n == it.index(),
                points@.len() == ids@.len(),
                points@.len() <= usize::MAX,
                all_fit(views(points@), self.dim),
                self.dim == old(self).dim,
                self.metric == old(self).metric,
                self.minkowski_p == old(self).minkowski_p,
                old(self).wf(),
                before == old(self)@.entries,
                batch == tagged(views(points@), ids@),
                views(self.entries@) =~= before + batch.take(n as int),
        {
            assert(n < points@.len());
            assert(point == points@[n as int]);
            assert(views(points@)[n as int].coords.len() == self.dim);
            let ghost held = self.entries@;
            let entry = Entry { id: ids[n], point };
            assert(entry@ == batch[n as int]);
            self.entries.push(entry);
            assert(views(self.entries@) =~= views(held).push(entry@));
            assert(batch.take(n + 1) =~= batch.take(n as int).push(batch[n as int]));
            n = n + 1;
        }
        assert(batch.take(n as int) =~= batch);
        assert(self@.entries =~= before + batch);
        assert(self.wf()) by {
            assert(self@.entries.len() == self.entries.len());
            assert forall|i: int| 0 <= i < self@.entries.len() implies (
            #[trigger] self@.entries[i]).point.coords.len() == self@.dim by {
                if i >= before.len() {
                    assert(self@.entries[i] == batch[i - before.len()]);
                    assert(views(points@)[i - before.len()].coords.len() == self.dim);
                } else {
                    assert(self@.entries[i] == before[i]);
                }
            }
        }
        Ok(())
    }
}

impl AnnIndex {
    /// Appends one point and tags it with its position in the index, which
    /// is returned. Fails with `DimensionMismatch`, and changes nothing,
    /// when the point has not the dimension of the index.
    pub fn add_item(&mut self, item: Point) -> (r: Result<i64, RustAnnError>)
        requires
            old(self).wf(),
        ensures
            final(self).wf(),
            item.coords@.len() != old(self)@.dim ==> *final(self) == *old(self) && r == Err::<
                i64,
                RustAnnError,
            >(
                RustAnnError::DimensionMismatch {
                    expected: old(self)@.dim,
                    found: item.coords@.len() as usize,
                },
            ),
            item.coords@.len() == old(self)@.dim ==> r == Ok::<i64, RustAnnError>(
                signed_of(old(self)@.entries.len() as u64),
            ) && final(self)@ == (IndexView {
                entries: old(self)@.entries.push(EntryView { id: r->Ok_0, point: item@ }),
                ..old(self)@
            }),
    {
        let found: usize = item.coords.len();
        if found != self.dim {
            return Err(RustAnnError::DimensionMismatch { expected: self.dim, found });
        }
        let id: i64 = to_signed(self.entries.len() as u64);
        let ghost before = self@.entries;
        let entry = Entry { id, point: item };
        self.entries.push(entry);
        proof {
            assert(self@.entries =~= before.push(EntryView { id, point: item@ }));
            assert(self@.entries.len() == self.entries.len());
        }
        Ok(id)
    }

    /// Makes the index ready for queries. A brute-force index always is, so
    /// this changes nothing.
    pub fn build(&mut self)
        ensures
            *final(self) == *old(self),
    {
    }
}

} // verus!
