//! The bookkeeping of a graph backend.
//!
//! An approximate-nearest-neighbour graph knows its points by dense internal
//! ids, handed out in the order of insertion. The adapter keeps, for each
//! internal id, the id that the caller gave, and puts the caller's ids in
//! place of the internal ones in what the graph answers. The graph itself is
//! held by the caller.

use vstd::prelude::*;
use crate::bytes::{signed_of, to_signed};
use crate::errors::RustAnnError;
use crate::metrics::Distance;

verus! {

/// The settings with which the graph is made and searched.
#[derive(Debug, Clone, Copy, PartialEq, Eq, Structural)]
pub struct GraphParams {
    /// How many links a node keeps per layer.
    pub max_nb_connection: usize,
    /// How many nodes the graph is laid out for.
    pub max_elements: usize,
    /// How many layers the graph may have.
    pub max_layer: usize,
    /// How many candidates are explored while a node is inserted.
    pub ef_construction: usize,
    /// How many candidates are explored while the graph is searched.
    pub ef_search: usize,
}

/// The id that is returned for an internal id that was never handed out.
pub const UNKNOWN_ID: i64 = -1;

/// What a graph adapter holds: the dimension it was made for and the
/// caller's id of every node, by internal id.
pub struct HnswView {
    pub dims: usize,
    pub user_ids: Seq<i64>,
}

impl HnswView {
    /// The caller's id of the node with the given internal id.
    pub open spec fn user_id(self, internal_id: int) -> i64 {
        if 0 <= internal_id < self.user_ids.len() {
            self.user_ids[internal_id]
        } else {
            UNKNOWN_ID
        }
    }
}

/// The adapter of a graph backend.
#[derive(Debug)]
pub struct HnswIndex {
    dims: usize,
    user_ids: Vec<i64>,
}

impl View for HnswIndex {
    type V = HnswView;

    closed spec fn view(&self) -> HnswView {
        HnswView { dims: self.dims, user_ids: self.user_ids@ }
    }
}

impl HnswIndex {
    /// Makes the adapter of an empty graph. The graph measures Euclidean
    /// distance whatever metric is named.
    pub fn new(dims: usize, _distance: Distance) -> (index: HnswIndex)
        ensures
            index@ == (HnswView { dims, user_ids: Seq::empty() }),
    {
        HnswIndex { dims, user_ids: Vec::new() }
    }

    /// The settings to make and to search the graph with.
    pub fn params() -> (p: GraphParams)
        ensures
            p == (GraphParams {
                max_nb_connection: 16,
                max_elements: 10_000,
                max_layer: 16,
                ef_construction: 200,
                ef_search: 50,
            }),
    {
        GraphParams {
            max_nb_connection: 16,
            max_elements: 10_000,
            max_layer: 16,
            ef_construction: 200,
            ef_search: 50,
        }
    }

    /// Records the caller's id of the node that is inserted next and returns
    /// the internal id under which the graph shall know that node: the
    /// number of nodes recorded before.
    pub fn insert(&mut self, user_id: i64) -> (internal_id: usize)
        ensures
            internal_id == old(self)@.user_ids.len(),
            final(self)@ == (HnswView {
                user_ids: old(self)@.user_ids.push(user_id),
                ..old(self)@
            }),
    {
        let internal_id: usize = self.user_ids.len();
        self.user_ids.push(user_id);
        internal_id
    }

    /// Records a node whose id towards the caller is its internal id, and
    /// returns that internal id.
    pub fn add_item(&mut self) -> (internal_id: usize)
        ensures
            internal_id == old(self)@.user_ids.len(),
            final(self)@ == (HnswView {
                user_ids: old(self)@.user_ids.push(signed_of(internal_id as u64)),
                ..old(self)@
            }),
    {
        let user_id: i64 = to_signed(self.user_ids.len() as u64);
        self.insert(user_id)
    }

    /// Records a batch of `rows` nodes of `row_len` coordinates each, with
    /// the caller's ids in `ids`, and returns the internal id of the first:
    /// the nodes get consecutive internal ids from there on.
    ///
    /// Fails, and records nothing, with `DimensionMismatch` when `row_len`
    /// is not the dimension of the adapter, and otherwise with
    /// `InputMismatch` when there are not as many ids as rows.
    pub fn add(&mut self, rows: usize, row_len: usize, ids: &Vec<i64>) -> (r: Result<
        usize,
        RustAnnError,
    >)
        ensures
            row_len != old(self)@.dims ==> *final(self) == *old(self) && r == Err::<
                usize,
                RustAnnError,
            >(RustAnnError::DimensionMismatch { expected: old(self)@.dims, found: row_len }),
            row_len == old(self)@.dims && ids@.len() != rows ==> *final(self) == *old(self) && r
                == Err::<usize, RustAnnError>(RustAnnError::InputMismatch),
            row_len == old(self)@.dims && ids@.len() == rows ==> r == Ok::<usize, RustAnnError>(
                old(self)@.user_ids.len() as usize,
            ) && final(self)@ == (HnswView {
                user_ids: old(self)@.user_ids + ids@,
                ..old(self)@
            }),
    {
        if row_len != self.dims {
            return Err(RustAnnError::DimensionMismatch { expected: self.dims, found: row_len });
        }
        if ids.len() != rows {
            return Err(RustAnnError::InputMismatch);
        }
        let first: usize = self.user_ids.len();
        let mut i: usize = 0;
        while i < ids.len()
            invariant
                i <= ids.len(),
                self.dims == old(self).dims,
                self.user_ids@ == old(self).user_ids@ + ids@.take(i as int),
            decreases ids.len() - i,
        {
            self.insert(ids[i]);
            assert(self.user_ids@ =~= old(self).user_ids@ + ids@.take(i + 1));
            i = i + 1;
        }
        assert(ids@.take(i as int) =~= ids@);
        Ok(first)
    }

    /// Makes the graph ready for queries. The graph is built while nodes are
    /// inserted, so this changes nothing.
    pub fn build(&mut self)
        ensures
            *final(self) == *old(self),
    {
    }

    /// The dimension that the adapter was made for.
    pub fn dims(&self) -> (d: usize)
        ensures
            d == self@.dims,
    {
        self.dims
    }

    /// The number of nodes recorded.
    pub fn len(&self) -> (n: usize)
        ensures
            n == self@.user_ids.len(),
    {
        self.user_ids.len()
    }

    /// The caller's id of the node with the given internal id, and
    /// [`UNKNOWN_ID`] for an internal id that was never handed out.
    pub fn get_user_id(&self, internal_id: usize) -> (id: i64)
        ensures
            id == self@.user_id(internal_id as int),
    {
        if internal_id < self.user_ids.len() {
            self.user_ids[internal_id]
        } else {
            UNKNOWN_ID
        }
    }

    /// Turns what the graph answered into an answer for the caller: for each
    /// neighbour, given by its internal id and its distance, the caller's id
    /// and the distance, in the order of the graph's answer.
    pub fn search(&self, neighbours: &Vec<(usize, u32)>) -> (found: (Vec<i64>, Vec<u32>))
        ensures
            found.0@ == neighbours@.map_values(|n: (usize, u32)| self@.user_id(n.0 as int)),
            found.1@ == neighbours@.map_values(|n: (usize, u32)| n.1),
    {
        let mut ids: Vec<i64> = Vec::with_capacity(neighbours.len());
        let mut distances: Vec<u32> = Vec::with_capacity(neighbours.len());
        let mut i: usize = 0;
        while i < neighbours.len()
            invariant
                i <= neighbours.len(),
                ids@ == neighbours@.take(i as int).map_values(
                    |n: (usize, u32)| self@.user_id(n.0 as int),
                ),
                distances@ == neighbours@.take(i as int).map_values(|n: (usize, u32)| n.1),
            decreases neighbours.len() - i,
        {
            let neighbour = neighbours[i];
            ids.push(self.get_user_id(neighbour.0));
            distances.push(neighbour.1);
            proof {
                assert(neighbours@.take(i + 1) =~= neighbours@.take(i as int).push(neighbour));
                assert(ids@ =~= neighbours@.take(i + 1).map_values(
                    |n: (usize, u32)| self@.user_id(n.0 as int),
                ));
                assert(distances@ =~= neighbours@.take(i + 1).map_values(|n: (usize, u32)| n.1));
            }
            i = i + 1;
        }
        assert(neighbours@.take(i as int) =~= neighbours@);
        (ids, distances)
    }

    /// A graph backend has no snapshot: always fails with `NotImplemented`.
    pub fn save(&self) -> (r: Result<Vec<u8>, RustAnnError>)
        ensures
            r is Err,
            r->Err_0 == RustAnnError::NotImplemented,
    {
        Err(RustAnnError::NotImplemented)
    }

    /// A graph backend has no snapshot: always fails with `NotImplemented`.
    pub fn load(bytes: &Vec<u8>) -> (r: Result<HnswIndex, RustAnnError>)
        ensures
            r is Err,
            r->Err_0 == RustAnnError::NotImplemented,
    {
        Err(RustAnnError::NotImplemented)
    }
}

} // verus!
