//! Writing an index as a snapshot and reading it back.

use vstd::prelude::*;
use super::{AnnIndex, IndexView};
use crate::errors::RustAnnError;
use crate::storage::{decode, encode, encoding, is_corrupt, lemma_encoding_is_injective};

verus! {

impl AnnIndex {
    /// Writes the whole index as a snapshot: its dimension, its metric, its
    /// Minkowski exponent where it has one, and every entry.
    pub fn save(&self) -> (bytes: Vec<u8>)
        ensures
            bytes@ == encoding(self@),
    {
        encode(self.dim, self.metric, self.minkowski_p, &self.entries)
    }

    /// Reads an index back from a snapshot. A snapshot that [`AnnIndex::save`]
    /// wrote of a well-formed index gives an index equal to that one, entry
    /// for entry and in the same order. All other bytes, among them a
    /// truncated snapshot and one of another format version, fail with
    /// `CorruptData`.
    pub fn load(bytes: &Vec<u8>) -> (r: Result<AnnIndex, RustAnnError>)
        ensures
            r matches Ok(index) ==> index.wf() && encoding(index@) == bytes@,
            r matches Err(e) ==> e == RustAnnError::CorruptData && is_corrupt(bytes@),
            forall|saved: IndexView|
                saved.wf() && #[trigger] encoding(saved) == bytes@ ==> r is Ok && r->Ok_0@
                    == saved,
    {
        match decode(bytes) {
            Ok(d) => {
                let index = AnnIndex {
                    dim: d.dim,
                    metric: d.metric,
                    minkowski_p: d.minkowski_p,
                    entries: d.entries,
                };
                proof {
                    assert(index@ == d@);
                    assert forall|saved: IndexView|
                        saved.wf() && #[trigger] encoding(saved) == bytes@ implies index@
                        == saved by {
                        lemma_encoding_is_injective(index@, saved);
                    }
                }
                Ok(index)
            },
            Err(e) => Err(e),
        }
    }
}

/// Saving a well-formed index and loading the snapshot gives the index back:
/// the snapshot is not corrupt, and an index with that snapshot is the one
/// that was saved.
pub proof fn lemma_save_load_round_trip(saved: IndexView, restored: IndexView)
    requires
        saved.wf(),
        restored.wf(),
        encoding(restored) == encoding(saved),
    ensures
        !is_corrupt(encoding(saved)),
        restored == saved,
{
    lemma_encoding_is_injective(restored, saved);
}

} // verus!
