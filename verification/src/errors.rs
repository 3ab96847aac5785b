//! The closed set of failures that the index operations report.

use vstd::prelude::*;

verus! {

/// Why an operation was refused. Every failure is reported before any state is
/// changed, so an index that returned an error is exactly as it was.
#[derive(Debug, Clone, Copy, PartialEq, Eq, Structural)]
pub enum RustAnnError {
    /// An index was asked for with dimension zero.
    InvalidDimension,
    /// A Minkowski exponent that is zero or negative.
    InvalidParameter,
    /// A batch whose number of vectors differs from its number of ids.
    InputMismatch,
    /// A vector or query whose length is not the dimension of the index.
    DimensionMismatch { expected: usize, found: usize },
    /// Batched results do not fill the rectangular shape asked for.
    ReshapeError,
    /// The file system refused to read or write a snapshot.
    StorageError,
    /// Bytes that are not a snapshot of the current format version.
    CorruptData,
    /// The backend does not offer the operation.
    NotImplemented,
}

impl RustAnnError {
    /// The short label under which a failure of this kind is reported.
    pub fn label(&self) -> (s: &'static str)
        ensures
            s@ == (match *self {
                RustAnnError::InvalidDimension => "Invalid Dimension"@,
                RustAnnError::InvalidParameter => "Minkowski Error"@,
                RustAnnError::InputMismatch => "Input Mismatch"@,
                RustAnnError::DimensionMismatch { .. } => "Dimension Error"@,
                RustAnnError::ReshapeError => "Reshape Error"@,
                RustAnnError::StorageError => "Storage Error"@,
                RustAnnError::CorruptData => "Corrupt Data"@,
                RustAnnError::NotImplemented => "Not Implemented"@,
            }),
    {
        match self {
            RustAnnError::InvalidDimension => "Invalid Dimension",
            RustAnnError::InvalidParameter => "Minkowski Error",
            RustAnnError::InputMismatch => "Input Mismatch",
            RustAnnError::DimensionMismatch { .. } => "Dimension Error",
            RustAnnError::ReshapeError => "Reshape Error",
            RustAnnError::StorageError => "Storage Error",
            RustAnnError::CorruptData => "Corrupt Data",
            RustAnnError::NotImplemented => "Not Implemented",
        }
    }
}

} // verus!
