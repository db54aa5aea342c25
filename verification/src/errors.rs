//! Error values returned by the index. Errors are plain values; no operation
//! panics on inputs its contract admits.

use vstd::prelude::*;

verus! {

/// Everything that an index operation can fail with.
#[derive(Debug)]
pub enum AnnError {
    /// The vector store is full: `num_vertices == capacity`.
    Capacity,
    /// A vector's length differs from the configured dimension.
    DimensionMismatch,
    /// An I/O step failed; carries the path and the cause's text.
    IoError { path: String, cause: String },
    /// A persisted image failed validation.
    Corrupt { reason: String },
    /// A configuration field was rejected at `open`.
    InvalidConfig { field: String, reason: String },
    /// The operation needs at least one vertex and the index has none.
    IndexEmpty,
    /// An internal invariant would be violated; carries a diagnostic.
    Internal { detail: String },
}

impl AnnError {
    /// Which variant this is, as a label; the payload strings carry the rest.
    pub fn kind(&self) -> (r: AnnErrorKind)
        ensures
            r == self.kind_spec(),
    {
        match self {
            AnnError::Capacity => AnnErrorKind::Capacity,
            AnnError::DimensionMismatch => AnnErrorKind::DimensionMismatch,
            AnnError::IoError { .. } => AnnErrorKind::IoError,
            AnnError::Corrupt { .. } => AnnErrorKind::Corrupt,
            AnnError::InvalidConfig { .. } => AnnErrorKind::InvalidConfig,
            AnnError::IndexEmpty => AnnErrorKind::IndexEmpty,
            AnnError::Internal { .. } => AnnErrorKind::Internal,
        }
    }

    /// The variant of this error, for contracts.
    pub open spec fn kind_spec(&self) -> AnnErrorKind {
        match self {
            AnnError::Capacity => AnnErrorKind::Capacity,
            AnnError::DimensionMismatch => AnnErrorKind::DimensionMismatch,
            AnnError::IoError { .. } => AnnErrorKind::IoError,
            AnnError::Corrupt { .. } => AnnErrorKind::Corrupt,
            AnnError::InvalidConfig { .. } => AnnErrorKind::InvalidConfig,
            AnnError::IndexEmpty => AnnErrorKind::IndexEmpty,
            AnnError::Internal { .. } => AnnErrorKind::Internal,
        }
    }

    /// A short human-readable description.
    pub fn describe(&self) -> String {
        match self {
            AnnError::Capacity => String::from_str("index capacity reached"),
            AnnError::DimensionMismatch => String::from_str("vector dimension mismatch"),
            AnnError::IoError { path, cause: _ } => path.clone(),
            AnnError::Corrupt { reason } => reason.clone(),
            AnnError::InvalidConfig { field, reason: _ } => field.clone(),
            AnnError::IndexEmpty => String::from_str("index is empty"),
            AnnError::Internal { detail } => detail.clone(),
        }
    }
}

/// Payload-free image of `AnnError`, usable with `==` in contracts and tests.
#[derive(Clone, Copy, Debug, PartialEq, Eq, Structural)]
pub enum AnnErrorKind {
    Capacity,
    DimensionMismatch,
    IoError,
    Corrupt,
    InvalidConfig,
    IndexEmpty,
    Internal,
}

} // verus!
