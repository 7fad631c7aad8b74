//! The error shape: a buffer taxonomy, and a wrapper that adds room for
//! host-side failures.

use vstd::prelude::*;

verus! {

/// Why a buffer operation was refused.
#[derive(Debug, Clone)]
pub enum BufferError {
    /// The row is outside the buffer; `limit` is the greatest valid row.
    /// Rows are carried signed so that a region's back-translation can
    /// report a coordinate that fell below zero.
    RowOutOfBounds { row: isize, limit: isize },
    /// The column is outside its line; `limit` is the line's length.
    ColOutOfBounds { col: isize, limit: isize },
    /// The mark id has been destroyed, or never belonged to this buffer.
    MarkDestroyed,
    /// An implementation-specific failure outside the taxonomy above.
    Custom(String),
}

impl PartialEq for BufferError {
    fn eq(&self, other: &Self) -> (r: bool) {
        match (self, other) {
            (
                BufferError::RowOutOfBounds { row: r1, limit: l1 },
                BufferError::RowOutOfBounds { row: r2, limit: l2 },
            ) => *r1 == *r2 && *l1 == *l2,
            (
                BufferError::ColOutOfBounds { col: c1, limit: l1 },
                BufferError::ColOutOfBounds { col: c2, limit: l2 },
            ) => *c1 == *c2 && *l1 == *l2,
            (BufferError::MarkDestroyed, BufferError::MarkDestroyed) => true,
            (BufferError::Custom(m1), BufferError::Custom(m2)) => *m1 == *m2,
            _ => false,
        }
    }
}

impl vstd::std_specs::cmp::PartialEqSpecImpl for BufferError {
    open spec fn obeys_eq_spec() -> bool {
        true
    }

    open spec fn eq_spec(&self, other: &Self) -> bool {
        match (self, other) {
            (
                BufferError::RowOutOfBounds { row: r1, limit: l1 },
                BufferError::RowOutOfBounds { row: r2, limit: l2 },
            ) => r1 == r2 && l1 == l2,
            (
                BufferError::ColOutOfBounds { col: c1, limit: l1 },
                BufferError::ColOutOfBounds { col: c2, limit: l2 },
            ) => c1 == c2 && l1 == l2,
            (BufferError::MarkDestroyed, BufferError::MarkDestroyed) => true,
            (BufferError::Custom(m1), BufferError::Custom(m2)) => m1@ == m2@,
            _ => false,
        }
    }
}

/// A failure reported by the host that carries a buffer: opaque to the
/// core except for its description.
pub trait PlatformError {
    /// A human-readable account of the failure.
    fn message(&self) -> String;
}

/// What an operation against a full editor can report: a refusal from the
/// buffer model, or a failure of the hosting platform.
#[derive(Debug, Clone)]
pub enum Error {
    Buffer(BufferError),
    Platform(String),
}

impl Error {
    /// Wraps a host failure, keeping only its description.
    pub fn platform<P: PlatformError>(p: &P) -> (e: Error)
        ensures
            e is Platform,
    {
        Error::Platform(p.message())
    }
}

impl From<BufferError> for Error {
    fn from(e: BufferError) -> (r: Error) {
        Error::Buffer(e)
    }
}

impl vstd::std_specs::convert::FromSpecImpl<BufferError> for Error {
    open spec fn obeys_from_spec() -> bool {
        true
    }

    open spec fn from_spec(e: BufferError) -> Error {
        Error::Buffer(e)
    }
}

} // verus!
