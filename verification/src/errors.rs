//! Failure values reported by the library.
//!
//! Three conditions exist: a rejected configuration or range bound
//! (`InvalidRange`), an indexed access outside the grid (`OutOfBounds`),
//! and a catch-all (`UnknownError`). Rendering a condition as text is left
//! to the caller.

use vstd::prelude::*;

verus! {

/// The kind of a [`TerrainError`].
#[derive(Clone, Debug, PartialEq)]
pub enum TerrainErrorKind {
    /// Unclassified failure.
    UnknownError,
    /// A range bound or configuration field was rejected; the message says why.
    InvalidRange { message: String },
    /// An indexed access at `(x, y)` lay outside the grid dimensions.
    OutOfBounds { x: usize, y: usize },
}

/// A failure value of this library, wrapping a [`TerrainErrorKind`].
#[derive(Clone, Debug, PartialEq)]
pub struct TerrainError {
    kind: Box<TerrainErrorKind>,
}

/// The result type used by every fallible operation of the library.
pub type TerrainResult<T> = Result<T, TerrainError>;

impl TerrainError {
    /// The kind held by this error, as a specification-level value.
    pub closed spec fn kind_spec(&self) -> TerrainErrorKind {
        *self.kind
    }

    /// Holds exactly when this error reports a rejected range or configuration.
    pub open spec fn is_invalid_range(&self) -> bool {
        self.kind_spec() is InvalidRange
    }

    /// Holds exactly when this error reports an access outside the grid at `(x, y)`.
    pub open spec fn is_out_of_bounds(&self, x: usize, y: usize) -> bool {
        self.kind_spec() == (TerrainErrorKind::OutOfBounds { x, y })
    }

    /// Builds the error for a rejected range bound or configuration field.
    pub fn invalid_range(message: String) -> (e: Self)
        ensures
            e.kind_spec() == (TerrainErrorKind::InvalidRange { message }),
            e.is_invalid_range(),
    {
        TerrainError { kind: Box::new(TerrainErrorKind::InvalidRange { message }) }
    }

    /// Builds the error for an indexed access outside the grid.
    pub fn out_of_bounds(x: usize, y: usize) -> (e: Self)
        ensures
            e.is_out_of_bounds(x, y),
    {
        TerrainError { kind: Box::new(TerrainErrorKind::OutOfBounds { x, y }) }
    }

    /// Read access to the kind.
    pub fn kind(&self) -> (k: &TerrainErrorKind)
        ensures
            *k == self.kind_spec(),
    {
        &self.kind
    }
}

} // verus!
