//! The error kinds of the store.
use vstd::prelude::*;

verus! {

/// Why a request to the store failed.
#[derive(Clone, Copy, Debug, PartialEq, Eq, Structural)]
pub enum StateError {
    /// No cache directory is configured.
    ConfigMissing,
    /// The storage engine failed a read or a write.
    IoError,
    /// The requested hash, height or tip is absent.
    NotFound,
    /// Stored or supplied data does not have the expected form.
    FormatError,
    /// Something that the store's invariants rule out was found.
    Invariant,
}

} // verus!
