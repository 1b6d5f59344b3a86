//! Errors of the library.

use vstd::prelude::*;

verus! {

/// Why an operation was refused.
#[derive(Debug, Clone, Copy, PartialEq, Eq, Structural)]
pub enum SmbError {
    /// The name is not a valid SMB path.
    NameInvalid,
}

/// A result with an [`SmbError`].
pub type SmbResult<T> = Result<T, SmbError>;

} // verus!
