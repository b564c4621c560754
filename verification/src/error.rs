//! The error taxonomy of the store.

use vstd::prelude::*;
use crate::da_directory::DaDirectorySid;
use crate::entity::EntityUid;

verus! {

/// An error produced by a store operation.
#[derive(Debug, Clone, Copy, PartialEq, Eq, Structural)]
pub enum DaError {
    /// An entity tried to reach a resource held by another entity.
    /// Declared for completeness of the taxonomy; the store never raises
    /// it, since isolation is achieved by per-owner buckets.
    AccessDenied { requested_by: EntityUid, resource_owner: EntityUid },
    /// Creating the directory would place it deeper than the given limit.
    DirectoryDepthLimitExceeded(u32),
    /// The named identifier does not exist in the resolved owner's bucket.
    DirectoryNotFound(DaDirectorySid),
}

pub type DaResult<T> = Result<T, DaError>;

} // verus!
