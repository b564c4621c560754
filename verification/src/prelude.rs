//! Re-exports of the items that callers of the store usually need.

pub use crate::da_directory::{DaDirectory, DaDirectorySid};
pub use crate::entity::{Entity, EntityUid, StaticEntity};
pub use crate::error::{DaError, DaResult};
pub use crate::mem::{Bucket, MemRepository};
