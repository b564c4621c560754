//! Entities are the owners of directory trees. An entity is known to the
//! store only by its unique identifier, which partitions the store into
//! isolated per-owner buckets.

use vstd::prelude::*;

verus! {

/// The unique identifier of an entity.
pub type EntityUid = u64;

/// Anything that can identify itself as an entity.
pub trait Entity {
    fn uid(&self) -> EntityUid;
}

/// An entity with a fixed identifier, handy for tests and bootstrap code.
pub struct StaticEntity(pub EntityUid);

impl Entity for StaticEntity {
    fn uid(&self) -> (u: EntityUid)
        ensures
            u == self.0,
    {
        self.0
    }
}

impl StaticEntity {
    /// The conventional root entity, with identifier 0.
    pub fn root() -> (e: Self)
        ensures
            e.0 == 0,
    {
        Self(0)
    }
}

} // verus!
