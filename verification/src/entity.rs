use vstd::prelude::*;

verus! {

/// A bare identifier with no data or logic of its own.
///
/// The numeric `id` is unique among currently-live entities.  Identities are
/// reused after deletion, so every entity also carries a `generation`: a
/// counter bumped each time the identity is retired, so that a stale handle
/// to a deleted entity never passes for the entity that now holds its `id`.
#[derive(Clone, Copy, PartialEq, Eq, Structural, Debug)]
pub struct Entity {
    pub id: usize,
    pub generation: u64,
}

impl Entity {
    pub fn new(id: usize, generation: u64) -> (e: Entity)
        ensures
            e == (Entity { id, generation }),
    {
        Entity { id, generation }
    }
}

/// The lifecycle of an entity, advanced only by the world coordinator:
/// `Building` (exists, not yet visible to systems), `Active` (visible,
/// eligible for aspect matching), `Inactive` (retained but excluded from
/// matching), `Removed` (identity retired, components purged).
#[derive(Clone, Copy, PartialEq, Eq, Structural, Debug)]
pub enum EntityState {
    Building,
    Active,
    Inactive,
    Removed,
}

} // verus!
