//! An entity component system core: identifiers ("entities") gain and lose
//! typed data fragments ("components") over time, and units of logic
//! ("systems") react to membership changes and run per-tick processing over
//! the entities that currently satisfy a filter ("aspect").
//!
//! - An [`Entity`] is just an identifier; it carries no data or logic.
//! - A component is a plain data value attached to at most one live entity
//!   per storage container ([`ComponentList`]).
//! - An [`Aspect`] filters entities by which component types they hold.
//! - A [`System`] records which entities it is interested in and reacts to
//!   lifecycle notifications; the [`SystemManager`] fans those out in
//!   registration order.
//! - The [`World`] coordinates all of the above: it owns entity identity
//!   allocation, the entity state machine, and every mutation path.
//! - An [`InteractSystem`] tracks two independent aspect memberships and
//!   hands both snapshots to a caller-supplied pairwise routine each tick.
//!
//! The accessor types below are the capability handles of the gated-access
//! protocol: each wraps an entity whose lifecycle phase authorizes a set of
//! storage operations, and is handed out by the [`World`] only during that
//! phase ([`World::build_data`], [`World::modify_data`],
//! [`World::entity_data`]).

use vstd::prelude::*;

pub mod aspect;
pub mod component;
pub mod entity;
pub mod error;
pub mod interact;
pub mod system;
pub mod world;

pub use aspect::Aspect;
pub use component::{ComponentList, ComponentManager, StorageStrategy};
pub use entity::{Entity, EntityState};
pub use error::EcsError;
pub use interact::{InteractProcess, InteractSystem};
pub use system::{Notice, ProcessPass, System, SystemKind, SystemManager};
pub use world::{ComponentEdit, World};

verus! {

/// Per-entity storage access during construction: an entity in the building
/// state may be given components without any system being notified.
pub struct BuildData<'a>(pub (crate) &'a Entity);

impl<'a> BuildData<'a> {
    /// The entity this capability was issued for.
    pub closed spec fn entity(self) -> Entity {
        *self.0
    }

    /// Stores a component for the entity, returning the previous value if
    /// any.
    pub fn insert<U>(&self, c: &mut ComponentList<U>, component: U) -> (prev: Option<U>)
        requires
            old(c).well_formed(),
            self.entity().id < usize::MAX,
        ensures
            final(c).well_formed(),
            final(c).strategy() == old(c).strategy(),
            final(c)@ == old(c)@.insert(self.entity().id as int, component),
            prev == if old(c)@.contains_key(self.entity().id as int) {
                Some(old(c)@[self.entity().id as int])
            } else {
                None::<U>
            },
    {
        c.insert(self.0, component)
    }
}

/// Per-entity storage access during a mutation batch: an entity that is
/// building or active may have components stored, read, tested and removed.
pub struct ModifyData<'a>(pub (crate) &'a Entity);

impl<'a> ModifyData<'a> {
    /// The entity this capability was issued for.
    pub closed spec fn entity(self) -> Entity {
        *self.0
    }

    /// Stores a component for the entity, returning the previous value if
    /// any.
    pub fn insert<U>(&self, c: &mut ComponentList<U>, component: U) -> (prev: Option<U>)
        requires
            old(c).well_formed(),
            self.entity().id < usize::MAX,
        ensures
            final(c).well_formed(),
            final(c).strategy() == old(c).strategy(),
            final(c)@ == old(c)@.insert(self.entity().id as int, component),
            prev == if old(c)@.contains_key(self.entity().id as int) {
                Some(old(c)@[self.entity().id as int])
            } else {
                None::<U>
            },
    {
        c.insert(self.0, component)
    }

    /// A borrow of the entity's component, if present.
    pub fn get<'b, U>(&self, c: &'b ComponentList<U>) -> (r: Option<&'b U>)
        requires
            c.well_formed(),
        ensures
            match r {
                Some(value) => c@.contains_key(self.entity().id as int) && *value == c@[
                    self.entity().id as int],
                None => !c@.contains_key(self.entity().id as int),
            },
    {
        c.get(self.0)
    }

    /// Whether the entity holds this component.
    pub fn has<U>(&self, c: &ComponentList<U>) -> (r: bool)
        requires
            c.well_formed(),
        ensures
            r == c@.contains_key(self.entity().id as int),
    {
        c.has(self.0)
    }

    /// Removes and returns the entity's component, if any.
    pub fn remove<U>(&self, c: &mut ComponentList<U>) -> (removed: Option<U>)
        requires
            old(c).well_formed(),
        ensures
            final(c).well_formed(),
            final(c).strategy() == old(c).strategy(),
            final(c)@ == old(c)@.remove(self.entity().id as int),
            removed == if old(c)@.contains_key(self.entity().id as int) {
                Some(old(c)@[self.entity().id as int])
            } else {
                None::<U>
            },
    {
        c.remove(self.0)
    }
}

/// Per-entity storage access during processing: read, test, and borrow
/// mutably — presence itself only changes through the world's mutation
/// operations.
pub struct EntityData<'a>(pub (crate) &'a Entity);

impl<'a> EntityData<'a> {
    /// The entity this capability was issued for.
    pub closed spec fn entity(self) -> Entity {
        *self.0
    }

    /// A borrow of the wrapped entity handle.
    pub fn entity_ref(&self) -> (entity: &'a Entity)
        ensures
            *entity == self.entity(),
    {
        self.0
    }

    /// A borrow of the entity's component, if present.
    pub fn get<'b, U>(&self, c: &'b ComponentList<U>) -> (r: Option<&'b U>)
        requires
            c.well_formed(),
        ensures
            match r {
                Some(value) => c@.contains_key(self.entity().id as int) && *value == c@[
                    self.entity().id as int],
                None => !c@.contains_key(self.entity().id as int),
            },
    {
        c.get(self.0)
    }

    /// A mutable borrow of the entity's component, if present; the value may
    /// be replaced in place, never added or removed.
    pub fn borrow<'b, U>(&self, c: &'b mut ComponentList<U>) -> (r: Option<&'b mut U>)
        requires
            old(c).well_formed(),
        ensures
            final(c).well_formed(),
            final(c).strategy() == old(c).strategy(),
            r is Some <==> old(c)@.contains_key(self.entity().id as int),
            r is None ==> final(c)@ == old(c)@,
            r is Some ==> *r.unwrap() == old(c)@[self.entity().id as int] && final(c)@ == old(
                c,
            )@.insert(self.entity().id as int, *final(r.unwrap())),
    {
        c.borrow(self.0)
    }

    /// Whether the entity holds this component.
    pub fn has<U>(&self, c: &ComponentList<U>) -> (r: bool)
        requires
            c.well_formed(),
        ensures
            r == c@.contains_key(self.entity().id as int),
    {
        c.has(self.0)
    }
}

} // verus!
