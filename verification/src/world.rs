use vstd::prelude::*;
use vstd::pervasive::VecAdditionalExecFns;

use crate::component::ComponentManager;
use crate::entity::{Entity, EntityState};
use crate::error::EcsError;
use crate::system::{
    activated_post, deactivated_post, reactivated_post, update_plan, ProcessPass, System,
    SystemManager,
};

verus! {

/// One component edit inside a mutation batch: store a value of a component
/// type, or take the value of a component type away.
pub enum ComponentEdit<T> {
    Insert(usize, T),
    Remove(usize),
}

impl<T> ComponentEdit<T> {
    /// The component type the edit touches.
    pub open spec fn edit_type(self) -> int {
        match self {
            ComponentEdit::Insert(t, _) => t as int,
            ComponentEdit::Remove(t) => t as int,
        }
    }
}

/// What one edit does to the storage bundle's contents, at the given entity
/// identity.
pub open spec fn apply_edit<T>(v: Seq<Map<int, T>>, edit: ComponentEdit<T>, id: int) -> Seq<
    Map<int, T>,
> {
    match edit {
        ComponentEdit::Insert(t, c) => if 0 <= t < v.len() {
            v.update(t as int, v[t as int].insert(id, c))
        } else {
            v
        },
        ComponentEdit::Remove(t) => if 0 <= t < v.len() {
            v.update(t as int, v[t as int].remove(id))
        } else {
            v
        },
    }
}

/// What a whole batch of edits, applied in order, does to the storage
/// bundle's contents.
pub open spec fn apply_edits<T>(v: Seq<Map<int, T>>, edits: Seq<ComponentEdit<T>>, id: int) -> Seq<
    Map<int, T>,
>
    decreases edits.len(),
{
    if edits.len() == 0 {
        v
    } else {
        apply_edit(apply_edits(v, edits.drop_last(), id), edits.last(), id)
    }
}

/// A batch of edits only ever touches the entity it was made for: every
/// other identity keeps exactly the component types it had.
pub proof fn lemma_apply_edits_frame<T>(v: Seq<Map<int, T>>, edits: Seq<ComponentEdit<T>>, id: int)
    ensures
        apply_edits(v, edits, id).len() == v.len(),
        forall|t: int, x: int|
            0 <= t < v.len() && x != id ==> (#[trigger] apply_edits(v, edits, id)[t].contains_key(
                x,
            ) == v[t].contains_key(x)),
    decreases edits.len(),
{
    if edits.len() > 0 {
        lemma_apply_edits_frame(v, edits.drop_last(), id);
        let w = apply_edits(v, edits.drop_last(), id);
        assert forall|t: int, x: int| 0 <= t < v.len() && x != id implies (
        #[trigger] apply_edits(v, edits, id)[t].contains_key(x) == v[t].contains_key(x)) by {
            assert(w[t].contains_key(x) == v[t].contains_key(x));
        }
    }
}

/// The world coordinator: owns entity identity allocation and reuse, the
/// entity state table, the component storage bundle, and the system manager,
/// and mediates every mutation path between them.
///
/// Its central invariant ties the three together: a system records interest
/// in exactly the active entities whose composition matches its aspect, and
/// every recorded handle carries the identity's current generation.
pub struct World<T> {
    next_id: usize,
    generations: Vec<u64>,
    states: Vec<EntityState>,
    free: Vec<usize>,
    components: ComponentManager<T>,
    systems: SystemManager,
}

impl<T> World<T> {
    /// How many identities have ever been allocated.
    pub closed spec fn num_ids(self) -> int {
        self.next_id as int
    }

    /// The lifecycle state of an identity.
    pub closed spec fn state_of(self, id: int) -> EntityState {
        self.states@[id]
    }

    /// The generation currently carried by an identity.
    pub closed spec fn generation_of(self, id: int) -> int {
        self.generations@[id] as int
    }

    /// The identities waiting on the free-list for reuse.
    pub closed spec fn free_ids(self) -> Set<int> {
        Set::new(|k: int| exists|j: int| 0 <= j < self.free@.len() && self.free@[j] == k)
    }

    /// The component storage bundle.
    pub closed spec fn storage(self) -> ComponentManager<T> {
        self.components
    }

    /// The registered systems, in registration order.
    pub closed spec fn systems_view(self) -> Seq<System> {
        self.systems@
    }

    /// A handle is valid while it names a live identity with the identity's
    /// current generation; a handle to a removed entity, or one kept across
    /// a reuse of its identity, is invalid.
    pub open spec fn valid(self, e: Entity) -> bool {
        &&& 0 <= e.id < self.num_ids()
        &&& self.generation_of(e.id as int) == e.generation as int
        &&& !(self.state_of(e.id as int) is Removed)
    }

    /// Identity space is exhausted: nothing on the free-list and the counter
    /// spent. Entity creation must stop.
    pub open spec fn exhausted(self) -> bool {
        self.free_ids().is_empty() && self.num_ids() == usize::MAX
    }

    /// One system's bookkeeping agrees with the world: it records interest
    /// in exactly the active entities matching its aspect, under their
    /// current generation.
    pub open spec fn system_ok(self, s: System) -> bool {
        &&& forall|x: Entity| #[trigger]
            s.members().contains(x) ==> 0 <= x.id < self.num_ids() && self.state_of(
                x.id as int,
            ) is Active && self.generation_of(x.id as int) == x.generation as int
                && s.aspect().matches(self.storage().present_types(x.id as int))
        &&& forall|id: int|
            0 <= id < self.num_ids() && self.state_of(id) is Active && s.aspect().matches(
                self.storage().present_types(id),
            ) ==> #[trigger] s.member_ids().contains(id)
    }

    /// The coordinator's invariant, established by `new` and preserved by
    /// every operation.
    pub closed spec fn wf(self) -> bool {
        &&& self.states@.len() == self.num_ids()
        &&& self.generations@.len() == self.num_ids()
        &&& self.components.well_formed()
        &&& self.systems.well_formed()
        &&& forall|j: int|
            0 <= j < self.free@.len() ==> (#[trigger] self.free@[j]) < self.next_id
                && self.states@[self.free@[j] as int] is Removed
        &&& forall|a: int, b: int| 0 <= a < b < self.free@.len() ==> self.free@[a] != self.free@[b]
        &&& forall|i: int|
            0 <= i < self.systems_view().len() ==> self.system_ok(#[trigger] self.systems_view()[i])
    }

    /// A world over a configured storage bundle and system collection, with
    /// no entities yet. Configuration is a one-time wiring step: systems are
    /// registered before the first entity exists, so no membership has been
    /// missed.
    pub fn new(components: ComponentManager<T>, systems: SystemManager) -> (world: World<T>)
        requires
            components.well_formed(),
            systems.well_formed(),
            forall|i: int| 0 <= i < systems@.len() ==> (#[trigger] systems@[i]).members().len() == 0,
        ensures
            world.wf(),
            world.num_ids() == 0,
            world.storage() == components,
            world.systems_view() == systems@,
    {
        let world = World {
            next_id: 0,
            generations: Vec::new(),
            states: Vec::new(),
            free: Vec::new(),
            components,
            systems,
        };
        proof {
            assert forall|i: int| 0 <= i < world.systems_view().len() implies world.system_ok(
                #[trigger] world.systems_view()[i],
            ) by {
                let s = world.systems_view()[i];
                assert(s.members().len() == 0);
                assert forall|x: Entity| #[trigger] s.members().contains(x) implies false by {
                    let j = choose|j: int| 0 <= j < s.members().len() && s.members()[j] == x;
                }
                assert forall|id: int|
                    0 <= id < world.num_ids() && world.state_of(id) is Active && s.aspect().matches(
                        world.storage().present_types(id),
                    ) implies #[trigger] s.member_ids().contains(id) by {}
            }
        }
        world
    }

    /// Whether the handle names a live entity under its current generation.
    pub fn is_valid(&self, entity: &Entity) -> (r: bool)
        requires
            self.wf(),
        ensures
            r == self.valid(*entity),
    {
        entity.id < self.next_id && self.generations[entity.id] == entity.generation
            && self.states[entity.id] != EntityState::Removed
    }

    /// Read access to the component storage bundle, well-formed whenever the
    /// world is: aspects and interaction coordinators can be evaluated
    /// against it directly. All mutation goes through the world's own
    /// operations.
    pub fn storage_ref(&self) -> (components: &ComponentManager<T>)
        ensures
            *components == self.storage(),
            self.wf() ==> components.well_formed(),
    {
        &self.components
    }

    /// How many systems are registered.
    pub fn n_systems(&self) -> (n: usize)
        ensures
            n == self.systems_view().len(),
    {
        self.systems.n_systems()
    }

    /// A borrow of the system at the given registration index.
    pub fn system(&self, index: usize) -> (system: &System)
        requires
            index < self.systems_view().len(),
        ensures
            *system == self.systems_view()[index as int],
    {
        self.systems.system(index)
    }

    /// Toggles a system's enable flag. Only the update pass consults the
    /// flag: lifecycle notifications keep arriving while it is off.
    pub fn set_system_active(&mut self, index: usize, active: bool)
        requires
            old(self).wf(),
            index < old(self).systems_view().len(),
        ensures
            final(self).wf(),
            final(self).systems_view().len() == old(self).systems_view().len(),
            final(self).systems_view()[index as int].enabled() == active,
            final(self).systems_view()[index as int].aspect() == old(self).systems_view()[
                index as int].aspect(),
            final(self).systems_view()[index as int].kind() == old(self).systems_view()[
                index as int].kind(),
            final(self).systems_view()[index as int].members() == old(self).systems_view()[
                index as int].members(),
            final(self).systems_view()[index as int].notices() == old(self).systems_view()[
                index as int].notices(),
            forall|j: int|
                0 <= j < old(self).systems_view().len() && j != index
                    ==> final(self).systems_view()[j] == old(self).systems_view()[j],
            final(self).num_ids() == old(self).num_ids(),
            final(self).storage() == old(self).storage(),
            forall|id: int|
                0 <= id < old(self).num_ids() ==> final(self).state_of(id) == old(self).state_of(
                    id,
                ) && final(self).generation_of(id) == old(self).generation_of(id),
    {
        self.systems.set_system_active(index, active);
        proof {
            assert forall|i: int| 0 <= i < self.systems_view().len() implies self.system_ok(
                #[trigger] self.systems_view()[i],
            ) by {
                let s = self.systems_view()[i];
                if i == index {
                    let pre = old(self).systems_view()[i];
                    assert(old(self).system_ok(pre));
                    assert(s.members() == pre.members());
                    assert(s.member_ids() =~= pre.member_ids());
                } else {
                    assert(s == old(self).systems_view()[i]);
                    assert(old(self).system_ok(s));
                }
            }
        }
    }

    /// The per-tick update pass: one membership snapshot per enabled active
    /// system, in registration order; disabled and passive systems are
    /// skipped. The caller runs its processing logic over the snapshots.
    pub fn update(&self) -> (passes: Vec<ProcessPass>)
        ensures
            passes@.len() == update_plan(self.systems_view()).len(),
            forall|j: int|
                0 <= j < passes@.len() ==> #[trigger] passes@[j].system == update_plan(
                    self.systems_view(),
                )[j] && passes@[j].system < self.systems_view().len() && passes@[j].entities@
                    == self.systems_view()[update_plan(self.systems_view())[j]].members(),
    {
        self.systems.update()
    }

    /// Allocates an entity in the building state: it exists, may be given
    /// components, but is not yet visible to systems. The identity is a
    /// fresh one, or one taken from the free-list under its bumped
    /// generation, so no stale handle can name the new entity.
    pub fn create_entity(&mut self) -> (r: Result<Entity, EcsError>)
        requires
            old(self).wf(),
        ensures
            final(self).wf(),
            final(self).storage() == old(self).storage(),
            final(self).systems_view() == old(self).systems_view(),
            r is Err <==> old(self).exhausted(),
            r is Err ==> r == Err::<Entity, EcsError>(EcsError::IdentityExhausted) && *final(self)
                == *old(self),
            r matches Ok(e) ==> create_transition(*old(self), *final(self), e),
    {
        proof {
            if old(self).free@.len() > 0 {
                assert(old(self).free_ids().contains(old(self).free@[0] as int));
                assert(!old(self).free_ids().is_empty());
            } else {
                assert(old(self).free_ids() =~= Set::<int>::empty());
            }
        }
        if self.free.len() > 0 {
            let id = self.free.pop().unwrap();
            let generation = self.generations[id];
            proof {
                assert(old(self).free@[old(self).free@.len() - 1] == id);
                assert(old(self).free_ids().contains(id as int));
            }
            self.states.set(id, EntityState::Building);
            let entity = Entity::new(id, generation);
            proof {
                self.lemma_create_preserves(*old(self), entity);
                assert forall|k: int| #[trigger] self.free_ids().contains(k) implies old(self).free_ids().remove(id as int).contains(k) by {
                    let j = choose|j: int| 0 <= j < self.free@.len() && self.free@[j] == k;
                    assert(old(self).free@[j] == k);
                }
                assert forall|k: int|
                    old(self).free_ids().remove(id as int).contains(k) implies
                    #[trigger] self.free_ids().contains(k) by {
                    let j = choose|j: int|
                        0 <= j < old(self).free@.len() && old(self).free@[j] == k;
                    assert(j < old(self).free@.len() - 1);
                    assert(self.free@[j] == k);
                }
                assert(self.free_ids() =~= old(self).free_ids().remove(id as int));
            }
            Ok(entity)
        } else if self.next_id < usize::MAX {
            let id = self.next_id;
            self.next_id = id + 1;
            self.states.push(EntityState::Building);
            self.generations.push(0);
            let entity = Entity::new(id, 0);
            proof {
                self.lemma_create_preserves(*old(self), entity);
                assert forall|k: int| #[trigger] self.free_ids().contains(k) <==> old(self).free_ids().remove(id as int).contains(k) by {}
                assert(self.free_ids() =~= old(self).free_ids().remove(id as int));
            }
            Ok(entity)
        } else {
            Err(EcsError::IdentityExhausted)
        }
    }

    proof fn lemma_create_preserves(&self, pre: World<T>, e: Entity)
        requires
            pre.wf(),
            self.num_ids() == pre.num_ids() || self.num_ids() == pre.num_ids() + 1,
            self.states@.len() == self.num_ids(),
            self.generations@.len() == self.num_ids(),
            self.components == pre.components,
            self.systems == pre.systems,
            0 <= e.id < self.num_ids(),
            self.state_of(e.id as int) is Building,
            forall|id: int|
                0 <= id < pre.num_ids() && id != e.id ==> self.state_of(id) == pre.state_of(id)
                    && self.generation_of(id) == pre.generation_of(id),
            !(pre.num_ids() > e.id && pre.state_of(e.id as int) is Active),
            self.num_ids() == pre.num_ids() + 1 ==> e.id == pre.num_ids(),
        ensures
            forall|i: int|
                0 <= i < self.systems_view().len() ==> self.system_ok(
                    #[trigger] self.systems_view()[i],
                ),
    {
        assert forall|i: int| 0 <= i < self.systems_view().len() implies self.system_ok(
            #[trigger] self.systems_view()[i],
        ) by {
            let s = self.systems_view()[i];
            assert(s == pre.systems_view()[i]);
            assert(pre.system_ok(s));
            assert forall|x: Entity| #[trigger] s.members().contains(x) implies 0 <= x.id
                < self.num_ids() && self.state_of(x.id as int) is Active && self.generation_of(
                x.id as int,
            ) == x.generation as int && s.aspect().matches(
                self.storage().present_types(x.id as int),
            ) by {
                assert(pre.state_of(x.id as int) is Active);
                assert(x.id != e.id);
            }
            assert forall|id: int|
                0 <= id < self.num_ids() && self.state_of(id) is Active && s.aspect().matches(
                    self.storage().present_types(id),
                ) implies #[trigger] s.member_ids().contains(id) by {
                assert(id != e.id);
                assert(id < pre.num_ids());
            }
        }
    }

    /// Building or inactive becomes active: the entity turns visible to
    /// systems, and one `activated` notification fans out to every system in
    /// registration order. Activating an already-active entity fails with a
    /// duplicate-activation error; an invalid handle fails with an
    /// invalid-entity error. A failed call changes nothing.
    pub fn activate_entity(&mut self, entity: &Entity) -> (r: Result<(), EcsError>)
        requires
            old(self).wf(),
        ensures
            final(self).wf(),
            r is Err ==> *final(self) == *old(self),
            r == Err::<(), EcsError>(EcsError::InvalidEntity) <==> !old(self).valid(*entity),
            r == Err::<(), EcsError>(EcsError::DuplicateActivation) <==> old(self).valid(*entity)
                && old(self).state_of(entity.id as int) is Active,
            r is Ok <==> old(self).valid(*entity) && !(old(self).state_of(
                entity.id as int,
            ) is Active),
            r is Ok ==> final(self).state_of(entity.id as int) is Active && final(self).num_ids()
                == old(self).num_ids() && final(self).storage() == old(self).storage() && final(self).free_ids() == old(self).free_ids() && final(self).systems_view().len() == old(self).systems_view().len() && (forall|id: int|
                0 <= id < old(self).num_ids() && id != entity.id ==> final(self).state_of(id)
                    == old(self).state_of(id)) && (forall|id: int|
                0 <= id < old(self).num_ids() ==> final(self).generation_of(id) == old(self).generation_of(id)) && (forall|i: int|
                0 <= i < old(self).systems_view().len() ==> activated_post(
                    old(self).systems_view()[i],
                    #[trigger] final(self).systems_view()[i],
                    *entity,
                    old(self).storage().present_types(entity.id as int),
                )),
    {
        if !self.is_valid(entity) {
            return Err(EcsError::InvalidEntity);
        }
        if self.states[entity.id] == EntityState::Active {
            return Err(EcsError::DuplicateActivation);
        }
        self.states.set(entity.id, EntityState::Active);
        self.systems.activated(entity, &self.components);
        proof {
            self.lemma_state_change_preserves(
                *old(self),
                *entity,
                old(self).storage().present_types(entity.id as int),
            );
            assert(self.free_ids() =~= old(self).free_ids());
        }
        Ok(())
    }

    /// Active becomes inactive: the entity is retained but excluded from
    /// matching, and one `deactivated` notification fans out to every system
    /// in registration order. Anything but a valid active entity fails with
    /// an invalid-entity error and changes nothing.
    pub fn deactivate_entity(&mut self, entity: &Entity) -> (r: Result<(), EcsError>)
        requires
            old(self).wf(),
        ensures
            final(self).wf(),
            r is Err ==> *final(self) == *old(self) && r == Err::<(), EcsError>(
                EcsError::InvalidEntity,
            ),
            r is Ok <==> old(self).valid(*entity) && old(self).state_of(
                entity.id as int,
            ) is Active,
            r is Ok ==> final(self).state_of(entity.id as int) is Inactive && final(self).num_ids() == old(self).num_ids() && final(self).storage() == old(self).storage()
                && final(self).free_ids() == old(self).free_ids() && final(self).systems_view().len() == old(self).systems_view().len() && (forall|id: int|
                0 <= id < old(self).num_ids() && id != entity.id ==> final(self).state_of(id)
                    == old(self).state_of(id)) && (forall|id: int|
                0 <= id < old(self).num_ids() ==> final(self).generation_of(id) == old(self).generation_of(id)) && (forall|i: int|
                0 <= i < old(self).systems_view().len() ==> deactivated_post(
                    old(self).systems_view()[i],
                    #[trigger] final(self).systems_view()[i],
                    *entity,
                )),
    {
        if !self.is_valid(entity) {
            return Err(EcsError::InvalidEntity);
        }
        if self.states[entity.id] != EntityState::Active {
            return Err(EcsError::InvalidEntity);
        }
        self.states.set(entity.id, EntityState::Inactive);
        self.systems.deactivated(entity);
        proof {
            self.lemma_state_change_preserves(
                *old(self),
                *entity,
                old(self).storage().present_types(entity.id as int),
            );
            assert(self.free_ids() =~= old(self).free_ids());
        }
        Ok(())
    }

    /// After a state flip of one live entity plus the matching fan-out, the
    /// membership invariant holds again.
    proof fn lemma_state_change_preserves(&self, pre: World<T>, e: Entity, present: Set<int>)
        requires
            pre.wf(),
            pre.valid(e),
            present == pre.storage().present_types(e.id as int),
            self.num_ids() == pre.num_ids(),
            self.states@.len() == self.num_ids(),
            self.generations@ == pre.generations@,
            self.free@ == pre.free@,
            self.components == pre.components,
            self.systems@.len() == pre.systems@.len(),
            self.systems.well_formed(),
            forall|id: int|
                0 <= id < pre.num_ids() && id != e.id ==> self.state_of(id) == pre.state_of(id),
            // the flip goes either into or out of the active state, matched
            // by the fan-out every system received
            (pre.state_of(e.id as int) !is Active && self.state_of(e.id as int) is Active && forall|
                i: int,
            |
                0 <= i < pre.systems_view().len() ==> activated_post(
                    pre.systems_view()[i],
                    #[trigger] self.systems_view()[i],
                    e,
                    present,
                )) || (pre.state_of(e.id as int) is Active && self.state_of(
                e.id as int,
            ) !is Active && forall|i: int|
                0 <= i < pre.systems_view().len() ==> deactivated_post(
                    pre.systems_view()[i],
                    #[trigger] self.systems_view()[i],
                    e,
                )),
        ensures
            self.wf(),
    {
        assert forall|j: int| 0 <= j < self.free@.len() implies (#[trigger] self.free@[j])
            < self.next_id && self.states@[self.free@[j] as int] is Removed by {
            assert(self.free@[j] == pre.free@[j]);
            assert(pre.free@[j] < pre.next_id && pre.states@[pre.free@[j] as int] is Removed);
            assert(pre.free@[j] != e.id);
            assert(self.state_of(pre.free@[j] as int) == pre.state_of(pre.free@[j] as int));
            assert(self.next_id == pre.next_id);
        }
        assert forall|i: int| 0 <= i < self.systems_view().len() implies self.system_ok(
            #[trigger] self.systems_view()[i],
        ) by {
            let s = self.systems_view()[i];
            let p = pre.systems_view()[i];
            assert(pre.system_ok(p));
            if pre.state_of(e.id as int) !is Active {
                // activation: e joins exactly the matching systems
                assert(activated_post(p, s, e, present));
                assert(!p.member_ids().contains(e.id as int)) by {
                    if p.member_ids().contains(e.id as int) {
                        let j = choose|j: int|
                            0 <= j < p.members().len() && p.members()[j].id == e.id as int;
                        assert(p.members().contains(p.members()[j]));
                    }
                }
                assert forall|x: Entity| #[trigger] s.members().contains(x) implies 0 <= x.id
                    < self.num_ids() && self.state_of(x.id as int) is Active
                    && self.generation_of(x.id as int) == x.generation as int
                    && s.aspect().matches(self.storage().present_types(x.id as int)) by {
                    if p.members().contains(x) {
                        assert(x.id != e.id);
                    } else {
                        assert(x == e);
                        assert(s.member_ids().contains(e.id as int)) by {
                            let j = choose|j: int|
                                0 <= j < s.members().len() && s.members()[j] == x;
                            assert(s.members()[j].id == e.id as int);
                        }
                        assert(p.aspect().matches(present));
                    }
                }
                assert forall|id: int|
                    0 <= id < self.num_ids() && self.state_of(id) is Active
                        && s.aspect().matches(self.storage().present_types(id)) implies
                    #[trigger] s.member_ids().contains(id) by {
                    if id == e.id as int {
                        assert(s.member_ids() == p.member_ids().insert(e.id as int));
                    } else {
                        assert(p.member_ids().contains(id));
                    }
                }
            } else {
                // deactivation: e leaves every system
                assert(deactivated_post(p, s, e));
                assert forall|x: Entity| #[trigger] s.members().contains(x) implies 0 <= x.id
                    < self.num_ids() && self.state_of(x.id as int) is Active
                    && self.generation_of(x.id as int) == x.generation as int
                    && s.aspect().matches(self.storage().present_types(x.id as int)) by {
                    assert(p.members().contains(x));
                    assert(x.id != e.id) by {
                        if x.id == e.id {
                            let j = choose|j: int|
                                0 <= j < s.members().len() && s.members()[j] == x;
                            assert(s.members()[j].id == e.id as int);
                            assert(s.member_ids().contains(e.id as int));
                        }
                    }
                }
                assert forall|id: int|
                    0 <= id < self.num_ids() && self.state_of(id) is Active
                        && s.aspect().matches(self.storage().present_types(id)) implies
                    #[trigger] s.member_ids().contains(id) by {
                    assert(id != e.id);
                    assert(p.member_ids().contains(id));
                }
            }
        }
    }

    /// Applies a batch of component edits to a building or active entity, in
    /// order. If the entity is active, exactly one `reactivated`
    /// notification fans out to every system after the whole batch — never
    /// one per edit — so systems see only the net composition change; a
    /// building entity is edited silently. An invalid handle, or an inactive
    /// or removed entity, fails with an invalid-entity error; an edit naming
    /// an undeclared component type fails with a component-access error.
    /// A failed call changes nothing.
    #[verifier::loop_isolation(false)]
    pub fn modify_entity(&mut self, entity: &Entity, edits: Vec<ComponentEdit<T>>) -> (r: Result<
        (),
        EcsError,
    >)
        requires
            old(self).wf(),
        ensures
            final(self).wf(),
            r is Err ==> *final(self) == *old(self),
            r == Err::<(), EcsError>(EcsError::InvalidEntity) <==> !(old(self).valid(*entity) && (
            old(self).state_of(entity.id as int) is Building || old(self).state_of(
                entity.id as int,
            ) is Active)),
            r == Err::<(), EcsError>(EcsError::ComponentAccess) <==> (old(self).valid(*entity) && (
            old(self).state_of(entity.id as int) is Building || old(self).state_of(
                entity.id as int,
            ) is Active) && exists|j: int|
                0 <= j < edits@.len() && !(0 <= (#[trigger] edits@[j].edit_type())
                    < old(self).storage()@.len())),
            r is Ok <==> (old(self).valid(*entity) && (old(self).state_of(
                entity.id as int,
            ) is Building || old(self).state_of(entity.id as int) is Active) && forall|j: int|
                0 <= j < edits@.len() ==> 0 <= (#[trigger] edits@[j].edit_type())
                    < old(self).storage()@.len()),
            r is Ok ==> final(self).storage()@ == apply_edits(
                old(self).storage()@,
                edits@,
                entity.id as int,
            ) && final(self).num_ids() == old(self).num_ids() && final(self).free_ids() == old(self).free_ids() && (forall|id: int|
                0 <= id < old(self).num_ids() ==> final(self).state_of(id) == old(self).state_of(
                    id,
                ) && final(self).generation_of(id) == old(self).generation_of(id)) && final(self).systems_view().len() == old(self).systems_view().len(),
            r is Ok && old(self).state_of(entity.id as int) is Active ==> forall|i: int|
                0 <= i < old(self).systems_view().len() ==> reactivated_post(
                    old(self).systems_view()[i],
                    #[trigger] final(self).systems_view()[i],
                    *entity,
                    final(self).storage().present_types(entity.id as int),
                ),
            r is Ok && old(self).state_of(entity.id as int) is Building ==> final(self).systems_view() == old(self).systems_view(),
    {
        if !self.is_valid(entity) {
            return Err(EcsError::InvalidEntity);
        }
        let state = self.states[entity.id];
        if !(state == EntityState::Building || state == EntityState::Active) {
            return Err(EcsError::InvalidEntity);
        }
        let n_types = self.components.n_types();
        let mut j: usize = 0;
        while j < edits.len()
            invariant
                0 <= j <= edits@.len(),
                forall|k: int| 0 <= k < j ==> 0 <= (#[trigger] edits@[k].edit_type()) < n_types,
            decreases edits@.len() - j,
        {
            let t = match &edits[j] {
                ComponentEdit::Insert(t, _) => *t,
                ComponentEdit::Remove(t) => *t,
            };
            if t >= n_types {
                proof {
                    assert(!(0 <= edits@[j as int].edit_type() < old(self).storage()@.len()));
                }
                return Err(EcsError::ComponentAccess);
            }
            j += 1;
        }
        let ghost orig_edits = edits@;
        let ghost base = self.components@;
        let mut edits = edits;
        while edits.len() > 0
            invariant
                edits@.len() <= orig_edits.len(),
                edits@ == orig_edits.skip(orig_edits.len() - edits@.len()),
                forall|k: int|
                    0 <= k < orig_edits.len() ==> 0 <= (#[trigger] orig_edits[k].edit_type())
                        < base.len(),
                base.len() == old(self).storage()@.len(),
                self.components@.len() == base.len(),
                self.components.well_formed(),
                self.components@ == apply_edits(
                    base,
                    orig_edits.take(orig_edits.len() - edits@.len()),
                    entity.id as int,
                ),
                self.next_id == old(self).next_id,
                self.states@ == old(self).states@,
                self.generations@ == old(self).generations@,
                self.free@ == old(self).free@,
                self.systems == old(self).systems,
            decreases edits@.len(),
        {
            let ghost k = orig_edits.len() - edits@.len();
            let ghost pre_view = self.components@;
            let edit = edits.remove(0);
            proof {
                assert(edit == orig_edits[k]);
                assert(edits@ =~= orig_edits.skip(k + 1));
                assert(orig_edits.take(k + 1).drop_last() =~= orig_edits.take(k));
                assert(orig_edits.take(k + 1).last() == orig_edits[k]);
                assert(entity.id < usize::MAX);
            }
            match edit {
                ComponentEdit::Insert(t, c) => {
                    let prev = self.components.insert(t, entity, c);
                },
                ComponentEdit::Remove(t) => {
                    let removed = self.components.remove(t, entity);
                },
            }
            proof {
                assert(self.components@ == apply_edit(
                    pre_view,
                    orig_edits[k],
                    entity.id as int,
                ));
            }
        }
        proof {
            assert(orig_edits.take(orig_edits.len() as int) =~= orig_edits);
        }
        if state == EntityState::Active {
            self.systems.reactivated(entity, &self.components);
        }
        proof {
            lemma_apply_edits_frame(base, orig_edits, entity.id as int);
            self.lemma_modify_preserves(*old(self), *entity);
            assert(self.free_ids() =~= old(self).free_ids());
        }
        Ok(())
    }

    /// After a batch of edits at one live entity plus the matching fan-out,
    /// the membership invariant holds again.
    proof fn lemma_modify_preserves(&self, pre: World<T>, e: Entity)
        requires
            pre.wf(),
            pre.valid(e),
            self.next_id == pre.next_id,
            self.states@ == pre.states@,
            self.generations@ == pre.generations@,
            self.free@ == pre.free@,
            self.components.well_formed(),
            self.components@.len() == pre.components@.len(),
            forall|t: int, x: int|
                0 <= t < pre.components@.len() && x != e.id ==> (
                #[trigger] self.components@[t].contains_key(x)) == pre.components@[t].contains_key(
                    x,
                ),
            self.systems.well_formed(),
            self.systems@.len() == pre.systems@.len(),
            (pre.state_of(e.id as int) is Active && forall|i: int|
                0 <= i < pre.systems_view().len() ==> reactivated_post(
                    pre.systems_view()[i],
                    #[trigger] self.systems_view()[i],
                    e,
                    self.storage().present_types(e.id as int),
                )) || (!(pre.state_of(e.id as int) is Active) && self.systems == pre.systems),
        ensures
            self.wf(),
    {
        let id = e.id as int;
        assert forall|x: int| x != id implies self.storage().present_types(x)
            == pre.storage().present_types(x) by {
            assert(self.storage().present_types(x) =~= pre.storage().present_types(x));
        }
        assert forall|i: int| 0 <= i < self.systems_view().len() implies self.system_ok(
            #[trigger] self.systems_view()[i],
        ) by {
            let s = self.systems_view()[i];
            let p = pre.systems_view()[i];
            assert(p == pre.systems_view()[i]);
            assert(pre.system_ok(p));
            if pre.state_of(id) is Active {
                let present = self.storage().present_types(id);
                assert(reactivated_post(p, s, e, present));
                assert forall|x: Entity| #[trigger] s.members().contains(x) implies 0 <= x.id
                    < self.num_ids() && self.state_of(x.id as int) is Active
                    && self.generation_of(x.id as int) == x.generation as int
                    && s.aspect().matches(self.storage().present_types(x.id as int)) by {
                    if x.id as int == id {
                        assert(s.member_ids().contains(id)) by {
                            let j = choose|j: int|
                                0 <= j < s.members().len() && s.members()[j] == x;
                            assert(s.members()[j].id == e.id);
                        }
                        assert(p.aspect().matches(present));
                        if p.members().contains(x) {
                        } else {
                            assert(x == e);
                        }
                    } else {
                        assert(p.members().contains(x));
                    }
                }
                assert forall|x: int|
                    0 <= x < self.num_ids() && self.state_of(x) is Active && s.aspect().matches(
                        self.storage().present_types(x),
                    ) implies #[trigger] s.member_ids().contains(x) by {
                    if x == id {
                        assert(s.member_ids() == p.member_ids().insert(id));
                    } else {
                        assert(p.member_ids().contains(x));
                    }
                }
            } else {
                assert(s == p);
                assert forall|x: Entity| #[trigger] s.members().contains(x) implies 0 <= x.id
                    < self.num_ids() && self.state_of(x.id as int) is Active
                    && self.generation_of(x.id as int) == x.generation as int
                    && s.aspect().matches(self.storage().present_types(x.id as int)) by {
                    assert(x.id as int != id);
                }
                assert forall|x: int|
                    0 <= x < self.num_ids() && self.state_of(x) is Active && s.aspect().matches(
                        self.storage().present_types(x),
                    ) implies #[trigger] s.member_ids().contains(x) by {
                    assert(x != id);
                    assert(s.aspect().matches(pre.storage().present_types(x)));
                }
            }
        }
    }


    /// Removes a live entity: if it was active, one `deactivated`
    /// notification fans out to every system first, so in-flight bookkeeping
    /// never sees a half-destroyed entity; then every component is purged
    /// and the identity is retired to the free-list under a bumped
    /// generation. Afterwards no component type reports the entity present
    /// and no system records interest in it, and the handle is invalid for
    /// good. An invalid handle fails with an invalid-entity error and
    /// changes nothing.
    pub fn delete_entity(&mut self, entity: &Entity) -> (r: Result<(), EcsError>)
        requires
            old(self).wf(),
        ensures
            final(self).wf(),
            r is Err ==> *final(self) == *old(self) && r == Err::<(), EcsError>(
                EcsError::InvalidEntity,
            ),
            r is Ok <==> old(self).valid(*entity),
            r is Ok ==> delete_transition(*old(self), *final(self), *entity),
            r is Ok ==> forall|t: int|
                0 <= t < old(self).storage()@.len() ==> !(#[trigger] final(self).storage()@[t].contains_key(entity.id as int)),
            r is Ok ==> forall|i: int|
                0 <= i < old(self).systems_view().len() ==> !(#[trigger] final(self).systems_view()[i].member_ids().contains(entity.id as int)),
            r is Ok && old(self).state_of(entity.id as int) is Active ==> forall|i: int|
                0 <= i < old(self).systems_view().len() ==> deactivated_post(
                    old(self).systems_view()[i],
                    #[trigger] final(self).systems_view()[i],
                    *entity,
                ),
            r is Ok && !(old(self).state_of(entity.id as int) is Active) ==> final(self).systems_view() == old(self).systems_view(),
    {
        if !self.is_valid(entity) {
            return Err(EcsError::InvalidEntity);
        }
        let was_active = self.states[entity.id] == EntityState::Active;
        if was_active {
            self.systems.deactivated(entity);
        }
        self.components.remove_all(entity);
        self.states.set(entity.id, EntityState::Removed);
        let generation = self.generations[entity.id];
        if generation < u64::MAX {
            self.generations.set(entity.id, generation + 1);
            proof {
                assert forall|j: int| 0 <= j < self.free@.len() implies self.free@[j]
                    != entity.id by {
                    assert(old(self).states@[old(self).free@[j] as int] is Removed);
                }
                assert(!self.free_ids().contains(entity.id as int)) by {
                    if self.free_ids().contains(entity.id as int) {
                        let j = choose|j: int|
                            0 <= j < self.free@.len() && self.free@[j] == entity.id as int;
                    }
                }
            }
            self.free.push(entity.id);
            proof {
                assert forall|k: int| #[trigger] self.free_ids().contains(k) <==> (old(self).free_ids().contains(k) || k == entity.id as int) by {
                    if old(self).free_ids().contains(k) {
                        let j = choose|j: int|
                            0 <= j < old(self).free@.len() && old(self).free@[j] == k;
                        assert(self.free@[j] == k);
                    }
                    if k == entity.id as int {
                        assert(self.free@[self.free@.len() - 1] == k);
                    }
                    if self.free_ids().contains(k) && k != entity.id as int {
                        let j = choose|j: int| 0 <= j < self.free@.len() && self.free@[j] == k;
                        assert(j < old(self).free@.len());
                        assert(old(self).free@[j] == k);
                    }
                }
                assert(self.free_ids() =~= old(self).free_ids().insert(entity.id as int));
            }
        } else {
            proof {
                assert(self.free_ids() =~= old(self).free_ids());
            }
        }
        proof {
            self.lemma_delete_preserves(*old(self), *entity, was_active);
        }
        Ok(())
    }

    /// After a removal — fan-out, purge, retire — the membership invariant
    /// holds again.
    proof fn lemma_delete_preserves(&self, pre: World<T>, e: Entity, was_active: bool)
        requires
            pre.wf(),
            pre.valid(e),
            was_active == (pre.state_of(e.id as int) is Active),
            self.next_id == pre.next_id,
            self.states@ == pre.states@.update(e.id as int, EntityState::Removed),
            self.generations@.len() == pre.generations@.len(),
            forall|id: int|
                0 <= id < pre.num_ids() && id != e.id ==> self.generation_of(id)
                    == pre.generation_of(id),
            self.components.well_formed(),
            self.components@.len() == pre.components@.len(),
            forall|t: int|
                0 <= t < pre.components@.len() ==> (#[trigger] self.components@[t])
                    == pre.components@[t].remove(e.id as int),
            self.systems.well_formed(),
            self.systems@.len() == pre.systems@.len(),
            forall|j: int|
                0 <= j < self.free@.len() ==> (#[trigger] self.free@[j]) < self.next_id
                    && self.states@[self.free@[j] as int] is Removed,
            forall|a: int, b: int| 0 <= a < b < self.free@.len() ==> self.free@[a] != self.free@[b],
            (was_active && forall|i: int|
                0 <= i < pre.systems_view().len() ==> deactivated_post(
                    pre.systems_view()[i],
                    #[trigger] self.systems_view()[i],
                    e,
                )) || (!was_active && self.systems == pre.systems),
        ensures
            self.wf(),
            forall|i: int|
                0 <= i < self.systems_view().len() ==> !(#[trigger] self.systems_view()[
                    i].member_ids().contains(e.id as int)),
    {
        let id = e.id as int;
        assert forall|x: int| x != id implies self.storage().present_types(x)
            == pre.storage().present_types(x) by {
            assert(self.storage().present_types(x) =~= pre.storage().present_types(x));
        }
        assert forall|i: int| 0 <= i < self.systems_view().len() implies self.system_ok(
            #[trigger] self.systems_view()[i],
        ) && !self.systems_view()[i].member_ids().contains(id) by {
            let s = self.systems_view()[i];
            let p = pre.systems_view()[i];
            assert(p == pre.systems_view()[i]);
            assert(pre.system_ok(p));
            if was_active {
                assert(deactivated_post(p, s, e));
            } else {
                assert(s == p);
            }
            assert(!s.member_ids().contains(id)) by {
                if s.member_ids().contains(id) {
                    if !was_active {
                        let j = choose|j: int|
                            0 <= j < s.members().len() && s.members()[j].id == e.id;
                        assert(s.members().contains(s.members()[j]));
                        assert(pre.state_of(id) is Active);
                    }
                }
            }
            assert forall|x: Entity| #[trigger] s.members().contains(x) implies 0 <= x.id
                < self.num_ids() && self.state_of(x.id as int) is Active && self.generation_of(
                x.id as int,
            ) == x.generation as int && s.aspect().matches(
                self.storage().present_types(x.id as int),
            ) by {
                assert(p.members().contains(x));
                assert(x.id as int != id) by {
                    if x.id as int == id {
                        let j = choose|j: int| 0 <= j < s.members().len() && s.members()[j] == x;
                        assert(s.members()[j].id == e.id);
                        assert(s.member_ids().contains(id));
                    }
                }
            }
            assert forall|x: int|
                0 <= x < self.num_ids() && self.state_of(x) is Active && s.aspect().matches(
                    self.storage().present_types(x),
                ) implies #[trigger] s.member_ids().contains(x) by {
                assert(x != id);
                assert(s.aspect().matches(pre.storage().present_types(x)));
                assert(p.member_ids().contains(x));
            }
        }
    }

    /// The two worlds agree on everything but component values: the same
    /// identities in the same states under the same generations, the same
    /// systems, and the same component types present for every identity.
    pub closed spec fn values_replaced(self, post: World<T>) -> bool {
        &&& post.next_id == self.next_id
        &&& post.states@ == self.states@
        &&& post.generations@ == self.generations@
        &&& post.free@ == self.free@
        &&& post.systems == self.systems
        &&& post.components.well_formed()
        &&& post.components@.len() == self.components@.len()
        &&& forall|t: int, x: int|
            0 <= t < self.components@.len() ==> (#[trigger] post.components@[t].contains_key(x))
                == self.components@[t].contains_key(x)
    }

    /// Replacing component values in place never disturbs the membership
    /// invariant: aspects only read which types are present.
    proof fn lemma_values_replaced_wf(self, post: World<T>)
        requires
            self.wf(),
            self.values_replaced(post),
        ensures
            post.wf(),
    {
        assert forall|x: int| #[trigger] post.storage().present_types(x)
            == self.storage().present_types(x) by {
            assert(post.storage().present_types(x) =~= self.storage().present_types(x));
        }
        assert forall|i: int| 0 <= i < post.systems_view().len() implies post.system_ok(
            #[trigger] post.systems_view()[i],
        ) by {
            let s = post.systems_view()[i];
            assert(s == self.systems_view()[i]);
            assert(self.system_ok(s));
            assert forall|x: Entity| #[trigger] s.members().contains(x) implies 0 <= x.id
                < post.num_ids() && post.state_of(x.id as int) is Active && post.generation_of(
                x.id as int,
            ) == x.generation as int && s.aspect().matches(
                post.storage().present_types(x.id as int),
            ) by {
                assert(s.aspect().matches(self.storage().present_types(x.id as int)));
            }
            assert forall|x: int|
                0 <= x < post.num_ids() && post.state_of(x) is Active && s.aspect().matches(
                    post.storage().present_types(x),
                ) implies #[trigger] s.member_ids().contains(x) by {
                assert(s.aspect().matches(self.storage().present_types(x)));
            }
        }
    }

    /// A mutable borrow of the entity's value of component type `t`, if
    /// present: values may be replaced in place during processing without
    /// any fan-out, since no system's membership can change. An invalid
    /// handle fails with an invalid-entity error, an undeclared component
    /// type with a component-access error.
    pub fn borrow_component(&mut self, t: usize, entity: &Entity) -> (r: Result<
        Option<&mut T>,
        EcsError,
    >)
        requires
            old(self).wf(),
        ensures
            old(self).values_replaced(*final(self)) && final(self).wf(),
            !old(self).valid(*entity) ==> r == Err::<Option<&mut T>, EcsError>(
                EcsError::InvalidEntity,
            ) && *final(self) == *old(self),
            old(self).valid(*entity) && t >= old(self).storage()@.len() ==> r == Err::<
                Option<&mut T>,
                EcsError,
            >(EcsError::ComponentAccess) && final(self).storage()@ == old(self).storage()@,
            old(self).valid(*entity) && t < old(self).storage()@.len() ==> match r {
                Ok(None) => !old(self).storage()@[t as int].contains_key(entity.id as int)
                    && final(self).storage()@ == old(self).storage()@,
                Ok(Some(value)) => old(self).storage()@[t as int].contains_key(entity.id as int)
                    && *value == old(self).storage()@[t as int][entity.id as int] && final(self).storage()@ == old(self).storage()@.update(
                    t as int,
                    old(self).storage()@[t as int].insert(entity.id as int, *final(value)),
                ),
                Err(_) => false,
            },
    {
        proof {
            assert forall|post: World<T>| #[trigger] old(self).values_replaced(post) implies
                post.wf() by {
                old(self).lemma_values_replaced_wf(post);
            }
        }
        if !self.is_valid(entity) {
            return Err(EcsError::InvalidEntity);
        }
        self.components.borrow(t, entity)
    }

    /// Whether the entity currently holds a value of component type `t`.
    /// An invalid handle fails with an invalid-entity error.
    pub fn has_component(&self, t: usize, entity: &Entity) -> (r: Result<bool, EcsError>)
        requires
            self.wf(),
        ensures
            r is Ok <==> self.valid(*entity),
            r is Err ==> r == Err::<bool, EcsError>(EcsError::InvalidEntity),
            r matches Ok(h) ==> h == self.storage().spec_has(t as int, entity.id as int),
    {
        if !self.is_valid(entity) {
            return Err(EcsError::InvalidEntity);
        }
        Ok(self.components.has(t, entity))
    }

    /// A borrow of the entity's value of component type `t`, if present.
    /// An invalid handle fails with an invalid-entity error, an undeclared
    /// component type with a component-access error.
    pub fn get_component(&self, t: usize, entity: &Entity) -> (r: Result<Option<&T>, EcsError>)
        requires
            self.wf(),
        ensures
            !self.valid(*entity) ==> r == Err::<Option<&T>, EcsError>(EcsError::InvalidEntity),
            self.valid(*entity) && t >= self.storage()@.len() ==> r == Err::<Option<&T>, EcsError>(
                EcsError::ComponentAccess,
            ),
            self.valid(*entity) && t < self.storage()@.len() ==> match r {
                Ok(Some(value)) => self.storage()@[t as int].contains_key(entity.id as int)
                    && *value == self.storage()@[t as int][entity.id as int],
                Ok(None) => !self.storage()@[t as int].contains_key(entity.id as int),
                Err(_) => false,
            },
    {
        if !self.is_valid(entity) {
            return Err(EcsError::InvalidEntity);
        }
        self.components.get(t, entity)
    }

    /// The build-phase capability for an entity: obtainable only while the
    /// entity is in the building state.
    pub fn build_data<'a>(&self, entity: &'a Entity) -> (r: Result<
        crate::BuildData<'a>,
        EcsError,
    >)
        requires
            self.wf(),
        ensures
            r is Ok <==> self.valid(*entity) && self.state_of(entity.id as int) is Building,
            r is Err ==> r == Err::<crate::BuildData<'a>, EcsError>(EcsError::InvalidEntity),
            r matches Ok(data) ==> data.entity() == *entity,
    {
        if !self.is_valid(entity) {
            return Err(EcsError::InvalidEntity);
        }
        if self.states[entity.id] == EntityState::Building {
            Ok(crate::BuildData(entity))
        } else {
            Err(EcsError::InvalidEntity)
        }
    }

    /// The mutation-batch capability for an entity: obtainable only while
    /// the entity is building or active.
    pub fn modify_data<'a>(&self, entity: &'a Entity) -> (r: Result<
        crate::ModifyData<'a>,
        EcsError,
    >)
        requires
            self.wf(),
        ensures
            r is Ok <==> self.valid(*entity) && (self.state_of(entity.id as int) is Building
                || self.state_of(entity.id as int) is Active),
            r is Err ==> r == Err::<crate::ModifyData<'a>, EcsError>(EcsError::InvalidEntity),
            r matches Ok(data) ==> data.entity() == *entity,
    {
        if !self.is_valid(entity) {
            return Err(EcsError::InvalidEntity);
        }
        let state = self.states[entity.id];
        if state == EntityState::Building || state == EntityState::Active {
            Ok(crate::ModifyData(entity))
        } else {
            Err(EcsError::InvalidEntity)
        }
    }

    /// The read capability for a live entity, handed to processing logic.
    pub fn entity_data<'a>(&self, entity: &'a Entity) -> (r: Result<
        crate::EntityData<'a>,
        EcsError,
    >)
        requires
            self.wf(),
        ensures
            r is Ok <==> self.valid(*entity),
            r is Err ==> r == Err::<crate::EntityData<'a>, EcsError>(EcsError::InvalidEntity),
            r matches Ok(data) ==> data.entity() == *entity,
    {
        if !self.is_valid(entity) {
            return Err(EcsError::InvalidEntity);
        }
        Ok(crate::EntityData(entity))
    }

}

/// What a successful `create_entity` does: the returned handle is live in
/// the building state; it either carries a never-used fresh identity with
/// generation zero, or an identity taken from the free-list under the
/// generation stored for it; nothing else moves.
pub open spec fn create_transition<T>(pre: World<T>, post: World<T>, e: Entity) -> bool {
    &&& post.valid(e)
    &&& post.state_of(e.id as int) is Building
    &&& post.generation_of(e.id as int) == e.generation as int
    &&& (e.id == pre.num_ids() && post.num_ids() == pre.num_ids() + 1 && e.generation == 0 || (
    e.id < pre.num_ids() && post.num_ids() == pre.num_ids() && pre.free_ids().contains(e.id as int)
        && pre.state_of(e.id as int) is Removed && e.generation as int == pre.generation_of(
        e.id as int,
    )))
    &&& forall|id: int|
        0 <= id < pre.num_ids() && id != e.id ==> post.state_of(id) == pre.state_of(id)
            && post.generation_of(id) == pre.generation_of(id)
    &&& post.free_ids() == pre.free_ids().remove(e.id as int)
    &&& post.storage() == pre.storage()
    &&& post.systems_view() == pre.systems_view()
}

/// What a successful `delete_entity` does: the handle is invalid from now
/// on, the identity is retired, and — unless its generation counter is spent
/// — returned to the free-list under the next generation, so any stale
/// comparison against the old pair fails; every other identity is untouched.
pub open spec fn delete_transition<T>(pre: World<T>, post: World<T>, e: Entity) -> bool {
    &&& pre.valid(e)
    &&& !post.valid(e)
    &&& post.num_ids() == pre.num_ids()
    &&& post.state_of(e.id as int) is Removed
    &&& post.storage()@.len() == pre.storage()@.len()
    &&& (pre.generation_of(e.id as int) < u64::MAX ==> post.generation_of(e.id as int)
        == pre.generation_of(e.id as int) + 1 && post.free_ids() == pre.free_ids().insert(
        e.id as int,
    ))
    &&& (pre.generation_of(e.id as int) == u64::MAX ==> post.generation_of(e.id as int)
        == pre.generation_of(e.id as int) && post.free_ids() == pre.free_ids())
    &&& forall|id: int|
        0 <= id < pre.num_ids() && id != e.id ==> post.state_of(id) == pre.state_of(id)
            && post.generation_of(id) == pre.generation_of(id)
    &&& post.systems_view().len() == pre.systems_view().len()
}

/// Deleting an entity and then creating a new one never revives a stale
/// handle: the new entity either takes a different identity, or reuses the
/// deleted identity under a strictly greater generation, so any comparison
/// against the old (identity, generation) pair fails.
pub proof fn lemma_identity_reuse<T>(w0: World<T>, w1: World<T>, w2: World<T>, e: Entity, r: Entity)
    requires
        w0.wf(),
        delete_transition(w0, w1, e),
        create_transition(w1, w2, r),
    ensures
        r.id == e.id ==> r.generation > e.generation,
        !w2.valid(e),
{
    if r.id == e.id {
        assert(e.id < w0.num_ids());
        assert(w1.free_ids().contains(r.id as int) && r.generation as int == w1.generation_of(
            r.id as int,
        ));
        if w0.generation_of(e.id as int) == u64::MAX {
            assert(!w0.free_ids().contains(e.id as int)) by {
                if w0.free_ids().contains(e.id as int) {
                    let j = choose|j: int|
                        0 <= j < w0.free@.len() && w0.free@[j] == e.id as int;
                    assert(w0.states@[w0.free@[j] as int] is Removed);
                }
            }
            assert(false);
        }
        assert(w1.generation_of(e.id as int) == w0.generation_of(e.id as int) + 1);
        assert(e.generation as int == w0.generation_of(e.id as int));
    } else {
        assert(w2.state_of(e.id as int) == w1.state_of(e.id as int));
        assert(w1.state_of(e.id as int) is Removed);
    }
}

} // verus!
