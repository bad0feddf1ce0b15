use vstd::prelude::*;

use crate::aspect::Aspect;
use crate::component::ComponentManager;
use crate::entity::Entity;

verus! {

/// Whether a system performs per-tick processing (`Active`, gated by an
/// enable flag) or only receives lifecycle notifications (`Passive`).
#[derive(Clone, Copy, PartialEq, Eq, Structural, Debug)]
pub enum SystemKind {
    Passive,
    Active,
}

/// A lifecycle notification delivered to a system, recorded in ghost state
/// so that contracts can speak of how many fan-outs a system received.
pub enum Notice {
    Activated(int),
    Reactivated(int),
    Deactivated(int),
}

/// Identities carried by a run of entity handles.
pub open spec fn seq_ids(s: Seq<Entity>) -> Set<int> {
    Set::new(|k: int| exists|j: int| 0 <= j < s.len() && s[j].id == k)
}

/// No identity appears twice.
pub open spec fn ids_unique(s: Seq<Entity>) -> bool {
    forall|i: int, j: int| 0 <= i < j < s.len() ==> s[i].id != s[j].id
}

pub proof fn lemma_ids_push(s: Seq<Entity>, e: Entity)
    requires
        ids_unique(s),
        !seq_ids(s).contains(e.id as int),
    ensures
        ids_unique(s.push(e)),
        seq_ids(s.push(e)) == seq_ids(s).insert(e.id as int),
        forall|x: Entity| s.push(e).contains(x) ==> s.contains(x) || x == e,
        s.push(e).contains(e),
{
    let s2 = s.push(e);
    assert forall|i: int, j: int| 0 <= i < j < s2.len() implies s2[i].id != s2[j].id by {
        if j == s.len() {
            if s[i].id == e.id {
                assert(0 <= i < s.len() && s[i].id == e.id as int);
            }
        } else {
            assert(s2[i] == s[i] && s2[j] == s[j]);
        }
    }
    assert(s2[s.len() as int].id == e.id as int);
    assert forall|k: int| #[trigger] seq_ids(s2).contains(k) && k != e.id as int implies seq_ids(
        s,
    ).contains(k) by {
        let j = choose|j: int| 0 <= j < s2.len() && s2[j].id == k;
        assert(0 <= j < s.len() && s[j].id == k);
    }
    assert forall|k: int| #[trigger] seq_ids(s).contains(k) implies seq_ids(s2).contains(k) by {
        let j = choose|j: int| 0 <= j < s.len() && s[j].id == k;
        assert(s2[j].id == k);
    }
    assert(seq_ids(s2) =~= seq_ids(s).insert(e.id as int));
    assert forall|x: Entity| s2.contains(x) implies s.contains(x) || x == e by {
        let j = choose|j: int| 0 <= j < s2.len() && s2[j] == x;
        if j < s.len() {
            assert(s[j] == x);
        }
    }
    assert(s2[s.len() as int] == e);
}

pub proof fn lemma_ids_swap_remove(s: Seq<Entity>, j: int)
    requires
        ids_unique(s),
        0 <= j < s.len(),
    ensures
        ids_unique(s.update(j, s.last()).drop_last()),
        seq_ids(s.update(j, s.last()).drop_last()) == seq_ids(s).remove(s[j].id as int),
        forall|x: Entity| s.update(j, s.last()).drop_last().contains(x) ==> s.contains(x),
{
    let s2 = s.update(j, s.last()).drop_last();
    let k = s[j].id as int;
    assert forall|a: int, b: int| 0 <= a < b < s2.len() implies s2[a].id != s2[b].id by {
        assert(s2[a] == if a == j {
            s.last()
        } else {
            s[a]
        });
        assert(s2[b] == if b == j {
            s.last()
        } else {
            s[b]
        });
    }
    assert forall|m: int| #[trigger] seq_ids(s2).contains(m) implies seq_ids(s).contains(m) && m
        != k by {
        let i2 = choose|i: int| 0 <= i < s2.len() && s2[i].id == m;
        if i2 == j {
            assert(s[s.len() - 1].id == m);
        } else {
            assert(s[i2].id == m);
        }
        if m == k {
            if i2 == j {
                assert(s[s.len() - 1].id == s[j].id && j < s.len() - 1);
                assert(false);
            } else {
                assert(s[i2].id == s[j].id && i2 != j);
                assert(false);
            }
        }
    }
    assert forall|m: int| #[trigger] seq_ids(s).contains(m) && m != k implies seq_ids(s2).contains(
        m,
    ) by {
        let i = choose|i: int| 0 <= i < s.len() && s[i].id == m;
        assert(i != j);
        if i == s.len() - 1 {
            assert(j < s.len() - 1);
            assert(s2[j].id == m);
        } else {
            assert(s2[i].id == m);
        }
    }
    assert(seq_ids(s2) =~= seq_ids(s).remove(k));
    assert forall|x: Entity| s2.contains(x) implies s.contains(x) by {
        let i2 = choose|i: int| 0 <= i < s2.len() && s2[i] == x;
        if i2 == j {
            assert(s[s.len() - 1] == x);
        } else {
            assert(s[i2] == x);
        }
    }
}

/// One unit of logic: an aspect that selects the entities it is interested
/// in, the kind of per-tick participation, an enable flag the caller may
/// toggle at any time, and the membership bookkeeping driven by lifecycle
/// notifications.
///
/// The system's own processing logic lives with the caller: each tick the
/// manager hands back a snapshot of every enabled active system's current
/// members (see [`SystemManager::update`]).
pub struct System {
    aspect: Aspect,
    kind: SystemKind,
    is_active: bool,
    interested: Vec<Entity>,
    notices: Ghost<Seq<Notice>>,
}

impl System {
    /// The filter this system evaluates on every lifecycle event.
    pub closed spec fn aspect(self) -> Aspect {
        self.aspect
    }

    /// Whether the system takes part in the per-tick update pass.
    pub closed spec fn kind(self) -> SystemKind {
        self.kind
    }

    /// The enable flag for the update pass; lifecycle notifications are
    /// delivered regardless of it.
    pub closed spec fn enabled(self) -> bool {
        self.is_active
    }

    /// The entities this system currently records interest in.
    pub closed spec fn members(self) -> Seq<Entity> {
        self.interested@
    }

    /// The identities this system currently records interest in.
    pub open spec fn member_ids(self) -> Set<int> {
        seq_ids(self.members())
    }

    /// Every lifecycle notification this system has received, oldest first.
    pub closed spec fn notices(self) -> Seq<Notice> {
        self.notices@
    }

    /// Membership bookkeeping holds each identity at most once.
    pub open spec fn well_formed(self) -> bool {
        ids_unique(self.members())
    }

    /// A fresh system with no recorded interest, enabled by default.
    pub fn new(kind: SystemKind, aspect: Aspect) -> (system: System)
        ensures
            system.well_formed(),
            system.kind() == kind,
            system.aspect() == aspect,
            system.enabled(),
            system.members() == Seq::<Entity>::empty(),
            system.notices() == Seq::<Notice>::empty(),
    {
        System { aspect, kind, is_active: true, interested: Vec::new(), notices: Ghost(Seq::empty()) }
    }

    /// Whether the enable flag is currently set.
    pub fn is_active(&self) -> (r: bool)
        ensures
            r == self.enabled(),
    {
        self.is_active
    }

    /// Sets the enable flag; membership, aspect, kind and received
    /// notifications are untouched.
    pub fn set_active(&mut self, active: bool)
        ensures
            final(self).enabled() == active,
            final(self).aspect() == old(self).aspect(),
            final(self).kind() == old(self).kind(),
            final(self).members() == old(self).members(),
            final(self).notices() == old(self).notices(),
    {
        self.is_active = active;
    }

    /// Whether this system currently records interest in the entity's
    /// identity.
    #[verifier::loop_isolation(false)]
    pub fn is_interested(&self, entity: &Entity) -> (r: bool)
        ensures
            r == self.member_ids().contains(entity.id as int),
    {
        let mut i: usize = 0;
        while i < self.interested.len()
            invariant
                0 <= i <= self.interested@.len(),
                forall|j: int| 0 <= j < i ==> self.interested@[j].id != entity.id,
            decreases self.interested@.len() - i,
        {
            if self.interested[i].id == entity.id {
                proof {
                    assert(0 <= i < self.members().len() && self.members()[i as int].id
                        == entity.id as int);
                }
                return true;
            }
            i += 1;
        }
        false
    }

    /// A copy of the current membership, stable only for the duration of the
    /// tick it was taken in.
    #[verifier::loop_isolation(false)]
    pub fn snapshot(&self) -> (entities: Vec<Entity>)
        ensures
            entities@ == self.members(),
    {
        let mut entities: Vec<Entity> = Vec::new();
        let mut i: usize = 0;
        while i < self.interested.len()
            invariant
                0 <= i <= self.interested@.len(),
                entities@ == self.interested@.take(i as int),
            decreases self.interested@.len() - i,
        {
            entities.push(self.interested[i]);
            proof {
                assert(entities@ =~= self.interested@.take(i + 1));
            }
            i += 1;
        }
        proof {
            assert(entities@ =~= self.interested@);
        }
        entities
    }

    fn remove_member(&mut self, entity: &Entity)
        requires
            old(self).well_formed(),
            old(self).member_ids().contains(entity.id as int),
        ensures
            final(self).well_formed(),
            final(self).aspect() == old(self).aspect(),
            final(self).kind() == old(self).kind(),
            final(self).enabled() == old(self).enabled(),
            final(self).notices() == old(self).notices(),
            final(self).member_ids() == old(self).member_ids().remove(entity.id as int),
            forall|x: Entity| final(self).members().contains(x) ==> old(self).members().contains(x),
    {
        let mut i: usize = 0;
        #[verifier::loop_isolation(false)]
        while i < self.interested.len()
            invariant
                0 <= i <= self.interested@.len(),
                self == old(self),
                forall|j: int| 0 <= j < i ==> self.interested@[j].id != entity.id,
            decreases self.interested@.len() - i,
        {
            if self.interested[i].id == entity.id {
                proof {
                    lemma_ids_swap_remove(self.interested@, i as int);
                }
                self.interested.swap_remove(i);
                return;
            }
            i += 1;
        }
        proof {
            assert(!seq_ids(self.interested@).contains(entity.id as int));
        }
    }
}

/// What receiving `activated(e)` does to one system: the notification is
/// recorded, and if the system's aspect matches the entity's composition the
/// entity joins the membership; nothing else changes.
pub open spec fn activated_post(pre: System, post: System, e: Entity, present: Set<int>) -> bool {
    &&& post.well_formed()
    &&& post.aspect() == pre.aspect()
    &&& post.kind() == pre.kind()
    &&& post.enabled() == pre.enabled()
    &&& post.notices() == pre.notices().push(Notice::Activated(e.id as int))
    &&& post.member_ids() == if pre.aspect().matches(present) {
        pre.member_ids().insert(e.id as int)
    } else {
        pre.member_ids()
    }
    &&& forall|x: Entity| post.members().contains(x) ==> pre.members().contains(x) || x == e
}

/// What receiving `reactivated(e)` does to one system: the notification is
/// recorded, and the system re-evaluates its aspect against the entity's new
/// composition — a member that no longer matches is dropped, a non-member
/// that now matches joins, and anything else is a no-op.
pub open spec fn reactivated_post(pre: System, post: System, e: Entity, present: Set<int>) -> bool {
    &&& post.well_formed()
    &&& post.aspect() == pre.aspect()
    &&& post.kind() == pre.kind()
    &&& post.enabled() == pre.enabled()
    &&& post.notices() == pre.notices().push(Notice::Reactivated(e.id as int))
    &&& post.member_ids() == if pre.aspect().matches(present) {
        pre.member_ids().insert(e.id as int)
    } else {
        pre.member_ids().remove(e.id as int)
    }
    &&& forall|x: Entity| post.members().contains(x) ==> pre.members().contains(x) || x == e
}

/// What receiving `deactivated(e)` does to one system: the notification is
/// recorded and any interest in the entity is released.
pub open spec fn deactivated_post(pre: System, post: System, e: Entity) -> bool {
    &&& post.well_formed()
    &&& post.aspect() == pre.aspect()
    &&& post.kind() == pre.kind()
    &&& post.enabled() == pre.enabled()
    &&& post.notices() == pre.notices().push(Notice::Deactivated(e.id as int))
    &&& post.member_ids() == pre.member_ids().remove(e.id as int)
    &&& forall|x: Entity| post.members().contains(x) ==> pre.members().contains(x)
}

impl System {
    /// The entity just became active: evaluate the aspect and record
    /// interest if it matches.
    pub fn activated<T>(&mut self, entity: &Entity, components: &ComponentManager<T>)
        requires
            old(self).well_formed(),
            components.well_formed(),
        ensures
            activated_post(
                *old(self),
                *final(self),
                *entity,
                components.present_types(entity.id as int),
            ),
    {
        self.notices = Ghost(self.notices@.push(Notice::Activated(entity.id as int)));
        if self.aspect.check(entity, components) {
            if !self.is_interested(entity) {
                proof {
                    lemma_ids_push(self.interested@, *entity);
                }
                self.interested.push(*entity);
            } else {
                proof {
                    assert(self.member_ids().insert(entity.id as int) =~= self.member_ids());
                }
            }
        }
    }

    /// The entity's composition changed while active: re-evaluate the
    /// aspect, releasing or recording interest as needed.
    pub fn reactivated<T>(&mut self, entity: &Entity, components: &ComponentManager<T>)
        requires
            old(self).well_formed(),
            components.well_formed(),
        ensures
            reactivated_post(
                *old(self),
                *final(self),
                *entity,
                components.present_types(entity.id as int),
            ),
    {
        self.notices = Ghost(self.notices@.push(Notice::Reactivated(entity.id as int)));
        let matches = self.aspect.check(entity, components);
        if self.is_interested(entity) {
            if matches {
                proof {
                    assert(self.member_ids().insert(entity.id as int) =~= self.member_ids());
                }
            } else {
                self.remove_member(entity);
            }
        } else {
            if matches {
                proof {
                    lemma_ids_push(self.interested@, *entity);
                }
                self.interested.push(*entity);
            } else {
                proof {
                    assert(self.member_ids().remove(entity.id as int) =~= self.member_ids());
                }
            }
        }
    }

    /// The entity left the active state: release any interest in it.
    pub fn deactivated(&mut self, entity: &Entity)
        requires
            old(self).well_formed(),
        ensures
            deactivated_post(*old(self), *final(self), *entity),
    {
        self.notices = Ghost(self.notices@.push(Notice::Deactivated(entity.id as int)));
        if self.is_interested(entity) {
            self.remove_member(entity);
        } else {
            proof {
                assert(self.member_ids().remove(entity.id as int) =~= self.member_ids());
            }
        }
    }
}

/// One per-tick processing assignment: the registration index of an enabled
/// active system and the snapshot of the entities it is interested in.
pub struct ProcessPass {
    pub system: usize,
    pub entities: Vec<Entity>,
}

/// Whether a system takes part in the update pass this tick.
pub open spec fn runs_in_update(s: System) -> bool {
    s.kind() is Active && s.enabled()
}

/// The registration indices, in order, of the systems that the update pass
/// runs.
pub open spec fn update_plan(ss: Seq<System>) -> Seq<int>
    decreases ss.len(),
{
    if ss.len() == 0 {
        Seq::empty()
    } else {
        update_plan(ss.drop_last()) + if runs_in_update(ss.last()) {
            seq![ss.len() - 1]
        } else {
            Seq::empty()
        }
    }
}

/// The update pass runs a system exactly when it is an enabled active
/// system; in particular, disabling a system's flag makes the next pass skip
/// it while lifecycle notifications keep arriving.
pub proof fn lemma_update_plan_runs_exactly_enabled(ss: Seq<System>, i: int)
    requires
        0 <= i < ss.len(),
    ensures
        update_plan(ss).contains(i) <==> runs_in_update(ss[i]),
    decreases ss.len(),
{
    if i == ss.len() - 1 {
        if runs_in_update(ss.last()) {
            assert(update_plan(ss)[update_plan(ss).len() - 1] == i);
        } else {
            assert(update_plan(ss) == update_plan(ss.drop_last()));
            lemma_update_plan_in_range(ss.drop_last());
            if update_plan(ss).contains(i) {
                let j = choose|j: int| 0 <= j < update_plan(ss).len() && update_plan(ss)[j] == i;
                assert(false);
            }
        }
    } else {
        lemma_update_plan_runs_exactly_enabled(ss.drop_last(), i);
        assert(ss.drop_last()[i] == ss[i]);
        if runs_in_update(ss[i]) {
            let j = choose|j: int|
                0 <= j < update_plan(ss.drop_last()).len() && update_plan(ss.drop_last())[j] == i;
            assert(update_plan(ss)[j] == i);
        } else {
            if update_plan(ss).contains(i) {
                let j = choose|j: int| 0 <= j < update_plan(ss).len() && update_plan(ss)[j] == i;
                if j < update_plan(ss.drop_last()).len() {
                    assert(update_plan(ss.drop_last()).contains(i));
                } else {
                    assert(update_plan(ss)[j] == ss.len() - 1);
                }
            }
        }
    }
}

/// Every index the update plan names is a registered system.
pub proof fn lemma_update_plan_in_range(ss: Seq<System>)
    ensures
        forall|j: int|
            0 <= j < update_plan(ss).len() ==> 0 <= #[trigger] update_plan(ss)[j] < ss.len(),
    decreases ss.len(),
{
    if ss.len() > 0 {
        lemma_update_plan_in_range(ss.drop_last());
        let pre = update_plan(ss.drop_last());
        assert forall|j: int| 0 <= j < update_plan(ss).len() implies 0 <= #[trigger] update_plan(
            ss,
        )[j] < ss.len() by {
            if j < pre.len() {
                assert(update_plan(ss)[j] == pre[j]);
            } else {
                assert(runs_in_update(ss.last()));
                assert(update_plan(ss)[j] == ss.len() - 1);
            }
        }
    }
}

/// The update pass respects registration order: the indices it runs are
/// strictly increasing.
pub proof fn lemma_update_plan_ordered(ss: Seq<System>)
    ensures
        forall|a: int, b: int|
            0 <= a < b < update_plan(ss).len() ==> #[trigger] update_plan(ss)[a]
                < #[trigger] update_plan(ss)[b],
    decreases ss.len(),
{
    if ss.len() > 0 {
        lemma_update_plan_ordered(ss.drop_last());
        lemma_update_plan_in_range(ss.drop_last());
        let pre = update_plan(ss.drop_last());
        assert forall|a: int, b: int| 0 <= a < b < update_plan(ss).len() implies #[trigger] update_plan(
            ss,
        )[a] < #[trigger] update_plan(ss)[b] by {
            if b < pre.len() {
                assert(update_plan(ss)[a] == pre[a] && update_plan(ss)[b] == pre[b]);
            } else {
                assert(update_plan(ss)[b] == ss.len() - 1);
                assert(update_plan(ss)[a] == pre[a]);
            }
        }
    }
}

/// The ordered collection of all systems for one application. Fans each
/// lifecycle event out to every system in registration order, and drives the
/// per-tick update pass over the active systems whose enable flag is set, in
/// the same order. Registration order is stable for the manager's lifetime.
pub struct SystemManager {
    systems: Vec<System>,
}

impl View for SystemManager {
    type V = Seq<System>;

    closed spec fn view(&self) -> Seq<System> {
        self.systems@
    }
}

impl SystemManager {
    pub open spec fn well_formed(self) -> bool {
        forall|i: int| 0 <= i < self@.len() ==> (#[trigger] self@[i]).well_formed()
    }

    /// A manager with no systems registered.
    pub fn new() -> (manager: SystemManager)
        ensures
            manager.well_formed(),
            manager@ == Seq::<System>::empty(),
    {
        let manager = SystemManager { systems: Vec::new() };
        proof {
            assert(manager@ =~= Seq::<System>::empty());
        }
        manager
    }

    /// Appends a system; its registration index is returned and never
    /// changes.
    pub fn register(&mut self, system: System) -> (index: usize)
        ensures
            index == old(self)@.len(),
            final(self)@ == old(self)@.push(system),
    {
        let index = self.systems.len();
        self.systems.push(system);
        index
    }

    /// How many systems are registered.
    pub fn n_systems(&self) -> (n: usize)
        ensures
            n == self@.len(),
    {
        self.systems.len()
    }

    /// A borrow of the system at the given registration index.
    pub fn system(&self, index: usize) -> (system: &System)
        requires
            index < self@.len(),
        ensures
            *system == self@[index as int],
    {
        &self.systems[index]
    }

    /// Toggles the enable flag of the system at the given registration
    /// index; everything else about every system is untouched.
    pub fn set_system_active(&mut self, index: usize, active: bool)
        requires
            index < old(self)@.len(),
        ensures
            final(self)@.len() == old(self)@.len(),
            final(self)@[index as int].enabled() == active,
            final(self)@[index as int].aspect() == old(self)@[index as int].aspect(),
            final(self)@[index as int].kind() == old(self)@[index as int].kind(),
            final(self)@[index as int].members() == old(self)@[index as int].members(),
            final(self)@[index as int].notices() == old(self)@[index as int].notices(),
            forall|j: int|
                0 <= j < old(self)@.len() && j != index ==> final(self)@[j] == old(self)@[j],
    {
        let mut system = System::new(SystemKind::Passive, crate::aspect::Aspect::any());
        self.systems.set_and_swap(index, &mut system);
        system.set_active(active);
        self.systems.set_and_swap(index, &mut system);
    }

    /// Fans `activated(entity)` out to every system in registration order.
    #[verifier::loop_isolation(false)]
    pub fn activated<T>(&mut self, entity: &Entity, components: &ComponentManager<T>)
        requires
            old(self).well_formed(),
            components.well_formed(),
        ensures
            final(self).well_formed(),
            final(self)@.len() == old(self)@.len(),
            forall|i: int|
                0 <= i < old(self)@.len() ==> activated_post(
                    old(self)@[i],
                    #[trigger] final(self)@[i],
                    *entity,
                    components.present_types(entity.id as int),
                ),
    {
        let n = self.systems.len();
        let mut i: usize = 0;
        while i < n
            invariant
                0 <= i <= n,
                n == self.systems@.len(),
                self.systems@.len() == old(self)@.len(),
                self.well_formed(),
                forall|j: int|
                    0 <= j < i ==> activated_post(
                        old(self)@[j],
                        #[trigger] self@[j],
                        *entity,
                        components.present_types(entity.id as int),
                    ),
                forall|j: int| i <= j < n ==> self@[j] == old(self)@[j],
            decreases n - i,
        {
            let ghost pre_self = self@;
            let mut system = System::new(SystemKind::Passive, crate::aspect::Aspect::any());
            self.systems.set_and_swap(i, &mut system);
            proof {
                assert(system == pre_self[i as int]);
            }
            system.activated(entity, components);
            let ghost done = system;
            self.systems.set_and_swap(i, &mut system);
            proof {
                assert(self@[i as int] == done);
                assert(activated_post(pre_self[i as int], done, *entity, components.present_types(entity.id as int)));
                assert forall|j: int| 0 <= j < n implies (#[trigger] self@[j]).well_formed() by {
                    if j != i as int {
                        assert(self@[j] == pre_self[j]);
                    }
                }
            }
            i += 1;
        }
    }

    /// Fans `reactivated(entity)` out to every system in registration order:
    /// one notification per system per mutation batch.
    #[verifier::loop_isolation(false)]
    pub fn reactivated<T>(&mut self, entity: &Entity, components: &ComponentManager<T>)
        requires
            old(self).well_formed(),
            components.well_formed(),
        ensures
            final(self).well_formed(),
            final(self)@.len() == old(self)@.len(),
            forall|i: int|
                0 <= i < old(self)@.len() ==> reactivated_post(
                    old(self)@[i],
                    #[trigger] final(self)@[i],
                    *entity,
                    components.present_types(entity.id as int),
                ),
    {
        let n = self.systems.len();
        let mut i: usize = 0;
        while i < n
            invariant
                0 <= i <= n,
                n == self.systems@.len(),
                self.systems@.len() == old(self)@.len(),
                self.well_formed(),
                forall|j: int|
                    0 <= j < i ==> reactivated_post(
                        old(self)@[j],
                        #[trigger] self@[j],
                        *entity,
                        components.present_types(entity.id as int),
                    ),
                forall|j: int| i <= j < n ==> self@[j] == old(self)@[j],
            decreases n - i,
        {
            let ghost pre_self = self@;
            let mut system = System::new(SystemKind::Passive, crate::aspect::Aspect::any());
            self.systems.set_and_swap(i, &mut system);
            proof {
                assert(system == pre_self[i as int]);
            }
            system.reactivated(entity, components);
            let ghost done = system;
            self.systems.set_and_swap(i, &mut system);
            proof {
                assert(self@[i as int] == done);
                assert(reactivated_post(pre_self[i as int], done, *entity, components.present_types(entity.id as int)));
                assert forall|j: int| 0 <= j < n implies (#[trigger] self@[j]).well_formed() by {
                    if j != i as int {
                        assert(self@[j] == pre_self[j]);
                    }
                }
            }
            i += 1;
        }
    }

    /// Fans `deactivated(entity)` out to every system in registration order.
    #[verifier::loop_isolation(false)]
    pub fn deactivated(&mut self, entity: &Entity)
        requires
            old(self).well_formed(),
        ensures
            final(self).well_formed(),
            final(self)@.len() == old(self)@.len(),
            forall|i: int|
                0 <= i < old(self)@.len() ==> deactivated_post(
                    old(self)@[i],
                    #[trigger] final(self)@[i],
                    *entity,
                ),
    {
        let n = self.systems.len();
        let mut i: usize = 0;
        while i < n
            invariant
                0 <= i <= n,
                n == self.systems@.len(),
                self.systems@.len() == old(self)@.len(),
                self.well_formed(),
                forall|j: int|
                    0 <= j < i ==> deactivated_post(old(self)@[j], #[trigger] self@[j], *entity),
                forall|j: int| i <= j < n ==> self@[j] == old(self)@[j],
            decreases n - i,
        {
            let ghost pre_self = self@;
            let mut system = System::new(SystemKind::Passive, crate::aspect::Aspect::any());
            self.systems.set_and_swap(i, &mut system);
            proof {
                assert(system == pre_self[i as int]);
            }
            system.deactivated(entity);
            let ghost done = system;
            self.systems.set_and_swap(i, &mut system);
            proof {
                assert(self@[i as int] == done);
                assert(deactivated_post(pre_self[i as int], done, *entity));
                assert forall|j: int| 0 <= j < n implies (#[trigger] self@[j]).well_formed() by {
                    if j != i as int {
                        assert(self@[j] == pre_self[j]);
                    }
                }
            }
            i += 1;
        }
    }

    /// The per-tick update pass: one membership snapshot per active system
    /// whose enable flag is currently set, in registration order. Passive
    /// systems and disabled systems are skipped.
    #[verifier::loop_isolation(false)]
    pub fn update(&self) -> (passes: Vec<ProcessPass>)
        ensures
            passes@.len() == update_plan(self@).len(),
            forall|j: int|
                0 <= j < passes@.len() ==> #[trigger] passes@[j].system == update_plan(self@)[j]
                    && passes@[j].system < self@.len() && passes@[j].entities@ == self@[update_plan(
                    self@,
                )[j]].members(),
    {
        let n = self.systems.len();
        let mut passes: Vec<ProcessPass> = Vec::new();
        let mut i: usize = 0;
        while i < n
            invariant
                0 <= i <= n,
                n == self@.len(),
                passes@.len() == update_plan(self@.take(i as int)).len(),
                forall|j: int|
                    0 <= j < passes@.len() ==> #[trigger] passes@[j].system == update_plan(
                        self@.take(i as int),
                    )[j] && passes@[j].system < i && passes@[j].entities@ == self@[update_plan(
                        self@.take(i as int),
                    )[j]].members(),
            decreases n - i,
        {
            proof {
                assert(self@.take(i + 1).drop_last() =~= self@.take(i as int));
                assert(self@.take(i + 1).last() == self@[i as int]);
                lemma_update_plan_in_range(self@.take(i as int));
            }
            let system = &self.systems[i];
            let run = match system.kind {
                SystemKind::Active => system.is_active,
                SystemKind::Passive => false,
            };
            if run {
                let entities = system.snapshot();
                passes.push(ProcessPass { system: i, entities });
            }
            i += 1;
        }
        proof {
            assert(self@.take(n as int) =~= self@);
        }
        passes
    }
}

} // verus!
