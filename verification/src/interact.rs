use vstd::prelude::*;

use crate::aspect::Aspect;
use crate::component::ComponentManager;
use crate::entity::Entity;
use crate::system::{ids_unique, lemma_ids_push, lemma_ids_swap_remove, seq_ids, Notice};

verus! {

/// The caller-supplied pairwise-processing routine an [`InteractSystem`]
/// bridges two aspect memberships into. It receives the same lifecycle
/// notifications an ordinary system would — once per matching membership set
/// — and, each tick, both current membership snapshots plus a gateway for
/// component access.
pub trait InteractProcess<T> {
    fn activated(&mut self, entity: &Entity);

    fn reactivated(&mut self, entity: &Entity);

    fn deactivated(&mut self, entity: &Entity);

    fn process(
        &mut self,
        first: &Vec<Entity>,
        second: &Vec<Entity>,
        components: &mut ComponentManager<T>,
    );
}

/// One interaction of the coordinator with its inner routine, recorded in
/// ghost state so contracts can count forwards: a lifecycle notification
/// tagged with the membership set it was issued for, or one per-tick
/// invocation of the routine, carrying the two membership snapshots it was
/// handed.
pub enum Forward {
    First(Notice),
    Second(Notice),
    Process(Seq<Entity>, Seq<Entity>),
}

/// The forwards one membership set issues on a reactivation event: a member
/// that still matches is refreshed, a member that stopped matching is
/// dropped, a non-member that now matches joins, and anything else is
/// silent.
pub open spec fn react_forwards(second: bool, was: bool, matches: bool, id: int) -> Seq<Forward> {
    let notice = if was && matches {
        seq![Notice::Reactivated(id)]
    } else if was && !matches {
        seq![Notice::Deactivated(id)]
    } else if !was && matches {
        seq![Notice::Activated(id)]
    } else {
        seq![]
    };
    if second {
        notice.map(|i: int, n: Notice| Forward::Second(n))
    } else {
        notice.map(|i: int, n: Notice| Forward::First(n))
    }
}

/// A system dealing with interactions between two kinds of entity: it
/// tracks two independent aspect memberships — an entity may satisfy either
/// aspect, both, or neither — and each tick hands both current snapshots to
/// the inner pairwise-processing routine. The coordinator does no pairing
/// itself, only membership bookkeeping.
pub struct InteractSystem<P> {
    interested_a: Vec<Entity>,
    interested_b: Vec<Entity>,
    aspect_a: Aspect,
    aspect_b: Aspect,
    inner: P,
    is_active: bool,
    forwards: Ghost<Seq<Forward>>,
}

impl<P> InteractSystem<P> {
    /// The first aspect.
    pub closed spec fn aspect_a(self) -> Aspect {
        self.aspect_a
    }

    /// The second aspect.
    pub closed spec fn aspect_b(self) -> Aspect {
        self.aspect_b
    }

    /// The entities currently in the first membership set.
    pub closed spec fn members_a(self) -> Seq<Entity> {
        self.interested_a@
    }

    /// The entities currently in the second membership set.
    pub closed spec fn members_b(self) -> Seq<Entity> {
        self.interested_b@
    }

    /// The identities currently in the first membership set.
    pub open spec fn ids_a(self) -> Set<int> {
        seq_ids(self.members_a())
    }

    /// The identities currently in the second membership set.
    pub open spec fn ids_b(self) -> Set<int> {
        seq_ids(self.members_b())
    }

    /// Every notification forwarded to the inner routine, oldest first.
    pub closed spec fn forwards(self) -> Seq<Forward> {
        self.forwards@
    }

    /// The enable flag for the update pass.
    pub closed spec fn enabled(self) -> bool {
        self.is_active
    }

    /// The inner pairwise-processing routine.
    pub closed spec fn inner(self) -> P {
        self.inner
    }

    /// Each membership set holds an identity at most once.
    pub open spec fn well_formed(self) -> bool {
        ids_unique(self.members_a()) && ids_unique(self.members_b())
    }

    /// Everything but the membership sets and the forward log is unchanged.
    pub open spec fn config_unchanged(pre: Self, post: Self) -> bool {
        &&& post.aspect_a() == pre.aspect_a()
        &&& post.aspect_b() == pre.aspect_b()
        &&& post.enabled() == pre.enabled()
    }

    /// A coordinator over an inner routine and the two aspects, with empty
    /// membership, enabled by default.
    pub fn new(inner: P, aspect_a: Aspect, aspect_b: Aspect) -> (system: InteractSystem<P>)
        ensures
            system.well_formed(),
            system.aspect_a() == aspect_a,
            system.aspect_b() == aspect_b,
            system.members_a() == Seq::<Entity>::empty(),
            system.members_b() == Seq::<Entity>::empty(),
            system.forwards() == Seq::<Forward>::empty(),
            system.enabled(),
            system.inner() == inner,
    {
        InteractSystem {
            interested_a: Vec::new(),
            interested_b: Vec::new(),
            aspect_a,
            aspect_b,
            inner,
            is_active: true,
            forwards: Ghost(Seq::empty()),
        }
    }

    /// Whether the enable flag is currently set.
    pub fn is_active(&self) -> (r: bool)
        ensures
            r == self.enabled(),
    {
        self.is_active
    }

    /// A borrow of the inner routine, for the caller's own bookkeeping.
    pub fn inner_ref(&self) -> (inner: &P)
        ensures
            *inner == self.inner(),
    {
        &self.inner
    }

    /// Sets the enable flag; membership and the forward log are untouched.
    pub fn set_active(&mut self, active: bool)
        ensures
            final(self).enabled() == active,
            final(self).aspect_a() == old(self).aspect_a(),
            final(self).aspect_b() == old(self).aspect_b(),
            final(self).members_a() == old(self).members_a(),
            final(self).members_b() == old(self).members_b(),
            final(self).forwards() == old(self).forwards(),
    {
        self.is_active = active;
    }
}

#[verifier::loop_isolation(false)]
fn contains_id(v: &Vec<Entity>, entity: &Entity) -> (r: bool)
    ensures
        r == seq_ids(v@).contains(entity.id as int),
{
    let mut i: usize = 0;
    while i < v.len()
        invariant
            0 <= i <= v@.len(),
            forall|j: int| 0 <= j < i ==> v@[j].id != entity.id,
        decreases v@.len() - i,
    {
        if v[i].id == entity.id {
            proof {
                assert(0 <= i < v@.len() && v@[i as int].id == entity.id as int);
            }
            return true;
        }
        i += 1;
    }
    false
}

#[verifier::loop_isolation(false)]
fn remove_id(v: &mut Vec<Entity>, entity: &Entity)
    requires
        ids_unique(old(v)@),
        seq_ids(old(v)@).contains(entity.id as int),
    ensures
        ids_unique(final(v)@),
        seq_ids(final(v)@) == seq_ids(old(v)@).remove(entity.id as int),
        forall|x: Entity| final(v)@.contains(x) ==> old(v)@.contains(x),
{
    let mut i: usize = 0;
    while i < v.len()
        invariant
            0 <= i <= v@.len(),
            v@ == old(v)@,
            forall|j: int| 0 <= j < i ==> v@[j].id != entity.id,
        decreases v@.len() - i,
    {
        if v[i].id == entity.id {
            proof {
                lemma_ids_swap_remove(v@, i as int);
            }
            v.swap_remove(i);
            return;
        }
        i += 1;
    }
    proof {
        assert(!seq_ids(v@).contains(entity.id as int));
    }
}

impl<P> InteractSystem<P> {
    /// The entity just became active: for each aspect independently, a match
    /// adds it to that set and forwards one `activated` notification to the
    /// inner routine — an entity matching both aspects receives two.
    pub fn activated<T>(&mut self, entity: &Entity, components: &ComponentManager<T>) where
        P: InteractProcess<T>,

        requires
            old(self).well_formed(),
            components.well_formed(),
        ensures
            final(self).well_formed(),
            Self::config_unchanged(*old(self), *final(self)),
            ({
                let ma = old(self).aspect_a().matches(
                    components.present_types(entity.id as int),
                );
                let mb = old(self).aspect_b().matches(
                    components.present_types(entity.id as int),
                );
                &&& final(self).ids_a() == if ma {
                    old(self).ids_a().insert(entity.id as int)
                } else {
                    old(self).ids_a()
                }
                &&& final(self).ids_b() == if mb {
                    old(self).ids_b().insert(entity.id as int)
                } else {
                    old(self).ids_b()
                }
                &&& final(self).forwards() == old(self).forwards() + (if ma {
                    seq![Forward::First(Notice::Activated(entity.id as int))]
                } else {
                    seq![]
                }) + (if mb {
                    seq![Forward::Second(Notice::Activated(entity.id as int))]
                } else {
                    seq![]
                })
                &&& forall|x: Entity|
                    final(self).members_a().contains(x) ==> old(self).members_a().contains(x) || x
                        == *entity
                &&& forall|x: Entity|
                    final(self).members_b().contains(x) ==> old(self).members_b().contains(x) || x
                        == *entity
            }),
    {
        if self.aspect_a.check(entity, components) {
            if !contains_id(&self.interested_a, entity) {
                proof {
                    lemma_ids_push(self.interested_a@, *entity);
                }
                self.interested_a.push(*entity);
            } else {
                proof {
                    assert(seq_ids(self.interested_a@).insert(entity.id as int) =~= seq_ids(
                        self.interested_a@,
                    ));
                }
            }
            self.forwards = Ghost(
                self.forwards@.push(Forward::First(Notice::Activated(entity.id as int))),
            );
            self.inner.activated(entity);
        }
        if self.aspect_b.check(entity, components) {
            if !contains_id(&self.interested_b, entity) {
                proof {
                    lemma_ids_push(self.interested_b@, *entity);
                }
                self.interested_b.push(*entity);
            } else {
                proof {
                    assert(seq_ids(self.interested_b@).insert(entity.id as int) =~= seq_ids(
                        self.interested_b@,
                    ));
                }
            }
            self.forwards = Ghost(
                self.forwards@.push(Forward::Second(Notice::Activated(entity.id as int))),
            );
            self.inner.activated(entity);
        }
    }

    /// The entity's composition changed while active: each membership set is
    /// re-evaluated and updated independently — one reactivation event can
    /// add the entity to one set and drop it from the other.
    pub fn reactivated<T>(&mut self, entity: &Entity, components: &ComponentManager<T>) where
        P: InteractProcess<T>,

        requires
            old(self).well_formed(),
            components.well_formed(),
        ensures
            final(self).well_formed(),
            Self::config_unchanged(*old(self), *final(self)),
            ({
                let ma = old(self).aspect_a().matches(
                    components.present_types(entity.id as int),
                );
                let mb = old(self).aspect_b().matches(
                    components.present_types(entity.id as int),
                );
                let was_a = old(self).ids_a().contains(entity.id as int);
                let was_b = old(self).ids_b().contains(entity.id as int);
                &&& final(self).ids_a() == if ma {
                    old(self).ids_a().insert(entity.id as int)
                } else {
                    old(self).ids_a().remove(entity.id as int)
                }
                &&& final(self).ids_b() == if mb {
                    old(self).ids_b().insert(entity.id as int)
                } else {
                    old(self).ids_b().remove(entity.id as int)
                }
                &&& final(self).forwards() == old(self).forwards() + react_forwards(
                    false,
                    was_a,
                    ma,
                    entity.id as int,
                ) + react_forwards(true, was_b, mb, entity.id as int)
                &&& forall|x: Entity|
                    final(self).members_a().contains(x) ==> old(self).members_a().contains(x) || x
                        == *entity
                &&& forall|x: Entity|
                    final(self).members_b().contains(x) ==> old(self).members_b().contains(x) || x
                        == *entity
            }),
    {
        let ghost id = entity.id as int;
        if contains_id(&self.interested_a, entity) {
            if self.aspect_a.check(entity, components) {
                proof {
                    assert(seq_ids(self.interested_a@).insert(id) =~= seq_ids(
                        self.interested_a@,
                    ));
                }
                self.forwards = Ghost(
                    self.forwards@.push(Forward::First(Notice::Reactivated(entity.id as int))),
                );
                self.inner.reactivated(entity);
            } else {
                remove_id(&mut self.interested_a, entity);
                self.forwards = Ghost(
                    self.forwards@.push(Forward::First(Notice::Deactivated(entity.id as int))),
                );
                self.inner.deactivated(entity);
            }
        } else if self.aspect_a.check(entity, components) {
            proof {
                lemma_ids_push(self.interested_a@, *entity);
            }
            self.interested_a.push(*entity);
            self.forwards = Ghost(
                self.forwards@.push(Forward::First(Notice::Activated(entity.id as int))),
            );
            self.inner.activated(entity);
        } else {
            proof {
                assert(seq_ids(self.interested_a@).remove(id) =~= seq_ids(self.interested_a@));
            }
        }
        proof {
            assert(self.forwards@ =~= old(self).forwards() + react_forwards(
                false,
                old(self).ids_a().contains(id),
                old(self).aspect_a().matches(components.present_types(id)),
                id,
            ));
        }
        if contains_id(&self.interested_b, entity) {
            if self.aspect_b.check(entity, components) {
                proof {
                    assert(seq_ids(self.interested_b@).insert(id) =~= seq_ids(
                        self.interested_b@,
                    ));
                }
                self.forwards = Ghost(
                    self.forwards@.push(Forward::Second(Notice::Reactivated(entity.id as int))),
                );
                self.inner.reactivated(entity);
            } else {
                remove_id(&mut self.interested_b, entity);
                self.forwards = Ghost(
                    self.forwards@.push(Forward::Second(Notice::Deactivated(entity.id as int))),
                );
                self.inner.deactivated(entity);
            }
        } else if self.aspect_b.check(entity, components) {
            proof {
                lemma_ids_push(self.interested_b@, *entity);
            }
            self.interested_b.push(*entity);
            self.forwards = Ghost(
                self.forwards@.push(Forward::Second(Notice::Activated(entity.id as int))),
            );
            self.inner.activated(entity);
        } else {
            proof {
                assert(seq_ids(self.interested_b@).remove(id) =~= seq_ids(self.interested_b@));
            }
        }
        proof {
            assert(self.forwards@ =~= old(self).forwards() + react_forwards(
                false,
                old(self).ids_a().contains(id),
                old(self).aspect_a().matches(components.present_types(id)),
                id,
            ) + react_forwards(
                true,
                old(self).ids_b().contains(id),
                old(self).aspect_b().matches(components.present_types(id)),
                id,
            ));
        }
    }

    /// The entity left the active state: it is dropped from each set it was
    /// in, with one `deactivated` forward per set it was dropped from.
    pub fn deactivated<T>(&mut self, entity: &Entity) where P: InteractProcess<T>,
        requires
            old(self).well_formed(),
        ensures
            final(self).well_formed(),
            Self::config_unchanged(*old(self), *final(self)),
            final(self).ids_a() == old(self).ids_a().remove(entity.id as int),
            final(self).ids_b() == old(self).ids_b().remove(entity.id as int),
            final(self).forwards() == old(self).forwards() + (if old(self).ids_a().contains(
                entity.id as int,
            ) {
                seq![Forward::First(Notice::Deactivated(entity.id as int))]
            } else {
                seq![]
            }) + (if old(self).ids_b().contains(entity.id as int) {
                seq![Forward::Second(Notice::Deactivated(entity.id as int))]
            } else {
                seq![]
            }),
            forall|x: Entity|
                final(self).members_a().contains(x) ==> old(self).members_a().contains(x),
            forall|x: Entity|
                final(self).members_b().contains(x) ==> old(self).members_b().contains(x),
    {
        let ghost id = entity.id as int;
        if contains_id(&self.interested_a, entity) {
            remove_id(&mut self.interested_a, entity);
            self.forwards = Ghost(
                self.forwards@.push(Forward::First(Notice::Deactivated(entity.id as int))),
            );
            self.inner.deactivated(entity);
        } else {
            proof {
                assert(seq_ids(self.interested_a@).remove(id) =~= seq_ids(self.interested_a@));
            }
        }
        if contains_id(&self.interested_b, entity) {
            remove_id(&mut self.interested_b, entity);
            self.forwards = Ghost(
                self.forwards@.push(Forward::Second(Notice::Deactivated(entity.id as int))),
            );
            self.inner.deactivated(entity);
        } else {
            proof {
                assert(seq_ids(self.interested_b@).remove(id) =~= seq_ids(self.interested_b@));
            }
        }
    }

    /// The per-tick step: hands the inner routine snapshots of both current
    /// membership sets — unordered, stable only for the duration of the call
    /// — plus the component gateway. Membership itself is untouched, and the
    /// invocation is recorded in the forward log together with exactly the
    /// two sequences that were handed over.
    pub fn process<T>(&mut self, components: &mut ComponentManager<T>) where
        P: InteractProcess<T>,

        requires
            old(self).well_formed(),
        ensures
            final(self).well_formed(),
            Self::config_unchanged(*old(self), *final(self)),
            final(self).members_a() == old(self).members_a(),
            final(self).members_b() == old(self).members_b(),
            final(self).forwards() == old(self).forwards().push(
                Forward::Process(old(self).members_a(), old(self).members_b()),
            ),
    {
        let first = copy_entities(&self.interested_a);
        let second = copy_entities(&self.interested_b);
        self.forwards = Ghost(
            self.forwards@.push(Forward::Process(self.interested_a@, self.interested_b@)),
        );
        self.inner.process(&first, &second, components);
    }
}

#[verifier::loop_isolation(false)]
fn copy_entities(v: &Vec<Entity>) -> (copy: Vec<Entity>)
    ensures
        copy@ == v@,
{
    let mut copy: Vec<Entity> = Vec::new();
    let mut i: usize = 0;
    while i < v.len()
        invariant
            0 <= i <= v@.len(),
            copy@ == v@.take(i as int),
        decreases v@.len() - i,
    {
        copy.push(v[i]);
        proof {
            assert(copy@ =~= v@.take(i + 1));
        }
        i += 1;
    }
    proof {
        assert(copy@ =~= v@);
    }
    copy
}

} // verus!
