use vstd::prelude::*;

use crate::component::ComponentManager;
use crate::entity::Entity;

verus! {

/// An immutable predicate over an entity's component composition, built from
/// two sets of component-type indices: the aspect holds iff every type of the
/// `all` set is present and no type of the `none` set is.
///
/// An aspect built with empty `all` and empty `none` sets matches every
/// entity. Aspects are pure: evaluating one never mutates storage.
pub struct Aspect {
    all: Vec<usize>,
    none: Vec<usize>,
}

impl Aspect {
    /// The component types that must all be present.
    pub closed spec fn all_types(self) -> Seq<int> {
        Seq::new(self.all@.len(), |i: int| self.all@[i] as int)
    }

    /// The component types none of which may be present.
    pub closed spec fn none_types(self) -> Seq<int> {
        Seq::new(self.none@.len(), |i: int| self.none@[i] as int)
    }

    /// What `check` computes, over the set of component types an entity
    /// holds: a conjunction over the `all` set, and a negated disjunction
    /// over the `none` set.
    pub open spec fn matches(self, present: Set<int>) -> bool {
        &&& forall|i: int|
            0 <= i < self.all_types().len() ==> present.contains(#[trigger] self.all_types()[i])
        &&& forall|i: int|
            0 <= i < self.none_types().len() ==> !present.contains(
                #[trigger] self.none_types()[i],
            )
    }

    /// An aspect requiring every type in `all` and rejecting every type in
    /// `none`.
    pub fn new(all: Vec<usize>, none: Vec<usize>) -> (aspect: Aspect)
        ensures
            aspect.all_types() == Seq::new(all@.len(), |i: int| all@[i] as int),
            aspect.none_types() == Seq::new(none@.len(), |i: int| none@[i] as int),
    {
        Aspect { all, none }
    }

    /// An aspect requiring every type in `all`.
    pub fn all_of(all: Vec<usize>) -> (aspect: Aspect)
        ensures
            aspect.all_types() == Seq::new(all@.len(), |i: int| all@[i] as int),
            aspect.none_types() == Seq::<int>::empty(),
    {
        let aspect = Aspect { all, none: Vec::new() };
        proof {
            assert(aspect.none_types() =~= Seq::<int>::empty());
        }
        aspect
    }

    /// An aspect rejecting every type in `none`.
    pub fn none_of(none: Vec<usize>) -> (aspect: Aspect)
        ensures
            aspect.all_types() == Seq::<int>::empty(),
            aspect.none_types() == Seq::new(none@.len(), |i: int| none@[i] as int),
    {
        let aspect = Aspect { all: Vec::new(), none };
        proof {
            assert(aspect.all_types() =~= Seq::<int>::empty());
        }
        aspect
    }

    /// The identity predicate: matches every entity, whatever its
    /// composition. Used by systems that care about lifecycle only.
    pub fn any() -> (aspect: Aspect)
        ensures
            aspect.all_types() == Seq::<int>::empty(),
            aspect.none_types() == Seq::<int>::empty(),
            forall|present: Set<int>| aspect.matches(present),
    {
        let aspect = Aspect { all: Vec::new(), none: Vec::new() };
        proof {
            assert(aspect.all_types() =~= Seq::<int>::empty());
            assert(aspect.none_types() =~= Seq::<int>::empty());
        }
        aspect
    }

    /// Evaluates the aspect against the entity's current composition.
    #[verifier::loop_isolation(false)]
    pub fn check<T>(&self, entity: &Entity, components: &ComponentManager<T>) -> (r: bool)
        requires
            components.well_formed(),
        ensures
            r == self.matches(components.present_types(entity.id as int)),
    {
        let ghost present = components.present_types(entity.id as int);
        let mut i: usize = 0;
        while i < self.all.len()
            invariant
                0 <= i <= self.all@.len(),
                forall|j: int| 0 <= j < i ==> present.contains(#[trigger] self.all_types()[j]),
            decreases self.all@.len() - i,
        {
            if !components.has(self.all[i], entity) {
                proof {
                    assert(self.all_types()[i as int] == self.all@[i as int] as int);
                }
                return false;
            }
            i += 1;
        }
        let mut i: usize = 0;
        while i < self.none.len()
            invariant
                0 <= i <= self.none@.len(),
                forall|j: int| 0 <= j < i ==> !present.contains(#[trigger] self.none_types()[j]),
            decreases self.none@.len() - i,
        {
            if components.has(self.none[i], entity) {
                proof {
                    assert(self.none_types()[i as int] == self.none@[i as int] as int);
                }
                return false;
            }
            i += 1;
        }
        true
    }
}

/// The two-set aspect evaluated on a concrete shape: with all-set `{a, b}`
/// and none-set `{c}`, the aspect holds iff the composition has `a` and has
/// `b` and lacks `c`.
pub proof fn lemma_all_two_none_one(aspect: Aspect, a: int, b: int, c: int, present: Set<int>)
    requires
        aspect.all_types() == seq![a, b],
        aspect.none_types() == seq![c],
    ensures
        aspect.matches(present) <==> (present.contains(a) && present.contains(b)
            && !present.contains(c)),
{
    if present.contains(a) && present.contains(b) && !present.contains(c) {
        assert forall|i: int| 0 <= i < aspect.all_types().len() implies present.contains(
            #[trigger] aspect.all_types()[i],
        ) by {
            if i == 0 {
                assert(aspect.all_types()[0] == a);
            } else {
                assert(aspect.all_types()[1] == b);
            }
        }
        assert forall|i: int| 0 <= i < aspect.none_types().len() implies !present.contains(
            #[trigger] aspect.none_types()[i],
        ) by {
            assert(aspect.none_types()[0] == c);
        }
    }
    if aspect.matches(present) {
        assert(present.contains(aspect.all_types()[0]));
        assert(present.contains(aspect.all_types()[1]));
        assert(!present.contains(aspect.none_types()[0]));
    }
}

} // verus!
