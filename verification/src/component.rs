use vstd::prelude::*;
use vstd::pervasive::VecAdditionalExecFns;

use crate::entity::Entity;
use crate::error::EcsError;

verus! {

/// How a [`ComponentList`] stores its values, chosen at declaration time per
/// component type: `Dense` backs the list with an array indexed directly by
/// entity identity (best for components nearly every entity has), `Sparse`
/// with an associative container keyed by identity (best for rare
/// components). Both expose identical semantics.
#[derive(Clone, Copy, PartialEq, Eq, Structural, Debug)]
pub enum StorageStrategy {
    Dense,
    Sparse,
}

pub open spec fn key_unique<T>(s: Seq<(usize, T)>) -> bool {
    forall|i: int, j: int| 0 <= i < j < s.len() ==> s[i].0 != s[j].0
}

pub open spec fn key_at<T>(s: Seq<(usize, T)>, k: int) -> bool {
    exists|j: int| 0 <= j < s.len() && s[j].0 == k
}

pub open spec fn key_index<T>(s: Seq<(usize, T)>, k: int) -> int {
    choose|j: int| 0 <= j < s.len() && s[j].0 == k
}

/// The map that a sequence of key/value pairs with unique keys stands for.
pub open spec fn assoc_map<T>(s: Seq<(usize, T)>) -> Map<int, T> {
    Map::new(|k: int| key_at(s, k), |k: int| s[key_index(s, k)].1)
}

/// The map that a run of optional slots stands for: slot `k` holds the value
/// for identity `k`.
pub open spec fn slot_map<T>(s: Seq<Option<T>>) -> Map<int, T> {
    Map::new(|k: int| 0 <= k < s.len() && s[k] is Some, |k: int| s[k]->0)
}

proof fn lemma_assoc_at<T>(s: Seq<(usize, T)>, j: int)
    requires
        key_unique(s),
        0 <= j < s.len(),
    ensures
        key_at(s, s[j].0 as int),
        key_index(s, s[j].0 as int) == j,
        assoc_map(s).contains_key(s[j].0 as int),
        assoc_map(s)[s[j].0 as int] == s[j].1,
{
    assert(0 <= j < s.len() && s[j].0 == s[j].0 as int);
    let i = key_index(s, s[j].0 as int);
    if i < j {
        assert(s[i].0 != s[j].0);
    } else if j < i {
        assert(s[j].0 != s[i].0);
    }
}

proof fn lemma_assoc_push<T>(s: Seq<(usize, T)>, k: usize, v: T)
    requires
        key_unique(s),
        !key_at(s, k as int),
    ensures
        key_unique(s.push((k, v))),
        assoc_map(s.push((k, v))) == assoc_map(s).insert(k as int, v),
{
    let s2 = s.push((k, v));
    assert forall|i: int, j: int| 0 <= i < j < s2.len() implies s2[i].0 != s2[j].0 by {
        if j == s.len() {
            assert(s2[i] == s[i]);
            if s[i].0 == k {
                assert(key_at(s, k as int));
            }
        } else {
            assert(s2[i] == s[i] && s2[j] == s[j]);
        }
    }
    assert(key_at(s2, k as int)) by {
        assert(s2[s.len() as int].0 == k);
    }
    assert forall|m: int| #[trigger] key_at(s2, m) && m != k implies key_at(s, m) by {
        let j = choose|j: int| 0 <= j < s2.len() && s2[j].0 == m;
        assert(j < s.len() && s[j].0 == m);
    }
    assert forall|m: int| #[trigger] key_at(s, m) implies key_at(s2, m) by {
        let j = choose|j: int| 0 <= j < s.len() && s[j].0 == m;
        assert(s2[j].0 == m);
    }
    assert forall|m: int| #[trigger] key_at(s2, m) implies assoc_map(s2)[m] == assoc_map(s).insert(
        k as int,
        v,
    )[m] by {
        let i2 = key_index(s2, m);
        assert(0 <= i2 < s2.len() && s2[i2].0 == m);
        if m == k {
            if i2 < s.len() {
                assert(s[i2].0 == m);
                assert(key_at(s, k as int));
            }
            assert(s2[i2].1 == v);
        } else {
            assert(i2 < s.len() && s[i2].0 == m);
            lemma_assoc_at(s, i2);
            lemma_assoc_at(s2, i2);
        }
    }
    assert(assoc_map(s2) =~= assoc_map(s).insert(k as int, v));
}

proof fn lemma_assoc_swap_remove<T>(s: Seq<(usize, T)>, j: int)
    requires
        key_unique(s),
        0 <= j < s.len(),
    ensures
        key_unique(s.update(j, s.last()).drop_last()),
        assoc_map(s.update(j, s.last()).drop_last()) == assoc_map(s).remove(s[j].0 as int),
{
    let s2 = s.update(j, s.last()).drop_last();
    let k = s[j].0 as int;
    assert forall|a: int, b: int| 0 <= a < b < s2.len() implies s2[a].0 != s2[b].0 by {
        let ka = if a == j {
            s.last().0
        } else {
            s[a].0
        };
        let kb = if b == j {
            s.last().0
        } else {
            s[b].0
        };
        assert(s2[a].0 == ka && s2[b].0 == kb);
    }
    assert forall|m: int| #[trigger] key_at(s2, m) implies key_at(s, m) && m != k by {
        let i2 = key_index(s2, m);
        assert(0 <= i2 < s2.len() && s2[i2].0 == m);
        if i2 == j {
            assert(s[s.len() - 1].0 == m);
        } else {
            assert(s[i2].0 == m);
        }
        if m == k {
            // the key of the removed pair cannot survive: uniqueness
            if i2 == j {
                assert(s[s.len() - 1].0 == s[j].0);
                assert(j < s.len() - 1);
                assert(false);
            } else {
                assert(s[i2].0 == s[j].0 && i2 != j);
                assert(false);
            }
        }
    }
    assert forall|m: int| #[trigger] key_at(s, m) && m != k implies key_at(s2, m) by {
        let i = key_index(s, m);
        assert(0 <= i < s.len() && s[i].0 == m);
        assert(i != j);
        if i == s.len() - 1 {
            // the last pair moved to position j, unless j is the last slot
            assert(j < s.len() - 1);
            assert(s2[j].0 == m);
        } else {
            assert(s2[i].0 == m);
        }
    }
    assert forall|m: int| #[trigger] key_at(s2, m) implies assoc_map(s2)[m] == assoc_map(s)[m] by {
        let i2 = key_index(s2, m);
        assert(0 <= i2 < s2.len() && s2[i2].0 == m);
        lemma_assoc_at(s2, i2);
        if i2 == j {
            lemma_assoc_at(s, s.len() - 1);
            assert(s2[i2].1 == s.last().1);
        } else {
            lemma_assoc_at(s, i2);
            assert(s2[i2].1 == s[i2].1);
        }
    }
    assert(assoc_map(s2) =~= assoc_map(s).remove(k));
}

proof fn lemma_assoc_update_value<T>(s: Seq<(usize, T)>, j: int, v: T)
    requires
        key_unique(s),
        0 <= j < s.len(),
    ensures
        key_unique(s.update(j, (s[j].0, v))),
        assoc_map(s.update(j, (s[j].0, v))) == assoc_map(s).insert(s[j].0 as int, v),
{
    let s2 = s.update(j, (s[j].0, v));
    let k = s[j].0 as int;
    lemma_assoc_at(s, j);
    assert forall|a: int, b: int| 0 <= a < b < s2.len() implies s2[a].0 != s2[b].0 by {
        assert(s2[a].0 == s[a].0 && s2[b].0 == s[b].0);
    }
    assert forall|m: int| #[trigger] key_at(s2, m) implies key_at(s, m) by {
        let i2 = key_index(s2, m);
        assert(s[i2].0 == s2[i2].0);
    }
    assert forall|m: int| #[trigger] key_at(s, m) implies key_at(s2, m) by {
        let i = key_index(s, m);
        assert(s2[i].0 == s[i].0);
    }
    assert forall|m: int| #[trigger] key_at(s2, m) implies assoc_map(s2)[m] == assoc_map(s).insert(
        k,
        v,
    )[m] by {
        let i2 = key_index(s2, m);
        lemma_assoc_at(s2, i2);
        if m == k {
            if i2 != j {
                assert(s[i2].0 == s[j].0);
                assert(false);
            }
            assert(s2[i2].1 == v);
        } else {
            assert(i2 != j);
            lemma_assoc_at(s, i2);
            assert(s2[i2].1 == s[i2].1);
        }
    }
    assert(assoc_map(s2) =~= assoc_map(s).insert(k, v));
}

enum Backing<T> {
    Dense(Vec<Option<T>>),
    Sparse(Vec<(usize, T)>),
}

/// Storage for zero-or-one value of a single component type per entity
/// identity, in one of two interchangeable backing strategies.
///
/// Abstractly a `ComponentList` is a finite map from entity identity to
/// component value (its view); `insert`, `get`, `has`, `remove` and `borrow`
/// behave identically under either strategy.
pub struct ComponentList<T> {
    backing: Backing<T>,
}

impl<T> View for ComponentList<T> {
    type V = Map<int, T>;

    closed spec fn view(&self) -> Map<int, T> {
        match self.backing {
            Backing::Dense(v) => slot_map(v@),
            Backing::Sparse(v) => assoc_map(v@),
        }
    }
}

impl<T> ComponentList<T> {
    /// Which strategy this list was declared with.
    pub closed spec fn strategy(self) -> StorageStrategy {
        match self.backing {
            Backing::Dense(_) => StorageStrategy::Dense,
            Backing::Sparse(_) => StorageStrategy::Sparse,
        }
    }

    /// The sparse backing keeps at most one pair per identity.
    pub closed spec fn well_formed(self) -> bool {
        match self.backing {
            Backing::Dense(_) => true,
            Backing::Sparse(v) => key_unique(v@),
        }
    }

    /// An empty list backed by an array indexed by entity identity.
    pub fn dense() -> (list: ComponentList<T>)
        ensures
            list.well_formed(),
            list@ == Map::<int, T>::empty(),
            list.strategy() == StorageStrategy::Dense,
    {
        let list = ComponentList { backing: Backing::Dense(Vec::new()) };
        proof {
            assert(list@ =~= Map::<int, T>::empty());
        }
        list
    }

    /// An empty list backed by an associative container keyed by identity.
    pub fn sparse() -> (list: ComponentList<T>)
        ensures
            list.well_formed(),
            list@ == Map::<int, T>::empty(),
            list.strategy() == StorageStrategy::Sparse,
    {
        let list = ComponentList { backing: Backing::Sparse(Vec::new()) };
        proof {
            assert(list@ =~= Map::<int, T>::empty());
        }
        list
    }

    /// An empty list with the given strategy.
    pub fn with_strategy(strategy: StorageStrategy) -> (list: ComponentList<T>)
        ensures
            list.well_formed(),
            list@ == Map::<int, T>::empty(),
            list.strategy() == strategy,
    {
        match strategy {
            StorageStrategy::Dense => Self::dense(),
            StorageStrategy::Sparse => Self::sparse(),
        }
    }

    /// Whether the entity currently holds a value in this list.
    #[verifier::loop_isolation(false)]
    pub fn has(&self, entity: &Entity) -> (r: bool)
        requires
            self.well_formed(),
        ensures
            r == self@.contains_key(entity.id as int),
    {
        match &self.backing {
            Backing::Dense(v) => {
                if entity.id < v.len() {
                    v[entity.id].is_some()
                } else {
                    false
                }
            },
            Backing::Sparse(v) => {
                let mut i: usize = 0;
                while i < v.len()
                    invariant
                        0 <= i <= v@.len(),
                        forall|j: int| 0 <= j < i ==> v@[j].0 != entity.id,
                    decreases v@.len() - i,
                {
                    if v[i].0 == entity.id {
                        proof {
                            lemma_assoc_at(v@, i as int);
                        }
                        return true;
                    }
                    i += 1;
                }
                false
            },
        }
    }

    /// A borrow of the entity's value, if present.
    #[verifier::loop_isolation(false)]
    pub fn get(&self, entity: &Entity) -> (r: Option<&T>)
        requires
            self.well_formed(),
        ensures
            match r {
                Some(value) => self@.contains_key(entity.id as int) && *value == self@[entity.id
                    as int],
                None => !self@.contains_key(entity.id as int),
            },
    {
        match &self.backing {
            Backing::Dense(v) => {
                if entity.id < v.len() {
                    v[entity.id].as_ref()
                } else {
                    None
                }
            },
            Backing::Sparse(v) => {
                let mut i: usize = 0;
                while i < v.len()
                    invariant
                        0 <= i <= v@.len(),
                        forall|j: int| 0 <= j < i ==> v@[j].0 != entity.id,
                    decreases v@.len() - i,
                {
                    if v[i].0 == entity.id {
                        proof {
                            lemma_assoc_at(v@, i as int);
                        }
                        return Some(&v[i].1);
                    }
                    i += 1;
                }
                None
            },
        }
    }

    /// Stores a value for the entity, returning the previous value if any.
    ///
    /// The dense strategy grows its backing array to accommodate the
    /// identity, so the identity must leave room for one more slot.
    #[verifier::loop_isolation(false)]
    pub fn insert(&mut self, entity: &Entity, component: T) -> (prev: Option<T>)
        requires
            old(self).well_formed(),
            entity.id < usize::MAX,
        ensures
            final(self).well_formed(),
            final(self).strategy() == old(self).strategy(),
            final(self)@ == old(self)@.insert(entity.id as int, component),
            prev == if old(self)@.contains_key(entity.id as int) {
                Some(old(self)@[entity.id as int])
            } else {
                None::<T>
            },
    {
        match &mut self.backing {
            Backing::Dense(v) => {
                let id = entity.id;
                while v.len() <= id
                    invariant
                        id < usize::MAX,
                        v@.len() >= old(self).dense_slots().len(),
                        forall|j: int|
                            0 <= j < old(self).dense_slots().len() ==> v@[j] == old(self).dense_slots()[j],
                        forall|j: int|
                            old(self).dense_slots().len() <= j < v@.len() ==> v@[j] is None,
                    decreases id + 1 - v@.len(),
                {
                    v.push(None);
                }
                let mut slot = Some(component);
                v.set_and_swap(id, &mut slot);
                proof {
                    assert(slot_map(v@) =~= slot_map(old(self).dense_slots()).insert(
                        id as int,
                        component,
                    ));
                }
                slot
            },
            Backing::Sparse(v) => {
                let mut i: usize = 0;
                while i < v.len()
                    invariant
                        0 <= i <= v@.len(),
                        v@ == old(self).sparse_pairs(),
                        key_unique(v@),
                        forall|j: int| 0 <= j < i ==> v@[j].0 != entity.id,
                    decreases v@.len() - i,
                {
                    if v[i].0 == entity.id {
                        proof {
                            lemma_assoc_at(v@, i as int);
                            lemma_assoc_update_value(v@, i as int, component);
                        }
                        let mut pair = (entity.id, component);
                        v.set_and_swap(i, &mut pair);
                        return Some(pair.1);
                    }
                    i += 1;
                }
                proof {
                    lemma_assoc_push(v@, entity.id, component);
                }
                v.push((entity.id, component));
                None
            },
        }
    }

    /// Removes and returns the entity's value, if any.
    #[verifier::loop_isolation(false)]
    pub fn remove(&mut self, entity: &Entity) -> (removed: Option<T>)
        requires
            old(self).well_formed(),
        ensures
            final(self).well_formed(),
            final(self).strategy() == old(self).strategy(),
            final(self)@ == old(self)@.remove(entity.id as int),
            removed == if old(self)@.contains_key(entity.id as int) {
                Some(old(self)@[entity.id as int])
            } else {
                None::<T>
            },
    {
        match &mut self.backing {
            Backing::Dense(v) => {
                let id = entity.id;
                if id < v.len() {
                    let mut slot: Option<T> = None;
                    v.set_and_swap(id, &mut slot);
                    proof {
                        assert(slot_map(v@) =~= slot_map(old(self).dense_slots()).remove(
                            id as int,
                        ));
                    }
                    slot
                } else {
                    proof {
                        assert(slot_map(v@) =~= slot_map(v@).remove(id as int));
                    }
                    None
                }
            },
            Backing::Sparse(v) => {
                let mut i: usize = 0;
                while i < v.len()
                    invariant
                        0 <= i <= v@.len(),
                        v@ == old(self).sparse_pairs(),
                        key_unique(v@),
                        forall|j: int| 0 <= j < i ==> v@[j].0 != entity.id,
                    decreases v@.len() - i,
                {
                    if v[i].0 == entity.id {
                        proof {
                            lemma_assoc_at(v@, i as int);
                            lemma_assoc_swap_remove(v@, i as int);
                        }
                        let pair = v.swap_remove(i);
                        return Some(pair.1);
                    }
                    i += 1;
                }
                proof {
                    assert(assoc_map(v@) =~= assoc_map(v@).remove(entity.id as int));
                }
                None
            },
        }
    }

    /// A mutable borrow of the entity's value, valid for the duration of the
    /// borrow; the list afterwards holds whatever the caller left there.
    #[verifier::loop_isolation(false)]
    pub fn borrow(&mut self, entity: &Entity) -> (r: Option<&mut T>)
        requires
            old(self).well_formed(),
        ensures
            final(self).well_formed(),
            final(self).strategy() == old(self).strategy(),
            r is Some <==> old(self)@.contains_key(entity.id as int),
            r is None ==> final(self)@ == old(self)@,
            r is Some ==> *r.unwrap() == old(self)@[entity.id as int] && final(self)@ == old(self)@.insert(entity.id as int, *final(r.unwrap())),
    {
        match &mut self.backing {
            Backing::Dense(v) => {
                let id = entity.id;
                if id < v.len() {
                    proof {
                        let s = old(self).dense_slots();
                        assert forall|x: T| #[trigger] slot_map(s).insert(id as int, x)
                            == slot_map(s.update(id as int, Some(x))) by {
                            assert(slot_map(s).insert(id as int, x) =~= slot_map(
                                s.update(id as int, Some(x)),
                            ));
                        }
                        if s[id as int] is None {
                            assert(s.update(id as int, None::<T>) =~= s);
                        }
                    }
                    let slot = &mut v[id];
                    slot.as_mut()
                } else {
                    None
                }
            },
            Backing::Sparse(v) => {
                let mut i: usize = 0;
                while i < v.len()
                    invariant
                        0 <= i <= v@.len(),
                        v@ == old(self).sparse_pairs(),
                        key_unique(v@),
                        forall|j: int| 0 <= j < i ==> v@[j].0 != entity.id,
                    decreases v@.len() - i,
                {
                    if v[i].0 == entity.id {
                        proof {
                            let s = old(self).sparse_pairs();
                            lemma_assoc_at(s, i as int);
                            assert forall|x: T| #[trigger] assoc_map(s).insert(
                                entity.id as int,
                                x,
                            ) == assoc_map(s.update(i as int, (entity.id, x))) && key_unique(
                                s.update(i as int, (entity.id, x)),
                            ) by {
                                lemma_assoc_update_value(s, i as int, x);
                            }
                        }
                        let pair = &mut v[i];
                        return Some(&mut pair.1);
                    }
                    i += 1;
                }
                None
            },
        }
    }

    /// The dense backing run, for internal proofs.
    closed spec fn dense_slots(self) -> Seq<Option<T>> {
        match self.backing {
            Backing::Dense(v) => v@,
            Backing::Sparse(_) => Seq::empty(),
        }
    }

    /// The sparse backing pairs, for internal proofs.
    closed spec fn sparse_pairs(self) -> Seq<(usize, T)> {
        match self.backing {
            Backing::Sparse(v) => v@,
            Backing::Dense(_) => Seq::empty(),
        }
    }
}

/// The per-application storage bundle: one [`ComponentList`] per declared
/// component type, addressed by the component-type index that `register`
/// handed out.
///
/// Its view is the sequence of the lists' maps, in declaration order.
/// `remove_all` purges an entity from every contained list, which prevents
/// storage leaks and stale aspect matches when an entity is removed.
pub struct ComponentManager<T> {
    lists: Vec<ComponentList<T>>,
}

impl<T> View for ComponentManager<T> {
    type V = Seq<Map<int, T>>;

    closed spec fn view(&self) -> Seq<Map<int, T>> {
        Seq::new(self.lists@.len(), |t: int| self.lists@[t]@)
    }
}

impl<T> ComponentManager<T> {
    pub closed spec fn well_formed(self) -> bool {
        forall|t: int| 0 <= t < self.lists@.len() ==> (#[trigger] self.lists@[t]).well_formed()
    }

    /// The set of component types the given identity currently holds a value
    /// of; the composition that aspects are checked against.
    pub open spec fn present_types(self, id: int) -> Set<int> {
        Set::new(|t: int| 0 <= t < self@.len() && self@[t].contains_key(id))
    }

    /// Whether component type `t` is declared and holds a value for `id`.
    pub open spec fn spec_has(self, t: int, id: int) -> bool {
        0 <= t < self@.len() && self@[t].contains_key(id)
    }

    /// A bundle with no component types declared yet.
    pub fn new() -> (manager: ComponentManager<T>)
        ensures
            manager.well_formed(),
            manager@ == Seq::<Map<int, T>>::empty(),
    {
        let manager = ComponentManager { lists: Vec::new() };
        proof {
            assert(manager@ =~= Seq::<Map<int, T>>::empty());
        }
        manager
    }

    /// Declares one more component type with the given storage strategy and
    /// returns its component-type index.
    pub fn register(&mut self, strategy: StorageStrategy) -> (t: usize)
        requires
            old(self).well_formed(),
        ensures
            final(self).well_formed(),
            t == old(self)@.len(),
            final(self)@ == old(self)@.push(Map::<int, T>::empty()),
    {
        let t = self.lists.len();
        self.lists.push(ComponentList::with_strategy(strategy));
        proof {
            assert(final(self)@ =~= old(self)@.push(Map::<int, T>::empty()));
        }
        t
    }

    /// How many component types are declared.
    pub fn n_types(&self) -> (n: usize)
        ensures
            n == self@.len(),
    {
        self.lists.len()
    }

    /// Whether component type `t` is declared and the entity holds a value of
    /// it. Total: an undeclared type is simply not present.
    pub fn has(&self, t: usize, entity: &Entity) -> (r: bool)
        requires
            self.well_formed(),
        ensures
            r == self.spec_has(t as int, entity.id as int),
            r == self.present_types(entity.id as int).contains(t as int),
    {
        if t < self.lists.len() {
            self.lists[t].has(entity)
        } else {
            false
        }
    }

    /// A borrow of the entity's value of component type `t`, if present;
    /// an undeclared type fails with a component-access error.
    pub fn get(&self, t: usize, entity: &Entity) -> (r: Result<Option<&T>, EcsError>)
        requires
            self.well_formed(),
        ensures
            t < self@.len() ==> match r {
                Ok(Some(value)) => self@[t as int].contains_key(entity.id as int) && *value
                    == self@[t as int][entity.id as int],
                Ok(None) => !self@[t as int].contains_key(entity.id as int),
                Err(_) => false,
            },
            t >= self@.len() ==> r == Err::<Option<&T>, EcsError>(EcsError::ComponentAccess),
    {
        if t < self.lists.len() {
            Ok(self.lists[t].get(entity))
        } else {
            Err(EcsError::ComponentAccess)
        }
    }

    /// Stores a value of component type `t` for the entity, returning the
    /// previous value if any; an undeclared type fails with a
    /// component-access error and changes nothing.
    pub fn insert(&mut self, t: usize, entity: &Entity, component: T) -> (r: Result<
        Option<T>,
        EcsError,
    >)
        requires
            old(self).well_formed(),
            entity.id < usize::MAX,
        ensures
            final(self).well_formed(),
            t < old(self)@.len() ==> final(self)@ == old(self)@.update(
                t as int,
                old(self)@[t as int].insert(entity.id as int, component),
            ) && r == Ok::<Option<T>, EcsError>(
                if old(self)@[t as int].contains_key(entity.id as int) {
                    Some(old(self)@[t as int][entity.id as int])
                } else {
                    None
                },
            ),
            t >= old(self)@.len() ==> r == Err::<Option<T>, EcsError>(EcsError::ComponentAccess)
                && final(self)@ == old(self)@,
    {
        if t < self.lists.len() {
            let mut list = ComponentList::dense();
            self.lists.set_and_swap(t, &mut list);
            let prev = list.insert(entity, component);
            self.lists.set_and_swap(t, &mut list);
            proof {
                assert(final(self)@ =~= old(self)@.update(
                    t as int,
                    old(self)@[t as int].insert(entity.id as int, component),
                ));
            }
            Ok(prev)
        } else {
            Err(EcsError::ComponentAccess)
        }
    }

    /// Removes the entity's value of component type `t`, returning it if it
    /// was present; an undeclared type fails with a component-access error
    /// and changes nothing.
    pub fn remove(&mut self, t: usize, entity: &Entity) -> (r: Result<Option<T>, EcsError>)
        requires
            old(self).well_formed(),
        ensures
            final(self).well_formed(),
            t < old(self)@.len() ==> final(self)@ == old(self)@.update(
                t as int,
                old(self)@[t as int].remove(entity.id as int),
            ) && r == Ok::<Option<T>, EcsError>(
                if old(self)@[t as int].contains_key(entity.id as int) {
                    Some(old(self)@[t as int][entity.id as int])
                } else {
                    None
                },
            ),
            t >= old(self)@.len() ==> r == Err::<Option<T>, EcsError>(EcsError::ComponentAccess)
                && final(self)@ == old(self)@,
    {
        if t < self.lists.len() {
            let mut list = ComponentList::dense();
            self.lists.set_and_swap(t, &mut list);
            let removed = list.remove(entity);
            self.lists.set_and_swap(t, &mut list);
            proof {
                assert(final(self)@ =~= old(self)@.update(
                    t as int,
                    old(self)@[t as int].remove(entity.id as int),
                ));
            }
            Ok(removed)
        } else {
            Err(EcsError::ComponentAccess)
        }
    }

    /// A mutable borrow of the entity's value of component type `t`, if
    /// present: the value may be replaced in place, while which entities
    /// hold which component types is untouched, whatever the caller writes.
    /// An undeclared type fails with a component-access error.
    pub fn borrow(&mut self, t: usize, entity: &Entity) -> (r: Result<Option<&mut T>, EcsError>)
        requires
            old(self).well_formed(),
        ensures
            final(self).well_formed(),
            final(self)@.len() == old(self)@.len(),
            t >= old(self)@.len() ==> r == Err::<Option<&mut T>, EcsError>(
                EcsError::ComponentAccess,
            ) && final(self)@ == old(self)@,
            t < old(self)@.len() ==> match r {
                Ok(None) => !old(self)@[t as int].contains_key(entity.id as int) && final(self)@
                    == old(self)@,
                Ok(Some(value)) => old(self)@[t as int].contains_key(entity.id as int) && *value
                    == old(self)@[t as int][entity.id as int] && final(self)@ == old(
                    self,
                )@.update(
                    t as int,
                    old(self)@[t as int].insert(entity.id as int, *final(value)),
                ),
                Err(_) => false,
            },
    {
        if t >= self.lists.len() {
            return Err(EcsError::ComponentAccess);
        }
        let list = &mut self.lists[t];
        Ok(list.borrow(entity))
    }

    /// Purges the entity from every contained list, so that no component
    /// type reports it present afterwards.
    #[verifier::loop_isolation(false)]
    pub fn remove_all(&mut self, entity: &Entity)
        requires
            old(self).well_formed(),
        ensures
            final(self).well_formed(),
            final(self)@.len() == old(self)@.len(),
            forall|t: int|
                0 <= t < old(self)@.len() ==> final(self)@[t] == old(self)@[t].remove(
                    entity.id as int,
                ),
    {
        let n = self.lists.len();
        let mut t: usize = 0;
        while t < n
            invariant
                0 <= t <= n,
                n == self.lists@.len(),
                self.lists@.len() == old(self).lists@.len(),
                self.well_formed(),
                forall|i: int|
                    0 <= i < t ==> self@[i] == old(self)@[i].remove(entity.id as int),
                forall|i: int| t <= i < n ==> self@[i] == old(self)@[i],
            decreases n - t,
        {
            let ghost pre = self@;
            let mut list = ComponentList::dense();
            self.lists.set_and_swap(t, &mut list);
            let ghost before = list@;
            list.remove(entity);
            self.lists.set_and_swap(t, &mut list);
            proof {
                assert(before == old(self)@[t as int]);
                assert forall|i: int| 0 <= i < t + 1 implies self@[i] == old(self)@[i].remove(
                    entity.id as int,
                ) by {
                    if i < t {
                        assert(self@[i] == pre[i]);
                    } else {
                        assert(self@[i] == before.remove(entity.id as int));
                    }
                }
            }
            t += 1;
        }
    }
}

} // verus!
