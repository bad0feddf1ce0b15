use ecs::{
    Aspect, ComponentEdit, ComponentManager, Entity, InteractProcess, InteractSystem,
    StorageStrategy, SystemManager, World,
};

/// An inner routine that records every notification and snapshot it is
/// handed, so the forwarding behaviour of the coordinator is observable.
struct Recorder {
    activated: Vec<usize>,
    reactivated: Vec<usize>,
    deactivated: Vec<usize>,
    first_snapshot: Vec<usize>,
    second_snapshot: Vec<usize>,
    process_calls: usize,
}

impl Recorder {
    fn new() -> Recorder {
        Recorder {
            activated: Vec::new(),
            reactivated: Vec::new(),
            deactivated: Vec::new(),
            first_snapshot: Vec::new(),
            second_snapshot: Vec::new(),
            process_calls: 0,
        }
    }
}

impl InteractProcess<u32> for Recorder {
    fn activated(&mut self, entity: &Entity) {
        self.activated.push(entity.id);
    }

    fn reactivated(&mut self, entity: &Entity) {
        self.reactivated.push(entity.id);
    }

    fn deactivated(&mut self, entity: &Entity) {
        self.deactivated.push(entity.id);
    }

    fn process(
        &mut self,
        first: &Vec<Entity>,
        second: &Vec<Entity>,
        _components: &mut ComponentManager<u32>,
    ) {
        self.first_snapshot = first.iter().map(|e| e.id).collect();
        self.second_snapshot = second.iter().map(|e| e.id).collect();
        self.process_calls += 1;
    }
}

/// Storage with two component types and a coordinator whose first aspect
/// wants the first type and whose second aspect wants the second.
fn coordinator() -> (ComponentManager<u32>, InteractSystem<Recorder>, usize, usize) {
    let mut components: ComponentManager<u32> = ComponentManager::new();
    let left = components.register(StorageStrategy::Dense);
    let right = components.register(StorageStrategy::Sparse);
    let system = InteractSystem::new(
        Recorder::new(),
        Aspect::all_of(vec![left]),
        Aspect::all_of(vec![right]),
    );
    (components, system, left, right)
}

#[test]
fn entity_matching_both_is_forwarded_twice() {
    let (mut components, mut system, left, right) = coordinator();
    let e = Entity::new(0, 0);
    components.insert(left, &e, 1).unwrap();
    components.insert(right, &e, 2).unwrap();
    system.activated(&e, &components);
    // one activation forward per matching set
    assert_eq!(system.inner_ref().activated, vec![0, 0]);

    let ghost_entity = Entity::new(1, 0);
    system.activated(&ghost_entity, &components);
    // an entity matching neither aspect is not forwarded at all
    assert_eq!(system.inner_ref().activated, vec![0, 0]);

    system.process(&mut components);
    assert_eq!(system.inner_ref().process_calls, 1);
    assert!(system.inner_ref().first_snapshot.contains(&0));
    assert!(system.inner_ref().second_snapshot.contains(&0));
    assert!(!system.inner_ref().first_snapshot.contains(&1));
    assert!(!system.inner_ref().second_snapshot.contains(&1));
}

#[test]
fn one_batch_yields_one_forward_per_set() {
    // a mutation batch that adds one component and removes another reaches
    // the coordinator as a single reactivation: each set reacts once — the
    // first drops the entity, the second adopts it — never twice
    let (mut components, mut system, left, right) = coordinator();
    let e = Entity::new(0, 0);
    components.insert(left, &e, 1).unwrap();
    system.activated(&e, &components);
    assert_eq!(system.inner_ref().activated, vec![0]);

    components.remove(left, &e).unwrap();
    components.insert(right, &e, 2).unwrap();
    system.reactivated(&e, &components);
    assert_eq!(system.inner_ref().deactivated, vec![0]);
    assert_eq!(system.inner_ref().activated, vec![0, 0]);
    assert_eq!(system.inner_ref().reactivated, Vec::<usize>::new());

    system.process(&mut components);
    assert!(!system.inner_ref().first_snapshot.contains(&0));
    assert!(system.inner_ref().second_snapshot.contains(&0));
}

#[test]
fn member_still_matching_is_refreshed() {
    let (mut components, mut system, left, _) = coordinator();
    let e = Entity::new(3, 0);
    components.insert(left, &e, 1).unwrap();
    system.activated(&e, &components);
    system.reactivated(&e, &components);
    assert_eq!(system.inner_ref().reactivated, vec![3]);
    assert_eq!(system.inner_ref().deactivated, Vec::<usize>::new());
}

#[test]
fn deactivation_forwards_once_per_membership() {
    let (mut components, mut system, left, right) = coordinator();
    let both = Entity::new(0, 0);
    let one = Entity::new(1, 0);
    components.insert(left, &both, 1).unwrap();
    components.insert(right, &both, 2).unwrap();
    components.insert(right, &one, 3).unwrap();
    system.activated(&both, &components);
    system.activated(&one, &components);

    system.deactivated::<u32>(&both);
    // dropped from both sets: two forwards
    assert_eq!(system.inner_ref().deactivated, vec![0, 0]);
    system.deactivated::<u32>(&one);
    // dropped from one set: one more forward
    assert_eq!(system.inner_ref().deactivated, vec![0, 0, 1]);
    // an entity in neither set forwards nothing
    system.deactivated::<u32>(&Entity::new(9, 0));
    assert_eq!(system.inner_ref().deactivated, vec![0, 0, 1]);

    system.process(&mut components);
    assert!(system.inner_ref().first_snapshot.is_empty());
    assert!(system.inner_ref().second_snapshot.is_empty());
}

#[test]
fn coordinator_enable_flag() {
    let (_, mut system, _, _) = coordinator();
    assert!(system.is_active());
    system.set_active(false);
    assert!(!system.is_active());
    system.set_active(true);
    assert!(system.is_active());
}

#[test]
fn coordinator_follows_world_events() {
    // the intended wiring: a caller forwards the world's lifecycle events to
    // the coordinator and evaluates its aspects against the world's own
    // storage
    let mut components: ComponentManager<u32> = ComponentManager::new();
    let left = components.register(StorageStrategy::Dense);
    let right = components.register(StorageStrategy::Sparse);
    let mut world = World::new(components, SystemManager::new());
    let mut system = InteractSystem::new(
        Recorder::new(),
        Aspect::all_of(vec![left]),
        Aspect::all_of(vec![right]),
    );

    let e = world.create_entity().unwrap();
    world.modify_entity(&e, vec![ComponentEdit::Insert(left, 1)]).unwrap();
    world.activate_entity(&e).unwrap();
    system.activated(&e, world.storage_ref());
    assert_eq!(system.inner_ref().activated, vec![e.id]);

    // one batch moves the entity from the first membership to the second
    world
        .modify_entity(&e, vec![ComponentEdit::Remove(left), ComponentEdit::Insert(right, 2)])
        .unwrap();
    system.reactivated(&e, world.storage_ref());
    assert_eq!(system.inner_ref().deactivated, vec![e.id]);
    assert_eq!(system.inner_ref().activated, vec![e.id, e.id]);

    world.delete_entity(&e).unwrap();
    system.deactivated::<u32>(&e);
    assert_eq!(system.inner_ref().deactivated, vec![e.id, e.id]);

    let mut gateway: ComponentManager<u32> = ComponentManager::new();
    system.process(&mut gateway);
    assert_eq!(system.inner_ref().process_calls, 1);
    assert!(system.inner_ref().first_snapshot.is_empty());
    assert!(system.inner_ref().second_snapshot.is_empty());
}
