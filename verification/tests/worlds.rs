use ecs::{
    Aspect, ComponentEdit, ComponentManager, EcsError, Entity, StorageStrategy, System,
    SystemKind, SystemManager, World,
};

/// A world with one dense component type ("position") and one active system
/// interested in every entity that has it.
fn position_world() -> (World<i64>, usize, usize) {
    let mut components: ComponentManager<i64> = ComponentManager::new();
    let position = components.register(StorageStrategy::Dense);
    let mut systems = SystemManager::new();
    let index = systems.register(System::new(SystemKind::Active, Aspect::all_of(vec![position])));
    (World::new(components, systems), position, index)
}

#[test]
fn lifecycle_end_to_end() {
    // create, give it a position, activate: the system reports interest and
    // the next update pass includes the entity; remove the position in one
    // batch: interest is released and later passes exclude it.
    let (mut world, position, index) = position_world();
    let e = world.create_entity().unwrap();
    world.modify_entity(&e, vec![ComponentEdit::Insert(position, -3)]).unwrap();
    assert!(!world.system(index).is_interested(&e));
    world.activate_entity(&e).unwrap();
    assert!(world.system(index).is_interested(&e));

    let passes = world.update();
    assert_eq!(passes.len(), 1);
    assert_eq!(passes[0].system, index);
    assert_eq!(passes[0].entities, vec![e]);

    world.modify_entity(&e, vec![ComponentEdit::Remove(position)]).unwrap();
    assert!(!world.system(index).is_interested(&e));
    let passes = world.update();
    assert_eq!(passes[0].entities, Vec::<Entity>::new());
}

#[test]
fn building_entities_are_invisible_to_systems() {
    let (mut world, position, index) = position_world();
    let e = world.create_entity().unwrap();
    world.modify_entity(&e, vec![ComponentEdit::Insert(position, 1)]).unwrap();
    // mutation before activation triggers no notification and no interest
    assert!(!world.system(index).is_interested(&e));
    assert_eq!(world.update()[0].entities.len(), 0);
}

#[test]
fn reactivation_batch_reflects_net_change() {
    // one batch inserting one component and removing another produces the
    // net composition, and membership follows it
    let mut components: ComponentManager<i64> = ComponentManager::new();
    let a = components.register(StorageStrategy::Dense);
    let b = components.register(StorageStrategy::Sparse);
    let mut systems = SystemManager::new();
    let wants_a = systems.register(System::new(SystemKind::Active, Aspect::all_of(vec![a])));
    let wants_b = systems.register(System::new(SystemKind::Active, Aspect::all_of(vec![b])));
    let mut world = World::new(components, systems);

    let e = world.create_entity().unwrap();
    world.modify_entity(&e, vec![ComponentEdit::Insert(b, 5)]).unwrap();
    world.activate_entity(&e).unwrap();
    assert!(!world.system(wants_a).is_interested(&e));
    assert!(world.system(wants_b).is_interested(&e));

    world
        .modify_entity(&e, vec![ComponentEdit::Insert(a, 6), ComponentEdit::Remove(b)])
        .unwrap();
    assert!(world.system(wants_a).is_interested(&e));
    assert!(!world.system(wants_b).is_interested(&e));
}

#[test]
fn delete_purges_storage_and_interest() {
    let (mut world, position, index) = position_world();
    let e = world.create_entity().unwrap();
    world.modify_entity(&e, vec![ComponentEdit::Insert(position, 9)]).unwrap();
    world.activate_entity(&e).unwrap();
    world.delete_entity(&e).unwrap();
    assert!(!world.system(index).is_interested(&e));
    assert!(!world.is_valid(&e));
    assert_eq!(world.has_component(position, &e), Err(EcsError::InvalidEntity));
}

#[test]
fn identity_reuse_bumps_generation() {
    // delete the entity with identity 3, create a new one: the identity is
    // reused under a higher generation, and the stale handle fails
    let (mut world, _, _) = position_world();
    let mut handles = Vec::new();
    for _ in 0..4 {
        handles.push(world.create_entity().unwrap());
    }
    let third = handles[3];
    assert_eq!(third.id, 3);
    assert_eq!(third.generation, 0);
    world.delete_entity(&third).unwrap();
    let replacement = world.create_entity().unwrap();
    assert_eq!(replacement.id, 3);
    assert_eq!(replacement.generation, 1);
    assert_ne!(replacement, third);
    assert!(world.is_valid(&replacement));
    assert!(!world.is_valid(&third));
    // the stale handle is rejected by every operation
    assert_eq!(world.activate_entity(&third), Err(EcsError::InvalidEntity));
    assert_eq!(world.delete_entity(&third), Err(EcsError::InvalidEntity));
}

#[test]
fn disabled_system_skips_process_but_keeps_notifications() {
    let mut components: ComponentManager<i64> = ComponentManager::new();
    let position = components.register(StorageStrategy::Dense);
    let mut systems = SystemManager::new();
    let first = systems.register(System::new(SystemKind::Active, Aspect::all_of(vec![position])));
    let second = systems.register(System::new(SystemKind::Active, Aspect::any()));
    let mut world = World::new(components, systems);

    let e = world.create_entity().unwrap();
    world.modify_entity(&e, vec![ComponentEdit::Insert(position, 2)]).unwrap();
    world.activate_entity(&e).unwrap();
    let passes = world.update();
    assert_eq!(passes.len(), 2);

    world.set_system_active(first, false);
    let passes = world.update();
    assert_eq!(passes.len(), 1);
    assert_eq!(passes[0].system, second);

    // lifecycle notifications still arrive while the flag is off
    let e2 = world.create_entity().unwrap();
    world.modify_entity(&e2, vec![ComponentEdit::Insert(position, 4)]).unwrap();
    world.activate_entity(&e2).unwrap();
    assert!(world.system(first).is_interested(&e2));

    world.set_system_active(first, true);
    let passes = world.update();
    assert_eq!(passes.len(), 2);
    assert_eq!(passes[0].system, first);
    assert_eq!(passes[0].entities.len(), 2);
}

#[test]
fn passive_systems_never_process() {
    let mut components: ComponentManager<i64> = ComponentManager::new();
    components.register(StorageStrategy::Dense);
    let mut systems = SystemManager::new();
    let index = systems.register(System::new(SystemKind::Passive, Aspect::any()));
    let mut world = World::new(components, systems);
    let e = world.create_entity().unwrap();
    world.activate_entity(&e).unwrap();
    // the passive system still tracks interest, but runs in no pass
    assert!(world.system(index).is_interested(&e));
    assert_eq!(world.update().len(), 0);
}

#[test]
fn lifecycle_errors() {
    let (mut world, position, _) = position_world();
    let unknown = Entity::new(42, 0);
    assert_eq!(world.activate_entity(&unknown), Err(EcsError::InvalidEntity));
    assert_eq!(world.deactivate_entity(&unknown), Err(EcsError::InvalidEntity));
    assert_eq!(world.delete_entity(&unknown), Err(EcsError::InvalidEntity));
    assert_eq!(
        world.modify_entity(&unknown, vec![ComponentEdit::Insert(position, 0)]),
        Err(EcsError::InvalidEntity)
    );

    let e = world.create_entity().unwrap();
    assert_eq!(world.deactivate_entity(&e), Err(EcsError::InvalidEntity));
    world.activate_entity(&e).unwrap();
    assert_eq!(world.activate_entity(&e), Err(EcsError::DuplicateActivation));

    // an edit naming an undeclared component type is rejected whole
    assert_eq!(
        world.modify_entity(
            &e,
            vec![ComponentEdit::Insert(position, 1), ComponentEdit::Remove(position + 1)]
        ),
        Err(EcsError::ComponentAccess)
    );
    assert_eq!(world.has_component(position, &e), Ok(false));

    // inactive entities may not be modified
    world.deactivate_entity(&e).unwrap();
    assert_eq!(
        world.modify_entity(&e, vec![ComponentEdit::Insert(position, 1)]),
        Err(EcsError::InvalidEntity)
    );
    // but may be activated again
    world.activate_entity(&e).unwrap();
    world.modify_entity(&e, vec![ComponentEdit::Insert(position, 1)]).unwrap();
    assert_eq!(world.has_component(position, &e), Ok(true));
}

#[test]
fn component_reads_through_world() {
    let (mut world, position, _) = position_world();
    let e = world.create_entity().unwrap();
    world.modify_entity(&e, vec![ComponentEdit::Insert(position, 77)]).unwrap();
    assert_eq!(world.get_component(position, &e), Ok(Some(&77)));
    assert_eq!(world.get_component(position + 1, &e), Err(EcsError::ComponentAccess));
    assert!(world.storage_ref().has(position, &e));
}

#[test]
fn value_mutation_in_place_keeps_membership() {
    let (mut world, position, index) = position_world();
    let e = world.create_entity().unwrap();
    world.modify_entity(&e, vec![ComponentEdit::Insert(position, 10)]).unwrap();
    world.activate_entity(&e).unwrap();
    match world.borrow_component(position, &e) {
        Ok(Some(value)) => *value = 11,
        other => panic!("expected a value to borrow, got {:?}", other.map(|_| ())),
    }
    assert_eq!(world.get_component(position, &e), Ok(Some(&11)));
    // replacing a value changes no composition, so interest is untouched
    assert!(world.system(index).is_interested(&e));
    assert_eq!(world.borrow_component(position, &Entity::new(8, 0)), Err(EcsError::InvalidEntity));
    match world.borrow_component(position + 1, &e) {
        Err(EcsError::ComponentAccess) => {}
        _ => panic!("expected a component-access error"),
    }
}

#[test]
fn access_capabilities_follow_the_lifecycle() {
    let (mut world, _, _) = position_world();
    let e = world.create_entity().unwrap();
    // building: build, modify and read capabilities are all issued
    assert!(world.build_data(&e).is_ok());
    assert!(world.modify_data(&e).is_ok());
    assert!(world.entity_data(&e).is_ok());
    world.activate_entity(&e).unwrap();
    // active: building is over
    assert!(world.build_data(&e).is_err());
    assert!(world.modify_data(&e).is_ok());
    assert!(world.entity_data(&e).is_ok());
    world.deactivate_entity(&e).unwrap();
    // inactive: only reading remains
    assert!(world.build_data(&e).is_err());
    assert!(world.modify_data(&e).is_err());
    assert!(world.entity_data(&e).is_ok());
    world.delete_entity(&e).unwrap();
    assert!(world.entity_data(&e).is_err());
}

#[test]
fn accessors_operate_on_component_lists() {
    let (mut world, _, _) = position_world();
    let e = world.create_entity().unwrap();
    let mut list = ecs::ComponentList::sparse();
    {
        let build = world.build_data(&e).unwrap();
        assert_eq!(build.insert(&mut list, 5u8), None);
    }
    world.activate_entity(&e).unwrap();
    {
        let modify = world.modify_data(&e).unwrap();
        assert!(modify.has(&list));
        assert_eq!(modify.get(&list), Some(&5));
        assert_eq!(modify.insert(&mut list, 6), Some(5));
        assert_eq!(modify.remove(&mut list), Some(6));
        assert!(!modify.has(&list));
        modify.insert(&mut list, 7);
    }
    {
        let data = world.entity_data(&e).unwrap();
        assert_eq!(data.entity_ref(), &e);
        assert_eq!(data.get(&list), Some(&7));
        if let Some(value) = data.borrow(&mut list) {
            *value = 8;
        }
        assert_eq!(data.get(&list), Some(&8));
        assert!(data.has(&list));
    }
}
