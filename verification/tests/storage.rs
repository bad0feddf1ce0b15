use ecs::{ComponentList, ComponentManager, EcsError, Entity, StorageStrategy};

fn entity(id: usize) -> Entity {
    Entity::new(id, 0)
}

fn exercise_list(mut list: ComponentList<u32>) {
    let e2 = entity(2);
    let e5 = entity(5);
    let e7 = entity(7);

    assert!(!list.has(&e2));
    assert_eq!(list.get(&e2), None);

    assert_eq!(list.insert(&e2, 20), None);
    assert_eq!(list.insert(&e5, 50), None);
    assert!(list.has(&e2));
    assert!(list.has(&e5));
    assert!(!list.has(&e7));
    assert_eq!(list.get(&e2), Some(&20));
    assert_eq!(list.get(&e5), Some(&50));
    assert_eq!(list.get(&e7), None);

    // insert returns the previous value
    assert_eq!(list.insert(&e2, 21), Some(20));
    assert_eq!(list.get(&e2), Some(&21));

    // mutable borrow replaces the value in place
    match list.borrow(&e5) {
        Some(value) => *value = 55,
        None => panic!("expected a value for entity 5"),
    }
    assert_eq!(list.get(&e5), Some(&55));
    assert!(list.borrow(&e7).is_none());

    // remove returns the removed value; a second remove finds nothing
    assert_eq!(list.remove(&e2), Some(21));
    assert!(!list.has(&e2));
    assert_eq!(list.remove(&e2), None);
    assert!(list.has(&e5));
}

#[test]
fn dense_list_semantics() {
    exercise_list(ComponentList::dense());
}

#[test]
fn sparse_list_semantics() {
    exercise_list(ComponentList::sparse());
}

#[test]
fn both_strategies_agree() {
    // the two backing strategies expose identical semantics
    let mut dense: ComponentList<u32> = ComponentList::with_strategy(StorageStrategy::Dense);
    let mut sparse: ComponentList<u32> = ComponentList::with_strategy(StorageStrategy::Sparse);
    let ids = [3usize, 0, 9, 3, 6, 0];
    let mut value = 1u32;
    for id in ids {
        let e = entity(id);
        assert_eq!(dense.insert(&e, value), sparse.insert(&e, value));
        value += 1;
    }
    let gone = entity(9);
    assert_eq!(dense.remove(&gone), sparse.remove(&gone));
    for id in 0..12usize {
        let e = entity(id);
        assert_eq!(dense.has(&e), sparse.has(&e));
        assert_eq!(dense.get(&e), sparse.get(&e));
    }
}

#[test]
fn manager_addresses_types_by_index() {
    let mut manager: ComponentManager<u32> = ComponentManager::new();
    let position = manager.register(StorageStrategy::Dense);
    let rare = manager.register(StorageStrategy::Sparse);
    assert_eq!(position, 0);
    assert_eq!(rare, 1);
    assert_eq!(manager.n_types(), 2);

    let e = entity(4);
    assert_eq!(manager.insert(position, &e, 11), Ok(None));
    assert_eq!(manager.insert(rare, &e, 12), Ok(None));
    assert!(manager.has(position, &e));
    assert!(manager.has(rare, &e));
    assert_eq!(manager.get(position, &e), Ok(Some(&11)));
    assert_eq!(manager.remove(rare, &e), Ok(Some(12)));
    assert!(!manager.has(rare, &e));
}

#[test]
fn manager_rejects_undeclared_type() {
    let mut manager: ComponentManager<u32> = ComponentManager::new();
    let only = manager.register(StorageStrategy::Dense);
    let e = entity(0);
    assert_eq!(manager.insert(only + 1, &e, 1), Err(EcsError::ComponentAccess));
    assert_eq!(manager.get(only + 1, &e), Err(EcsError::ComponentAccess));
    assert_eq!(manager.remove(only + 1, &e), Err(EcsError::ComponentAccess));
    // an undeclared type is simply not present
    assert!(!manager.has(only + 1, &e));
}

#[test]
fn remove_all_purges_every_list() {
    let mut manager: ComponentManager<u32> = ComponentManager::new();
    let a = manager.register(StorageStrategy::Dense);
    let b = manager.register(StorageStrategy::Sparse);
    let e = entity(1);
    let other = entity(2);
    manager.insert(a, &e, 10).unwrap();
    manager.insert(b, &e, 20).unwrap();
    manager.insert(a, &other, 30).unwrap();
    manager.remove_all(&e);
    assert!(!manager.has(a, &e));
    assert!(!manager.has(b, &e));
    // the other entity's storage is untouched
    assert_eq!(manager.get(a, &other), Ok(Some(&30)));
}
