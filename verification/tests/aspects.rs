use ecs::{Aspect, ComponentManager, Entity, StorageStrategy};

fn manager_with_three_types() -> (ComponentManager<u8>, usize, usize, usize) {
    let mut manager: ComponentManager<u8> = ComponentManager::new();
    let a = manager.register(StorageStrategy::Dense);
    let b = manager.register(StorageStrategy::Sparse);
    let c = manager.register(StorageStrategy::Dense);
    (manager, a, b, c)
}

#[test]
fn all_and_none_over_eight_compositions() {
    // all-set {a, b}, none-set {c}: true iff has a and has b and lacks c
    let (_, a, b, c) = manager_with_three_types();
    for has_a in [false, true] {
        for has_b in [false, true] {
            for has_c in [false, true] {
                let (mut manager, _, _, _) = manager_with_three_types();
                let e = Entity::new(0, 0);
                if has_a {
                    manager.insert(a, &e, 1).unwrap();
                }
                if has_b {
                    manager.insert(b, &e, 2).unwrap();
                }
                if has_c {
                    manager.insert(c, &e, 3).unwrap();
                }
                let aspect = Aspect::new(vec![a, b], vec![c]);
                let expected = has_a && has_b && !has_c;
                assert_eq!(aspect.check(&e, &manager), expected);
            }
        }
    }
}

#[test]
fn empty_aspect_matches_everything() {
    let (mut manager, a, _, _) = manager_with_three_types();
    let bare = Entity::new(0, 0);
    let loaded = Entity::new(1, 0);
    manager.insert(a, &loaded, 9).unwrap();
    let aspect = Aspect::any();
    assert!(aspect.check(&bare, &manager));
    assert!(aspect.check(&loaded, &manager));
}

#[test]
fn all_of_requires_every_type() {
    let (mut manager, a, b, _) = manager_with_three_types();
    let e = Entity::new(0, 0);
    manager.insert(a, &e, 1).unwrap();
    let aspect = Aspect::all_of(vec![a, b]);
    assert!(!aspect.check(&e, &manager));
    manager.insert(b, &e, 2).unwrap();
    assert!(aspect.check(&e, &manager));
}

#[test]
fn none_of_rejects_any_listed_type() {
    let (mut manager, a, b, _) = manager_with_three_types();
    let e = Entity::new(0, 0);
    let aspect = Aspect::none_of(vec![a, b]);
    assert!(aspect.check(&e, &manager));
    manager.insert(b, &e, 2).unwrap();
    assert!(!aspect.check(&e, &manager));
}

#[test]
fn aspect_evaluation_does_not_mutate_storage() {
    let (mut manager, a, _, c) = manager_with_three_types();
    let e = Entity::new(0, 0);
    manager.insert(a, &e, 1).unwrap();
    let aspect = Aspect::new(vec![a], vec![c]);
    assert!(aspect.check(&e, &manager));
    // re-entrant: a second evaluation sees the same storage
    assert!(aspect.check(&e, &manager));
    assert_eq!(manager.get(a, &e), Ok(Some(&1)));
}
