use shadow::entity::{Entities, Entity};

#[test]
fn spawn_numbers_new_slots_in_order() {
    let mut entities = Entities::new();
    let a = entities.spawn(None);
    let b = entities.spawn(None);
    assert_eq!(a, Entity::new(0, 0));
    assert_eq!(b, Entity::new(1, 0));
    assert_eq!(entities.capacity(), 2);
    assert!(entities.contains(&a));
    assert!(entities.contains(&b));
}

#[test]
fn despawned_slot_is_reused_one_generation_on() {
    let mut entities = Entities::new();
    let a = entities.spawn(None);
    let gone = entities.despawn(&a);
    assert_eq!(gone, vec![a]);
    assert!(!entities.contains(&a));
    let b = entities.spawn(None);
    assert_eq!(b, Entity::new(0, 1));
    assert!(entities.contains(&b));
    assert!(!entities.contains(&a));
    assert_eq!(entities.capacity(), 1);
}

#[test]
fn despawn_takes_the_descendants_along() {
    let mut entities = Entities::new();
    let root = entities.spawn(None);
    let child = entities.spawn(Some(&root));
    let grandchild = entities.spawn(Some(&child));
    let other = entities.spawn(None);
    let gone = entities.despawn(&root);
    assert_eq!(gone.len(), 3);
    assert_eq!(gone[0], root);
    assert!(gone.contains(&child));
    assert!(gone.contains(&grandchild));
    assert!(!entities.contains(&child));
    assert!(!entities.contains(&grandchild));
    assert!(entities.contains(&other));
}

#[test]
fn despawn_of_a_dead_entity_does_nothing() {
    let mut entities = Entities::new();
    let a = entities.spawn(None);
    assert!(entities.despawn(&Entity::new(0, 5)).is_empty());
    assert!(entities.despawn(&Entity::new(3, 0)).is_empty());
    assert!(entities.contains(&a));
}

#[test]
fn set_parent_moves_the_child_between_parents() {
    let mut entities = Entities::new();
    let p = entities.spawn(None);
    let q = entities.spawn(None);
    let c = entities.spawn(Some(&p));
    assert_eq!(entities.children(&p), Some(&[c][..]));
    assert_eq!(entities.set_parent(&c, Some(&q)), Some(p));
    assert_eq!(entities.parent(&c), Some(&q));
    assert_eq!(entities.children(&p), Some(&[][..]));
    assert_eq!(entities.children(&q), Some(&[c][..]));
}

#[test]
fn set_parent_of_a_dead_entity_is_ignored() {
    let mut entities = Entities::new();
    let p = entities.spawn(None);
    assert_eq!(entities.set_parent(&Entity::new(7, 0), Some(&p)), None);
    assert_eq!(entities.children(&p), Some(&[][..]));
    assert_eq!(entities.parent(&Entity::new(7, 0)), None);
    assert_eq!(entities.children(&Entity::new(7, 0)), None);
}

#[test]
fn despawned_children_leave_their_parents_list() {
    let mut entities = Entities::new();
    let p = entities.spawn(None);
    let a = entities.spawn(Some(&p));
    let b = entities.spawn(Some(&p));
    entities.despawn(&a);
    assert_eq!(entities.children(&p), Some(&[b][..]));
    assert_eq!(entities.parent(&b), Some(&p));
}

#[test]
fn parent_set_while_dead_is_not_listed_when_the_slot_returns() {
    let mut entities = Entities::new();
    let a = entities.spawn(None);
    let c = entities.spawn(None);
    entities.despawn(&a);
    let future = Entity::new(0, 1);
    assert_eq!(entities.set_parent(&c, Some(&future)), None);
    let again = entities.spawn(None);
    assert_eq!(again, future);
    assert_eq!(entities.parent(&c), Some(&future));
    assert_eq!(entities.children(&again), Some(&[][..]));
}
