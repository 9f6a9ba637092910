use shadow::entity::Entity;
use shadow::ids::ComponentId;
use shadow::resource::ResourceType;
use shadow::world::events::{
    AddChildren, AddComponent, AddComponents, Despawn, RemoveChildren, RemoveComponent,
    RemoveComponents, SetParent, Spawn,
};
use shadow::world::{World, WorldEvent};

fn speed() -> ComponentId {
    ComponentId::raw(11)
}

#[test]
fn spawn_request_with_a_parent_sets_it_by_the_second_round() {
    let mut world: World<u32> = World::new();
    let parent = world.spawn(None);
    world.add_event(WorldEvent::Spawn(Spawn::new().set_parent(parent)));
    world.flush_round();
    // The spawn queued a request to set the parent, for the next round.
    assert_eq!(world.events().len(), 1);
    assert!(world.parent_updates().is_empty());
    world.flush_round();
    assert!(world.events().is_empty());
    let child = world.spawned()[0];
    assert_eq!(world.entities().parent(&child), Some(&parent));
    assert_eq!(world.entities().children(&parent), Some(&[child][..]));
    assert_eq!(world.parent_updates().len(), 1);
    assert_eq!(world.parent_updates()[0].entity(), child);
    assert_eq!(world.parent_updates()[0].parent(), Some(parent));
    assert_eq!(world.parent_updates()[0].old_parent(), Some(parent));
}

#[test]
fn despawn_request_takes_the_children_along() {
    let mut world: World<u32> = World::new();
    let parent = world.spawn(None);
    let a = world.spawn(Some(parent));
    let b = world.spawn(Some(parent));
    let other = world.spawn(None);
    world.add_event(WorldEvent::Despawn(Despawn::new(parent)));
    world.flush();
    assert!(!world.entities().contains(&parent));
    assert!(!world.entities().contains(&a));
    assert!(!world.entities().contains(&b));
    assert!(world.entities().contains(&other));
    assert_eq!(world.despawned().len(), 1);
    assert_eq!(world.despawned()[0].len(), 3);
}

#[test]
fn despawn_of_a_dead_entity_records_nothing() {
    let mut world: World<u32> = World::new();
    world.add_event(WorldEvent::Despawn(Despawn::new(Entity::new(4, 0))));
    world.flush();
    assert!(world.despawned().is_empty());
}

#[test]
fn set_parent_request_is_recorded_even_for_a_dead_entity() {
    let mut world: World<u32> = World::new();
    let p = world.spawn(None);
    world.add_event(WorldEvent::SetParent(SetParent::new(Entity::new(9, 0), Some(p))));
    world.flush();
    assert_eq!(world.parent_updates().len(), 1);
    assert_eq!(world.parent_updates()[0].old_parent(), None);
    assert_eq!(world.entities().children(&p), Some(&[][..]));
}

#[test]
fn add_children_request_reparents_each_child() {
    let mut world: World<u32> = World::new();
    let p = world.spawn(None);
    let a = world.spawn(None);
    let b = world.spawn(None);
    world.add_event(WorldEvent::AddChildren(AddChildren::new(p, vec![a, b])));
    world.flush();
    assert_eq!(world.entities().parent(&a), Some(&p));
    assert_eq!(world.entities().parent(&b), Some(&p));
    assert_eq!(world.entities().children(&p), Some(&[a, b][..]));
    assert_eq!(world.children_added().len(), 1);
    let updates = &world.children_added()[0];
    assert_eq!(updates.len(), 2);
    assert_eq!(updates[1].entity(), b);
    assert_eq!(updates[1].parent(), Some(p));
    assert_eq!(updates[1].old_parent(), None);
}

#[test]
fn component_requests_move_the_entity_between_archetypes() {
    let mut world: World<u32> = World::new();
    world.register(speed());
    let e = world.spawn(None);
    let root = world.archetypes().root_id();
    world.add_event(WorldEvent::AddComponent(AddComponent::new(e, speed(), 3)));
    world.flush();
    assert_eq!(world.component_events(&speed()).unwrap().added(), &[e, e]);
    assert!(world.query(&[], &[]).is_empty());
    let found = world.query(&[speed()], &[]);
    assert_eq!(found.len(), 1);
    assert_ne!(found[0], root);
    world.add_event(WorldEvent::RemoveComponent(RemoveComponent::new(e, speed())));
    world.flush();
    let removed = world.component_events(&speed()).unwrap().removed();
    assert_eq!(removed.len(), 1);
    assert_eq!(removed[0].entity, e);
    assert_eq!(removed[0].component, 3);
}

#[test]
fn add_components_request_records_the_entity() {
    let mut world: World<u32> = World::new();
    let e = world.spawn(None);
    world.add_event(WorldEvent::AddComponents(AddComponents::new(e).with(speed(), 8)));
    world.flush();
    assert_eq!(world.components_added(), &[e]);
    assert!(world.components_removed().is_empty());
}

#[test]
fn resources_read_back_what_was_added() {
    let mut world: World<u32> = World::new();
    let gold = ResourceType::raw(1);
    let wood = ResourceType::raw(2);
    world.add_resource(gold, 10).add_resource(wood, 20);
    assert_eq!(*world.resource(gold), 10);
    assert_eq!(world.try_resource(wood), Some(&20));
    assert_eq!(world.try_resource(ResourceType::raw(3)), None);
    *world.resource_mut(gold) += 5;
    assert_eq!(*world.resource(gold), 15);
    world.add_resource(gold, 1);
    assert_eq!(*world.resource(gold), 1);
    world.add_local_resource(gold, 7);
    assert_eq!(*world.local_resource(gold), 7);
    assert_eq!(*world.resource(gold), 1);
}

#[test]
fn remove_children_request_records_each_old_parent() {
    let mut world: World<u32> = World::new();
    let p = world.spawn(None);
    let a = world.spawn(Some(p));
    let b = world.spawn(None);
    world.add_event(WorldEvent::RemoveChildren(RemoveChildren::new(p, vec![a, b, a])));
    world.flush();
    assert_eq!(world.entities().parent(&a), None);
    assert_eq!(world.entities().parent(&b), None);
    assert_eq!(world.entities().children(&p), Some(&[][..]));
    let updates = &world.children_removed()[0];
    assert_eq!(updates.len(), 3);
    assert_eq!(updates[0].old_parent(), Some(p));
    assert_eq!(updates[1].old_parent(), None);
    assert_eq!(updates[2].old_parent(), None);
    assert_eq!(updates[2].parent(), None);
}

#[test]
fn remove_components_request_takes_each_value_once() {
    let mut world: World<u32> = World::new();
    world.register(speed());
    let e = world.spawn(None);
    world.add_event(WorldEvent::AddComponents(AddComponents::new(e).with(speed(), 8)));
    world.flush();
    let request = RemoveComponents::new(e).with(speed()).with(speed());
    assert_eq!(request.components.keys(), &[speed()]);
    world.add_event(WorldEvent::RemoveComponents(request));
    world.flush();
    let removed = world.component_events(&speed()).unwrap().removed();
    assert_eq!(removed.len(), 1);
    assert_eq!(removed[0].entity, e);
    assert_eq!(removed[0].component, 8);
    assert_eq!(world.components_removed(), &[e]);
}

#[test]
fn an_archetype_is_listed_once_for_its_component() {
    let mut world: World<u32> = World::new();
    world.register(speed());
    let a = world.spawn(None);
    let b = world.spawn(None);
    world.add_event(WorldEvent::AddComponent(AddComponent::new(a, speed(), 1)));
    world.add_event(WorldEvent::AddComponent(AddComponent::new(b, speed(), 2)));
    world.flush();
    assert_eq!(world.query(&[speed()], &[]).len(), 1);
}

#[test]
fn two_spawns_from_a_fresh_world_list_the_child() {
    let mut world: World<u32> = World::new();
    let parent = world.spawn(None);
    let child = world.spawn(Some(parent));
    assert_eq!(world.entities().parent(&child), Some(&parent));
    assert_eq!(world.entities().children(&parent), Some(&[child][..]));
    world.set_parent(&child, None);
    assert_eq!(world.entities().parent(&child), None);
    assert_eq!(world.entities().children(&parent), Some(&[][..]));
}

fn mass() -> ComponentId {
    ComponentId::raw(12)
}

#[test]
fn query_lists_each_archetype_once() {
    let mut world: World<u32> = World::new();
    world.register(speed());
    world.register(mass());
    world.add_event(WorldEvent::Spawn(Spawn::new().with(speed(), 1).with(mass(), 2)));
    world.add_event(WorldEvent::Spawn(Spawn::new().with(speed(), 3).with(mass(), 4)));
    world.flush();
    let found = world.query(&[speed(), mass()], &[]);
    assert_eq!(found.len(), 1);
    assert_eq!(world.query(&[mass(), speed(), mass()], &[]).len(), 1);
}

#[test]
fn a_spawned_entity_holds_its_components() {
    let mut world: World<u32> = World::new();
    world.register(speed());
    world.register(mass());
    world.add_event(WorldEvent::Spawn(Spawn::new().with(speed(), 5).with(mass(), 6)));
    world.flush();
    let e = world.spawned()[0];
    world.add_event(WorldEvent::Despawn(Despawn::new(e)));
    world.flush();
    assert_eq!(world.despawned(), &[vec![e]]);
    let speeds = world.component_events(&speed()).unwrap().removed();
    let masses = world.component_events(&mass()).unwrap().removed();
    assert_eq!(speeds.len(), 1);
    assert_eq!(speeds[0].component, 5);
    assert_eq!(masses.len(), 1);
    assert_eq!(masses[0].component, 6);
    assert!(world.query(&[speed()], &[]).is_empty());
}
