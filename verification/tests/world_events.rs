use shadow::entity::Entity;
use shadow::ids::ComponentId;
use shadow::resource::ResourceType;
use shadow::world::events::{
    Despawn, RemoveChildren, RemoveComponent, RemoveComponents, SetParent, Spawn,
};
use shadow::world::{World, WorldEvent};

// Components and resources of these worlds are `u32` values; each kind is
// told apart by its id.
fn player() -> ComponentId {
    ComponentId::raw(1)
}

fn health() -> ComponentId {
    ComponentId::raw(2)
}

fn flag() -> ResourceType {
    ResourceType::raw(100)
}

#[test]
fn spawn() {
    let mut world: World<u32> = World::new();
    let entity = world.spawn(None);
    assert_eq!(entity.id(), 0);
}

#[test]
fn on_spawn() {
    let mut world: World<u32> = World::new();
    world.add_resource(flag(), 0);

    world.add_event(WorldEvent::Spawn(Spawn::new()));
    world.flush();

    // What an observer of spawns would see and record.
    let spawned = world.spawned().len() == 1;
    *world.resource_mut(flag()) = spawned as u32;

    assert_eq!(*world.resource(flag()), 1);
}

#[test]
fn on_add_component() {
    let mut world: World<u32> = World::new();
    world.register(player());
    world.add_resource(flag(), 0);

    world.add_event(WorldEvent::Spawn(Spawn::new().with(player(), 7)));
    world.flush();

    let added = world.component_events(&player()).unwrap().added().len() == 1;
    *world.resource_mut(flag()) = added as u32;

    assert_eq!(*world.resource(flag()), 1);
}

#[test]
fn on_add_components() {
    let mut world: World<u32> = World::new();
    world.register(player());
    world.register(health());

    world.add_event(WorldEvent::Spawn(Spawn::new().with(player(), 7).with(health(), 100)));
    world.flush();

    let player_added = world.component_events(&player()).unwrap().added().len() == 1;
    let health_added = world.component_events(&health()).unwrap().added().len() == 1;

    assert!(player_added);
    assert!(health_added);
}

#[test]
fn on_remove_components() {
    let mut world: World<u32> = World::new();
    world.register(player());
    world.register(health());

    world.add_event(WorldEvent::Spawn(Spawn::new().with(player(), 7).with(health(), 100)));
    world.flush();

    world.add_event(WorldEvent::RemoveComponents(
        RemoveComponents::new(Entity::new(0, 0)).with(player()).with(health()),
    ));
    world.flush();

    let player_removed = world.component_events(&player()).unwrap().removed().len() == 1;
    let health_removed = world.component_events(&health()).unwrap().removed().len() == 1;

    assert!(player_removed);
    assert!(health_removed);
}

#[test]
fn on_remove_component() {
    let mut world: World<u32> = World::new();
    world.register(player());
    world.add_resource(flag(), 0);

    world.add_event(WorldEvent::Spawn(Spawn::new().with(player(), 7)));
    world.flush();

    // An observer of added players asks for the player to be taken away.
    let first = *world.component_events(&player()).unwrap().added().first().unwrap();
    world.add_event(WorldEvent::RemoveComponent(RemoveComponent::new(first, player())));
    world.flush();

    let removed = world.component_events(&player()).unwrap().removed().len() == 1;
    *world.resource_mut(flag()) = removed as u32;

    assert_eq!(*world.resource(flag()), 1);
}

#[test]
fn on_despawn() {
    let mut world: World<u32> = World::new();
    world.add_resource(flag(), 0);

    world.add_event(WorldEvent::Spawn(Spawn::new()));
    world.flush();

    // An observer of spawns asks for the new entity to be despawned.
    let first = *world.spawned().first().unwrap();
    world.add_event(WorldEvent::Despawn(Despawn::new(first)));
    world.flush();

    let despawned = world.despawned().len() == 1;
    *world.resource_mut(flag()) = despawned as u32;

    assert_eq!(*world.resource(flag()), 1);
}

#[test]
fn set_parent() {
    let mut world: World<u32> = World::new();
    let parent = world.spawn(None);
    let child = world.spawn(Some(parent));

    let children = world.entities().children(&parent);
    let has_child = children.map(|children| children.contains(&child)).unwrap_or_default();
    assert!(has_child);

    let child_parent = world.entities().parent(&child);
    assert_eq!(child_parent, Some(&parent));

    world.set_parent(&child, None);

    let children = world.entities().children(&parent);
    let has_child = children.map(|children| children.contains(&child)).unwrap_or_default();
    assert!(!has_child);

    let child_parent = world.entities().parent(&child);
    assert_eq!(child_parent, None);
}

#[test]
fn on_set_parent() {
    let mut world: World<u32> = World::new();
    world.add_resource(flag(), 0);

    let parent = world.spawn(None);
    let child = world.spawn(None);

    world.add_event(WorldEvent::SetParent(SetParent::new(child, Some(parent))));
    world.flush();

    let parented = world.parent_updates().len() == 1;
    *world.resource_mut(flag()) = parented as u32;

    assert_eq!(*world.resource(flag()), 1);
}

#[test]
fn on_remove_children() {
    let mut world: World<u32> = World::new();
    world.add_resource(flag(), 0);

    let parent = world.spawn(None);
    let children = (0..10).map(|_| world.spawn(Some(parent))).collect::<Vec<_>>();
    let child_count = children.len();

    world.add_event(WorldEvent::RemoveChildren(RemoveChildren::new(parent, children)));
    world.flush();

    let removed = world.children_removed().first().map(|updates| updates.len()).unwrap_or_default();
    *world.resource_mut(flag()) = removed as u32;

    assert_eq!(*world.resource(flag()) as usize, child_count);
}
