use shadow::archetype::ArchetypeId;
use shadow::ids::{ColumnKey, ComponentId};
use shadow::resource::ResourceType;
use shadow::scene::{SceneId, SceneTracker};
use shadow::window::{WindowBuilder, WindowConfig};

struct Menu;
struct Level;

#[test]
fn scene_tracker_swaps_in_the_next_scene() {
    let mut tracker = SceneTracker::new();
    assert_eq!(tracker.current(), None);
    tracker.set_next::<Menu>();
    assert_eq!(tracker.next(), Some(SceneId::new::<Menu>()));
    tracker.swap();
    assert_eq!(tracker.current(), Some(SceneId::new::<Menu>()));
    assert_eq!(tracker.next(), None);
    tracker.set_next::<Level>();
    tracker.swap();
    assert_eq!(tracker.current(), Some(SceneId::new::<Level>()));
    tracker.swap();
    assert_eq!(tracker.current(), None);
}

#[test]
fn window_config_builders_set_one_field_each() {
    let config = WindowConfig::new("shadow")
        .with_size(1024, 768)
        .with_title("game")
        .with_resizable(false)
        .with_blur(true)
        .with_maximized(true);
    assert_eq!(config.width, 1024);
    assert_eq!(config.height, 768);
    assert_eq!(config.title, "game");
    assert!(!config.resizable);
    assert!(config.visible);
    assert!(config.blur);
    assert!(!config.transparent);
    assert!(config.maximized);
    assert!(config.decorations);
    let plain = WindowConfig::new("x");
    assert_eq!((plain.width, plain.height), (800, 600));
    assert_eq!(plain.title, "x");
}

#[test]
fn type_digests_tell_types_apart_and_repeat() {
    assert_eq!(ComponentId::new::<Menu>(), ComponentId::new::<Menu>());
    assert_ne!(ComponentId::new::<Menu>(), ComponentId::new::<Level>());
    assert!(ResourceType::new::<Menu>().is::<Menu>());
    assert!(!ResourceType::new::<Menu>().is::<Level>());
    assert_eq!(ColumnKey::from::<Level>().component(), ComponentId::new::<Level>());
}

#[test]
fn archetype_ids_depend_on_the_set_of_columns() {
    let a = ArchetypeId::from_columns(&[ColumnKey(1), ColumnKey(2)]);
    let b = ArchetypeId::from_columns(&[ColumnKey(1), ColumnKey(2)]);
    let c = ArchetypeId::from_columns(&[ColumnKey(1), ColumnKey(3)]);
    assert_eq!(a, b);
    assert_ne!(a, c);
    let none = ArchetypeId::new(&[]);
    assert_ne!(none, a);
}

#[test]
fn window_builder_keeps_the_other_settings() {
    let builder = WindowBuilder::new("main").with_transparent(true).with_decorations(false);
    assert_eq!(builder.title, "main");
    assert!(builder.transparent);
    assert!(!builder.decorations);
    assert_eq!((builder.width, builder.height), (800, 600));
    assert!(builder.resizable && builder.visible && !builder.blur && !builder.maximized);
}

#[test]
fn adding_either_way_lists_the_same_components() {
    let ids = [ComponentId(7), ComponentId(2)];
    let added = [ComponentId(5), ComponentId(1)];
    let (a, x) = ArchetypeId::add(&ids, &added);
    let (b, y) = ArchetypeId::add(&added, &ids);
    assert_eq!(x, vec![ComponentId(1), ComponentId(2), ComponentId(5), ComponentId(7)]);
    assert_eq!(x, y);
    assert_eq!(a, b);
}

#[test]
fn removing_what_was_added_gives_back_the_ids() {
    let ids = [ComponentId(2), ComponentId(7)];
    let added = [ComponentId(9), ComponentId(4)];
    let (_, listed) = ArchetypeId::add(&ids, &added);
    let (id, back) = ArchetypeId::remove(&listed, &added);
    assert_eq!(back, ids.to_vec());
    assert_eq!(id, ArchetypeId::new(&ids));
}
