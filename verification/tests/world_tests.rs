use eci::backend::{Backend, MemoryBackend};
use eci::component::{ComponentId, ComponentValue, DataValue, Version};
use eci::world::World;

fn cid(name: &str) -> ComponentId {
    ComponentId { name: name.to_string(), version: Version::new(1, 0, 0) }
}

fn text(name: &str, content: &str) -> ComponentValue {
    ComponentValue { id: cid(name), data: DataValue::Text(content.to_string()) }
}

#[test]
fn world_insert_then_get() {
    let mut world = World::new(Backend::from_joint(MemoryBackend::new()));
    let e = world.spawn();

    world.insert(e, text("DebugString", "Hello world!")).unwrap();

    let back = world.get(e, &cid("DebugString")).unwrap();
    assert_eq!(back, text("DebugString", "Hello world!"));
}

#[test]
fn world_get_missing_is_none() {
    let mut world = World::new(Backend::from_joint(MemoryBackend::new()));
    let e = world.spawn();
    assert!(world.get(e, &cid("DebugString")).is_none());
}

#[test]
fn world_duplicate_insert_fails() {
    let mut world = World::new(Backend::from_joint(MemoryBackend::new()));
    let e = world.spawn();

    world.insert(e, text("DebugString", "one")).unwrap();
    world.insert(e, text("DebugString", "two")).unwrap_err();

    // The failed insert left the first value in place.
    assert_eq!(world.get(e, &cid("DebugString")).unwrap(), text("DebugString", "one"));
}

#[test]
fn world_remove_then_reinsert() {
    let mut world = World::new(Backend::from_joint(MemoryBackend::new()));
    let e = world.spawn();

    world.insert(e, text("DebugString", "old")).unwrap();
    let removed = world.remove(e, &cid("DebugString"));
    assert!(removed.is_some());
    assert!(world.get(e, &cid("DebugString")).is_none());

    // Replacement is explicit remove + insert.
    world.insert(e, text("DebugString", "new")).unwrap();
    assert_eq!(world.get(e, &cid("DebugString")).unwrap(), text("DebugString", "new"));
}

#[test]
fn world_remove_missing_is_none() {
    let mut world = World::new(Backend::from_joint(MemoryBackend::new()));
    let e = world.spawn();
    assert!(world.remove(e, &cid("DebugString")).is_none());
}

#[test]
fn spawned_entities_are_distinct() {
    let mut world = World::new(Backend::from_joint(MemoryBackend::new()));
    let a = world.spawn();
    let b = world.spawn();
    assert_ne!(a, b);
}
