use eci::backend::{Backend, MemoryBackend};
use eci::component::{ComponentId, ComponentValue, DataValue, Version};
use eci::entity::Entity;
use eci::lock::{LockDescriptor, LockingMode};

const HOUR_MS: u64 = 3_600_000;

fn joint() -> Backend {
    Backend::from_joint(MemoryBackend::new())
}

fn cid(name: &str) -> ComponentId {
    ComponentId { name: name.to_string(), version: Version::new(1, 0, 0) }
}

fn text(name: &str, content: &str) -> ComponentValue {
    ComponentValue { id: cid(name), data: DataValue::Text(content.to_string()) }
}

#[test]
fn save_load_round_trip() {
    let mut backend = joint();
    let e = Entity::new();

    // Contents that look like the snapshot encoding itself must survive.
    backend.put(e, &vec![text("DebugComponentA", "2:7: tricky \"contents\"")]).unwrap();
    backend.put(e, &vec![text("DebugComponentB", "")]).unwrap();

    let lock = backend
        .acquire_lock(
            e,
            &vec![LockDescriptor {
                mode: LockingMode::Write,
                name: "DebugComponentA".to_string(),
                version: Version::new(1, 0, 0),
            }],
            HOUR_MS,
        )
        .unwrap();

    let blob = backend.save();
    let mut restored = Backend::load(&blob).unwrap();

    // The stored components came back.
    let guard = restored
        .get(
            e,
            &vec![
                eci::query::Selector::Read(cid("DebugComponentB")),
            ],
            HOUR_MS,
        )
        .unwrap()
        .unwrap();
    assert_eq!(*guard.value(0), eci::query::Entry::Value(text("DebugComponentB", "")));
    guard.unlock(&mut restored).unwrap();

    // The unexpired write lease came back too: a read on that resource still
    // conflicts, until the restored lease is released under its old lock id.
    restored
        .acquire_lock(
            e,
            &vec![LockDescriptor {
                mode: LockingMode::Read,
                name: "DebugComponentA".to_string(),
                version: Version::new(1, 0, 0),
            }],
            HOUR_MS,
        )
        .unwrap_err();

    restored.release_lock(lock).unwrap();

    restored
        .acquire_lock(
            e,
            &vec![LockDescriptor {
                mode: LockingMode::Read,
                name: "DebugComponentA".to_string(),
                version: Version::new(1, 0, 0),
            }],
            HOUR_MS,
        )
        .unwrap();
}

#[test]
fn empty_backend_snapshot() {
    let backend = joint();
    assert_eq!(backend.save(), "0:0:");
    assert!(Backend::load(&"0:0:".to_string()).is_some());
}

#[test]
fn load_rejects_garbage() {
    assert!(Backend::load(&String::new()).is_none());
    assert!(Backend::load(&"hello".to_string()).is_none());
    assert!(Backend::load(&"1:".to_string()).is_none());
    assert!(Backend::load(&"0:0:trailing".to_string()).is_none());
}

#[test]
fn load_rejects_duplicate_rows() {
    // Two rows with the same (entity, name) key break the stored record
    // invariant, so such a snapshot is refused.
    let row = "7:1:A1:0:0:1:x";
    let blob = format!("2:{row}{row}0:");
    assert!(Backend::load(&blob).is_none());

    // One such row alone is fine.
    let single = format!("1:{row}0:");
    assert!(Backend::load(&single).is_some());
}

#[test]
fn snapshot_of_saved_state_is_stable() {
    let mut backend = joint();
    let e = Entity::new();
    backend.put(e, &vec![text("DebugComponentA", "Hello")]).unwrap();

    let blob = backend.save();
    let restored = Backend::load(&blob).unwrap();
    assert_eq!(restored.save(), blob);
}
