use eci::access::{Extracted, ExtractionDescriptor, SerializedComponent};
use eci::backend::{Backend, MemoryBackend};
use eci::component::{DataValue, Version};
use eci::entity::Entity;
use eci::format::{Json, JsonString};
use eci::lock::{LockDescriptor, LockingError, LockingMode};

const LOCK_TIME_MS: u64 = 60_000;

fn joint() -> Backend {
    Backend::from_joint(MemoryBackend::new())
}

fn v1() -> Version {
    Version::new(1, 0, 0)
}

fn serialized(name: &str, content: &str) -> SerializedComponent {
    SerializedComponent {
        name: name.to_string(),
        version: v1(),
        contents: Json::serialize(&DataValue::Text(content.to_string())).0,
    }
}

fn comp_desc(name: &str) -> ExtractionDescriptor {
    ExtractionDescriptor::component(eci::component::ComponentId {
        name: name.to_string(),
        version: v1(),
    })
}

fn read_desc(name: &str) -> LockDescriptor {
    LockDescriptor { mode: LockingMode::Read, name: name.to_string(), version: v1() }
}

fn write_desc(name: &str) -> LockDescriptor {
    LockDescriptor { mode: LockingMode::Write, name: name.to_string(), version: v1() }
}

fn decode(slot: &Option<Extracted>) -> DataValue {
    match slot {
        Some(Extracted::Component(sc)) => {
            Json::deserialize(&JsonString(sc.contents.clone())).unwrap()
        }
        _ => panic!("expected a stored component"),
    }
}

#[test]
fn insert_disparate_components() {
    let mut conn = joint();
    let entity = Entity::new();

    conn.write_components(
        entity,
        &vec![
            serialized("DebugComponentA", "Hello"),
            serialized("DebugComponentB", "Hello"),
        ],
    )
    .unwrap();
}

#[test]
fn fail_on_duplicate_components() {
    let mut conn = joint();
    let entity = Entity::new();

    conn.write_components(
        entity,
        &vec![
            serialized("DebugComponentA", "Hello"),
            serialized("DebugComponentA", "Hello"),
        ],
    )
    .unwrap_err();
}

#[test]
fn read_components() {
    let mut conn = joint();
    let entity = Entity::new();

    let a = DataValue::Text("Hello".to_string());
    let b = DataValue::Text("World".to_string());

    conn.write_components(
        entity,
        &vec![
            serialized("DebugComponentA", "Hello"),
            serialized("DebugComponentB", "World"),
        ],
    )
    .unwrap();

    let comps = conn
        .read_components(
            entity,
            &vec![comp_desc("DebugComponentA"), comp_desc("DebugComponentB")],
        )
        .unwrap();

    let ax = decode(&comps[0]);
    let bx = decode(&comps[1]);

    assert_eq!(a, ax);
    assert_eq!(b, bx);
}

#[test]
fn read_same_component_twice() {
    // While not exactly useful, there's no real reason why you shouldn't be
    // allowed to read the same component twice within a single query.
    let mut conn = joint();
    let entity = Entity::new();

    let a = DataValue::Text("Hello".to_string());

    conn.write_components(entity, &vec![serialized("DebugComponentA", "Hello")])
        .unwrap();

    let comps = conn
        .read_components(
            entity,
            &vec![comp_desc("DebugComponentA"), comp_desc("DebugComponentA")],
        )
        .unwrap();

    let ax = decode(&comps[0]);
    let bx = decode(&comps[1]);

    assert_eq!(&a, &ax);
    assert_eq!(&a, &bx);
}

#[test]
fn test_acquire_locking() {
    let mut conn = joint();

    let entity = Entity::new();

    conn.acquire_lock(
        entity,
        &vec![read_desc("DebugComponentA"), read_desc("DebugComponentA")],
        LOCK_TIME_MS,
    )
    .unwrap();
}

#[test]
fn allow_multiple_read_locks() {
    let mut conn = joint();

    let entity = Entity::new();

    let _a = conn
        .acquire_lock(
            entity,
            &vec![read_desc("DebugComponentA"), read_desc("DebugComponentA")],
            LOCK_TIME_MS,
        )
        .unwrap();

    let _b = conn
        .acquire_lock(
            entity,
            &vec![read_desc("DebugComponentA"), read_desc("DebugComponentA")],
            LOCK_TIME_MS,
        )
        .unwrap();
}

#[test]
fn fail_on_multiple_write_locks() {
    let mut conn = joint();

    let entity = Entity::new();

    let _a = conn
        .acquire_lock(entity, &vec![write_desc("DebugComponentA")], LOCK_TIME_MS)
        .unwrap();

    assert_eq!(
        conn.acquire_lock(entity, &vec![write_desc("DebugComponentA")], LOCK_TIME_MS)
            .unwrap_err(),
        LockingError::Conflict(
            entity,
            "DebugComponentA".to_string(),
            v1(),
            LockingMode::Write
        )
    );
}

#[test]
fn allow_multiple_write_locks_on_different_components() {
    let mut conn = joint();

    let entity = Entity::new();

    let _a = conn
        .acquire_lock(
            entity,
            &vec![write_desc("DebugComponentA"), write_desc("DebugComponentB")],
            LOCK_TIME_MS,
        )
        .unwrap();

    let _b = conn
        .acquire_lock(entity, &vec![write_desc("DebugComponentC")], LOCK_TIME_MS)
        .unwrap();
}

#[test]
fn fail_acquire_write_lock_while_read_locks_exist() {
    let mut conn = joint();

    let entity = Entity::new();

    let _a = conn
        .acquire_lock(entity, &vec![read_desc("DebugComponentA")], LOCK_TIME_MS)
        .unwrap();

    assert_eq!(
        conn.acquire_lock(entity, &vec![write_desc("DebugComponentA")], LOCK_TIME_MS)
            .unwrap_err(),
        LockingError::Conflict(
            entity,
            "DebugComponentA".to_string(),
            v1(),
            LockingMode::Write
        )
    );
}

#[test]
fn fail_acquire_read_lock_while_write_locks_exist() {
    let mut conn = joint();

    let entity = Entity::new();

    let _a = conn
        .acquire_lock(entity, &vec![write_desc("DebugComponentA")], LOCK_TIME_MS)
        .unwrap();

    assert_eq!(
        conn.acquire_lock(entity, &vec![read_desc("DebugComponentA")], LOCK_TIME_MS)
            .unwrap_err(),
        LockingError::Conflict(
            entity,
            "DebugComponentA".to_string(),
            v1(),
            LockingMode::Read
        )
    );
}

#[test]
fn release_frees_the_write_lock() {
    // Write, release, write again on the same resource: the release frees it.
    let mut conn = joint();
    let entity = Entity::new();

    let lock = conn
        .acquire_lock(entity, &vec![write_desc("DebugComponentA")], LOCK_TIME_MS)
        .unwrap();
    conn.release_lock(lock).unwrap();

    conn.acquire_lock(entity, &vec![write_desc("DebugComponentA")], LOCK_TIME_MS)
        .unwrap();
}

#[test]
fn write_then_read_conflict_then_release_then_read() {
    // A write lease denies a read; releasing the write lets the read through.
    let mut conn = joint();
    let entity = Entity::new();

    let lock = conn
        .acquire_lock(entity, &vec![write_desc("DebugComponentA")], LOCK_TIME_MS)
        .unwrap();

    assert_eq!(
        conn.acquire_lock(entity, &vec![read_desc("DebugComponentA")], LOCK_TIME_MS)
            .unwrap_err(),
        LockingError::Conflict(
            entity,
            "DebugComponentA".to_string(),
            v1(),
            LockingMode::Read
        )
    );

    conn.release_lock(lock).unwrap();

    conn.acquire_lock(entity, &vec![read_desc("DebugComponentA")], LOCK_TIME_MS)
        .unwrap();
}

#[test]
fn release_is_idempotent() {
    let mut conn = joint();
    let entity = Entity::new();

    let lock = conn
        .acquire_lock(entity, &vec![write_desc("DebugComponentA")], LOCK_TIME_MS)
        .unwrap();
    conn.release_lock(lock).unwrap();
    conn.release_lock(lock).unwrap();
}

#[test]
fn expired_leases_block_nothing() {
    // Passive expiry: a lease whose expiry timestamp has passed is treated
    // as absent by the conflict check, though its row is never deleted.
    let mut conn = joint();
    let entity = Entity::new();

    conn.acquire_lock_at(entity, &vec![write_desc("DebugComponentA")], 1_000, 500)
        .unwrap();

    // Still alive at 1_400.
    conn.acquire_lock_at(entity, &vec![write_desc("DebugComponentA")], 1_400, 500)
        .unwrap_err();

    // Expired at 1_500: the write goes through.
    conn.acquire_lock_at(entity, &vec![write_desc("DebugComponentA")], 1_500, 500)
        .unwrap();
}

#[test]
fn failed_write_leaves_nothing_behind() {
    // Writing the same identity twice in one call conflicts, and afterwards
    // no entry of that call is retrievable.
    let mut conn = joint();
    let entity = Entity::new();

    conn.write_components(
        entity,
        &vec![
            serialized("DebugComponentA", "Hello"),
            serialized("DebugComponentA", "Hello"),
        ],
    )
    .unwrap_err();

    let comps = conn
        .read_components(entity, &vec![comp_desc("DebugComponentA")])
        .unwrap();
    assert!(comps[0].is_none());
}

#[test]
fn disjoint_backend_presents_the_same_interface() {
    let mut conn = Backend::from_disjoint(
        eci::access::AccessStore::new(),
        eci::lock::LockStore::new(),
    );
    let entity = Entity::new();

    conn.write_components(entity, &vec![serialized("DebugComponentA", "Hello")])
        .unwrap();
    let comps = conn
        .read_components(entity, &vec![comp_desc("DebugComponentA")])
        .unwrap();
    assert_eq!(decode(&comps[0]), DataValue::Text("Hello".to_string()));

    let lock = conn
        .acquire_lock(entity, &vec![write_desc("DebugComponentA")], LOCK_TIME_MS)
        .unwrap();
    conn.release_lock(lock).unwrap();
}

#[test]
fn versions_lock_independently() {
    // The resource key includes the version: two versions of one name do not
    // conflict with each other.
    let mut conn = joint();
    let entity = Entity::new();

    let v2 = Version::new(2, 0, 0);
    conn.acquire_lock(entity, &vec![write_desc("DebugComponentA")], LOCK_TIME_MS)
        .unwrap();
    conn.acquire_lock(
        entity,
        &vec![LockDescriptor {
            mode: LockingMode::Write,
            name: "DebugComponentA".to_string(),
            version: v2,
        }],
        LOCK_TIME_MS,
    )
    .unwrap();
}

#[test]
fn locks_on_different_entities_are_independent() {
    let mut conn = joint();
    let a = Entity::new();
    let b = Entity::new();

    conn.acquire_lock(a, &vec![write_desc("DebugComponentA")], LOCK_TIME_MS)
        .unwrap();
    conn.acquire_lock(b, &vec![write_desc("DebugComponentA")], LOCK_TIME_MS)
        .unwrap();
}
