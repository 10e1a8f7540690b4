use eci::backend::{Backend, BackendError, MemoryBackend};
use eci::component::{ComponentId, ComponentValue, DataValue, Version};
use eci::entity::Entity;
use eci::query::{Entry, Selector};

const HOUR_MS: u64 = 3_600_000;

fn joint() -> Backend {
    Backend::from_joint(MemoryBackend::new())
}

fn v1() -> Version {
    Version::new(1, 0, 0)
}

fn cid(name: &str) -> ComponentId {
    ComponentId { name: name.to_string(), version: v1() }
}

fn counter(name: &str, value: u64) -> ComponentValue {
    ComponentValue { id: cid(name), data: DataValue::Int(value) }
}

fn text(name: &str, content: &str) -> ComponentValue {
    ComponentValue { id: cid(name), data: DataValue::Text(content.to_string()) }
}

#[test]
fn it_works() {
    let mut backend = joint();

    let entity = Entity::new();

    backend.put(entity, &vec![counter("CounterA", 0)]).unwrap();

    // A write and a read of the same component in one shape conflict with
    // each other inside the one atomic acquisition.
    let components = match backend.get(
        entity,
        &vec![Selector::Write(cid("CounterA")), Selector::Read(cid("CounterA"))],
        HOUR_MS,
    ) {
        Err(e) => e,
        Ok(_) => panic!("expected a lock conflict"),
    };

    assert!(matches!(components, BackendError::Locking(_)));
}

#[test]
fn insert_component() {
    let mut backend = joint();

    // Insert separately
    let a = Entity::new();
    backend.put(a, &vec![counter("CounterA", 10)]).unwrap();
    backend.put(a, &vec![text("StringComponent", "Hello")]).unwrap();

    // Insert collectively
    let b = Entity::new();
    backend
        .put(b, &vec![counter("CounterA", 30), text("StringComponent", "Hello")])
        .unwrap();
}

#[test]
fn get_components() {
    let mut backend = joint();

    // Insert separately
    let a = Entity::new();
    backend.put(a, &vec![counter("CounterA", 10)]).unwrap();
    backend.put(a, &vec![text("StringComponent", "Hello")]).unwrap();

    {
        let lock = backend
            .get(a, &vec![Selector::Read(cid("CounterA"))], HOUR_MS)
            .unwrap()
            .unwrap();
        assert_eq!(*lock.value(0), Entry::Value(counter("CounterA", 10)));
        lock.unlock(&mut backend).unwrap();
    }

    {
        let lock = backend
            .get(a, &vec![Selector::Read(cid("CounterA"))], HOUR_MS)
            .unwrap()
            .unwrap();
        assert_eq!(*lock.value(0), Entry::Value(counter("CounterA", 10)));
        lock.unlock(&mut backend).unwrap();
    }

    let lock = backend
        .get(
            a,
            &vec![Selector::Read(cid("CounterA")), Selector::Read(cid("StringComponent"))],
            HOUR_MS,
        )
        .unwrap()
        .unwrap();

    assert_eq!(*lock.value(0), Entry::Value(counter("CounterA", 10)));
    assert_eq!(*lock.value(1), Entry::Value(text("StringComponent", "Hello")));

    // The view may be obtained repeatedly.
    assert_eq!(*lock.value(0), Entry::Value(counter("CounterA", 10)));
    assert_eq!(*lock.value(1), Entry::Value(text("StringComponent", "Hello")));

    // Insert collectively
    let b = Entity::new();
    backend
        .put(b, &vec![counter("CounterA", 30), text("StringComponent", "Hello")])
        .unwrap();
    let lock_b = backend
        .get(
            b,
            &vec![Selector::Read(cid("CounterA")), Selector::Read(cid("StringComponent"))],
            HOUR_MS,
        )
        .unwrap()
        .unwrap();
    assert_eq!(*lock_b.value(0), Entry::Value(counter("CounterA", 30)));
    assert_eq!(*lock_b.value(1), Entry::Value(text("StringComponent", "Hello")));
}

#[test]
fn component_ordering() {
    let mut backend = joint();

    let a = Entity::new();
    backend.put(a, &vec![counter("CounterA", 1)]).unwrap();
    backend.put(a, &vec![counter("CounterB", 2)]).unwrap();
    backend.put(a, &vec![counter("CounterC", 3)]).unwrap();

    let lock = backend
        .get(
            a,
            &vec![
                Selector::Read(cid("CounterA")),
                Selector::Read(cid("CounterC")),
                Selector::Read(cid("CounterB")),
            ],
            HOUR_MS,
        )
        .unwrap()
        .unwrap();

    assert_eq!(*lock.value(0), Entry::Value(counter("CounterA", 1)));
    assert_eq!(*lock.value(1), Entry::Value(counter("CounterC", 3)));
    assert_eq!(*lock.value(2), Entry::Value(counter("CounterB", 2)));
}

#[test]
fn get_two_separately_inserted_components() {
    // Insert two components separately and dereference them as one shape.
    let mut backend = joint();
    let e = Entity::new();

    backend.put(e, &vec![text("DebugComponentA", "Hello")]).unwrap();
    backend.put(e, &vec![text("DebugComponentB", "World")]).unwrap();

    let lock = backend
        .get(
            e,
            &vec![
                Selector::Read(cid("DebugComponentA")),
                Selector::Read(cid("DebugComponentB")),
            ],
            HOUR_MS,
        )
        .unwrap()
        .unwrap();

    assert_eq!(*lock.value(0), Entry::Value(text("DebugComponentA", "Hello")));
    assert_eq!(*lock.value(1), Entry::Value(text("DebugComponentB", "World")));
}

#[test]
fn duplicate_selector_yields_independent_equal_copies() {
    let mut backend = joint();
    let e = Entity::new();

    backend.put(e, &vec![text("DebugComponentA", "Hello")]).unwrap();

    let lock = backend
        .get(
            e,
            &vec![
                Selector::Read(cid("DebugComponentA")),
                Selector::Read(cid("DebugComponentA")),
            ],
            HOUR_MS,
        )
        .unwrap()
        .unwrap();

    assert_eq!(lock.len(), 2);
    assert_eq!(*lock.value(0), Entry::Value(text("DebugComponentA", "Hello")));
    assert_eq!(*lock.value(0), *lock.value(1));
}

#[test]
fn entity_pseudo_component() {
    // Requesting (Entity, A) for an entity with only A stored returns the
    // entity's own identifier alongside A's value.
    let mut backend = joint();
    let e = Entity::new();

    backend.put(e, &vec![text("DebugComponentA", "Hello")]).unwrap();

    let lock = backend
        .get(
            e,
            &vec![Selector::Entity, Selector::Read(cid("DebugComponentA"))],
            HOUR_MS,
        )
        .unwrap()
        .unwrap();

    assert_eq!(*lock.value(0), Entry::Ident(e));
    assert_eq!(*lock.value(1), Entry::Value(text("DebugComponentA", "Hello")));
}

#[test]
fn get_missing_component_is_not_found() {
    let mut backend = joint();
    let e = Entity::new();

    backend.put(e, &vec![text("DebugComponentA", "Hello")]).unwrap();

    // A missing component resolves the whole query to "not found" and no
    // lock is requested, so a later write lock still succeeds.
    let missing = backend
        .get(
            e,
            &vec![
                Selector::Read(cid("DebugComponentA")),
                Selector::Read(cid("DebugComponentB")),
            ],
            HOUR_MS,
        )
        .unwrap();
    assert!(missing.is_none());

    let lock = backend
        .get(e, &vec![Selector::Write(cid("DebugComponentA"))], HOUR_MS)
        .unwrap()
        .unwrap();
    lock.unlock(&mut backend).unwrap();
}

#[test]
fn get_empty_shape_locks_nothing() {
    let mut backend = joint();
    let e = Entity::new();

    let lock = backend.get(e, &vec![], HOUR_MS).unwrap().unwrap();
    assert_eq!(lock.len(), 0);
    lock.unlock(&mut backend).unwrap();
}

#[test]
fn put_is_unconditional_even_under_a_read_lock() {
    // put performs no lock check itself: a held read lock on the component
    // does not stop it.
    let mut backend = joint();
    let e = Entity::new();

    backend.put(e, &vec![text("DebugComponentA", "Hello")]).unwrap();
    let lock = backend
        .get(e, &vec![Selector::Read(cid("DebugComponentA"))], HOUR_MS)
        .unwrap()
        .unwrap();

    backend.put(e, &vec![text("DebugComponentB", "World")]).unwrap();
    lock.unlock(&mut backend).unwrap();
}

#[test]
fn set_data_updates_a_write_slot() {
    let mut backend = joint();
    let e = Entity::new();

    backend.put(e, &vec![counter("CounterA", 1)]).unwrap();

    let mut lock = backend
        .get(e, &vec![Selector::Write(cid("CounterA"))], HOUR_MS)
        .unwrap()
        .unwrap();
    lock.set_data(0, DataValue::Int(2));
    assert_eq!(*lock.value(0), Entry::Value(counter("CounterA", 2)));
    lock.unlock(&mut backend).unwrap();
}

#[test]
fn unlock_frees_the_write_lease() {
    let mut backend = joint();
    let e = Entity::new();

    backend.put(e, &vec![counter("CounterA", 1)]).unwrap();

    let lock = backend
        .get(e, &vec![Selector::Write(cid("CounterA"))], HOUR_MS)
        .unwrap()
        .unwrap();

    // While the guard holds the write lease, another locked query conflicts.
    assert!(backend
        .get(e, &vec![Selector::Read(cid("CounterA"))], HOUR_MS)
        .is_err());

    lock.unlock(&mut backend).unwrap();

    let again = backend
        .get(e, &vec![Selector::Read(cid("CounterA"))], HOUR_MS)
        .unwrap()
        .unwrap();
    again.unlock(&mut backend).unwrap();
}
