//! A backend-agnostic storage engine for entity-component data.
//!
//! The engine stores serialized components per entity and per component
//! identity, offers TTL-leased read/write locking over sets of
//! (entity, component identity) resources, and composes both capabilities
//! behind one backend surface. A typed query layer maps an ordered shape of
//! selectors to descriptors, fetches and decodes the data, acquires the
//! matching locks atomically, and hands back a guarded view.

mod support;

pub mod access;
pub mod backend;
pub mod component;
pub mod entity;
pub mod format;
pub mod lock;
pub mod query;
pub mod snapshot;
pub mod world;

pub use access::{AccessError, AccessStore, Extracted, ExtractionDescriptor, SerializedComponent};
pub use backend::{Backend, BackendError, MemoryBackend};
pub use component::{Component, ComponentId, ComponentValue, DataValue, Version};
pub use entity::Entity;
pub use format::{Json, JsonString};
pub use lock::{Lock, LockDescriptor, LockStore, LockingError, LockingMode};
pub use query::{Entry, Locked, Selector};
pub use world::World;
