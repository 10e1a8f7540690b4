//! Entities: opaque, globally unique identifiers for rows of component data.

use vstd::prelude::*;

verus! {

/// An opaque, globally unique identifier (a 128-bit random value). An entity
/// is immutable once created, never reused, and created only by spawning.
#[derive(Clone, Copy, Debug, PartialEq, Eq, Hash, Structural)]
pub struct Entity(pub u128);

impl Entity {
    /// Spawns a fresh entity. The identifier is drawn at random, so nothing
    /// is promised of its value.
    pub fn new() -> Entity {
        Entity(crate::support::fresh_u128())
    }
}

} // verus!
