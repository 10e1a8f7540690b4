//! The composed capability surface: one access backend and one locking
//! backend behind a single interface.
//!
//! A backend is built in one of two shapes: joint, where a single provider
//! supplies both capabilities over one shared resource, or disjoint, where
//! two independently pluggable providers are composed by delegation. Both
//! shapes present the identical interface.

use vstd::prelude::*;

use crate::access::{
    AccessError, AccessStore, Extracted, ExtractionDescriptor, RowView, SerializedComponent,
    store_wf,
};
use crate::entity::Entity;
use crate::lock::{LeaseView, Lock, LockDescriptor, LockStore, LockingError};

verus! {

/// The mathematical form of a backend: its stored rows and its lease table.
pub struct BackendView {
    pub rows: Seq<RowView>,
    pub leases: Seq<LeaseView>,
}

/// A provider of both capabilities over one shared pair of tables.
pub struct MemoryBackend {
    pub access: AccessStore,
    pub locking: LockStore,
}

impl View for MemoryBackend {
    type V = BackendView;

    open spec fn view(&self) -> BackendView {
        BackendView { rows: self.access@, leases: self.locking@ }
    }
}

impl MemoryBackend {
    /// An empty joint provider.
    pub fn new() -> (r: MemoryBackend)
        ensures
            r@.rows == Seq::<RowView>::empty(),
            r@.leases == Seq::<LeaseView>::empty(),
    {
        MemoryBackend { access: AccessStore::new(), locking: LockStore::new() }
    }
}

/// An error from either capability of a backend.
#[derive(Clone, Debug, PartialEq, Eq)]
pub enum BackendError {
    Access(AccessError),
    Locking(LockingError),
}

/// The composed backend: either one joint provider of both capabilities, or
/// an access provider and a locking provider composed by delegation.
pub enum Backend {
    Joint { backend: MemoryBackend },
    Disjoint { access: AccessStore, locking: LockStore },
}

impl View for Backend {
    type V = BackendView;

    open spec fn view(&self) -> BackendView {
        match self {
            Backend::Joint { backend } => backend@,
            Backend::Disjoint { access, locking } => BackendView {
                rows: access@,
                leases: locking@,
            },
        }
    }
}

impl Backend {
    /// The stored record invariant, lifted to the composed backend.
    pub open spec fn wf(&self) -> bool {
        store_wf(self@.rows)
    }

    /// Composes a backend from one joint provider of both capabilities.
    pub fn from_joint(backend: MemoryBackend) -> (r: Backend)
        ensures
            r@ == backend@,
    {
        Backend::Joint { backend }
    }

    /// Composes a backend from two independent providers, one per
    /// capability.
    pub fn from_disjoint(access: AccessStore, locking: LockStore) -> (r: Backend)
        ensures
            r@.rows == access@,
            r@.leases == locking@,
    {
        Backend::Disjoint { access, locking }
    }

    /// Routes a write to the access capability; the lease table is not
    /// touched. The contract is the access backend's: all-or-nothing, with
    /// the error naming the first colliding component identity.
    pub fn write_components(
        &mut self,
        entity: Entity,
        components: &Vec<SerializedComponent>,
    ) -> (r: Result<(), AccessError>)
        requires
            old(self).wf(),
        ensures
            final(self).wf(),
            final(self)@.leases == old(self)@.leases,
            r is Ok <==> crate::access::write_ok(old(self)@.rows, entity, components.deep_view()),
            r is Ok ==> final(self)@.rows == old(self)@.rows + crate::access::written_rows(
                entity,
                components.deep_view(),
            ),
            r is Err ==> final(self)@.rows == old(self)@.rows,
            r matches Err(e) ==> ({
                crate::access::first_conflict(old(self)@.rows, entity, components.deep_view())
                    matches Some(j)
                    && e matches AccessError::Conflict(ce, cn, cv)
                    && ce == entity
                    && cn@ == components.deep_view()[j].name
                    && cv == components.deep_view()[j].version
            }),
    {
        match self {
            Backend::Joint { backend } => backend.access.write_components(entity, components),
            Backend::Disjoint { access, locking: _ } => access.write_components(entity, components),
        }
    }

    /// Routes a read to the access capability. The contract is the access
    /// backend's: each descriptor resolved independently, in request order.
    pub fn read_components(
        &self,
        entity: Entity,
        descriptors: &Vec<ExtractionDescriptor>,
    ) -> (r: Result<Vec<Option<Extracted>>, AccessError>)
        ensures
            r is Ok,
            r matches Ok(out) ==> out.deep_view().len() == descriptors.deep_view().len(),
            r matches Ok(out) ==> forall|i: int|
                0 <= i < out.deep_view().len() ==> out.deep_view()[i] == crate::access::extract_one(
                    self@.rows,
                    entity,
                    descriptors.deep_view()[i],
                ),
    {
        match self {
            Backend::Joint { backend } => backend.access.read_components(entity, descriptors),
            Backend::Disjoint { access, locking: _ } => access.read_components(entity, descriptors),
        }
    }

    /// Routes a removal to the access capability: the row matching the
    /// entity and the full component identity is deleted and returned; the
    /// lease table is not touched.
    pub fn remove_component(
        &mut self,
        entity: Entity,
        id: &crate::component::ComponentId,
    ) -> (r: Option<SerializedComponent>)
        requires
            old(self).wf(),
        ensures
            final(self).wf(),
            final(self)@.leases == old(self)@.leases,
            final(self)@.rows == crate::access::removed(old(self)@.rows, entity, id@),
            r matches Some(c) ==> exists|i: int|
                0 <= i < old(self)@.rows.len() && old(self)@.rows[i] == crate::access::row_of(
                    entity,
                    c@,
                ) && c@.name == id@.name && c@.version == id@.version,
            r is None ==> forall|i: int|
                0 <= i < old(self)@.rows.len() ==> !(crate::access::row_matches(
                    #[trigger] old(self)@.rows[i],
                    entity,
                    id@.name,
                ) && old(self)@.rows[i].version == id@.version),
    {
        match self {
            Backend::Joint { backend } => backend.access.remove_component(entity, id),
            Backend::Disjoint { access, locking: _ } => access.remove_component(entity, id),
        }
    }

    /// Routes an acquisition to the locking capability at time `now`; the
    /// stored rows are not touched. The contract is the locking backend's:
    /// all descriptors granted under one lock, or nothing.
    pub fn acquire_lock_at(
        &mut self,
        entity: Entity,
        descriptors: &Vec<LockDescriptor>,
        now: u64,
        ttl_millis: u64,
    ) -> (r: Result<Lock, LockingError>)
        ensures
            final(self)@.rows == old(self)@.rows,
            crate::lock::acquire_outcome(
                old(self)@.leases,
                final(self)@.leases,
                entity,
                descriptors.deep_view(),
                r,
                now,
                ttl_millis,
            ),
    {
        match self {
            Backend::Joint { backend } => backend.locking.acquire_lock_at(
                entity,
                descriptors,
                now,
                ttl_millis,
            ),
            Backend::Disjoint { access: _, locking } => locking.acquire_lock_at(
                entity,
                descriptors,
                now,
                ttl_millis,
            ),
        }
    }

    /// Routes an acquisition to the locking capability, reading the clock.
    pub fn acquire_lock(
        &mut self,
        entity: Entity,
        descriptors: &Vec<LockDescriptor>,
        ttl_millis: u64,
    ) -> (r: Result<Lock, LockingError>)
        ensures
            final(self)@.rows == old(self)@.rows,
            exists|now: u64|
                crate::lock::acquire_outcome(
                    old(self)@.leases,
                    final(self)@.leases,
                    entity,
                    descriptors.deep_view(),
                    r,
                    now,
                    ttl_millis,
                ),
    {
        let now = LockStore::clock_now();
        let r = self.acquire_lock_at(entity, descriptors, now, ttl_millis);
        proof {
            assert(crate::lock::acquire_outcome(
                old(self)@.leases,
                self@.leases,
                entity,
                descriptors.deep_view(),
                r,
                now,
                ttl_millis,
            ));
        }
        r
    }

    /// Routes a release to the locking capability: every lease row carrying
    /// the lock's identifier is deleted; the stored rows are not touched.
    /// Idempotent.
    pub fn release_lock(&mut self, lock: Lock) -> (r: Result<(), LockingError>)
        ensures
            r is Ok,
            final(self)@.rows == old(self)@.rows,
            final(self)@.leases == crate::lock::released(old(self)@.leases, lock.0),
    {
        match self {
            Backend::Joint { backend } => backend.locking.release_lock(lock),
            Backend::Disjoint { access: _, locking } => locking.release_lock(lock),
        }
    }
}

} // verus!
