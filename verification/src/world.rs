//! A thin world wrapper: one composed backend together with the entity
//! lifecycle.
//!
//! Entities are created only by spawning; component records are created by
//! insertion, read back without locks, and destroyed by removal. The typed,
//! locked query runs through the backend's own query interface.

use vstd::pervasive::unreached;
use vstd::prelude::*;

use crate::access::{AccessError, Extracted, ExtractionDescriptor, extract_one};
use crate::backend::{Backend, BackendView};
use crate::component::{ComponentId, ComponentValue};
use crate::entity::Entity;
use crate::format::{Json, JsonString};
use crate::query::{SelectorView, slot_entry, slot_ok};
use crate::access::ExtractionView;

verus! {

/// A world: one composed backend holding all component data and leases.
pub struct World {
    backend: Backend,
}

impl View for World {
    type V = BackendView;

    closed spec fn view(&self) -> BackendView {
        self.backend@
    }
}

impl World {
    /// The stored record invariant, lifted to the world.
    pub open spec fn wf(&self) -> bool {
        crate::access::store_wf(self@.rows)
    }

    /// A world over the given backend.
    pub fn new(backend: Backend) -> (r: World)
        ensures
            r@ == backend@,
    {
        World { backend }
    }

    /// Spawns a fresh entity. The identifier is drawn at random and the
    /// store is not touched: an entity exists only through the component
    /// records later written for it.
    pub fn spawn(&mut self) -> (e: Entity)
        ensures
            final(self)@ == old(self)@,
    {
        let e = Entity::new();
        e
    }

    /// Inserts one component value for an entity: the value is serialized
    /// and written under the duplicate-insert guard; inserting a component
    /// name the entity already has fails and leaves the store as it was.
    pub fn insert(&mut self, entity: Entity, value: ComponentValue) -> (r: Result<
        (),
        AccessError,
    >)
        requires
            old(self).wf(),
        ensures
            final(self).wf(),
            final(self)@.leases == old(self)@.leases,
            r is Ok <==> crate::access::write_ok(
                old(self)@.rows,
                entity,
                crate::query::serialized_of(seq![value@]),
            ),
            r is Ok ==> final(self)@.rows == old(self)@.rows + crate::access::written_rows(
                entity,
                crate::query::serialized_of(seq![value@]),
            ),
            r is Err ==> final(self)@.rows == old(self)@.rows,
    {
        let ghost vv = value@;
        let mut values: Vec<ComponentValue> = Vec::new();
        values.push(value);
        proof {
            assert(values.deep_view() =~= seq![vv]);
        }
        self.backend.put(entity, &values)
    }

    /// Reads one component value back, without any lock: `Some` exactly when
    /// the entity has a row of this full component identity whose payload
    /// decodes, and then the decoded value.
    pub fn get(&self, entity: Entity, id: &ComponentId) -> (r: Option<ComponentValue>)
        ensures
            slot_ok(self@.rows, entity, SelectorView::Read(id@)) ==> (r matches Some(v)
                && entry_value(slot_entry(self@.rows, entity, SelectorView::Read(id@))) == Some(
                v@,
            )),
            !slot_ok(self@.rows, entity, SelectorView::Read(id@)) ==> r is None,
    {
        let mut descriptors: Vec<ExtractionDescriptor> = Vec::new();
        descriptors.push(
            ExtractionDescriptor::component(
                ComponentId { name: id.name.clone(), version: id.version },
            ),
        );
        proof {
            assert(descriptors.deep_view() =~= seq![ExtractionView::Component(id@)]);
        }
        let extracted = match self.backend.read_components(entity, &descriptors) {
            Ok(x) => x,
            Err(_) => {
                return unreached();
            },
        };
        proof {
            assert(extracted.deep_view()[0] == extract_one(
                self@.rows,
                entity,
                ExtractionView::Component(id@),
            ));
        }
        if extracted.len() == 0 {
            return None;
        }
        match &extracted[0] {
            None => None,
            Some(found) => match found {
                Extracted::Entity(_) => None,
                Extracted::Component(sc) => {
                    let payload = JsonString(sc.contents.clone());
                    match Json::deserialize(&payload) {
                        Ok(data) => Some(
                            ComponentValue {
                                id: ComponentId { name: sc.name.clone(), version: sc.version },
                                data,
                            },
                        ),
                        Err(_) => None,
                    }
                },
            },
        }
    }

    /// Removes one component record, returning its serialized form, or
    /// `None` when the entity has no row of this full component identity.
    pub fn remove(&mut self, entity: Entity, id: &ComponentId) -> (r: Option<
        crate::access::SerializedComponent,
    >)
        requires
            old(self).wf(),
        ensures
            final(self).wf(),
            final(self)@.leases == old(self)@.leases,
            final(self)@.rows == crate::access::removed(old(self)@.rows, entity, id@),
            r is Some <==> exists|i: int|
                0 <= i < old(self)@.rows.len() && crate::access::row_matches(
                    #[trigger] old(self)@.rows[i],
                    entity,
                    id@.name,
                ) && old(self)@.rows[i].version == id@.version,
    {
        self.backend.remove_component(entity, id)
    }
}

/// The component value inside an entry, or `None` for an entity identity
/// entry.
pub open spec fn entry_value(e: crate::query::EntryView) -> Option<crate::component::ValueView> {
    match e {
        crate::query::EntryView::Ident(_) => None,
        crate::query::EntryView::Value(v) => Some(v),
    }
}

} // verus!
