//! The typed extraction/locking query layer.
//!
//! A caller declares an ordered shape of selectors — read a component, write
//! a component, or the entity identity itself — and obtains one guarded,
//! typed bundle. The layer derives extraction descriptors from the shape,
//! fetches and decodes the data, derives lock descriptors from the same
//! shape, acquires all locks atomically, and hands back a guard that
//! releases the lock on an explicit unlock.
//!
//! The protocol is read-before-lock: existence is checked before any lock is
//! requested, at the cost of a window in which another caller could alter
//! the resource. That race is deliberate and is not resolved here by
//! retrying.

use vstd::pervasive::unreached;
use vstd::prelude::*;

use crate::access::{
    AccessError, Extracted, ExtractedView, ExtractionDescriptor, ExtractionView, RowView,
    SerializedComponent, SerializedView, extract_one,
};
use crate::backend::{Backend, BackendError};
use crate::component::{ComponentId, ComponentValue, DataValue, KeyView, ValueView};
use crate::entity::Entity;
use crate::format::{Json, JsonString, decode_spec, encode_spec};
use crate::lock::{
    Lock, LockDescView, LockDescriptor, LockStore, LockingError, LockingMode, expiry_of, grant_ok,
    granted_rows, names_first_blocked, released,
};

verus! {

/// One element of a declared shape: read-only access to a component,
/// read-write access to a component, or the entity identity itself.
#[derive(Clone, Debug, PartialEq, Eq)]
pub enum Selector {
    Read(ComponentId),
    Write(ComponentId),
    Entity,
}

/// The mathematical form of a selector.
pub enum SelectorView {
    Read(KeyView),
    Write(KeyView),
    Entity,
}

impl View for Selector {
    type V = SelectorView;

    open spec fn view(&self) -> SelectorView {
        match self {
            Selector::Read(id) => SelectorView::Read(id@),
            Selector::Write(id) => SelectorView::Write(id@),
            Selector::Entity => SelectorView::Entity,
        }
    }
}

impl DeepView for Selector {
    type V = SelectorView;

    open spec fn deep_view(&self) -> SelectorView {
        self.view()
    }
}

/// One slot of a locked, typed view: the entity identity or an owned,
/// independently deserialized component value.
#[derive(Clone, Debug, PartialEq, Eq)]
pub enum Entry {
    Ident(Entity),
    Value(ComponentValue),
}

/// The mathematical form of one slot.
pub enum EntryView {
    Ident(Entity),
    Value(ValueView),
}

impl View for Entry {
    type V = EntryView;

    open spec fn view(&self) -> EntryView {
        match self {
            Entry::Ident(e) => EntryView::Ident(*e),
            Entry::Value(v) => EntryView::Value(v@),
        }
    }
}

impl DeepView for Entry {
    type V = EntryView;

    open spec fn deep_view(&self) -> EntryView {
        self.view()
    }
}

/// The extraction descriptor a selector derives: the entity pseudo-
/// descriptor for an entity selector, the component descriptor otherwise.
pub open spec fn ex_of_sel(sel: SelectorView) -> ExtractionView {
    match sel {
        SelectorView::Read(k) => ExtractionView::Component(k),
        SelectorView::Write(k) => ExtractionView::Component(k),
        SelectorView::Entity => ExtractionView::Entity,
    }
}

/// The extraction descriptors a shape derives, in declared order.
pub open spec fn extraction_of(shape: Seq<SelectorView>) -> Seq<ExtractionView> {
    shape.map(|i: int, s: SelectorView| ex_of_sel(s))
}

/// The lock descriptors one selector contributes: a read selector asks for a
/// read lease, a write selector for a write lease, and the entity selector
/// needs no lease.
pub open spec fn locks_of_sel(sel: SelectorView) -> Seq<LockDescView> {
    match sel {
        SelectorView::Read(k) => seq![LockDescView { mode: LockingMode::Read, key: k }],
        SelectorView::Write(k) => seq![LockDescView { mode: LockingMode::Write, key: k }],
        SelectorView::Entity => Seq::empty(),
    }
}

/// The lock descriptors a shape derives, in declared order.
pub open spec fn locks_of(shape: Seq<SelectorView>) -> Seq<LockDescView>
    decreases shape.len(),
{
    if shape.len() == 0 {
        Seq::empty()
    } else {
        locks_of_sel(shape[0]) + locks_of(shape.skip(1))
    }
}

/// Whether a selector's slot is missing: a component selector whose stored
/// row is absent. The entity selector is never missing.
pub open spec fn slot_missing(rows: Seq<RowView>, entity: Entity, sel: SelectorView) -> bool {
    extract_one(rows, entity, ex_of_sel(sel)) is None
}

/// Whether a selector's slot is present and its payload decodes.
pub open spec fn slot_ok(rows: Seq<RowView>, entity: Entity, sel: SelectorView) -> bool {
    match extract_one(rows, entity, ex_of_sel(sel)) {
        None => false,
        Some(x) => match x {
            ExtractedView::Entity(_) => true,
            ExtractedView::Component(sv) => decode_spec(sv.contents) is Some,
        },
    }
}

/// The typed entry a selector's slot resolves to, meaningful when the slot
/// is present and decodable.
pub open spec fn slot_entry(rows: Seq<RowView>, entity: Entity, sel: SelectorView) -> EntryView {
    match extract_one(rows, entity, ex_of_sel(sel)) {
        None => EntryView::Ident(entity),
        Some(x) => match x {
            ExtractedView::Entity(e) => EntryView::Ident(e),
            ExtractedView::Component(sv) => EntryView::Value(
                ValueView {
                    key: KeyView { name: sv.name, version: sv.version },
                    data: decode_spec(sv.contents)->Some_0,
                },
            ),
        },
    }
}

/// The typed entries a shape resolves to, in declared order.
pub open spec fn entries_of(rows: Seq<RowView>, entity: Entity, shape: Seq<SelectorView>) -> Seq<
    EntryView,
> {
    shape.map(|i: int, s: SelectorView| slot_entry(rows, entity, s))
}

/// The index of the first selector whose slot is missing or fails to
/// decode, in declared order — or `None` when every slot resolves.
pub open spec fn first_bad(rows: Seq<RowView>, entity: Entity, shape: Seq<SelectorView>) -> Option<
    int,
>
    decreases shape.len(),
{
    if shape.len() == 0 {
        None
    } else if !slot_ok(rows, entity, shape[0]) {
        Some(0int)
    } else {
        crate::lock::shift_opt(first_bad(rows, entity, shape.skip(1)), 1)
    }
}

/// The serialized form of an ordered list of component values.
pub open spec fn serialized_of(vals: Seq<ValueView>) -> Seq<SerializedView> {
    vals.map(
        |i: int, v: ValueView| SerializedView {
            name: v.key.name,
            version: v.key.version,
            contents: encode_spec(v.data),
        },
    )
}

/// Law — duplicate-in-shape independence: two equal selectors in one shape
/// resolve to equal entries, each its own independently deserialized copy.
pub proof fn lemma_duplicate_selector_entries(
    rows: Seq<RowView>,
    entity: Entity,
    shape: Seq<SelectorView>,
    i: int,
    j: int,
)
    requires
        0 <= i < shape.len(),
        0 <= j < shape.len(),
        shape[i] == shape[j],
    ensures
        entries_of(rows, entity, shape)[i] == entries_of(rows, entity, shape)[j],
        slot_ok(rows, entity, shape[i]) == slot_ok(rows, entity, shape[j]),
{
}

/// Law — the entity pseudo-component: an entity selector is never missing,
/// always resolves, asks for no lock, and yields the requesting entity's own
/// identifier, all without any storage lookup.
pub proof fn lemma_entity_selector(rows: Seq<RowView>, entity: Entity, sel: SelectorView)
    requires
        sel is Entity,
    ensures
        !slot_missing(rows, entity, sel),
        slot_ok(rows, entity, sel),
        slot_entry(rows, entity, sel) == EntryView::Ident(entity),
        locks_of_sel(sel) == Seq::<LockDescView>::empty(),
{
}

/// Appending one selector to a shape appends its lock descriptors.
proof fn lemma_locks_of_snoc(shape: Seq<SelectorView>, sel: SelectorView)
    ensures
        locks_of(shape.push(sel)) == locks_of(shape) + locks_of_sel(sel),
    decreases shape.len(),
{
    if shape.len() == 0 {
        assert(shape.push(sel)[0] == sel);
        assert(shape.push(sel).skip(1) =~= Seq::<SelectorView>::empty());
        assert(locks_of(Seq::<SelectorView>::empty()) =~= Seq::<LockDescView>::empty());
        assert(locks_of(shape.push(sel)) =~= locks_of_sel(sel));
        assert(locks_of(shape) + locks_of_sel(sel) =~= locks_of_sel(sel));
    } else {
        assert(shape.push(sel)[0] == shape[0]);
        assert(shape.push(sel).skip(1) =~= shape.skip(1).push(sel));
        lemma_locks_of_snoc(shape.skip(1), sel);
        assert(locks_of(shape.push(sel)) == locks_of_sel(shape[0]) + (locks_of(shape.skip(1))
            + locks_of_sel(sel)));
        assert(locks_of_sel(shape[0]) + (locks_of(shape.skip(1)) + locks_of_sel(sel)) =~= (
        locks_of_sel(shape[0]) + locks_of(shape.skip(1))) + locks_of_sel(sel));
    }
}

/// Derives the extraction descriptors of a shape, in declared order.
fn extraction_descriptors(shape: &Vec<Selector>) -> (r: Vec<ExtractionDescriptor>)
    ensures
        r.deep_view() == extraction_of(shape.deep_view()),
{
    let mut out: Vec<ExtractionDescriptor> = Vec::new();
    let mut i: usize = 0;
    while i < shape.len()
        invariant
            0 <= i <= shape.len(),
            out.deep_view() == extraction_of(shape.deep_view().take(i as int)),
        decreases shape.len() - i,
    {
        let d = match &shape[i] {
            Selector::Read(id) => ExtractionDescriptor::component(
                ComponentId { name: id.name.clone(), version: id.version },
            ),
            Selector::Write(id) => ExtractionDescriptor::component(
                ComponentId { name: id.name.clone(), version: id.version },
            ),
            Selector::Entity => ExtractionDescriptor::entity(),
        };
        let ghost dv = d@;
        let ghost prev = out.deep_view();
        out.push(d);
        proof {
            assert(out.deep_view() =~= prev.push(dv));
            assert(dv == ex_of_sel(shape.deep_view()[i as int]));
            assert(out.deep_view() =~= extraction_of(shape.deep_view().take(i + 1)));
        }
        i = i + 1;
    }
    proof {
        assert(shape.deep_view().take(shape.deep_view().len() as int) =~= shape.deep_view());
    }
    out
}

/// Derives the lock descriptors of a shape, in declared order.
fn lock_descriptors(shape: &Vec<Selector>) -> (r: Vec<LockDescriptor>)
    ensures
        r.deep_view() == locks_of(shape.deep_view()),
{
    let mut out: Vec<LockDescriptor> = Vec::new();
    let mut i: usize = 0;
    proof {
        assert(out.deep_view() =~= locks_of(shape.deep_view().take(0)));
    }
    while i < shape.len()
        invariant
            0 <= i <= shape.len(),
            out.deep_view() == locks_of(shape.deep_view().take(i as int)),
        decreases shape.len() - i,
    {
        let ghost prefix = shape.deep_view().take(i as int);
        match &shape[i] {
            Selector::Read(id) => {
                out.push(LockDescriptor {
                    mode: LockingMode::Read,
                    name: id.name.clone(),
                    version: id.version,
                });
            },
            Selector::Write(id) => {
                out.push(LockDescriptor {
                    mode: LockingMode::Write,
                    name: id.name.clone(),
                    version: id.version,
                });
            },
            Selector::Entity => {},
        }
        proof {
            lemma_locks_of_snoc(prefix, shape.deep_view()[i as int]);
            assert(shape.deep_view().take(i + 1) =~= prefix.push(shape.deep_view()[i as int]));
            assert(out.deep_view() =~= locks_of(shape.deep_view().take(i + 1)));
        }
        i = i + 1;
    }
    proof {
        assert(shape.deep_view().take(shape.deep_view().len() as int) =~= shape.deep_view());
    }
    out
}

/// Access to a locked, typed bundle: the acquired lock together with the
/// owned, deserialized entries of the shape, in declared order. Read
/// selectors are read through `value`; write selectors may additionally be
/// updated in place through `set_data`. The lock is released by an explicit
/// `unlock`, which reports the outcome to the caller.
pub struct Locked {
    lock: Lock,
    items: Vec<Entry>,
    shape: Ghost<Seq<SelectorView>>,
}

impl Locked {
    /// The acquired lock.
    pub closed spec fn lock_spec(&self) -> Lock {
        self.lock
    }

    /// The shape this guard was obtained for.
    pub closed spec fn shape_spec(&self) -> Seq<SelectorView> {
        self.shape@
    }

    /// The guard's typed entries, in declared order.
    pub closed spec fn entries(&self) -> Seq<EntryView> {
        self.items.deep_view()
    }

    /// The lock this guard holds.
    pub fn lock(&self) -> (r: Lock)
        ensures
            r == self.lock_spec(),
    {
        self.lock
    }

    /// How many entries the guard holds.
    pub fn len(&self) -> (r: usize)
        ensures
            r == self.entries().len(),
    {
        self.items.len()
    }

    /// Borrows the entry of one slot.
    pub fn value(&self, i: usize) -> (r: &Entry)
        requires
            i < self.entries().len(),
        ensures
            r@ == self.entries()[i as int],
    {
        &self.items[i]
    }

    /// Replaces the payload of one slot. Only a slot declared with a write
    /// selector may be written.
    pub fn set_data(&mut self, i: usize, data: DataValue)
        requires
            i < old(self).entries().len(),
            old(self).shape_spec()[i as int] is Write,
            old(self).entries()[i as int] is Value,
        ensures
            final(self).lock_spec() == old(self).lock_spec(),
            final(self).shape_spec() == old(self).shape_spec(),
            final(self).entries() == old(self).entries().update(
                i as int,
                EntryView::Value(
                    ValueView {
                        key: old(self).entries()[i as int]->Value_0.key,
                        data: data@,
                    },
                ),
            ),
    {
        let id = match &self.items[i] {
            Entry::Value(v) => ComponentId { name: v.id.name.clone(), version: v.id.version },
            Entry::Ident(_) => ComponentId {
                name: String::new(),
                version: crate::component::Version { major: 0, minor: 0, patch: 0 },
            },
        };
        self.items.set(i, Entry::Value(ComponentValue { id, data }));
        proof {
            assert(self.items.deep_view() =~= old(self).entries().update(
                i as int,
                EntryView::Value(
                    ValueView { key: old(self).entries()[i as int]->Value_0.key, data: data@ },
                ),
            ));
        }
    }

    /// Releases the guard's lock on the given backend and reports the
    /// outcome: every lease row of the lock is deleted; the stored rows are
    /// not touched.
    pub fn unlock(self, backend: &mut Backend) -> (r: Result<(), LockingError>)
        ensures
            r is Ok,
            final(backend)@.rows == old(backend)@.rows,
            final(backend)@.leases == released(old(backend)@.leases, self.lock_spec().0),
    {
        backend.release_lock(self.lock)
    }
}

impl Backend {
    /// The typed query: derives extraction descriptors from the shape, reads
    /// without holding any lock, decodes every present payload, then derives
    /// the lock descriptors from the same shape and acquires them atomically
    /// at time `now`.
    ///
    /// Walking the shape in declared order, the first failing slot decides:
    /// a missing component resolves the call to `Ok(None)` with no lock ever
    /// requested and no side effect; a payload that fails to decode
    /// surfaces the serialization error. When every slot resolves, the call
    /// returns a guard holding the lock and the entries exactly when every
    /// lock descriptor can be granted, and otherwise surfaces the lock
    /// conflict, holding nothing.
    pub fn get_at(
        &mut self,
        entity: Entity,
        shape: &Vec<Selector>,
        now: u64,
        ttl_millis: u64,
    ) -> (r: Result<Option<Locked>, BackendError>)
        ensures
            final(self)@.rows == old(self)@.rows,
            first_bad(old(self)@.rows, entity, shape.deep_view()) matches Some(b) ==> ({
                &&& final(self)@.leases == old(self)@.leases
                &&& (slot_missing(old(self)@.rows, entity, shape.deep_view()[b]) ==> r matches Ok(
                    None,
                ))
                &&& (!slot_missing(old(self)@.rows, entity, shape.deep_view()[b]) ==> r matches Err(
                    BackendError::Access(AccessError::Serialization(_)),
                ))
            }),
            first_bad(old(self)@.rows, entity, shape.deep_view()) is None ==> ({
                let descs = locks_of(shape.deep_view());
                &&& (r matches Ok(Some(_)) <==> grant_ok(
                    old(self)@.leases,
                    entity,
                    descs,
                    now,
                    expiry_of(now, ttl_millis),
                ))
                &&& (r matches Ok(Some(g)) ==> g.entries() == entries_of(
                    old(self)@.rows,
                    entity,
                    shape.deep_view(),
                ) && g.shape_spec() == shape.deep_view() && final(self)@.leases == old(self)@.leases
                    + granted_rows(
                    g.lock_spec().0,
                    entity,
                    descs,
                    expiry_of(now, ttl_millis),
                ))
                &&& (r is Err ==> final(self)@.leases == old(self)@.leases)
                &&& (r matches Err(e) ==> e matches BackendError::Locking(le)
                    && names_first_blocked(
                    old(self)@.leases,
                    entity,
                    descs,
                    now,
                    expiry_of(now, ttl_millis),
                    le,
                ))
            }),
            r matches Ok(None) ==> first_bad(old(self)@.rows, entity, shape.deep_view()) is Some,
    {
        let ghost sh = shape.deep_view();
        let ghost rows = self@.rows;
        let ex_descs = extraction_descriptors(shape);
        let extracted = match self.read_components(entity, &ex_descs) {
            Ok(x) => x,
            Err(_) => {
                return unreached();
            },
        };
        let mut items: Vec<Entry> = Vec::new();
        let mut i: usize = 0;
        proof {
            assert(sh.skip(0) =~= sh);
        }
        while i < shape.len()
            invariant
                0 <= i <= shape.len(),
                sh == shape.deep_view(),
                rows == self@.rows,
                self@ == old(self)@,
                self.wf() == old(self).wf(),
                extracted.deep_view().len() == sh.len(),
                forall|j: int|
                    0 <= j < sh.len() ==> extracted.deep_view()[j] == extract_one(
                        rows,
                        entity,
                        ex_of_sel(#[trigger] sh[j]),
                    ),
                first_bad(rows, entity, sh) == crate::lock::shift_opt(
                    first_bad(rows, entity, sh.skip(i as int)),
                    i as int,
                ),
                items.deep_view() == entries_of(rows, entity, sh.take(i as int)),
            decreases shape.len() - i,
        {
            let ghost suffix = sh.skip(i as int);
            proof {
                assert(suffix[0] == sh[i as int]);
                assert(suffix.skip(1) =~= sh.skip(i + 1));
            }
            let slot = &extracted[i];
            match slot {
                None => {
                    proof {
                        assert(extracted.deep_view()[i as int] is None);
                        assert(slot_missing(rows, entity, sh[i as int]));
                        assert(!slot_ok(rows, entity, sh[i as int]));
                        assert(first_bad(rows, entity, sh) == Some(i as int));
                    }
                    return Ok(None);
                },
                Some(found) => {
                    let entry = match found {
                        Extracted::Entity(e) => Entry::Ident(*e),
                        Extracted::Component(sc) => {
                            let payload = JsonString(sc.contents.clone());
                            match Json::deserialize(&payload) {
                                Ok(data) => Entry::Value(
                                    ComponentValue {
                                        id: ComponentId {
                                            name: sc.name.clone(),
                                            version: sc.version,
                                        },
                                        data,
                                    },
                                ),
                                Err(err) => {
                                    proof {
                                        assert(!slot_ok(rows, entity, sh[i as int]));
                                        assert(!slot_missing(rows, entity, sh[i as int]));
                                        assert(first_bad(rows, entity, sh) == Some(i as int));
                                    }
                                    return Err(BackendError::Access(err));
                                },
                            }
                        },
                    };
                    let ghost ev = entry@;
                    let ghost prev = items.deep_view();
                    proof {
                        assert(slot_ok(rows, entity, sh[i as int]));
                        assert(ev == slot_entry(rows, entity, sh[i as int]));
                    }
                    items.push(entry);
                    proof {
                        assert(items.deep_view() =~= prev.push(ev));
                        assert(first_bad(rows, entity, suffix) == crate::lock::shift_opt(
                            first_bad(rows, entity, sh.skip(i + 1)),
                            1,
                        ));
                        assert(sh.take(i + 1) =~= sh.take(i as int).push(sh[i as int]));
                        assert(items.deep_view() =~= entries_of(rows, entity, sh.take(i + 1)));
                    }
                    i = i + 1;
                },
            }
        }
        proof {
            assert(sh.skip(sh.len() as int) =~= Seq::<SelectorView>::empty());
            assert(first_bad(rows, entity, sh) is None);
            assert(sh.take(sh.len() as int) =~= sh);
        }
        let lk_descs = lock_descriptors(shape);
        match self.acquire_lock_at(entity, &lk_descs, now, ttl_millis) {
            Ok(lock) => Ok(Some(Locked { lock, items, shape: Ghost(sh) })),
            Err(e) => Err(BackendError::Locking(e)),
        }
    }

    /// The typed query, reading the current time from the system clock. The
    /// stored rows are never changed; a missing component still resolves the
    /// call to `Ok(None)` with no lock requested; and whatever time the
    /// clock reported, the locks were either all granted into the returned
    /// guard or not at all.
    pub fn get(
        &mut self,
        entity: Entity,
        shape: &Vec<Selector>,
        ttl_millis: u64,
    ) -> (r: Result<Option<Locked>, BackendError>)
        ensures
            final(self)@.rows == old(self)@.rows,
            first_bad(old(self)@.rows, entity, shape.deep_view()) matches Some(b) ==> ({
                &&& final(self)@.leases == old(self)@.leases
                &&& (slot_missing(old(self)@.rows, entity, shape.deep_view()[b]) ==> r matches Ok(
                    None,
                ))
                &&& (!slot_missing(old(self)@.rows, entity, shape.deep_view()[b]) ==> r matches Err(
                    BackendError::Access(AccessError::Serialization(_)),
                ))
            }),
            first_bad(old(self)@.rows, entity, shape.deep_view()) is None ==> exists|now: u64|
                ({
                    let descs = locks_of(shape.deep_view());
                    &&& (#[trigger] expiry_of(now, ttl_millis) == expiry_of(now, ttl_millis))
                    &&& (r matches Ok(Some(_)) <==> grant_ok(
                        old(self)@.leases,
                        entity,
                        descs,
                        now,
                        expiry_of(now, ttl_millis),
                    ))
                    &&& (r matches Ok(Some(g)) ==> g.entries() == entries_of(
                        old(self)@.rows,
                        entity,
                        shape.deep_view(),
                    ) && g.shape_spec() == shape.deep_view() && final(self)@.leases == old(
                        self,
                    )@.leases + granted_rows(
                        g.lock_spec().0,
                        entity,
                        descs,
                        expiry_of(now, ttl_millis),
                    ))
                    &&& (r is Err ==> final(self)@.leases == old(self)@.leases)
                    &&& (r matches Err(e) ==> e matches BackendError::Locking(le)
                        && names_first_blocked(
                        old(self)@.leases,
                        entity,
                        descs,
                        now,
                        expiry_of(now, ttl_millis),
                        le,
                    ))
                }),
            r matches Ok(None) ==> first_bad(old(self)@.rows, entity, shape.deep_view()) is Some,
    {
        let now = LockStore::clock_now();
        let r = self.get_at(entity, shape, now, ttl_millis);
        proof {
            if first_bad(old(self)@.rows, entity, shape.deep_view()) is None {
                assert(expiry_of(now, ttl_millis) == expiry_of(now, ttl_millis));
            }
        }
        r
    }

    /// Serializes every value through the codec and forwards the full
    /// ordered list to the write capability, unconditionally: no lock is
    /// checked here, and callers needing exclusivity must hold the matching
    /// write lock before calling. The only consistency guard is the access
    /// layer's duplicate-insert conflict, under which the whole call leaves
    /// the store exactly as it was.
    pub fn put(
        &mut self,
        entity: Entity,
        values: &Vec<ComponentValue>,
    ) -> (r: Result<(), AccessError>)
        requires
            old(self).wf(),
        ensures
            final(self).wf(),
            final(self)@.leases == old(self)@.leases,
            r is Ok <==> crate::access::write_ok(
                old(self)@.rows,
                entity,
                serialized_of(values.deep_view()),
            ),
            r is Ok ==> final(self)@.rows == old(self)@.rows + crate::access::written_rows(
                entity,
                serialized_of(values.deep_view()),
            ),
            r is Err ==> final(self)@.rows == old(self)@.rows,
            r matches Err(e) ==> ({
                crate::access::first_conflict(
                    old(self)@.rows,
                    entity,
                    serialized_of(values.deep_view()),
                ) matches Some(j)
                    && e matches AccessError::Conflict(ce, cn, cv)
                    && ce == entity
                    && cn@ == values.deep_view()[j].key.name
                    && cv == values.deep_view()[j].key.version
            }),
    {
        let mut serialized: Vec<SerializedComponent> = Vec::new();
        let mut i: usize = 0;
        while i < values.len()
            invariant
                0 <= i <= values.len(),
                serialized.deep_view() == serialized_of(values.deep_view().take(i as int)),
            decreases values.len() - i,
        {
            let value = &values[i];
            let payload = Json::serialize(&value.data);
            let sc = SerializedComponent {
                name: value.id.name.clone(),
                version: value.id.version,
                contents: payload.0,
            };
            let ghost scv = sc@;
            let ghost prev = serialized.deep_view();
            serialized.push(sc);
            proof {
                assert(serialized.deep_view() =~= prev.push(scv));
                assert(scv == serialized_of(values.deep_view())[i as int]);
                assert(serialized.deep_view() =~= serialized_of(
                    values.deep_view().take(i + 1),
                ));
            }
            i = i + 1;
        }
        proof {
            assert(values.deep_view().take(values.deep_view().len() as int) =~= values.deep_view());
        }
        let r = self.write_components(entity, &serialized);
        proof {
            if r is Err {
                crate::access::lemma_first_conflict_in_range(
                    old(self)@.rows,
                    entity,
                    serialized.deep_view(),
                );
            }
        }
        r
    }
}

} // verus!
