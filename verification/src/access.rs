//! Durable storage of serialized components keyed by entity and component
//! identity.
//!
//! The store keeps one row per (entity, component name); a row carries the
//! version and an opaque payload. Writes are all-or-nothing across their
//! argument list and fail on a duplicate (entity, name) key; reads resolve an
//! ordered descriptor list without deduplication, preserving request order.

use vstd::prelude::*;

use crate::component::{ComponentId, KeyView, Version};
use crate::entity::Entity;

verus! {

/// An error from the access capability. A conflict surfaces the entity and
/// the component identity whose insert collided with an existing row; a
/// serialization error is local to a single codec call; an implementation
/// error wraps an underlying storage or transport failure opaquely.
#[derive(Clone, Debug, PartialEq, Eq)]
pub enum AccessError {
    Implementation(String),
    Serialization(String),
    Conflict(Entity, String, Version),
}

impl AccessError {
    pub fn implementation(message: String) -> (r: AccessError)
        ensures
            r matches AccessError::Implementation(m) && m@ == message@,
    {
        AccessError::Implementation(message)
    }

    pub fn serialization(message: String) -> (r: AccessError)
        ensures
            r matches AccessError::Serialization(m) && m@ == message@,
    {
        AccessError::Serialization(message)
    }
}

/// The backend-neutral transport form of a component: its identity and an
/// opaque payload.
#[derive(Clone, Debug, PartialEq, Eq)]
pub struct SerializedComponent {
    pub name: String,
    pub version: Version,
    pub contents: String,
}

/// The mathematical form of a serialized component.
pub struct SerializedView {
    pub name: Seq<char>,
    pub version: Version,
    pub contents: Seq<char>,
}

impl View for SerializedComponent {
    type V = SerializedView;

    open spec fn view(&self) -> SerializedView {
        SerializedView { name: self.name@, version: self.version, contents: self.contents@ }
    }
}

impl DeepView for SerializedComponent {
    type V = SerializedView;

    open spec fn deep_view(&self) -> SerializedView {
        self.view()
    }
}

/// One request in an ordered extraction: either a component's stored row or
/// the requesting entity's own identifier.
#[derive(Clone, Debug, PartialEq, Eq)]
pub struct ExtractionDescriptor {
    pub target: ExtractionTarget,
}

/// What one extraction descriptor asks for.
#[derive(Clone, Debug, PartialEq, Eq)]
pub enum ExtractionTarget {
    /// The requesting entity's own identifier; resolved without any storage
    /// lookup.
    Entity,
    /// The stored row of this component identity.
    Component(ComponentId),
}

/// The mathematical form of an extraction descriptor.
pub enum ExtractionView {
    Entity,
    Component(KeyView),
}

impl View for ExtractionDescriptor {
    type V = ExtractionView;

    open spec fn view(&self) -> ExtractionView {
        match self.target {
            ExtractionTarget::Entity => ExtractionView::Entity,
            ExtractionTarget::Component(id) => ExtractionView::Component(id@),
        }
    }
}

impl DeepView for ExtractionDescriptor {
    type V = ExtractionView;

    open spec fn deep_view(&self) -> ExtractionView {
        self.view()
    }
}

impl ExtractionDescriptor {
    pub fn entity() -> (r: ExtractionDescriptor)
        ensures
            r@ == ExtractionView::Entity,
    {
        ExtractionDescriptor { target: ExtractionTarget::Entity }
    }

    pub fn component(id: ComponentId) -> (r: ExtractionDescriptor)
        ensures
            r@ == ExtractionView::Component(id@),
    {
        ExtractionDescriptor { target: ExtractionTarget::Component(id) }
    }
}

/// One resolved slot of an extraction: the entity's identifier for an entity
/// descriptor, or the stored serialized component.
#[derive(Clone, Debug, PartialEq, Eq)]
pub enum Extracted {
    Entity(Entity),
    Component(SerializedComponent),
}

/// The mathematical form of a resolved slot.
pub enum ExtractedView {
    Entity(Entity),
    Component(SerializedView),
}

impl View for Extracted {
    type V = ExtractedView;

    open spec fn view(&self) -> ExtractedView {
        match self {
            Extracted::Entity(e) => ExtractedView::Entity(*e),
            Extracted::Component(c) => ExtractedView::Component(c@),
        }
    }
}

impl DeepView for Extracted {
    type V = ExtractedView;

    open spec fn deep_view(&self) -> ExtractedView {
        self.view()
    }
}

/// One stored row: an entity's record of one component name.
#[derive(Clone, Debug)]
pub struct StoredRow {
    pub entity: Entity,
    pub name: String,
    pub version: Version,
    pub contents: String,
}

/// The mathematical form of a stored row.
pub struct RowView {
    pub entity: Entity,
    pub name: Seq<char>,
    pub version: Version,
    pub contents: Seq<char>,
}

impl View for StoredRow {
    type V = RowView;

    open spec fn view(&self) -> RowView {
        RowView {
            entity: self.entity,
            name: self.name@,
            version: self.version,
            contents: self.contents@,
        }
    }
}

impl DeepView for StoredRow {
    type V = RowView;

    open spec fn deep_view(&self) -> RowView {
        self.view()
    }
}

/// Whether a row occupies the storage key (entity, name).
pub open spec fn row_matches(r: RowView, entity: Entity, name: Seq<char>) -> bool {
    r.entity == entity && r.name == name
}

/// Whether some row already occupies the storage key (entity, name).
pub open spec fn taken(rows: Seq<RowView>, entity: Entity, name: Seq<char>) -> bool {
    exists|i: int| 0 <= i < rows.len() && row_matches(#[trigger] rows[i], entity, name)
}

/// The row that inserting `c` for `entity` produces.
pub open spec fn row_of(entity: Entity, c: SerializedView) -> RowView {
    RowView { entity, name: c.name, version: c.version, contents: c.contents }
}

/// The index of the first component whose insert would collide with an
/// existing row — including rows inserted earlier in the same call — or
/// `None` when the whole write goes through.
pub open spec fn first_conflict(
    rows: Seq<RowView>,
    entity: Entity,
    comps: Seq<SerializedView>,
) -> Option<int>
    decreases comps.len(),
{
    if comps.len() == 0 {
        None
    } else if taken(rows, entity, comps[0].name) {
        Some(0int)
    } else {
        crate::lock::shift_opt(
            first_conflict(rows.push(row_of(entity, comps[0])), entity, comps.skip(1)),
            1,
        )
    }
}

/// Whether a whole write of `comps` succeeds: no entry's insert collides.
pub open spec fn write_ok(rows: Seq<RowView>, entity: Entity, comps: Seq<SerializedView>) -> bool {
    first_conflict(rows, entity, comps) is None
}

/// The rows that a successful write appends, in argument order.
pub open spec fn written_rows(entity: Entity, comps: Seq<SerializedView>) -> Seq<RowView> {
    comps.map(|i: int, c: SerializedView| row_of(entity, c))
}

/// The stored record invariant: at most one row exists per (entity, name)
/// key.
pub open spec fn store_wf(rows: Seq<RowView>) -> bool {
    forall|i: int, j: int|
        0 <= i < j < rows.len() ==> !row_matches(
            #[trigger] rows[i],
            (#[trigger] rows[j]).entity,
            rows[j].name,
        )
}

/// The first row occupying the storage key (entity, name), if any.
pub open spec fn find_row(rows: Seq<RowView>, entity: Entity, name: Seq<char>) -> Option<RowView>
    decreases rows.len(),
{
    if rows.len() == 0 {
        None
    } else if row_matches(rows[0], entity, name) {
        Some(rows[0])
    } else {
        find_row(rows.skip(1), entity, name)
    }
}

/// What one extraction descriptor resolves to: the entity's identifier for
/// an entity descriptor; for a component descriptor, the stored row matching
/// the entity and the full component identity, or `None` when absent.
pub open spec fn extract_one(
    rows: Seq<RowView>,
    entity: Entity,
    d: ExtractionView,
) -> Option<ExtractedView> {
    match d {
        ExtractionView::Entity => Some(ExtractedView::Entity(entity)),
        ExtractionView::Component(key) => match find_row(rows, entity, key.name) {
            None => None,
            Some(r) => if r.version == key.version {
                Some(
                    ExtractedView::Component(
                        SerializedView { name: r.name, version: r.version, contents: r.contents },
                    ),
                )
            } else {
                None
            },
        },
    }
}

/// The store after removing the row matching `(entity, key)` in full, name
/// and version both; everything else stays, in order.
pub open spec fn removed(rows: Seq<RowView>, entity: Entity, key: KeyView) -> Seq<RowView>
    decreases rows.len(),
{
    if rows.len() == 0 {
        Seq::empty()
    } else {
        removed(rows.drop_last(), entity, key) + if rows.last().entity == entity && rows.last().name
            == key.name && rows.last().version == key.version {
            Seq::empty()
        } else {
            seq![rows.last()]
        }
    }
}

/// A storage backend over one polymorphic table keyed by entity and
/// component name.
pub struct AccessStore {
    rows: Vec<StoredRow>,
}

impl View for AccessStore {
    type V = Seq<RowView>;

    closed spec fn view(&self) -> Seq<RowView> {
        self.rows.deep_view()
    }
}

impl AccessStore {
    /// The stored record invariant, at the store level.
    pub open spec fn wf(&self) -> bool {
        store_wf(self@)
    }

    /// An empty store.
    pub fn new() -> (r: AccessStore)
        ensures
            r@ == Seq::<RowView>::empty(),
            r.wf(),
    {
        let r = AccessStore { rows: Vec::new() };
        proof {
            assert(r@ =~= Seq::<RowView>::empty());
        }
        r
    }

    /// Writes all components for one entity as one transaction: each entry
    /// is inserted under the uniqueness constraint on (entity, name), with
    /// entries inserted earlier in the same call taking part in the checks
    /// for the later ones. If any single insert collides, nothing at all is
    /// persisted — entries that "succeeded" earlier in the call included —
    /// and the error names the entity and the first colliding component
    /// identity.
    pub fn write_components(
        &mut self,
        entity: Entity,
        components: &Vec<SerializedComponent>,
    ) -> (r: Result<(), AccessError>)
        requires
            old(self).wf(),
        ensures
            final(self).wf(),
            r is Ok <==> write_ok(old(self)@, entity, components.deep_view()),
            r is Ok ==> final(self)@ == old(self)@ + written_rows(entity, components.deep_view()),
            r is Err ==> final(self)@ == old(self)@,
            r matches Err(e) ==> ({
                first_conflict(old(self)@, entity, components.deep_view()) matches Some(j)
                    && e matches AccessError::Conflict(ce, cn, cv)
                    && ce == entity
                    && cn@ == components.deep_view()[j].name
                    && cv == components.deep_view()[j].version
            }),
    {
        let ghost comps = components.deep_view();
        let mut added: Vec<StoredRow> = Vec::new();
        let mut k: usize = 0;
        proof {
            assert(added.deep_view() =~= written_rows(entity, comps.take(0)));
            assert(self@ + added.deep_view() =~= self@);
            assert(comps.skip(0) =~= comps);
        }
        while k < components.len()
            invariant
                0 <= k <= components.len(),
                comps == components.deep_view(),
                added.deep_view() == written_rows(entity, comps.take(k as int)),
                first_conflict(self@, entity, comps) == crate::lock::shift_opt(
                    first_conflict(self@ + added.deep_view(), entity, comps.skip(k as int)),
                    k as int,
                ),
                store_wf(self@ + added.deep_view()),
                self@ == old(self)@,
            decreases components.len() - k,
        {
            let ghost mid = self@ + added.deep_view();
            let ghost suffix = comps.skip(k as int);
            let comp = &components[k];
            let occupied = Self::scan_taken(&self.rows, &added, entity, &comp.name);
            proof {
                assert(suffix[0] == comp@);
            }
            if occupied {
                proof {
                    assert(first_conflict(mid, entity, suffix) == Some(0int));
                    assert(first_conflict(self@, entity, comps) == Some(k as int));
                    assert(store_wf(self@)) by {
                        assert forall|a: int, b: int| 0 <= a < b < self@.len() implies !row_matches(
                            #[trigger] self@[a],
                            (#[trigger] self@[b]).entity,
                            self@[b].name,
                        ) by {
                            assert((self@ + added.deep_view())[a] == self@[a]);
                            assert((self@ + added.deep_view())[b] == self@[b]);
                        }
                    }
                }
                return Err(AccessError::Conflict(entity, comp.name.clone(), comp.version));
            }
            let row = StoredRow {
                entity,
                name: comp.name.clone(),
                version: comp.version,
                contents: comp.contents.clone(),
            };
            let ghost rowv = row@;
            let ghost prev = added.deep_view();
            added.push(row);
            proof {
                assert(added.deep_view() =~= prev.push(rowv));
                assert(rowv == row_of(entity, comps[k as int]));
                assert(added.deep_view() =~= written_rows(entity, comps.take(k + 1)));
                assert(mid.push(row_of(entity, suffix[0])) =~= self@ + added.deep_view());
                assert(suffix.skip(1) =~= comps.skip(k + 1));
                assert(first_conflict(mid, entity, suffix) == crate::lock::shift_opt(
                    first_conflict(self@ + added.deep_view(), entity, comps.skip(k + 1)),
                    1,
                ));
                assert forall|i: int, j: int| 0 <= i < j < mid.push(rowv).len() implies !row_matches(
                    #[trigger] mid.push(rowv)[i],
                    (#[trigger] mid.push(rowv)[j]).entity,
                    mid.push(rowv)[j].name,
                ) by {
                    if j == mid.len() {
                        assert(mid.push(rowv)[i] == mid[i]);
                        if row_matches(mid[i], rowv.entity, rowv.name) {
                            assert(taken(mid, entity, comps[k as int].name));
                        }
                    } else {
                        assert(mid.push(rowv)[i] == mid[i]);
                        assert(mid.push(rowv)[j] == mid[j]);
                    }
                }
                assert(store_wf(self@ + added.deep_view()));
            }
            k = k + 1;
        }
        proof {
            assert(comps.take(comps.len() as int) =~= comps);
            assert(comps.skip(comps.len() as int) =~= Seq::<SerializedView>::empty());
        }
        self.rows.append(&mut added);
        proof {
            assert(self@ =~= old(self)@ + written_rows(entity, comps));
        }
        Ok(())
    }

    /// Whether the storage key (entity, name) is occupied by an existing or
    /// just-added row.
    fn scan_taken(
        rows: &Vec<StoredRow>,
        added: &Vec<StoredRow>,
        entity: Entity,
        name: &String,
    ) -> (r: bool)
        ensures
            r == taken(rows.deep_view() + added.deep_view(), entity, name@),
    {
        let ghost all = rows.deep_view() + added.deep_view();
        let mut i: usize = 0;
        while i < rows.len()
            invariant
                0 <= i <= rows.len(),
                all == rows.deep_view() + added.deep_view(),
                forall|j: int| 0 <= j < i ==> !row_matches(#[trigger] all[j], entity, name@),
            decreases rows.len() - i,
        {
            if rows[i].entity.0 == entity.0 && rows[i].name == *name {
                proof {
                    assert(row_matches(all[i as int], entity, name@));
                }
                return true;
            }
            i = i + 1;
        }
        let mut j: usize = 0;
        while j < added.len()
            invariant
                0 <= j <= added.len(),
                all == rows.deep_view() + added.deep_view(),
                forall|m: int| 0 <= m < rows.len() + j ==> !row_matches(#[trigger] all[m], entity, name@),
            decreases added.len() - j,
        {
            if added[j].entity.0 == entity.0 && added[j].name == *name {
                proof {
                    assert(row_matches(all[rows.len() + j], entity, name@));
                }
                return true;
            }
            j = j + 1;
        }
        false
    }

    /// Resolves each descriptor in request order, independently and without
    /// deduplication: an entity descriptor yields the requesting entity's
    /// own identifier without any storage lookup; a component descriptor
    /// yields the stored row matching the entity and the full component
    /// identity, or `None` when absent. The store is not changed.
    pub fn read_components(
        &self,
        entity: Entity,
        descriptors: &Vec<ExtractionDescriptor>,
    ) -> (r: Result<Vec<Option<Extracted>>, AccessError>)
        ensures
            r is Ok,
            r matches Ok(out) ==> out.deep_view().len() == descriptors.deep_view().len(),
            r matches Ok(out) ==> forall|i: int|
                0 <= i < out.deep_view().len() ==> out.deep_view()[i] == extract_one(
                    self@,
                    entity,
                    descriptors.deep_view()[i],
                ),
    {
        let mut out: Vec<Option<Extracted>> = Vec::new();
        let mut k: usize = 0;
        while k < descriptors.len()
            invariant
                0 <= k <= descriptors.len(),
                out.deep_view().len() == k,
                forall|i: int|
                    0 <= i < k ==> out.deep_view()[i] == extract_one(
                        self@,
                        entity,
                        descriptors.deep_view()[i],
                    ),
            decreases descriptors.len() - k,
        {
            let slot = match &descriptors[k].target {
                ExtractionTarget::Entity => Some(Extracted::Entity(entity)),
                ExtractionTarget::Component(id) => {
                    match self.lookup(entity, &id.name) {
                        None => None,
                        Some(ix) => {
                            let row = &self.rows[ix];
                            if row.version.major == id.version.major && row.version.minor
                                == id.version.minor && row.version.patch == id.version.patch {
                                Some(Extracted::Component(SerializedComponent {
                                    name: row.name.clone(),
                                    version: row.version,
                                    contents: row.contents.clone(),
                                }))
                            } else {
                                None
                            }
                        },
                    }
                },
            };
            let ghost prev = out.deep_view();
            out.push(slot);
            proof {
                assert(out.deep_view() =~= prev.push(out@[k as int].deep_view()));
                assert(out.deep_view()[k as int] == extract_one(
                    self@,
                    entity,
                    descriptors.deep_view()[k as int],
                ));
            }
            k = k + 1;
        }
        Ok(out)
    }

    /// The index of the first row occupying (entity, name), if any.
    fn lookup(&self, entity: Entity, name: &String) -> (r: Option<usize>)
        ensures
            r matches Some(ix) ==> ix < self@.len() && self@[ix as int] == find_row(
                self@,
                entity,
                name@,
            )->Some_0 && find_row(self@, entity, name@) is Some,
            r is None ==> find_row(self@, entity, name@) is None,
    {
        let mut i: usize = 0;
        proof {
            assert(self@.skip(0) =~= self@);
        }
        while i < self.rows.len()
            invariant
                0 <= i <= self.rows.len(),
                find_row(self@, entity, name@) == find_row(self@.skip(i as int), entity, name@),
            decreases self.rows.len() - i,
        {
            if self.rows[i].entity.0 == entity.0 && self.rows[i].name == *name {
                proof {
                    assert(self@.skip(i as int)[0] == self@[i as int]);
                }
                return Some(i);
            }
            proof {
                assert(self@.skip(i as int)[0] == self@[i as int]);
                assert(self@.skip(i as int).skip(1) =~= self@.skip(i + 1));
            }
            i = i + 1;
        }
        proof {
            assert(self@.skip(self.rows.len() as int) =~= Seq::<RowView>::empty());
        }
        None
    }

    /// Writes the store's whole state — the row count, then every row in
    /// order — onto the end of a snapshot under construction.
    pub fn save_into(&self, out: &mut Vec<char>)
        ensures
            final(out)@ == old(out)@ + crate::snapshot::enc_nat(self@.len() as int)
                + crate::snapshot::enc_rows(self@),
    {
        crate::snapshot::push_count(out, self.rows.len());
        let ghost mark = out@;
        let mut i: usize = 0;
        proof {
            assert(crate::snapshot::enc_rows(self@.take(0)) =~= Seq::<char>::empty());
            assert(out@ =~= mark + crate::snapshot::enc_rows(self@.take(0)));
        }
        while i < self.rows.len()
            invariant
                0 <= i <= self.rows.len(),
                out@ == mark + crate::snapshot::enc_rows(self@.take(i as int)),
            decreases self.rows.len() - i,
        {
            crate::snapshot::push_row(out, &self.rows[i]);
            proof {
                crate::snapshot::lemma_enc_rows_snoc(self@.take(i as int), self@[i as int]);
                assert(self@.take(i + 1) =~= self@.take(i as int).push(self@[i as int]));
                assert(out@ =~= mark + crate::snapshot::enc_rows(self@.take(i + 1)));
            }
            i = i + 1;
        }
        proof {
            assert(self@.take(self.rows.len() as int) =~= self@);
        }
    }

    /// Whether a list of rows satisfies the stored record invariant: no two
    /// rows share a (entity, name) key.
    pub fn rows_wf(rows: &Vec<StoredRow>) -> (b: bool)
        ensures
            b == store_wf(rows.deep_view()),
    {
        let ghost view = rows.deep_view();
        let mut j: usize = 1;
        while j < rows.len()
            invariant
                1 <= j <= rows.len() || rows.len() == 0,
                view == rows.deep_view(),
                forall|a: int, b: int|
                    0 <= a < b < j ==> !row_matches(
                        #[trigger] view[a],
                        (#[trigger] view[b]).entity,
                        view[b].name,
                    ),
            decreases rows.len() - j,
        {
            let mut i: usize = 0;
            while i < j
                invariant
                    0 <= i <= j < rows.len(),
                    view == rows.deep_view(),
                    forall|a: int|
                        0 <= a < i ==> !row_matches(#[trigger] view[a], view[j as int].entity, view[j as int].name),
                decreases j - i,
            {
                if rows[i].entity.0 == rows[j].entity.0 && rows[i].name == rows[j].name {
                    proof {
                        assert(row_matches(view[i as int], view[j as int].entity, view[j as int].name));
                    }
                    return false;
                }
                i = i + 1;
            }
            j = j + 1;
        }
        true
    }

    /// Rebuilds a store from rows that satisfy the stored record invariant.
    pub fn from_rows(rows: Vec<StoredRow>) -> (r: AccessStore)
        requires
            store_wf(rows.deep_view()),
        ensures
            r@ == rows.deep_view(),
            r.wf(),
    {
        AccessStore { rows }
    }

    /// Removes the row matching the entity and the full component identity,
    /// returning it as a serialized component, or `None` when no such row
    /// exists. No other row is touched.
    pub fn remove_component(
        &mut self,
        entity: Entity,
        id: &ComponentId,
    ) -> (r: Option<SerializedComponent>)
        requires
            old(self).wf(),
        ensures
            final(self).wf(),
            final(self)@ == removed(old(self)@, entity, id@),
            r matches Some(c) ==> exists|i: int|
                0 <= i < old(self)@.len() && old(self)@[i] == row_of(entity, c@) && c@.name == id@.name
                    && c@.version == id@.version,
            r is None ==> forall|i: int|
                0 <= i < old(self)@.len() ==> !(row_matches(#[trigger] old(self)@[i], entity, id@.name)
                    && old(self)@[i].version == id@.version),
    {
        let mut kept: Vec<StoredRow> = Vec::new();
        let mut found: Option<SerializedComponent> = None;
        let mut i: usize = 0;
        proof {
            assert(kept.deep_view() =~= removed(old(self)@.take(0), entity, id@));
        }
        while i < self.rows.len()
            invariant
                0 <= i <= self.rows.len(),
                self@ == old(self)@,
                old(self).wf(),
                id@ == id.view(),
                kept.deep_view() == removed(old(self)@.take(i as int), entity, id@),
                found matches Some(c) ==> exists|j: int|
                    0 <= j < i && old(self)@[j] == row_of(entity, c@) && c@.name == id@.name
                        && c@.version == id@.version,
                found is None ==> forall|j: int|
                    0 <= j < i ==> !(row_matches(#[trigger] old(self)@[j], entity, id@.name)
                        && old(self)@[j].version == id@.version),
            decreases self.rows.len() - i,
        {
            proof {
                assert(old(self)@.take(i + 1).drop_last() =~= old(self)@.take(i as int));
                assert(old(self)@.take(i + 1).last() == old(self)@[i as int]);
            }
            let row = &self.rows[i];
            let hit = row.entity.0 == entity.0 && row.name == id.name && row.version.major
                == id.version.major && row.version.minor == id.version.minor && row.version.patch
                == id.version.patch;
            if hit {
                found = Some(SerializedComponent {
                    name: row.name.clone(),
                    version: row.version,
                    contents: row.contents.clone(),
                });
                proof {
                    assert(kept.deep_view() =~= removed(old(self)@.take(i + 1), entity, id@));
                }
            } else {
                let copy = StoredRow {
                    entity: row.entity,
                    name: row.name.clone(),
                    version: row.version,
                    contents: row.contents.clone(),
                };
                kept.push(copy);
                proof {
                    assert(kept.deep_view() =~= removed(old(self)@.take(i + 1), entity, id@));
                }
            }
            i = i + 1;
        }
        proof {
            assert(old(self)@.take(self.rows.len() as int) =~= old(self)@);
        }
        self.rows = kept;
        proof {
            lemma_removed_wf(old(self)@, entity, id@);
        }
        found
    }
}

/// Removing a row keeps every other row, so the stored record invariant is
/// preserved.
proof fn lemma_removed_wf(rows: Seq<RowView>, entity: Entity, key: KeyView)
    requires
        store_wf(rows),
    ensures
        store_wf(removed(rows, entity, key)),
        forall|i: int|
            0 <= i < removed(rows, entity, key).len() ==> rows.contains(
                #[trigger] removed(rows, entity, key)[i],
            ),
    decreases rows.len(),
{
    if rows.len() > 0 {
        assert(store_wf(rows.drop_last())) by {
            assert forall|i: int, j: int| 0 <= i < j < rows.drop_last().len() implies !row_matches(
                #[trigger] rows.drop_last()[i],
                (#[trigger] rows.drop_last()[j]).entity,
                rows.drop_last()[j].name,
            ) by {
                assert(rows.drop_last()[i] == rows[i]);
                assert(rows.drop_last()[j] == rows[j]);
            }
        }
        lemma_removed_wf(rows.drop_last(), entity, key);
        let prefix = removed(rows.drop_last(), entity, key);
        let whole = removed(rows, entity, key);
        assert forall|i: int| 0 <= i < whole.len() implies rows.contains(#[trigger] whole[i]) by {
            if i < prefix.len() {
                assert(whole[i] == prefix[i]);
                let j = choose|j: int|
                    0 <= j < rows.drop_last().len() && rows.drop_last()[j] == prefix[i];
                assert(rows[j] == prefix[i]);
            } else {
                assert(whole[i] == rows.last());
                assert(rows[rows.len() - 1] == rows.last());
            }
        }
        assert forall|i: int, j: int| 0 <= i < j < whole.len() implies !row_matches(
            #[trigger] whole[i],
            (#[trigger] whole[j]).entity,
            whole[j].name,
        ) by {
            if j < prefix.len() {
                assert(whole[i] == prefix[i]);
                assert(whole[j] == prefix[j]);
            } else if j == whole.len() - 1 && whole.len() > prefix.len() {
                assert(whole[j] == rows.last());
                assert(whole[i] == prefix[i]);
                let m = choose|m: int|
                    0 <= m < rows.drop_last().len() && rows.drop_last()[m] == prefix[i];
                assert(rows[m] == whole[i]);
                assert(!row_matches(rows[m], rows[rows.len() - 1].entity, rows[rows.len() - 1].name));
            }
        }
    }
}

/// The first conflicting index, when there is one, lies within the
/// component list.
pub proof fn lemma_first_conflict_in_range(
    rows: Seq<RowView>,
    entity: Entity,
    comps: Seq<SerializedView>,
)
    ensures
        first_conflict(rows, entity, comps) matches Some(j) ==> 0 <= j < comps.len(),
    decreases comps.len(),
{
    if comps.len() > 0 {
        if !taken(rows, entity, comps[0].name) {
            lemma_first_conflict_in_range(
                rows.push(row_of(entity, comps[0])),
                entity,
                comps.skip(1),
            );
        }
    }
}

/// If some entry's storage key is already occupied, the whole write fails.
proof fn lemma_conflict_if_taken(
    rows: Seq<RowView>,
    entity: Entity,
    comps: Seq<SerializedView>,
    m: int,
)
    requires
        0 <= m < comps.len(),
        taken(rows, entity, comps[m].name),
    ensures
        first_conflict(rows, entity, comps) is Some,
    decreases comps.len(),
{
    if !taken(rows, entity, comps[0].name) {
        let pushed = rows.push(row_of(entity, comps[0]));
        assert(m > 0);
        let i = choose|i: int| 0 <= i < rows.len() && row_matches(#[trigger] rows[i], entity, comps[m].name);
        assert(pushed[i] == rows[i]);
        assert(taken(pushed, entity, comps.skip(1)[m - 1].name));
        lemma_conflict_if_taken(pushed, entity, comps.skip(1), m - 1);
    }
}

/// Law — write atomicity: a write whose argument list holds two entries with
/// the same component name for one entity fails as a whole, whatever the
/// store held before. (Together with the write contract, the store is then
/// exactly as it was, so no entry of the call is retrievable afterwards.)
pub proof fn lemma_write_atomicity(
    rows: Seq<RowView>,
    entity: Entity,
    comps: Seq<SerializedView>,
    i: int,
    j: int,
)
    requires
        0 <= i < j < comps.len(),
        comps[i].name == comps[j].name,
    ensures
        !write_ok(rows, entity, comps),
    decreases comps.len(),
{
    if taken(rows, entity, comps[0].name) {
    } else {
        let pushed = rows.push(row_of(entity, comps[0]));
        if i == 0 {
            assert(pushed[rows.len() as int] == row_of(entity, comps[0]));
            assert(row_matches(pushed[rows.len() as int], entity, comps[j].name));
            assert(taken(pushed, entity, comps.skip(1)[j - 1].name));
            lemma_conflict_if_taken(pushed, entity, comps.skip(1), j - 1);
        } else {
            assert(comps.skip(1)[i - 1].name == comps.skip(1)[j - 1].name);
            lemma_write_atomicity(pushed, entity, comps.skip(1), i - 1, j - 1);
        }
    }
}

/// Law — a lookup is determined by which rows exist, not by their order:
/// under the stored record invariant, a found row is the unique stored row
/// occupying its key, and a miss means no stored row occupies it.
pub proof fn lemma_find_row_membership(rows: Seq<RowView>, entity: Entity, name: Seq<char>)
    requires
        store_wf(rows),
    ensures
        find_row(rows, entity, name) matches Some(r) ==> rows.contains(r) && row_matches(
            r,
            entity,
            name,
        ) && forall|i: int|
            0 <= i < rows.len() && row_matches(#[trigger] rows[i], entity, name) ==> rows[i] == r,
        find_row(rows, entity, name) is None ==> forall|i: int|
            0 <= i < rows.len() ==> !row_matches(#[trigger] rows[i], entity, name),
    decreases rows.len(),
{
    if rows.len() > 0 {
        if row_matches(rows[0], entity, name) {
            assert(rows.contains(rows[0]));
            assert forall|i: int|
                0 <= i < rows.len() && row_matches(#[trigger] rows[i], entity, name) implies rows[i]
                == rows[0] by {
                if i > 0 {
                    assert(!row_matches(rows[0], rows[i].entity, rows[i].name));
                }
            }
        } else {
            let tail = rows.skip(1);
            assert(store_wf(tail)) by {
                assert forall|i: int, j: int| 0 <= i < j < tail.len() implies !row_matches(
                    #[trigger] tail[i],
                    (#[trigger] tail[j]).entity,
                    tail[j].name,
                ) by {
                    assert(tail[i] == rows[i + 1]);
                    assert(tail[j] == rows[j + 1]);
                }
            }
            lemma_find_row_membership(tail, entity, name);
            if find_row(rows, entity, name) is Some {
                let r = find_row(rows, entity, name)->Some_0;
                let k = choose|k: int| 0 <= k < tail.len() && tail[k] == r;
                assert(rows[k + 1] == r);
                assert(rows.contains(r));
                assert forall|i: int|
                    0 <= i < rows.len() && row_matches(#[trigger] rows[i], entity, name) implies
                    rows[i] == r by {
                    if i > 0 {
                        assert(tail[i - 1] == rows[i]);
                    }
                }
            } else {
                assert forall|i: int| 0 <= i < rows.len() implies !row_matches(
                    #[trigger] rows[i],
                    entity,
                    name,
                ) by {
                    if i > 0 {
                        assert(tail[i - 1] == rows[i]);
                    }
                }
            }
        }
    }
}

} // verus!
