//! TTL-leased read/write locking keyed by entity and component identity.
//!
//! A lock groups one or more leases acquired atomically in one call. A lease
//! row carries a lock identifier, the locked (entity, component identity)
//! resource, a mode, and an expiry timestamp. Expiry is purely passive: an
//! expired row is treated as absent by the conflict check but never deleted
//! except by releasing its lock.

use vstd::prelude::*;

use crate::component::{KeyView, Version};
use crate::entity::Entity;

verus! {

/// The mode of a requested or granted lease.
#[derive(Clone, Copy, Debug, PartialEq, Eq, Structural)]
pub enum LockingMode {
    Read,
    Write,
}

/// A requested lease shape: one (component identity, mode) pair, independent
/// of whether the underlying resource currently exists.
#[derive(Clone, Debug, PartialEq, Eq)]
pub struct LockDescriptor {
    pub mode: LockingMode,
    pub name: String,
    pub version: Version,
}

/// The mathematical form of a lock descriptor.
pub struct LockDescView {
    pub mode: LockingMode,
    pub key: KeyView,
}

impl View for LockDescriptor {
    type V = LockDescView;

    open spec fn view(&self) -> LockDescView {
        LockDescView {
            mode: self.mode,
            key: KeyView { name: self.name@, version: self.version },
        }
    }
}

impl DeepView for LockDescriptor {
    type V = LockDescView;

    open spec fn deep_view(&self) -> LockDescView {
        self.view()
    }
}

/// An opaque identifier naming the set of leases granted by one acquisition.
/// A lock's validity is determined solely by whether any of its lease rows
/// have not yet expired; there is no explicit validity flag.
#[derive(Clone, Copy, Debug, PartialEq, Eq, Structural)]
pub struct Lock(pub u128);

impl Lock {
    /// Draws a fresh lock identifier at random; nothing is promised of its
    /// value.
    pub fn new() -> Lock {
        Lock(crate::support::fresh_u128())
    }

    pub fn id(&self) -> (r: u128)
        ensures
            r == self.0,
    {
        self.0
    }
}

/// One granted lease row.
#[derive(Clone, Debug)]
pub struct LeaseRow {
    pub lock_id: u128,
    pub entity: Entity,
    pub name: String,
    pub version: Version,
    pub mode: LockingMode,
    pub expires: u64,
}

/// The mathematical form of a lease row.
pub struct LeaseView {
    pub lock_id: u128,
    pub entity: Entity,
    pub key: KeyView,
    pub mode: LockingMode,
    pub expires: u64,
}

impl View for LeaseRow {
    type V = LeaseView;

    open spec fn view(&self) -> LeaseView {
        LeaseView {
            lock_id: self.lock_id,
            entity: self.entity,
            key: KeyView { name: self.name@, version: self.version },
            mode: self.mode,
            expires: self.expires,
        }
    }
}

impl DeepView for LeaseRow {
    type V = LeaseView;

    open spec fn deep_view(&self) -> LeaseView {
        self.view()
    }
}

/// An error from the locking capability. A conflict surfaces the entity, the
/// component identity, and the requested mode of the first failing
/// descriptor; an implementation error wraps an underlying storage or
/// transport failure opaquely.
#[derive(Clone, Debug, PartialEq, Eq)]
pub enum LockingError {
    Implementation(String),
    Conflict(Entity, String, Version, LockingMode),
}

impl LockingError {
    pub fn implementation(message: String) -> (r: LockingError)
        ensures
            r matches LockingError::Implementation(m) && m@ == message@,
    {
        LockingError::Implementation(message)
    }
}

/// Whether a lease has not yet expired at time `now`.
pub open spec fn lease_live(l: LeaseView, now: u64) -> bool {
    now < l.expires
}

/// Whether an existing lease blocks a request for `mode` on `(entity, key)`
/// at time `now`. A write request conflicts with any unexpired lease on the
/// same resource; a read request conflicts only with an unexpired write
/// lease. Expired leases block nothing.
pub open spec fn lease_blocks(
    l: LeaseView,
    entity: Entity,
    key: KeyView,
    mode: LockingMode,
    now: u64,
) -> bool {
    &&& lease_live(l, now)
    &&& l.entity == entity
    &&& l.key == key
    &&& (mode is Write || l.mode is Write)
}

/// Whether a single lease of `mode` on `(entity, key)` can be granted
/// against the given lease table at time `now`.
pub open spec fn can_grant(
    leases: Seq<LeaseView>,
    entity: Entity,
    key: KeyView,
    mode: LockingMode,
    now: u64,
) -> bool {
    forall|i: int|
        0 <= i < leases.len() ==> !lease_blocks(#[trigger] leases[i], entity, key, mode, now)
}

/// The lease row that granting `desc` under lock `lock_id` would insert.
pub open spec fn lease_of(
    lock_id: u128,
    entity: Entity,
    desc: LockDescView,
    expires: u64,
) -> LeaseView {
    LeaseView { lock_id, entity, key: desc.key, mode: desc.mode, expires }
}

/// The index of the first descriptor whose conditional insert would fail,
/// with every earlier descriptor's lease already inserted — or `None` when
/// the whole acquisition goes through. Leases granted earlier in the same
/// call take part in the conflict checks for the later descriptors. The
/// tentatively inserted leases are written with a placeholder lock
/// identifier; the conflict check never reads it.
pub open spec fn first_blocked(
    leases: Seq<LeaseView>,
    entity: Entity,
    descs: Seq<LockDescView>,
    now: u64,
    expires: u64,
) -> Option<int>
    decreases descs.len(),
{
    if descs.len() == 0 {
        None
    } else if !can_grant(leases, entity, descs[0].key, descs[0].mode, now) {
        Some(0int)
    } else {
        shift_opt(
            first_blocked(
                leases.push(lease_of(0, entity, descs[0], expires)),
                entity,
                descs.skip(1),
                now,
                expires,
            ),
            1,
        )
    }
}

pub open spec fn shift_opt(o: Option<int>, k: int) -> Option<int> {
    match o {
        None => None,
        Some(i) => Some(i + k),
    }
}

/// Whether a whole acquisition of `descs` succeeds: no descriptor's
/// conditional insert fails.
pub open spec fn grant_ok(
    leases: Seq<LeaseView>,
    entity: Entity,
    descs: Seq<LockDescView>,
    now: u64,
    expires: u64,
) -> bool {
    first_blocked(leases, entity, descs, now, expires) is None
}

/// The lease rows that a successful acquisition appends, in descriptor
/// order.
pub open spec fn granted_rows(
    lock_id: u128,
    entity: Entity,
    descs: Seq<LockDescView>,
    expires: u64,
) -> Seq<LeaseView> {
    descs.map(|i: int, d: LockDescView| lease_of(lock_id, entity, d, expires))
}

/// The expiry timestamp for a lease granted at `now` with the given TTL,
/// saturating at the largest representable time.
pub open spec fn expiry_of(now: u64, ttl_millis: u64) -> u64 {
    if now + ttl_millis <= u64::MAX {
        (now + ttl_millis) as u64
    } else {
        u64::MAX
    }
}

/// Whether `e` is the conflict error naming the first failing descriptor of
/// this acquisition.
pub open spec fn names_first_blocked(
    leases: Seq<LeaseView>,
    entity: Entity,
    descs: Seq<LockDescView>,
    now: u64,
    expires: u64,
    e: LockingError,
) -> bool {
    first_blocked(leases, entity, descs, now, expires) matches Some(j)
        && e matches LockingError::Conflict(ce, cn, cv, cm)
        && ce == entity
        && cn@ == descs[j].key.name
        && cv == descs[j].key.version
        && cm == descs[j].mode
}

/// What one acquisition call did, given the time `now` it observed: success
/// exactly when every descriptor could be granted, in which case the granted
/// rows were appended; on conflict the table is untouched and the error
/// names the first failing descriptor.
pub open spec fn acquire_outcome(
    old_leases: Seq<LeaseView>,
    new_leases: Seq<LeaseView>,
    entity: Entity,
    descs: Seq<LockDescView>,
    r: Result<Lock, LockingError>,
    now: u64,
    ttl_millis: u64,
) -> bool {
    &&& (r is Ok <==> grant_ok(old_leases, entity, descs, now, expiry_of(now, ttl_millis)))
    &&& (r matches Ok(lock) ==> new_leases == old_leases + granted_rows(
        lock.0,
        entity,
        descs,
        expiry_of(now, ttl_millis),
    ))
    &&& (r is Err ==> new_leases == old_leases)
    &&& (r matches Err(e) ==> names_first_blocked(
        old_leases,
        entity,
        descs,
        now,
        expiry_of(now, ttl_millis),
        e,
    ))
}

/// Two lease rows that agree on everything the conflict check reads: only
/// the lock identifier may differ.
pub open spec fn same_but_id(a: LeaseView, b: LeaseView) -> bool {
    &&& a.entity == b.entity
    &&& a.key == b.key
    &&& a.mode == b.mode
    &&& a.expires == b.expires
}

/// A TTL-leased locking backend over one shared lease table.
pub struct LockStore {
    leases: Vec<LeaseRow>,
}

impl View for LockStore {
    type V = Seq<LeaseView>;

    closed spec fn view(&self) -> Seq<LeaseView> {
        self.leases.deep_view()
    }
}

impl LockStore {
    /// An empty lease table.
    pub fn new() -> (r: LockStore)
        ensures
            r@ == Seq::<LeaseView>::empty(),
    {
        let r = LockStore { leases: Vec::new() };
        proof {
            assert(r@ =~= Seq::<LeaseView>::empty());
        }
        r
    }

    /// Acquires one lock over all descriptors at time `now`, atomically:
    /// either every descriptor's lease is inserted under one freshly drawn
    /// lock identifier, or the table is left exactly as it was and the error
    /// names the first failing descriptor together with the requested mode.
    pub fn acquire_lock_at(
        &mut self,
        entity: Entity,
        descriptors: &Vec<LockDescriptor>,
        now: u64,
        ttl_millis: u64,
    ) -> (r: Result<Lock, LockingError>)
        ensures
            acquire_outcome(
                old(self)@,
                final(self)@,
                entity,
                descriptors.deep_view(),
                r,
                now,
                ttl_millis,
            ),
    {
        let lock = Lock::new();
        let expires = if now <= u64::MAX - ttl_millis {
            now + ttl_millis
        } else {
            u64::MAX
        };
        let ghost descs = descriptors.deep_view();
        let mut added: Vec<LeaseRow> = Vec::new();
        let mut k: usize = 0;
        proof {
            assert(added.deep_view() =~= granted_rows(lock.0, entity, descs.take(0), expires));
            assert(self@ + granted_rows(0, entity, descs.take(0), expires) =~= self@);
            assert(descs.skip(0) =~= descs);
        }
        while k < descriptors.len()
            invariant
                0 <= k <= descriptors.len(),
                descs == descriptors.deep_view(),
                expires == expiry_of(now, ttl_millis),
                added.deep_view() == granted_rows(lock.0, entity, descs.take(k as int), expires),
                first_blocked(self@, entity, descs, now, expires) == shift_opt(
                    first_blocked(
                        self@ + granted_rows(0, entity, descs.take(k as int), expires),
                        entity,
                        descs.skip(k as int),
                        now,
                        expires,
                    ),
                    k as int,
                ),
                self@ == old(self)@,
            decreases descriptors.len() - k,
        {
            let ghost mid = self@ + granted_rows(0, entity, descs.take(k as int), expires);
            let ghost suffix = descs.skip(k as int);
            let desc = &descriptors[k];
            let blocked = Self::scan_blocked(&self.leases, &added, entity, desc, now);
            proof {
                let actual = self@ + added.deep_view();
                assert(actual.len() == mid.len());
                assert forall|i: int| 0 <= i < actual.len() implies same_but_id(actual[i], mid[i]) by {
                    if i >= self@.len() {
                        assert(actual[i] == added.deep_view()[i - self@.len()]);
                        assert(mid[i] == granted_rows(0, entity, descs.take(k as int), expires)[i
                            - self@.len()]);
                    }
                }
                lemma_can_grant_same(actual, mid, entity, desc@.key, desc@.mode, now);
                assert(suffix[0] == desc@);
            }
            if blocked {
                proof {
                    assert(first_blocked(mid, entity, suffix, now, expires) == Some(0int));
                    assert(first_blocked(self@, entity, descs, now, expires) == Some(k as int));
                }
                return Err(LockingError::Conflict(
                    entity,
                    desc.name.clone(),
                    desc.version,
                    desc.mode,
                ));
            }
            let row = LeaseRow {
                lock_id: lock.id(),
                entity,
                name: desc.name.clone(),
                version: desc.version,
                mode: desc.mode,
                expires,
            };
            let ghost rowv = row@;
            let ghost prev = added.deep_view();
            added.push(row);
            proof {
                assert(added.deep_view() =~= prev.push(rowv));
                assert(rowv == lease_of(lock.0, entity, descs[k as int], expires));
                assert(added.deep_view() =~= granted_rows(lock.0, entity, descs.take(k + 1), expires));
                assert(mid.push(lease_of(0, entity, suffix[0], expires)) =~= self@ + granted_rows(
                    0,
                    entity,
                    descs.take(k + 1),
                    expires,
                ));
                assert(suffix.skip(1) =~= descs.skip(k + 1));
                assert(first_blocked(mid, entity, suffix, now, expires) == shift_opt(
                    first_blocked(
                        self@ + granted_rows(0, entity, descs.take(k + 1), expires),
                        entity,
                        descs.skip(k + 1),
                        now,
                        expires,
                    ),
                    1,
                ));
            }
            k = k + 1;
        }
        proof {
            assert(descs.take(descs.len() as int) =~= descs);
            assert(descs.skip(descs.len() as int) =~= Seq::<LockDescView>::empty());
        }
        self.leases.append(&mut added);
        proof {
            assert(self@ =~= old(self)@ + granted_rows(lock.0, entity, descs, expires));
        }
        Ok(lock)
    }

    /// Whether some existing or just-added lease blocks `desc` for `entity`
    /// at time `now`.
    fn scan_blocked(
        leases: &Vec<LeaseRow>,
        added: &Vec<LeaseRow>,
        entity: Entity,
        desc: &LockDescriptor,
        now: u64,
    ) -> (r: bool)
        ensures
            r == !can_grant(leases.deep_view() + added.deep_view(), entity, desc@.key, desc@.mode, now),
    {
        let ghost all = leases.deep_view() + added.deep_view();
        let mut i: usize = 0;
        while i < leases.len()
            invariant
                0 <= i <= leases.len(),
                all == leases.deep_view() + added.deep_view(),
                forall|j: int|
                    0 <= j < i ==> !lease_blocks(#[trigger] all[j], entity, desc@.key, desc@.mode, now),
            decreases leases.len() - i,
        {
            if Self::row_blocks(&leases[i], entity, desc, now) {
                proof {
                    assert(all[i as int] == leases.deep_view()[i as int]);
                }
                return true;
            }
            i = i + 1;
        }
        let mut j: usize = 0;
        while j < added.len()
            invariant
                0 <= j <= added.len(),
                all == leases.deep_view() + added.deep_view(),
                forall|m: int|
                    0 <= m < leases.len() + j ==> !lease_blocks(
                        #[trigger] all[m],
                        entity,
                        desc@.key,
                        desc@.mode,
                        now,
                    ),
            decreases added.len() - j,
        {
            if Self::row_blocks(&added[j], entity, desc, now) {
                proof {
                    assert(all[leases.len() + j] == added.deep_view()[j as int]);
                }
                return true;
            }
            j = j + 1;
        }
        false
    }

    /// Whether one lease row blocks `desc` for `entity` at time `now`.
    fn row_blocks(row: &LeaseRow, entity: Entity, desc: &LockDescriptor, now: u64) -> (r: bool)
        ensures
            r == lease_blocks(row@, entity, desc@.key, desc@.mode, now),
    {
        let live = now < row.expires;
        let same_entity = row.entity.0 == entity.0;
        let same_name = row.name == desc.name;
        let same_version = row.version.major == desc.version.major && row.version.minor
            == desc.version.minor && row.version.patch == desc.version.patch;
        let mode_conflicts = match (desc.mode, row.mode) {
            (LockingMode::Write, _) => true,
            (_, LockingMode::Write) => true,
            _ => false,
        };
        live && same_entity && same_name && same_version && mode_conflicts
    }

    /// Acquires one lock over all descriptors, reading the current time from
    /// the system clock. Whatever time the clock reported, the call either
    /// appended every descriptor's lease under one fresh lock identifier, or
    /// left the table unchanged and returned the conflict naming the first
    /// failing descriptor.
    pub fn acquire_lock(
        &mut self,
        entity: Entity,
        descriptors: &Vec<LockDescriptor>,
        ttl_millis: u64,
    ) -> (r: Result<Lock, LockingError>)
        ensures
            exists|now: u64|
                acquire_outcome(
                    old(self)@,
                    final(self)@,
                    entity,
                    descriptors.deep_view(),
                    r,
                    now,
                    ttl_millis,
                ),
    {
        let now = Self::clock_now();
        let r = self.acquire_lock_at(entity, descriptors, now, ttl_millis);
        proof {
            assert(acquire_outcome(
                old(self)@,
                self@,
                entity,
                descriptors.deep_view(),
                r,
                now,
                ttl_millis,
            ));
        }
        r
    }

    /// Reads the system clock as milliseconds since the Unix epoch, clamped
    /// below at zero.
    pub fn clock_now() -> u64 {
        let t = crate::support::now_millis();
        if t < 0 {
            0
        } else {
            t as u64
        }
    }

    /// Writes the lease table's whole state — the lease count, then every
    /// lease row in order — onto the end of a snapshot under construction.
    pub fn save_into(&self, out: &mut Vec<char>)
        ensures
            final(out)@ == old(out)@ + crate::snapshot::enc_nat(self@.len() as int)
                + crate::snapshot::enc_leases(self@),
    {
        crate::snapshot::push_count(out, self.leases.len());
        let ghost mark = out@;
        let mut i: usize = 0;
        proof {
            assert(crate::snapshot::enc_leases(self@.take(0)) =~= Seq::<char>::empty());
            assert(out@ =~= mark + crate::snapshot::enc_leases(self@.take(0)));
        }
        while i < self.leases.len()
            invariant
                0 <= i <= self.leases.len(),
                out@ == mark + crate::snapshot::enc_leases(self@.take(i as int)),
            decreases self.leases.len() - i,
        {
            crate::snapshot::push_lease(out, &self.leases[i]);
            proof {
                crate::snapshot::lemma_enc_leases_snoc(self@.take(i as int), self@[i as int]);
                assert(self@.take(i + 1) =~= self@.take(i as int).push(self@[i as int]));
                assert(out@ =~= mark + crate::snapshot::enc_leases(self@.take(i + 1)));
            }
            i = i + 1;
        }
        proof {
            assert(self@.take(self.leases.len() as int) =~= self@);
        }
    }

    /// Rebuilds a lease table from its rows.
    pub fn from_leases(leases: Vec<LeaseRow>) -> (r: LockStore)
        ensures
            r@ == leases.deep_view(),
    {
        LockStore { leases }
    }

    /// Releases a lock: deletes every lease row carrying the lock's
    /// identifier. Idempotent — releasing a lock whose rows are already gone
    /// is not an error.
    pub fn release_lock(&mut self, lock: Lock) -> (r: Result<(), LockingError>)
        ensures
            r is Ok,
            final(self)@ == released(old(self)@, lock.0),
    {
        let mut kept: Vec<LeaseRow> = Vec::new();
        let mut i: usize = 0;
        proof {
            assert(kept.deep_view() =~= released(old(self)@.take(0), lock.0));
        }
        while i < self.leases.len()
            invariant
                0 <= i <= self.leases.len(),
                self@ == old(self)@,
                kept.deep_view() == released(old(self)@.take(i as int), lock.0),
            decreases self.leases.len() - i,
        {
            proof {
                assert(old(self)@.take(i + 1).drop_last() =~= old(self)@.take(i as int));
            }
            let row = &self.leases[i];
            if row.lock_id != lock.0 {
                let copy = LeaseRow {
                    lock_id: row.lock_id,
                    entity: row.entity,
                    name: row.name.clone(),
                    version: row.version,
                    mode: row.mode,
                    expires: row.expires,
                };
                kept.push(copy);
                proof {
                    assert(kept.deep_view() =~= released(old(self)@.take(i + 1), lock.0));
                }
            } else {
                proof {
                    assert(kept.deep_view() =~= released(old(self)@.take(i + 1), lock.0));
                }
            }
            i = i + 1;
        }
        proof {
            assert(old(self)@.take(self.leases.len() as int) =~= old(self)@);
        }
        self.leases = kept;
        Ok(())
    }
}

/// The lease table after releasing lock `id`: every row with that lock
/// identifier is gone; everything else stays, in order.
pub open spec fn released(leases: Seq<LeaseView>, id: u128) -> Seq<LeaseView>
    decreases leases.len(),
{
    if leases.len() == 0 {
        Seq::empty()
    } else {
        released(leases.drop_last(), id) + if leases.last().lock_id != id {
            seq![leases.last()]
        } else {
            Seq::empty()
        }
    }
}

/// The conflict check never reads lock identifiers: two tables that agree on
/// everything else admit the same grants.
proof fn lemma_can_grant_same(
    a: Seq<LeaseView>,
    b: Seq<LeaseView>,
    entity: Entity,
    key: KeyView,
    mode: LockingMode,
    now: u64,
)
    requires
        a.len() == b.len(),
        forall|i: int| 0 <= i < a.len() ==> same_but_id(#[trigger] a[i], #[trigger] b[i]),
    ensures
        can_grant(a, entity, key, mode, now) == can_grant(b, entity, key, mode, now),
{
    assert forall|i: int| 0 <= i < a.len() implies lease_blocks(a[i], entity, key, mode, now)
        == lease_blocks(b[i], entity, key, mode, now) by {
        assert(same_but_id(a[i], b[i]));
    }
}

/// Law — lock compatibility, read/read: a granted read lease never blocks a
/// further read request, so two read acquisitions on one resource both
/// succeed.
pub proof fn lemma_read_lease_admits_read(
    leases: Seq<LeaseView>,
    l: LeaseView,
    entity: Entity,
    key: KeyView,
    now: u64,
)
    requires
        can_grant(leases, entity, key, LockingMode::Read, now),
        l.mode is Read,
    ensures
        can_grant(leases.push(l), entity, key, LockingMode::Read, now),
{
    let extended = leases.push(l);
    assert forall|i: int| 0 <= i < extended.len() implies !lease_blocks(
        extended[i],
        entity,
        key,
        LockingMode::Read,
        now,
    ) by {
        if i < leases.len() {
            assert(extended[i] == leases[i]);
        }
    }
}

/// Law — lock compatibility, write blocks everything: an unexpired write
/// lease on a resource denies any further request on it, read or write.
pub proof fn lemma_write_lease_blocks_all(
    leases: Seq<LeaseView>,
    i: int,
    entity: Entity,
    key: KeyView,
    mode: LockingMode,
    now: u64,
)
    requires
        0 <= i < leases.len(),
        leases[i].entity == entity,
        leases[i].key == key,
        leases[i].mode is Write,
        lease_live(leases[i], now),
    ensures
        !can_grant(leases, entity, key, mode, now),
{
    assert(lease_blocks(leases[i], entity, key, mode, now));
}

/// Law — lock compatibility, anything blocks a write: an unexpired lease of
/// either mode on a resource denies a further write request on it.
pub proof fn lemma_live_lease_blocks_write(
    leases: Seq<LeaseView>,
    i: int,
    entity: Entity,
    key: KeyView,
    now: u64,
)
    requires
        0 <= i < leases.len(),
        leases[i].entity == entity,
        leases[i].key == key,
        lease_live(leases[i], now),
    ensures
        !can_grant(leases, entity, key, LockingMode::Write, now),
{
    assert(lease_blocks(leases[i], entity, key, LockingMode::Write, now));
}

/// Law — lock compatibility, distinct resources are independent: a lease on
/// a different (entity, component identity) resource never changes whether a
/// request can be granted, under any combination of modes.
pub proof fn lemma_distinct_resource_independent(
    leases: Seq<LeaseView>,
    l: LeaseView,
    entity: Entity,
    key: KeyView,
    mode: LockingMode,
    now: u64,
)
    requires
        l.entity != entity || l.key != key,
    ensures
        can_grant(leases.push(l), entity, key, mode, now) == can_grant(leases, entity, key, mode, now),
{
    let extended = leases.push(l);
    if can_grant(leases, entity, key, mode, now) {
        assert forall|i: int| 0 <= i < extended.len() implies !lease_blocks(
            extended[i],
            entity,
            key,
            mode,
            now,
        ) by {
            if i < leases.len() {
                assert(extended[i] == leases[i]);
            }
        }
    } else {
        let i = choose|i: int|
            0 <= i < leases.len() && lease_blocks(#[trigger] leases[i], entity, key, mode, now);
        assert(extended[i] == leases[i]);
        assert(lease_blocks(extended[i], entity, key, mode, now));
    }
}

/// Every row of a released table comes from the old table and does not carry
/// the released lock's identifier.
proof fn lemma_released_rows(leases: Seq<LeaseView>, id: u128)
    ensures
        forall|i: int|
            0 <= i < released(leases, id).len() ==> (#[trigger] released(leases, id)[i]).lock_id
                != id && leases.contains(released(leases, id)[i]),
    decreases leases.len(),
{
    if leases.len() > 0 {
        lemma_released_rows(leases.drop_last(), id);
        assert forall|i: int| 0 <= i < released(leases, id).len() implies (#[trigger] released(
            leases,
            id,
        )[i]).lock_id != id && leases.contains(released(leases, id)[i]) by {
            let prefix = released(leases.drop_last(), id);
            if i < prefix.len() {
                assert(released(leases, id)[i] == prefix[i]);
                let j = choose|j: int|
                    0 <= j < leases.drop_last().len() && leases.drop_last()[j] == prefix[i];
                assert(leases[j] == prefix[i]);
            } else {
                assert(released(leases, id)[i] == leases.last());
                assert(leases[leases.len() - 1] == leases.last());
            }
        }
    }
}

/// Law — releasing a lock frees its resources: when every unexpired lease
/// that blocks a request belonged to the released lock, the request can be
/// granted after the release.
pub proof fn lemma_release_frees(
    leases: Seq<LeaseView>,
    id: u128,
    entity: Entity,
    key: KeyView,
    mode: LockingMode,
    now: u64,
)
    requires
        forall|i: int|
            0 <= i < leases.len() && lease_blocks(#[trigger] leases[i], entity, key, mode, now)
                ==> leases[i].lock_id == id,
    ensures
        can_grant(released(leases, id), entity, key, mode, now),
{
    lemma_released_rows(leases, id);
    let after = released(leases, id);
    assert forall|i: int| 0 <= i < after.len() implies !lease_blocks(
        #[trigger] after[i],
        entity,
        key,
        mode,
        now,
    ) by {
        if lease_blocks(after[i], entity, key, mode, now) {
            let j = choose|j: int| 0 <= j < leases.len() && leases[j] == after[i];
            assert(lease_blocks(leases[j], entity, key, mode, now));
        }
    }
}

/// Law — lock compatibility, composed: after a read lease is granted on a
/// resource, a later read request on the same resource is still granted.
/// Two read acquisitions on one resource both succeed.
pub proof fn lemma_read_then_read_succeeds(
    leases: Seq<LeaseView>,
    entity: Entity,
    key: KeyView,
    now1: u64,
    now2: u64,
    expires1: u64,
    id: u128,
)
    requires
        can_grant(leases, entity, key, LockingMode::Read, now1),
        now1 <= now2,
    ensures
        can_grant(
            leases + granted_rows(
                id,
                entity,
                seq![LockDescView { mode: LockingMode::Read, key }],
                expires1,
            ),
            entity,
            key,
            LockingMode::Read,
            now2,
        ),
{
    let granted = granted_rows(
        id,
        entity,
        seq![LockDescView { mode: LockingMode::Read, key }],
        expires1,
    );
    let extended = leases + granted;
    assert(granted.len() == 1);
    assert forall|i: int| 0 <= i < extended.len() implies !lease_blocks(
        #[trigger] extended[i],
        entity,
        key,
        LockingMode::Read,
        now2,
    ) by {
        if i < leases.len() {
            assert(extended[i] == leases[i]);
            assert(!lease_blocks(leases[i], entity, key, LockingMode::Read, now1));
        } else {
            assert(extended[i] == granted[0]);
            assert(extended[i].mode is Read);
        }
    }
}

/// Law — lock compatibility, composed: while a granted lease on a resource
/// is unexpired, any later request on that resource with a write on either
/// side — a write lease blocking anything, or any lease blocking a write
/// request — is denied.
pub proof fn lemma_live_lease_denies(
    leases: Seq<LeaseView>,
    entity: Entity,
    key: KeyView,
    granted_mode: LockingMode,
    requested_mode: LockingMode,
    now: u64,
    expires: u64,
    id: u128,
)
    requires
        now < expires,
        granted_mode is Write || requested_mode is Write,
    ensures
        !can_grant(
            leases + granted_rows(
                id,
                entity,
                seq![LockDescView { mode: granted_mode, key }],
                expires,
            ),
            entity,
            key,
            requested_mode,
            now,
        ),
{
    let granted = granted_rows(
        id,
        entity,
        seq![LockDescView { mode: granted_mode, key }],
        expires,
    );
    let extended = leases + granted;
    assert(extended[leases.len() as int] == granted[0]);
    assert(lease_blocks(granted[0], entity, key, requested_mode, now));
}

/// For a single descriptor, the whole-acquisition check is exactly the
/// single-resource grant check.
pub proof fn lemma_single_descriptor_grant(
    leases: Seq<LeaseView>,
    entity: Entity,
    desc: LockDescView,
    now: u64,
    expires: u64,
)
    ensures
        grant_ok(leases, entity, seq![desc], now, expires) == can_grant(
            leases,
            entity,
            desc.key,
            desc.mode,
            now,
        ),
{
    let descs = seq![desc];
    if can_grant(leases, entity, desc.key, desc.mode, now) {
        assert(descs.skip(1) =~= Seq::<LockDescView>::empty());
        assert(first_blocked(
            leases.push(lease_of(0, entity, desc, expires)),
            entity,
            descs.skip(1),
            now,
            expires,
        ) is None);
    }
}

} // verus!
