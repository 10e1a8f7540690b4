//! Whole-store snapshots: the backend's entire state as one text blob, and
//! the exact inverse.
//!
//! A persistence collaborator may wrap a backend and write the snapshot out
//! on every mutation; all it needs from the engine is this round trip. The
//! encoding is length-prefixed: a number is its decimal digits closed by a
//! colon, and a text field is its length followed by its raw characters, so
//! no escaping is needed and every field is self-delimiting.

use vstd::prelude::*;

use crate::access::RowView;
use crate::backend::BackendView;
use crate::component::Version;
use crate::entity::Entity;
use crate::format::{all_digits, dec_rep, digit_val, is_digit, lemma_dec_rep, parse_dec};
use crate::lock::{LeaseView, LockingMode};

verus! {

/// A number field: decimal digits closed by a colon.
pub open spec fn enc_nat(n: int) -> Seq<char> {
    dec_rep(n) + seq![':']
}

/// A text field: its length, then its raw characters.
pub open spec fn enc_text(t: Seq<char>) -> Seq<char> {
    enc_nat(t.len() as int) + t
}

pub open spec fn enc_version(v: Version) -> Seq<char> {
    enc_nat(v.major as int) + enc_nat(v.minor as int) + enc_nat(v.patch as int)
}

pub open spec fn enc_row(r: RowView) -> Seq<char> {
    enc_nat(r.entity.0 as int) + enc_text(r.name) + enc_version(r.version) + enc_text(r.contents)
}

/// The tag a lease mode is written as.
pub open spec fn mode_tag(m: LockingMode) -> int {
    if m is Write {
        1
    } else {
        0
    }
}

pub open spec fn enc_lease(l: LeaseView) -> Seq<char> {
    enc_nat(l.lock_id as int) + enc_nat(l.entity.0 as int) + enc_text(l.key.name) + enc_version(
        l.key.version,
    ) + enc_nat(mode_tag(l.mode)) + enc_nat(l.expires as int)
}

pub open spec fn enc_rows(rows: Seq<RowView>) -> Seq<char>
    decreases rows.len(),
{
    if rows.len() == 0 {
        Seq::empty()
    } else {
        enc_row(rows[0]) + enc_rows(rows.skip(1))
    }
}

pub open spec fn enc_leases(leases: Seq<LeaseView>) -> Seq<char>
    decreases leases.len(),
{
    if leases.len() == 0 {
        Seq::empty()
    } else {
        enc_lease(leases[0]) + enc_leases(leases.skip(1))
    }
}

/// The whole backend state: the row count and the rows, then the lease
/// count and the leases.
pub open spec fn snapshot_of(b: BackendView) -> Seq<char> {
    enc_nat(b.rows.len() as int) + enc_rows(b.rows) + enc_nat(b.leases.len() as int) + enc_leases(
        b.leases,
    )
}

/// How many leading characters of a string are decimal digits.
pub open spec fn take_digits(s: Seq<char>) -> int
    decreases s.len(),
{
    if s.len() == 0 || !is_digit(s[0]) {
        0int
    } else {
        1 + take_digits(s.skip(1))
    }
}

/// Splits one number field off the front: its digits must be nonempty,
/// closed by a colon, and denote a representable value.
pub open spec fn split_nat(s: Seq<char>) -> Option<(int, Seq<char>)> {
    let k = take_digits(s);
    if 1 <= k && k < s.len() && s[k] == ':' && parse_dec(s.take(k)) <= u128::MAX {
        Some((parse_dec(s.take(k)), s.skip(k + 1)))
    } else {
        None
    }
}

/// Splits a number field whose value must also lie within `bound`.
pub open spec fn split_bounded(s: Seq<char>, bound: int) -> Option<(int, Seq<char>)> {
    match split_nat(s) {
        None => None,
        Some((n, rest)) => if n <= bound {
            Some((n, rest))
        } else {
            None
        },
    }
}

/// Splits one text field off the front: a length, then that many raw
/// characters.
pub open spec fn split_text(s: Seq<char>) -> Option<(Seq<char>, Seq<char>)> {
    match split_nat(s) {
        None => None,
        Some((n, rest)) => if n <= rest.len() {
            Some((rest.take(n), rest.skip(n)))
        } else {
            None
        },
    }
}

pub open spec fn split_version(s: Seq<char>) -> Option<(Version, Seq<char>)> {
    match split_bounded(s, u64::MAX as int) {
        None => None,
        Some((major, s1)) => match split_bounded(s1, u64::MAX as int) {
            None => None,
            Some((minor, s2)) => match split_bounded(s2, u64::MAX as int) {
                None => None,
                Some((patch, s3)) => Some(
                    (
                        Version { major: major as u64, minor: minor as u64, patch: patch as u64 },
                        s3,
                    ),
                ),
            },
        },
    }
}

pub open spec fn split_row(s: Seq<char>) -> Option<(RowView, Seq<char>)> {
    match split_nat(s) {
        None => None,
        Some((entity, s1)) => match split_text(s1) {
            None => None,
            Some((name, s2)) => match split_version(s2) {
                None => None,
                Some((version, s3)) => match split_text(s3) {
                    None => None,
                    Some((contents, s4)) => Some(
                        (
                            RowView { entity: Entity(entity as u128), name, version, contents },
                            s4,
                        ),
                    ),
                },
            },
        },
    }
}

pub open spec fn split_lease(s: Seq<char>) -> Option<(LeaseView, Seq<char>)> {
    match split_nat(s) {
        None => None,
        Some((lock_id, s1)) => match split_nat(s1) {
            None => None,
            Some((entity, s2)) => match split_text(s2) {
                None => None,
                Some((name, s3)) => match split_version(s3) {
                    None => None,
                    Some((version, s4)) => match split_bounded(s4, 1) {
                        None => None,
                        Some((tag, s5)) => match split_bounded(s5, u64::MAX as int) {
                            None => None,
                            Some((expires, s6)) => Some(
                                (
                                    LeaseView {
                                        lock_id: lock_id as u128,
                                        entity: Entity(entity as u128),
                                        key: crate::component::KeyView { name, version },
                                        mode: if tag == 1 {
                                            LockingMode::Write
                                        } else {
                                            LockingMode::Read
                                        },
                                        expires: expires as u64,
                                    },
                                    s6,
                                ),
                            ),
                        },
                    },
                },
            },
        },
    }
}

pub open spec fn split_rows(n: int, s: Seq<char>) -> Option<(Seq<RowView>, Seq<char>)>
    decreases n,
{
    if n <= 0 {
        Some((Seq::empty(), s))
    } else {
        match split_row(s) {
            None => None,
            Some((r, rest)) => match split_rows(n - 1, rest) {
                None => None,
                Some((rs, rest2)) => Some((seq![r] + rs, rest2)),
            },
        }
    }
}

pub open spec fn split_leases(n: int, s: Seq<char>) -> Option<(Seq<LeaseView>, Seq<char>)>
    decreases n,
{
    if n <= 0 {
        Some((Seq::empty(), s))
    } else {
        match split_lease(s) {
            None => None,
            Some((l, rest)) => match split_leases(n - 1, rest) {
                None => None,
                Some((ls, rest2)) => Some((seq![l] + ls, rest2)),
            },
        }
    }
}

/// The backend state a snapshot decodes to, or `None` when the text is not
/// exactly one whole snapshot.
pub open spec fn decode_snapshot(s: Seq<char>) -> Option<BackendView> {
    match split_nat(s) {
        None => None,
        Some((n, s1)) => match split_rows(n, s1) {
            None => None,
            Some((rows, s2)) => match split_nat(s2) {
                None => None,
                Some((m, s3)) => match split_leases(m, s3) {
                    None => None,
                    Some((leases, s4)) => if s4.len() == 0 {
                        Some(BackendView { rows, leases })
                    } else {
                        None
                    },
                },
            },
        },
    }
}

/// Whether a backend state's text fields and table sizes are small enough
/// to write down. Every state a machine actually holds is.
pub open spec fn bounded_view(b: BackendView) -> bool {
    &&& b.rows.len() <= u128::MAX
    &&& b.leases.len() <= u128::MAX
    &&& forall|i: int|
        0 <= i < b.rows.len() ==> (#[trigger] b.rows[i]).name.len() <= u128::MAX
            && b.rows[i].contents.len() <= u128::MAX
    &&& forall|i: int| 0 <= i < b.leases.len() ==> (#[trigger] b.leases[i]).key.name.len() <= u128::MAX
}

/// The digit run of a digit string followed by anything that is not a digit
/// is exactly the digit string.
proof fn lemma_take_digits_concat(a: Seq<char>, tail: Seq<char>)
    requires
        all_digits(a),
        tail.len() > 0,
        !is_digit(tail[0]),
    ensures
        take_digits(a + tail) == a.len(),
    decreases a.len(),
{
    if a.len() == 0 {
        assert(a + tail =~= tail);
    } else {
        let s = a + tail;
        assert(s[0] == a[0]);
        assert(is_digit(a[0]));
        assert(s.skip(1) =~= a.skip(1) + tail);
        assert(all_digits(a.skip(1))) by {
            assert forall|i: int| 0 <= i < a.skip(1).len() implies is_digit(
                #[trigger] a.skip(1)[i],
            ) by {
                assert(a.skip(1)[i] == a[i + 1]);
            }
        }
        lemma_take_digits_concat(a.skip(1), tail);
    }
}

/// Splitting a number field off an encoded number recovers it exactly.
proof fn lemma_split_nat_enc(n: int, rest: Seq<char>)
    requires
        0 <= n <= u128::MAX,
    ensures
        split_nat(enc_nat(n) + rest) == Some((n, rest)),
{
    let s = enc_nat(n) + rest;
    lemma_dec_rep(n);
    let d = dec_rep(n);
    assert(s =~= d + (seq![':'] + rest));
    assert((seq![':'] + rest)[0] == ':');
    assert(!is_digit(':'));
    lemma_take_digits_concat(d, seq![':'] + rest);
    let k = take_digits(s);
    assert(k == d.len());
    assert(s[k] == (seq![':'] + rest)[0]);
    assert(s.take(k) =~= d);
    assert(parse_dec(s.take(k)) == n);
    assert(s.skip(k + 1) =~= rest);
}

/// Splitting a text field off an encoded text recovers it exactly.
proof fn lemma_split_text_enc(t: Seq<char>, rest: Seq<char>)
    requires
        t.len() <= u128::MAX,
    ensures
        split_text(enc_text(t) + rest) == Some((t, rest)),
{
    assert(enc_text(t) + rest =~= enc_nat(t.len() as int) + (t + rest));
    lemma_split_nat_enc(t.len() as int, t + rest);
    assert((t + rest).take(t.len() as int) =~= t);
    assert((t + rest).skip(t.len() as int) =~= rest);
}

/// Splitting a version off an encoded version recovers it exactly.
proof fn lemma_split_version_enc(v: Version, rest: Seq<char>)
    ensures
        split_version(enc_version(v) + rest) == Some((v, rest)),
{
    let tail = enc_nat(v.minor as int) + (enc_nat(v.patch as int) + rest);
    assert(enc_version(v) + rest =~= enc_nat(v.major as int) + tail);
    lemma_split_nat_enc(v.major as int, tail);
    lemma_split_nat_enc(v.minor as int, enc_nat(v.patch as int) + rest);
    lemma_split_nat_enc(v.patch as int, rest);
}

/// Splitting a row off an encoded row recovers it exactly.
proof fn lemma_split_row_enc(r: RowView, rest: Seq<char>)
    requires
        r.name.len() <= u128::MAX,
        r.contents.len() <= u128::MAX,
    ensures
        split_row(enc_row(r) + rest) == Some((r, rest)),
{
    let t3 = enc_text(r.contents) + rest;
    let t2 = enc_version(r.version) + t3;
    let t1 = enc_text(r.name) + t2;
    assert(enc_row(r) + rest =~= enc_nat(r.entity.0 as int) + t1);
    lemma_split_nat_enc(r.entity.0 as int, t1);
    lemma_split_text_enc(r.name, t2);
    lemma_split_version_enc(r.version, t3);
    lemma_split_text_enc(r.contents, rest);
}

/// Splitting a lease off an encoded lease recovers it exactly.
proof fn lemma_split_lease_enc(l: LeaseView, rest: Seq<char>)
    requires
        l.key.name.len() <= u128::MAX,
    ensures
        split_lease(enc_lease(l) + rest) == Some((l, rest)),
{
    let t5 = enc_nat(l.expires as int) + rest;
    let t4 = enc_nat(mode_tag(l.mode)) + t5;
    let t3 = enc_version(l.key.version) + t4;
    let t2 = enc_text(l.key.name) + t3;
    let t1 = enc_nat(l.entity.0 as int) + t2;
    assert(enc_lease(l) + rest =~= enc_nat(l.lock_id as int) + t1);
    lemma_split_nat_enc(l.lock_id as int, t1);
    lemma_split_nat_enc(l.entity.0 as int, t2);
    lemma_split_text_enc(l.key.name, t3);
    lemma_split_version_enc(l.key.version, t4);
    lemma_split_nat_enc(mode_tag(l.mode), t5);
    lemma_split_nat_enc(l.expires as int, rest);
}

/// Splitting as many rows as were encoded recovers them exactly.
proof fn lemma_split_rows_enc(rows: Seq<RowView>, rest: Seq<char>)
    requires
        rows.len() <= u128::MAX,
        forall|i: int|
            0 <= i < rows.len() ==> (#[trigger] rows[i]).name.len() <= u128::MAX
                && rows[i].contents.len() <= u128::MAX,
    ensures
        split_rows(rows.len() as int, enc_rows(rows) + rest) == Some((rows, rest)),
    decreases rows.len(),
{
    if rows.len() == 0 {
        assert(enc_rows(rows) + rest =~= rest);
        assert(split_rows(0, rest) == Some((Seq::<RowView>::empty(), rest)));
        assert(Seq::<RowView>::empty() =~= rows);
    } else {
        assert(enc_rows(rows) + rest =~= enc_row(rows[0]) + (enc_rows(rows.skip(1)) + rest));
        lemma_split_row_enc(rows[0], enc_rows(rows.skip(1)) + rest);
        assert(forall|i: int|
            0 <= i < rows.skip(1).len() ==> (#[trigger] rows.skip(1)[i]).name.len() <= u128::MAX
                && rows.skip(1)[i].contents.len() <= u128::MAX) by {
            assert forall|i: int| 0 <= i < rows.skip(1).len() implies (#[trigger] rows.skip(
                1,
            )[i]).name.len() <= u128::MAX && rows.skip(1)[i].contents.len() <= u128::MAX by {
                assert(rows.skip(1)[i] == rows[i + 1]);
            }
        }
        lemma_split_rows_enc(rows.skip(1), rest);
        assert(seq![rows[0]] + rows.skip(1) =~= rows);
    }
}

/// Splitting as many leases as were encoded recovers them exactly.
#[verifier::rlimit(50)]
proof fn lemma_split_leases_enc(leases: Seq<LeaseView>, rest: Seq<char>)
    requires
        leases.len() <= u128::MAX,
        forall|i: int| 0 <= i < leases.len() ==> (#[trigger] leases[i]).key.name.len() <= u128::MAX,
    ensures
        split_leases(leases.len() as int, enc_leases(leases) + rest) == Some((leases, rest)),
    decreases leases.len(),
{
    if leases.len() == 0 {
        assert(enc_leases(leases) + rest =~= rest);
        assert(Seq::<LeaseView>::empty() =~= leases);
    } else {
        assert(enc_leases(leases) + rest =~= enc_lease(leases[0]) + (enc_leases(leases.skip(1))
            + rest));
        lemma_split_lease_enc(leases[0], enc_leases(leases.skip(1)) + rest);
        assert(forall|i: int|
            0 <= i < leases.skip(1).len() ==> (#[trigger] leases.skip(1)[i]).key.name.len()
                <= u128::MAX) by {
            assert forall|i: int| 0 <= i < leases.skip(1).len() implies (#[trigger] leases.skip(
                1,
            )[i]).key.name.len() <= u128::MAX by {
                assert(leases.skip(1)[i] == leases[i + 1]);
            }
        }
        lemma_split_leases_enc(leases.skip(1), rest);
        assert(seq![leases[0]] + leases.skip(1) =~= leases);
    }
}

/// Law — snapshot round trip: decoding an encoded backend state yields the
/// state back, for every state small enough to write down.
pub proof fn lemma_snapshot_round_trip(b: BackendView)
    requires
        bounded_view(b),
    ensures
        decode_snapshot(snapshot_of(b)) == Some(b),
{
    let s = snapshot_of(b);
    let t2 = enc_nat(b.leases.len() as int) + enc_leases(b.leases);
    let t1 = enc_rows(b.rows) + t2;
    assert(s =~= enc_nat(b.rows.len() as int) + t1);
    lemma_split_nat_enc(b.rows.len() as int, t1);
    assert(t1 =~= enc_rows(b.rows) + t2);
    lemma_split_rows_enc(b.rows, t2);
    lemma_split_nat_enc(b.leases.len() as int, enc_leases(b.leases));
    assert(enc_leases(b.leases) =~= enc_leases(b.leases) + Seq::<char>::empty());
    lemma_split_leases_enc(b.leases, Seq::<char>::empty());
}


/// Encoding one more row appends its encoded form.
pub(crate) proof fn lemma_enc_rows_snoc(rows: Seq<RowView>, r: RowView)
    ensures
        enc_rows(rows.push(r)) == enc_rows(rows) + enc_row(r),
    decreases rows.len(),
{
    if rows.len() == 0 {
        assert(rows.push(r)[0] == r);
        assert(rows.push(r).skip(1) =~= Seq::<RowView>::empty());
        assert(enc_rows(Seq::<RowView>::empty()) =~= Seq::<char>::empty());
        assert(enc_rows(rows.push(r)) =~= enc_row(r));
        assert(enc_rows(rows) + enc_row(r) =~= enc_row(r));
    } else {
        assert(rows.push(r)[0] == rows[0]);
        assert(rows.push(r).skip(1) =~= rows.skip(1).push(r));
        lemma_enc_rows_snoc(rows.skip(1), r);
        assert(enc_rows(rows.push(r)) == enc_row(rows[0]) + (enc_rows(rows.skip(1)) + enc_row(r)));
        assert(enc_row(rows[0]) + (enc_rows(rows.skip(1)) + enc_row(r)) =~= (enc_row(rows[0])
            + enc_rows(rows.skip(1))) + enc_row(r));
    }
}

/// Encoding one more lease appends its encoded form.
pub(crate) proof fn lemma_enc_leases_snoc(leases: Seq<LeaseView>, l: LeaseView)
    ensures
        enc_leases(leases.push(l)) == enc_leases(leases) + enc_lease(l),
    decreases leases.len(),
{
    if leases.len() == 0 {
        assert(leases.push(l)[0] == l);
        assert(leases.push(l).skip(1) =~= Seq::<LeaseView>::empty());
        assert(enc_leases(Seq::<LeaseView>::empty()) =~= Seq::<char>::empty());
        assert(enc_leases(leases.push(l)) =~= enc_lease(l));
        assert(enc_leases(leases) + enc_lease(l) =~= enc_lease(l));
    } else {
        assert(leases.push(l)[0] == leases[0]);
        assert(leases.push(l).skip(1) =~= leases.skip(1).push(l));
        lemma_enc_leases_snoc(leases.skip(1), l);
        assert(enc_leases(leases.push(l)) == enc_lease(leases[0]) + (enc_leases(leases.skip(1))
            + enc_lease(l)));
        assert(enc_lease(leases[0]) + (enc_leases(leases.skip(1)) + enc_lease(l)) =~= (enc_lease(
            leases[0],
        ) + enc_leases(leases.skip(1))) + enc_lease(l));
    }
}

/// The decimal digits of a wide integer.
fn wide_chars(n: u128) -> (v: Vec<char>)
    ensures
        v@ == dec_rep(n as int),
    decreases n,
{
    if n < 10 {
        let mut v: Vec<char> = Vec::new();
        v.push(crate::format::Json::digit_char_of(n as u64));
        proof {
            assert(v@ =~= seq![crate::format::digit_char(n as int)]);
        }
        v
    } else {
        let mut v = wide_chars(n / 10);
        v.push(crate::format::Json::digit_char_of((n % 10) as u64));
        v
    }
}

/// Appends a count field.
pub(crate) fn push_count(out: &mut Vec<char>, n: usize)
    ensures
        final(out)@ == old(out)@ + enc_nat(n as int),
{
    push_nat(out, n as u128);
}

/// Appends one number field.
fn push_nat(out: &mut Vec<char>, n: u128)
    ensures
        final(out)@ == old(out)@ + enc_nat(n as int),
{
    let mut digits = wide_chars(n);
    out.append(&mut digits);
    out.push(':');
    proof {
        assert(out@ =~= old(out)@ + enc_nat(n as int));
    }
}

/// Appends one text field.
fn push_text(out: &mut Vec<char>, s: &String)
    ensures
        final(out)@ == old(out)@ + enc_text(s@),
{
    let mut chars = crate::support::string_to_chars(s);
    push_nat(out, chars.len() as u128);
    out.append(&mut chars);
    proof {
        assert(out@ =~= old(out)@ + enc_text(s@));
    }
}

/// Appends one encoded row.
pub(crate) fn push_row(out: &mut Vec<char>, r: &crate::access::StoredRow)
    ensures
        final(out)@ == old(out)@ + enc_row(r@),
{
    push_nat(out, r.entity.0);
    push_text(out, &r.name);
    push_nat(out, r.version.major as u128);
    push_nat(out, r.version.minor as u128);
    push_nat(out, r.version.patch as u128);
    push_text(out, &r.contents);
    proof {
        assert(out@ =~= old(out)@ + enc_row(r@));
    }
}

/// Appends one encoded lease.
pub(crate) fn push_lease(out: &mut Vec<char>, l: &crate::lock::LeaseRow)
    ensures
        final(out)@ == old(out)@ + enc_lease(l@),
{
    push_nat(out, l.lock_id);
    push_nat(out, l.entity.0);
    push_text(out, &l.name);
    push_nat(out, l.version.major as u128);
    push_nat(out, l.version.minor as u128);
    push_nat(out, l.version.patch as u128);
    push_nat(out, if matches!(l.mode, LockingMode::Write) { 1 } else { 0 });
    push_nat(out, l.expires as u128);
    proof {
        assert(out@ =~= old(out)@ + enc_lease(l@));
    }
}


impl crate::backend::Backend {
    /// Reconstructs a backend from a snapshot. Succeeds exactly when the
    /// text is one whole snapshot whose rows satisfy the stored record
    /// invariant, and then rebuilds exactly the state it decodes to, as a
    /// joint backend.
    pub fn load(s: &String) -> (r: Option<crate::backend::Backend>)
        ensures
            r matches Some(b) ==> decode_snapshot(s@) == Some(b@) && b.wf(),
            r is None ==> decode_snapshot(s@) is None || !crate::access::store_wf(
                decode_snapshot(s@)->Some_0.rows,
            ),
    {
        let chars = crate::support::string_to_chars(s);
        proof {
            assert(chars@.skip(0) =~= chars@);
        }
        let (n, p1) = match parse_nat(&chars, 0) {
            None => {
                return None;
            },
            Some(x) => x,
        };
        let (rows, p2) = match parse_stored_rows(&chars, p1, n) {
            None => {
                return None;
            },
            Some(x) => x,
        };
        let (m, p3) = match parse_nat(&chars, p2) {
            None => {
                return None;
            },
            Some(x) => x,
        };
        let (leases, p4) = match parse_lease_rows(&chars, p3, m) {
            None => {
                return None;
            },
            Some(x) => x,
        };
        if p4 != chars.len() {
            proof {
                assert(chars@.skip(p4 as int).len() > 0);
            }
            return None;
        }
        proof {
            assert(chars@.skip(p4 as int).len() == 0);
        }
        if !crate::access::AccessStore::rows_wf(&rows) {
            return None;
        }
        let access = crate::access::AccessStore::from_rows(rows);
        let locking = crate::lock::LockStore::from_leases(leases);
        Some(
            crate::backend::Backend::Joint {
                backend: crate::backend::MemoryBackend { access, locking },
            },
        )
    }

    /// Serializes the backend's entire state — stored rows and lease table —
    /// into one text blob, exactly as `snapshot_of` describes it.
    pub fn save(&self) -> (r: String)
        ensures
            r@ == snapshot_of(self@),
    {
        let mut out: Vec<char> = Vec::new();
        match self {
            crate::backend::Backend::Joint { backend } => {
                backend.access.save_into(&mut out);
                backend.locking.save_into(&mut out);
            },
            crate::backend::Backend::Disjoint { access, locking } => {
                access.save_into(&mut out);
                locking.save_into(&mut out);
            },
        }
        proof {
            assert(out@ =~= snapshot_of(self@));
        }
        crate::support::chars_to_string(&out)
    }
}


/// What the digit run of a string looks like: its characters are digits and
/// it stops at the end or at the first non-digit.
proof fn lemma_take_digits_props(s: Seq<char>)
    ensures
        0 <= take_digits(s) <= s.len(),
        forall|m: int| 0 <= m < take_digits(s) ==> is_digit(#[trigger] s[m]),
        take_digits(s) < s.len() ==> !is_digit(s[take_digits(s)]),
    decreases s.len(),
{
    if s.len() == 0 || !is_digit(s[0]) {
    } else {
        lemma_take_digits_props(s.skip(1));
        assert forall|m: int| 0 <= m < take_digits(s) implies is_digit(#[trigger] s[m]) by {
            if m > 0 {
                assert(s.skip(1)[m - 1] == s[m]);
            }
        }
        if take_digits(s) < s.len() {
            assert(s.skip(1)[take_digits(s) - 1] == s[take_digits(s)]);
        }
    }
}

/// A string whose first `m` characters are digits has a digit run of at
/// least `m`.
proof fn lemma_take_digits_min(s: Seq<char>, m: int)
    requires
        0 <= m <= s.len(),
        forall|j: int| 0 <= j < m ==> is_digit(#[trigger] s[j]),
    ensures
        take_digits(s) >= m,
    decreases m,
{
    lemma_take_digits_props(s);
    if m > 0 {
        assert(is_digit(s[0]));
        assert forall|j: int| 0 <= j < m - 1 implies is_digit(#[trigger] s.skip(1)[j]) by {
            assert(s.skip(1)[j] == s[j + 1]);
        }
        lemma_take_digits_min(s.skip(1), m - 1);
        assert(take_digits(s) == 1 + take_digits(s.skip(1)));
    }
}

/// Whether a character is a decimal digit.
fn is_digit_char(c: char) -> (b: bool)
    ensures
        b == is_digit(c),
{
    crate::format::Json::digit_value(c).is_some()
}

/// Reads one number field at `pos`: the exact executable form of
/// `split_nat` on the string's tail.
fn parse_nat(chars: &Vec<char>, pos: usize) -> (r: Option<(u128, usize)>)
    requires
        pos <= chars@.len(),
    ensures
        r matches Some(p) ==> pos < p.1 <= chars@.len() && split_nat(chars@.skip(pos as int))
            == Some((p.0 as int, chars@.skip(p.1 as int))),
        r is None ==> split_nat(chars@.skip(pos as int)) is None,
{
    let ghost s = chars@.skip(pos as int);
    let mut i: usize = pos;
    let mut acc: u128 = 0;
    proof {
        assert(s.take(0) =~= Seq::<char>::empty());
        lemma_take_digits_props(s);
    }
    while i < chars.len() && is_digit_char(chars[i])
        invariant
            pos <= i <= chars@.len(),
            s == chars@.skip(pos as int),
            forall|j: int| pos <= j < i ==> is_digit(#[trigger] chars@[j]),
            acc == parse_dec(s.take(i - pos)),
        decreases chars@.len() - i,
    {
        let d: u64 = match crate::format::Json::digit_value(chars[i]) {
            Some(d) => d,
            None => {
                proof {
                    assert(false);
                }
                return None;
            },
        };
        proof {
            assert(s[i - pos] == chars@[i as int]);
            assert(s.take(i - pos + 1).drop_last() =~= s.take(i - pos));
            assert(s.take(i - pos + 1).last() == s[i - pos]);
            assert((u128::MAX - d as u128) as int == 10 * ((u128::MAX - d as u128) as int / 10) + (
            u128::MAX - d as u128) as int % 10) by {
                vstd::arithmetic::div_mod::lemma_fundamental_div_mod(
                    (u128::MAX - d as u128) as int,
                    10,
                );
            }
        }
        let limit = (u128::MAX - d as u128) / 10;
        if acc > limit {
            proof {
                assert(parse_dec(s.take(i - pos + 1)) == acc * 10 + digit_val(s[i - pos]));
                assert(parse_dec(s.take(i - pos + 1)) > u128::MAX);
                let k = take_digits(s);
                lemma_take_digits_props(s);
                assert forall|j: int| 0 <= j < i - pos + 1 implies is_digit(#[trigger] s[j]) by {
                    if j < i - pos {
                        assert(s[j] == chars@[pos + j]);
                    }
                }
                lemma_take_digits_min(s, i - pos + 1);
                assert(k >= i - pos + 1);
                let run = s.take(k);
                assert(crate::format::all_digits(run)) by {
                    assert forall|m: int| 0 <= m < run.len() implies is_digit(
                        #[trigger] run[m],
                    ) by {
                        assert(run[m] == s[m]);
                    }
                }
                crate::format::lemma_parse_prefix_le(run, i - pos + 1);
                assert(run.take(i - pos + 1) =~= s.take(i - pos + 1));
                assert(parse_dec(s.take(k)) > u128::MAX);
            }
            return None;
        }
        acc = acc * 10 + d as u128;
        i = i + 1;
    }
    proof {
        let k = take_digits(s);
        lemma_take_digits_props(s);
        assert forall|j: int| 0 <= j < i - pos implies is_digit(#[trigger] s[j]) by {
            assert(s[j] == chars@[pos + j]);
        }
        lemma_take_digits_min(s, i - pos);
        if i < chars@.len() {
            assert(s[i - pos] == chars@[i as int]);
            assert(!is_digit(s[i - pos]));
            if k > i - pos {
                assert(is_digit(s[i - pos]));
            }
        }
        assert(k == i - pos);
    }
    if i == pos {
        proof {
            assert(take_digits(s) == 0);
        }
        return None;
    }
    if i < chars.len() && chars[i] == ':' {
        proof {
            let k = take_digits(s);
            assert(s[k] == chars@[i as int]);
            assert(s.take(k) =~= s.take(i - pos));
            assert(s.skip(k + 1) =~= chars@.skip(i + 1));
        }
        Some((acc, i + 1))
    } else {
        proof {
            let k = take_digits(s);
            if k < s.len() {
                assert(s[k] == chars@[i as int]);
            }
        }
        None
    }
}

/// Reads one text field at `pos`: the exact executable form of
/// `split_text` on the string's tail.
fn parse_text(chars: &Vec<char>, pos: usize) -> (r: Option<(String, usize)>)
    requires
        pos <= chars@.len(),
    ensures
        r matches Some(p) ==> pos <= p.1 <= chars@.len() && split_text(chars@.skip(pos as int))
            == Some((p.0@, chars@.skip(p.1 as int))),
        r is None ==> split_text(chars@.skip(pos as int)) is None,
{
    let (n, p) = match parse_nat(chars, pos) {
        None => {
            return None;
        },
        Some(x) => x,
    };
    let remaining = chars.len() - p;
    if n > remaining as u128 {
        proof {
            assert(chars@.skip(p as int).len() == chars@.len() - p);
        }
        return None;
    }
    let len = n as usize;
    let total = chars.len();
    proof {
        assert(p + len <= chars@.len());
    }
    let mut buf: Vec<char> = Vec::new();
    let mut j: usize = 0;
    proof {
        assert(buf@ =~= chars@.subrange(p as int, p as int));
    }
    while j < len
        invariant
            0 <= j <= len,
            p + len <= total,
            total == chars@.len(),
            buf@ == chars@.subrange(p as int, p + j),
        decreases len - j,
    {
        buf.push(chars[p + j]);
        proof {
            assert(buf@ =~= chars@.subrange(p as int, p + j + 1));
        }
        j = j + 1;
    }
    proof {
        let rest = chars@.skip(p as int);
        assert(rest.take(n as int) =~= chars@.subrange(p as int, p + len));
        assert(rest.skip(n as int) =~= chars@.skip(p + len));
    }
    Some((crate::support::chars_to_string(&buf), p + len))
}

/// Reads one number field that must fit a 64-bit value.
fn parse_u64(chars: &Vec<char>, pos: usize) -> (r: Option<(u64, usize)>)
    requires
        pos <= chars@.len(),
    ensures
        r matches Some(p) ==> pos < p.1 <= chars@.len() && split_bounded(
            chars@.skip(pos as int),
            u64::MAX as int,
        ) == Some((p.0 as int, chars@.skip(p.1 as int))),
        r is None ==> split_bounded(chars@.skip(pos as int), u64::MAX as int) is None,
{
    match parse_nat(chars, pos) {
        None => None,
        Some((n, p)) => if n > u64::MAX as u128 {
            None
        } else {
            Some((n as u64, p))
        },
    }
}

/// Reads one version — three number fields.
fn parse_version(chars: &Vec<char>, pos: usize) -> (r: Option<(Version, usize)>)
    requires
        pos <= chars@.len(),
    ensures
        r matches Some(p) ==> pos < p.1 <= chars@.len() && split_version(chars@.skip(pos as int))
            == Some((p.0, chars@.skip(p.1 as int))),
        r is None ==> split_version(chars@.skip(pos as int)) is None,
{
    let (major, p1) = match parse_u64(chars, pos) {
        None => {
            return None;
        },
        Some(x) => x,
    };
    let (minor, p2) = match parse_u64(chars, p1) {
        None => {
            return None;
        },
        Some(x) => x,
    };
    let (patch, p3) = match parse_u64(chars, p2) {
        None => {
            return None;
        },
        Some(x) => x,
    };
    Some((Version { major, minor, patch }, p3))
}


/// Reads one stored row at `pos`: the exact executable form of `split_row`.
fn parse_stored_row(chars: &Vec<char>, pos: usize) -> (r: Option<(crate::access::StoredRow, usize)>)
    requires
        pos <= chars@.len(),
    ensures
        r matches Some(p) ==> pos < p.1 <= chars@.len() && split_row(chars@.skip(pos as int))
            == Some((p.0@, chars@.skip(p.1 as int))),
        r is None ==> split_row(chars@.skip(pos as int)) is None,
{
    let (entity, p1) = match parse_nat(chars, pos) {
        None => {
            return None;
        },
        Some(x) => x,
    };
    let (name, p2) = match parse_text(chars, p1) {
        None => {
            return None;
        },
        Some(x) => x,
    };
    let (version, p3) = match parse_version(chars, p2) {
        None => {
            return None;
        },
        Some(x) => x,
    };
    let (contents, p4) = match parse_text(chars, p3) {
        None => {
            return None;
        },
        Some(x) => x,
    };
    Some((
        crate::access::StoredRow { entity: Entity(entity), name, version, contents },
        p4,
    ))
}

/// Reads one lease row at `pos`: the exact executable form of `split_lease`.
fn parse_lease_row(chars: &Vec<char>, pos: usize) -> (r: Option<(crate::lock::LeaseRow, usize)>)
    requires
        pos <= chars@.len(),
    ensures
        r matches Some(p) ==> pos < p.1 <= chars@.len() && split_lease(chars@.skip(pos as int))
            == Some((p.0@, chars@.skip(p.1 as int))),
        r is None ==> split_lease(chars@.skip(pos as int)) is None,
{
    let (lock_id, p1) = match parse_nat(chars, pos) {
        None => {
            return None;
        },
        Some(x) => x,
    };
    let (entity, p2) = match parse_nat(chars, p1) {
        None => {
            return None;
        },
        Some(x) => x,
    };
    let (name, p3) = match parse_text(chars, p2) {
        None => {
            return None;
        },
        Some(x) => x,
    };
    let (version, p4) = match parse_version(chars, p3) {
        None => {
            return None;
        },
        Some(x) => x,
    };
    let (tag, p5) = match parse_nat(chars, p4) {
        None => {
            return None;
        },
        Some(x) => x,
    };
    if tag > 1 {
        return None;
    }
    let (expires, p6) = match parse_u64(chars, p5) {
        None => {
            return None;
        },
        Some(x) => x,
    };
    let mode = if tag == 1 {
        LockingMode::Write
    } else {
        LockingMode::Read
    };
    Some((
        crate::lock::LeaseRow { lock_id, entity: Entity(entity), name, version, mode, expires },
        p6,
    ))
}

/// Reads `n` stored rows at `pos`: the exact executable form of
/// `split_rows`.
fn parse_stored_rows(chars: &Vec<char>, pos: usize, n: u128) -> (r: Option<
    (Vec<crate::access::StoredRow>, usize),
>)
    requires
        pos <= chars@.len(),
    ensures
        r matches Some(p) ==> pos <= p.1 <= chars@.len() && split_rows(
            n as int,
            chars@.skip(pos as int),
        ) == Some((p.0.deep_view(), chars@.skip(p.1 as int))),
        r is None ==> split_rows(n as int, chars@.skip(pos as int)) is None,
{
    let mut out: Vec<crate::access::StoredRow> = Vec::new();
    let mut cur: usize = pos;
    let mut i: u128 = 0;
    proof {
        assert(out.deep_view() =~= Seq::<RowView>::empty());
    }
    while i < n
        invariant
            0 <= i <= n,
            pos <= cur <= chars@.len(),
            split_rows(n as int, chars@.skip(pos as int)) == (match split_rows(
                n as int - i as int,
                chars@.skip(cur as int),
            ) {
                None => None,
                Some((rs, rest)) => Some((out.deep_view() + rs, rest)),
            }),
        decreases n - i,
    {
        let (row, next) = match parse_stored_row(chars, cur) {
            None => {
                return None;
            },
            Some(x) => x,
        };
        let ghost rowv = row@;
        let ghost prev = out.deep_view();
        out.push(row);
        proof {
            assert(out.deep_view() =~= prev.push(rowv));
            if split_rows(n as int - i as int - 1, chars@.skip(next as int)) is Some {
                let tail = split_rows(n as int - i as int - 1, chars@.skip(next as int))->Some_0;
                assert(prev + (seq![rowv] + tail.0) =~= prev.push(rowv) + tail.0);
            }
        }
        cur = next;
        i = i + 1;
    }
    proof {
        assert(out.deep_view() + Seq::<RowView>::empty() =~= out.deep_view());
    }
    Some((out, cur))
}

/// Reads `n` lease rows at `pos`: the exact executable form of
/// `split_leases`.
fn parse_lease_rows(chars: &Vec<char>, pos: usize, n: u128) -> (r: Option<
    (Vec<crate::lock::LeaseRow>, usize),
>)
    requires
        pos <= chars@.len(),
    ensures
        r matches Some(p) ==> pos <= p.1 <= chars@.len() && split_leases(
            n as int,
            chars@.skip(pos as int),
        ) == Some((p.0.deep_view(), chars@.skip(p.1 as int))),
        r is None ==> split_leases(n as int, chars@.skip(pos as int)) is None,
{
    let mut out: Vec<crate::lock::LeaseRow> = Vec::new();
    let mut cur: usize = pos;
    let mut i: u128 = 0;
    proof {
        assert(out.deep_view() =~= Seq::<LeaseView>::empty());
    }
    while i < n
        invariant
            0 <= i <= n,
            pos <= cur <= chars@.len(),
            split_leases(n as int, chars@.skip(pos as int)) == (match split_leases(
                n as int - i as int,
                chars@.skip(cur as int),
            ) {
                None => None,
                Some((ls, rest)) => Some((out.deep_view() + ls, rest)),
            }),
        decreases n - i,
    {
        let (lease, next) = match parse_lease_row(chars, cur) {
            None => {
                return None;
            },
            Some(x) => x,
        };
        let ghost leasev = lease@;
        let ghost prev = out.deep_view();
        out.push(lease);
        proof {
            assert(out.deep_view() =~= prev.push(leasev));
            if split_leases(n as int - i as int - 1, chars@.skip(next as int)) is Some {
                let tail = split_leases(n as int - i as int - 1, chars@.skip(next as int))->Some_0;
                assert(prev + (seq![leasev] + tail.0) =~= prev.push(leasev) + tail.0);
            }
        }
        cur = next;
        i = i + 1;
    }
    proof {
        assert(out.deep_view() + Seq::<LeaseView>::empty() =~= out.deep_view());
    }
    Some((out, cur))
}

} // verus!
