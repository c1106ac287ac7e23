//! Laws of pack resolution, stated over the resolution specification and
//! proved.
use crate::number::Decimal;
use crate::record::{text_view, ResolvedView, SenMLRecord, SinditSenMLError, ValueView};
use crate::resolve::{
    absorb, empty_context, kept_extras, reconcile_version, record_outcome, resolution,
    resolved_name, run, value_outcome, ContextView, DEFAULT_VERSION,
};
use vstd::prelude::*;

verus! {

/// The base fields in force after the first `k` records: each field as the
/// last record that gave it set it.
pub open spec fn base_context(recs: Seq<SenMLRecord>, k: int) -> ContextView
    decreases k,
{
    if k <= 0 {
        empty_context()
    } else {
        absorb(base_context(recs, k - 1), recs[k - 1])
    }
}

/// Whether two contexts hold the same base fields.
pub open spec fn same_bases(a: ContextView, b: ContextView) -> bool {
    &&& a.name == b.name
    &&& a.time == b.time
    &&& a.unit == b.unit
    &&& a.value == b.value
    &&& a.sum == b.sum
}

/// The version of a pack: the one its first record gives, else the default.
pub open spec fn pack_version(recs: Seq<SenMLRecord>) -> u64 {
    match recs[0].base_version {
        Some(v) => v,
        None => DEFAULT_VERSION,
    }
}

/// Whether a record gives more than one kind of value.
pub open spec fn has_two_value_kinds(r: SenMLRecord) -> bool {
    let n = (if r.value is Some { 1int } else { 0 }) + (if r.string_value is Some { 1int } else { 0 })
        + (if r.bool_value is Some { 1int } else { 0 }) + (if r.data_value is Some { 1int } else { 0 });
    n >= 2
}

pub open spec fn is_version_error(e: SinditSenMLError) -> bool {
    e == SinditSenMLError::DifferentBaseVersion || e == SinditSenMLError::InvalidVersionNumber
}

/// Where the whole pack resolves, so does each of its prefixes, and the
/// resolved records of a prefix are those of the pack.
pub proof fn lemma_prefix(recs: Seq<SenMLRecord>, now: crate::time::Timestamp, k: int, m: int)
    requires
        0 <= k <= m,
        run(recs, now, m) is Ok,
    ensures
        run(recs, now, k) is Ok,
        run(recs, now, k)->Ok_0.1.len() == k,
        run(recs, now, m)->Ok_0.1.len() == m,
        forall|i: int|
            0 <= i < k ==> #[trigger] run(recs, now, k)->Ok_0.1[i] == run(recs, now, m)->Ok_0.1[i],
    decreases m - k, m,
{
    if m > 0 {
        lemma_prefix(recs, now, m - 1, m - 1);
    }
    if k < m {
        lemma_prefix(recs, now, k, m - 1);
        lemma_prefix(recs, now, m - 1, m - 1);
    }
}

/// The context carried through a resolution holds the base fields of
/// [`base_context`], and, after the first record, the pack's version, which
/// every record so far that gives a version agrees with.
pub proof fn lemma_context(recs: Seq<SenMLRecord>, now: crate::time::Timestamp, k: int)
    requires
        0 <= k <= recs.len(),
        run(recs, now, k) is Ok,
    ensures
        same_bases(run(recs, now, k)->Ok_0.0, base_context(recs, k)),
        k == 0 ==> run(recs, now, k)->Ok_0.0.version is None,
        k > 0 ==> run(recs, now, k)->Ok_0.0.version == Some(pack_version(recs)),
        forall|t: int|
            0 <= t < k && (#[trigger] recs[t].base_version) is Some ==> recs[t].base_version
                == Some(pack_version(recs)),
    decreases k,
{
    if k > 0 {
        lemma_error_free_prefix(recs, now, k);
        lemma_context(recs, now, k - 1);
    }
}

proof fn lemma_error_free_prefix(recs: Seq<SenMLRecord>, now: crate::time::Timestamp, k: int)
    requires
        k > 0,
        run(recs, now, k) is Ok,
    ensures
        run(recs, now, k - 1) is Ok,
        record_outcome(run(recs, now, k - 1)->Ok_0.0, recs[k - 1], k - 1, now) is Ok,
{
}

/// Name concatenation: each resolved name is the base name in force
/// followed by the record's own name, with no separator; and a record with
/// neither makes the pack fail.
pub proof fn lemma_name_concatenation(recs: Seq<SenMLRecord>, now: crate::time::Timestamp, i: int)
    requires
        0 <= i < recs.len(),
    ensures
        resolution(recs, now) is Ok ==> resolved_name(
            base_context(recs, i + 1).name,
            text_view(recs[i].name),
        ) == Some(resolution(recs, now)->Ok_0[i].name),
        base_context(recs, i + 1).name is None && recs[i].name is None ==> resolution(
            recs,
            now,
        ) is Err,
{
    assert(base_context(recs, i + 1) == absorb(base_context(recs, i), recs[i]));
    if resolution(recs, now) is Ok {
        lemma_resolved_with_bases(recs, now, i);
    }
    if base_context(recs, i + 1).name is None && recs[i].name is None {
        if run(recs, now, i) is Ok {
            lemma_context(recs, now, i);
        }
        lemma_fails_at(recs, now, i);
    }
}

/// Where the record at `i` cannot resolve in any context, neither can the
/// pack.
proof fn lemma_fails_at(recs: Seq<SenMLRecord>, now: crate::time::Timestamp, i: int)
    requires
        0 <= i < recs.len(),
        run(recs, now, i) is Ok ==> record_outcome(
            run(recs, now, i)->Ok_0.0,
            recs[i],
            i,
            now,
        ) is Err,
    ensures
        resolution(recs, now) is Err,
{
    if run(recs, now, i) is Ok {
        assert(run(recs, now, i + 1) is Err);
        crate::resolve::lemma_error_persists(recs, now, i + 1, recs.len() as int);
    } else {
        crate::resolve::lemma_error_persists(recs, now, i, recs.len() as int);
    }
}

/// Base persistence: a base field set by record `k` stays in force for every
/// later record up to `m` that does not set it again.
pub proof fn lemma_base_persistence(recs: Seq<SenMLRecord>, k: int, m: int)
    requires
        0 <= k < m <= recs.len(),
    ensures
        recs[k].base_name is Some && (forall|j: int| k < j < m ==> (#[trigger] recs[j].base_name) is None)
            ==> base_context(recs, m).name == text_view(recs[k].base_name),
        recs[k].base_time is Some && (forall|j: int| k < j < m ==> (#[trigger] recs[j].base_time) is None)
            ==> base_context(recs, m).time == recs[k].base_time,
        recs[k].base_unit is Some && (forall|j: int| k < j < m ==> (#[trigger] recs[j].base_unit) is None)
            ==> base_context(recs, m).unit == text_view(recs[k].base_unit),
        recs[k].base_value is Some && (forall|j: int| k < j < m ==> (#[trigger] recs[j].base_value) is None)
            ==> base_context(recs, m).value == recs[k].base_value,
        recs[k].base_sum is Some && (forall|j: int| k < j < m ==> (#[trigger] recs[j].base_sum) is None)
            ==> base_context(recs, m).sum == recs[k].base_sum,
    decreases m - k,
{
    if m > k + 1 {
        lemma_base_persistence(recs, k, m - 1);
    }
}

/// Each resolved record is resolved with the base fields in force at it.
pub proof fn lemma_resolved_with_bases(recs: Seq<SenMLRecord>, now: crate::time::Timestamp, i: int)
    requires
        0 <= i < recs.len(),
        resolution(recs, now) is Ok,
    ensures
        run(recs, now, i) is Ok,
        same_bases(run(recs, now, i)->Ok_0.0, base_context(recs, i)),
        record_outcome(run(recs, now, i)->Ok_0.0, recs[i], i, now) is Ok,
        resolution(recs, now)->Ok_0[i] == record_outcome(
            run(recs, now, i)->Ok_0.0,
            recs[i],
            i,
            now,
        )->Ok_0.1,
{
    let n = recs.len() as int;
    lemma_prefix(recs, now, i + 1, n);
    lemma_prefix(recs, now, i, i + 1);
    lemma_context(recs, now, i);
    let prev = run(recs, now, i)->Ok_0;
    let step = record_outcome(prev.0, recs[i], i, now);
    assert(run(recs, now, i + 1) == Ok::<(ContextView, Seq<ResolvedView>), SinditSenMLError>(
        (step->Ok_0.0, prev.1.push(step->Ok_0.1)),
    ));
    assert(run(recs, now, i + 1)->Ok_0.1[i] == step->Ok_0.1);
}

/// Version pinning, failing side: two records that give different versions
/// make the pack fail, with the version error where nothing before the later
/// one failed.
pub proof fn lemma_versions_differ(
    recs: Seq<SenMLRecord>,
    now: crate::time::Timestamp,
    i: int,
    j: int,
)
    requires
        0 <= i < j < recs.len(),
        recs[i].base_version is Some,
        recs[j].base_version is Some,
        recs[i].base_version != recs[j].base_version,
    ensures
        resolution(recs, now) is Err,
        run(recs, now, j) is Ok ==> resolution(recs, now) == Err::<Seq<ResolvedView>, SinditSenMLError>(
            SinditSenMLError::DifferentBaseVersion,
        ),
{
    if run(recs, now, j) is Ok {
        lemma_context(recs, now, j);
        assert(run(recs, now, j + 1) == Err::<(ContextView, Seq<ResolvedView>), SinditSenMLError>(
            SinditSenMLError::DifferentBaseVersion,
        ));
        crate::resolve::lemma_error_persists(recs, now, j + 1, recs.len() as int);
    } else {
        crate::resolve::lemma_error_persists(recs, now, j, recs.len() as int);
    }
}

/// Version pinning, succeeding side: where every record that gives a version
/// gives the same non-zero `v`, and the first record gives it or `v` is the
/// default, no record fails on its version.
pub proof fn lemma_versions_agree(recs: Seq<SenMLRecord>, now: crate::time::Timestamp, v: u64)
    requires
        v != 0,
        recs.len() > 0,
        recs[0].base_version == Some(v) || v == DEFAULT_VERSION,
        forall|t: int| 0 <= t < recs.len() && (#[trigger] recs[t].base_version) is Some
            ==> recs[t].base_version == Some(v),
    ensures
        !(resolution(recs, now) matches Err(e) && is_version_error(e)),
{
    lemma_no_version_error(recs, now, v, recs.len() as int);
}

proof fn lemma_no_version_error(
    recs: Seq<SenMLRecord>,
    now: crate::time::Timestamp,
    v: u64,
    k: int,
)
    requires
        v != 0,
        0 <= k <= recs.len(),
        recs.len() > 0,
        recs[0].base_version == Some(v) || v == DEFAULT_VERSION,
        forall|t: int| 0 <= t < recs.len() && (#[trigger] recs[t].base_version) is Some
            ==> recs[t].base_version == Some(v),
    ensures
        !(run(recs, now, k) matches Err(e) && is_version_error(e)),
        run(recs, now, k) matches Ok(r) ==> (k == 0 ==> r.0.version is None) && (k > 0
            ==> r.0.version == Some(v)),
    decreases k,
{
    if k > 0 {
        lemma_no_version_error(recs, now, v, k - 1);
        if run(recs, now, k - 1) is Ok {
            let c = run(recs, now, k - 1)->Ok_0.0;
            let r = recs[k - 1];
            assert(reconcile_version(absorb(c, r).version, r.base_version) == Ok::<u64, SinditSenMLError>(v));
        }
    }
}

/// Value exclusivity: a record that gives two kinds of value makes the pack
/// fail, whichever two they are.
pub proof fn lemma_value_exclusivity(recs: Seq<SenMLRecord>, now: crate::time::Timestamp, i: int)
    requires
        0 <= i < recs.len(),
        has_two_value_kinds(recs[i]),
    ensures
        resolution(recs, now) is Err,
{
    if run(recs, now, i) is Ok {
        lemma_context(recs, now, i);
    }
    lemma_fails_at(recs, now, i);
}

/// Default value: a record with no value of its own, no base value, and no
/// sum of its own or from the base resolves to the number zero and no sum.
pub proof fn lemma_default_value(recs: Seq<SenMLRecord>, now: crate::time::Timestamp, i: int)
    requires
        0 <= i < recs.len(),
        resolution(recs, now) is Ok,
        recs[i].value is None,
        recs[i].string_value is None,
        recs[i].bool_value is None,
        recs[i].data_value is None,
        recs[i].sum is None,
        base_context(recs, i + 1).value is None,
        base_context(recs, i + 1).sum is None,
    ensures
        resolution(recs, now)->Ok_0[i].value == Some(ValueView::Number(Decimal { mantissa: 0, exponent: 0 })),
        resolution(recs, now)->Ok_0[i].sum is None,
{
    assert(base_context(recs, i + 1) == absorb(base_context(recs, i), recs[i]));
    lemma_resolved_with_bases(recs, now, i);
}

/// Whether `r2` is `r` with some base fields, that `r` leaves unset, set to
/// the values in force in `c`.
pub open spec fn restates(r: SenMLRecord, r2: SenMLRecord, c: ContextView) -> bool {
    &&& r2.base_version == r.base_version
    &&& r2.name == r.name
    &&& r2.unit == r.unit
    &&& r2.value == r.value
    &&& r2.string_value == r.string_value
    &&& r2.bool_value == r.bool_value
    &&& r2.data_value == r.data_value
    &&& r2.sum == r.sum
    &&& r2.time == r.time
    &&& r2.update_time == r.update_time
    &&& r2.extra_fields == r.extra_fields
    &&& (r2.base_name == r.base_name || (r.base_name is None && c.name is Some && text_view(
        r2.base_name,
    ) == c.name))
    &&& (r2.base_time == r.base_time || (r.base_time is None && c.time is Some && r2.base_time
        == c.time))
    &&& (r2.base_unit == r.base_unit || (r.base_unit is None && c.unit is Some && text_view(
        r2.base_unit,
    ) == c.unit))
    &&& (r2.base_value == r.base_value || (r.base_value is None && c.value is Some
        && r2.base_value == c.value))
    &&& (r2.base_sum == r.base_sum || (r.base_sum is None && c.sum is Some && r2.base_sum
        == c.sum))
}

/// Base persistence, as equal results: a record that restates a base field
/// already in force (the value some earlier record set and no record since
/// replaced) resolves, with the whole pack, exactly as it does without it.
pub proof fn lemma_restating_bases_changes_nothing(
    recs: Seq<SenMLRecord>,
    now: crate::time::Timestamp,
    k2: int,
    r2: SenMLRecord,
)
    requires
        0 <= k2 < recs.len(),
        restates(recs[k2], r2, base_context(recs, k2)),
    ensures
        resolution(recs.update(k2, r2), now) == resolution(recs, now),
{
    lemma_same_run(recs, now, k2, r2, recs.len() as int);
}

proof fn lemma_same_run(
    recs: Seq<SenMLRecord>,
    now: crate::time::Timestamp,
    k2: int,
    r2: SenMLRecord,
    i: int,
)
    requires
        0 <= k2 < recs.len(),
        0 <= i <= recs.len(),
        restates(recs[k2], r2, base_context(recs, k2)),
    ensures
        run(recs.update(k2, r2), now, i) == run(recs, now, i),
    decreases i,
{
    let recs2 = recs.update(k2, r2);
    if i > 0 {
        lemma_same_run(recs, now, k2, r2, i - 1);
        if i - 1 == k2 && run(recs, now, i - 1) is Ok {
            lemma_context(recs, now, i - 1);
            let c = run(recs, now, i - 1)->Ok_0.0;
            let r = recs[k2];
            assert(absorb(c, r2) == absorb(c, r));
            assert(value_outcome(r2, absorb(c, r).value, k2) == value_outcome(r, absorb(c, r).value, k2));
            assert(kept_extras(r2) == kept_extras(r));
            assert(record_outcome(c, r2, k2, now) == record_outcome(c, r, k2, now));
        }
        assert(recs2[i - 1] == if i - 1 == k2 { r2 } else { recs[i - 1] });
    }
}

/// Whether no record after `k`, up to and including `k2`, sets the field
/// `f` picks.
pub open spec fn unset_after<T>(
    recs: Seq<SenMLRecord>,
    k: int,
    k2: int,
    f: spec_fn(SenMLRecord) -> Option<T>,
) -> bool {
    forall|j: int| k < j <= k2 ==> (#[trigger] f(recs[j])) is None
}

/// Base persistence, record by record: where record `k` sets a base field
/// and no record up to `k2` sets it again, giving record `k2` that same
/// field changes no resolved record.
pub proof fn lemma_base_persistence_results(
    recs: Seq<SenMLRecord>,
    now: crate::time::Timestamp,
    k: int,
    k2: int,
)
    requires
        0 <= k < k2 < recs.len(),
    ensures
        recs[k].base_name is Some && unset_after(recs, k, k2, |r: SenMLRecord| r.base_name)
            ==> resolution(recs.update(k2, SenMLRecord { base_name: recs[k].base_name, ..recs[k2] }), now)
            == resolution(recs, now),
        recs[k].base_time is Some && unset_after(recs, k, k2, |r: SenMLRecord| r.base_time)
            ==> resolution(recs.update(k2, SenMLRecord { base_time: recs[k].base_time, ..recs[k2] }), now)
            == resolution(recs, now),
        recs[k].base_unit is Some && unset_after(recs, k, k2, |r: SenMLRecord| r.base_unit)
            ==> resolution(recs.update(k2, SenMLRecord { base_unit: recs[k].base_unit, ..recs[k2] }), now)
            == resolution(recs, now),
        recs[k].base_value is Some && unset_after(recs, k, k2, |r: SenMLRecord| r.base_value)
            ==> resolution(recs.update(k2, SenMLRecord { base_value: recs[k].base_value, ..recs[k2] }), now)
            == resolution(recs, now),
        recs[k].base_sum is Some && unset_after(recs, k, k2, |r: SenMLRecord| r.base_sum)
            ==> resolution(recs.update(k2, SenMLRecord { base_sum: recs[k].base_sum, ..recs[k2] }), now)
            == resolution(recs, now),
{
    let c = base_context(recs, k2);
    let r = recs[k2];
    lemma_base_persistence(recs, k, k2);
    if recs[k].base_name is Some && unset_after(recs, k, k2, |r: SenMLRecord| r.base_name) {
        assert(forall|j: int| k < j < k2 ==> (#[trigger] recs[j].base_name) is None) by {
            assert forall|j: int| k < j < k2 implies (#[trigger] recs[j].base_name) is None by {
                assert((|r: SenMLRecord| r.base_name)(recs[j]) is None);
            }
        }
        assert((|r: SenMLRecord| r.base_name)(recs[k2]) is None);
        lemma_restating_bases_changes_nothing(recs, now, k2, SenMLRecord { base_name: recs[k].base_name, ..r });
    }
    if recs[k].base_time is Some && unset_after(recs, k, k2, |r: SenMLRecord| r.base_time) {
        assert(forall|j: int| k < j < k2 ==> (#[trigger] recs[j].base_time) is None) by {
            assert forall|j: int| k < j < k2 implies (#[trigger] recs[j].base_time) is None by {
                assert((|r: SenMLRecord| r.base_time)(recs[j]) is None);
            }
        }
        assert((|r: SenMLRecord| r.base_time)(recs[k2]) is None);
        lemma_restating_bases_changes_nothing(recs, now, k2, SenMLRecord { base_time: recs[k].base_time, ..r });
    }
    if recs[k].base_unit is Some && unset_after(recs, k, k2, |r: SenMLRecord| r.base_unit) {
        assert(forall|j: int| k < j < k2 ==> (#[trigger] recs[j].base_unit) is None) by {
            assert forall|j: int| k < j < k2 implies (#[trigger] recs[j].base_unit) is None by {
                assert((|r: SenMLRecord| r.base_unit)(recs[j]) is None);
            }
        }
        assert((|r: SenMLRecord| r.base_unit)(recs[k2]) is None);
        lemma_restating_bases_changes_nothing(recs, now, k2, SenMLRecord { base_unit: recs[k].base_unit, ..r });
    }
    if recs[k].base_value is Some && unset_after(recs, k, k2, |r: SenMLRecord| r.base_value) {
        assert(forall|j: int| k < j < k2 ==> (#[trigger] recs[j].base_value) is None) by {
            assert forall|j: int| k < j < k2 implies (#[trigger] recs[j].base_value) is None by {
                assert((|r: SenMLRecord| r.base_value)(recs[j]) is None);
            }
        }
        assert((|r: SenMLRecord| r.base_value)(recs[k2]) is None);
        lemma_restating_bases_changes_nothing(recs, now, k2, SenMLRecord { base_value: recs[k].base_value, ..r });
    }
    if recs[k].base_sum is Some && unset_after(recs, k, k2, |r: SenMLRecord| r.base_sum) {
        assert(forall|j: int| k < j < k2 ==> (#[trigger] recs[j].base_sum) is None) by {
            assert forall|j: int| k < j < k2 implies (#[trigger] recs[j].base_sum) is None by {
                assert((|r: SenMLRecord| r.base_sum)(recs[j]) is None);
            }
        }
        assert((|r: SenMLRecord| r.base_sum)(recs[k2]) is None);
        lemma_restating_bases_changes_nothing(recs, now, k2, SenMLRecord { base_sum: recs[k].base_sum, ..r });
    }
}

} // verus!
