//! Resolution of a pack: base fields are carried from record to record and
//! applied, yielding one self-contained record per input record.
use crate::encoding::{decode_url_safe, url_safe_decoded};
use crate::number::Decimal;
use crate::record::{
    text_view, ResolvedView, SenMLRecord, SenMLResolvedRecord, SenMLValueField, SinditSenMLError,
    ValueView,
};
use crate::time::{convert_senml_time, senml_instant, Timestamp, NANOS_PER_SECOND};
use crate::validate_name::{is_valid_name, validate_name};
use vstd::arithmetic::div_mod::lemma_fundamental_div_mod_converse;
use vstd::prelude::*;
use vstd::string::StringExecFns;

verus! {

/// The version a pack has when none of its records gives one.
pub const DEFAULT_VERSION: u64 = 10;

/// The base fields in force, and the version of the pack once settled.
pub struct ContextView {
    pub name: Option<Seq<char>>,
    pub time: Option<Decimal>,
    pub unit: Option<Seq<char>>,
    pub value: Option<Decimal>,
    pub sum: Option<Decimal>,
    pub version: Option<u64>,
}

/// The state carried from one record to the next while a pack is resolved.
pub struct ResolutionContext {
    pub base_name: Option<String>,
    pub base_time: Option<Decimal>,
    pub base_unit: Option<String>,
    pub base_value: Option<Decimal>,
    pub base_sum: Option<Decimal>,
    pub base_version: Option<u64>,
}

impl View for ResolutionContext {
    type V = ContextView;

    open spec fn view(&self) -> ContextView {
        ContextView {
            name: text_view(self.base_name),
            time: self.base_time,
            unit: text_view(self.base_unit),
            value: self.base_value,
            sum: self.base_sum,
            version: self.base_version,
        }
    }
}

impl ResolutionContext {
    /// The context at the start of a pack: nothing set.
    pub fn new() -> (r: ResolutionContext)
        ensures
            r@ == empty_context(),
    {
        ResolutionContext {
            base_name: None,
            base_time: None,
            base_unit: None,
            base_value: None,
            base_sum: None,
            base_version: None,
        }
    }
}

pub open spec fn empty_context() -> ContextView {
    ContextView { name: None, time: None, unit: None, value: None, sum: None, version: None }
}

/// A field given by the record replaces the one in force.
pub open spec fn overwrite<T>(current: Option<T>, given: Option<T>) -> Option<T> {
    match given {
        Some(v) => Some(v),
        None => current,
    }
}

/// The context once the base fields of `r` are applied.
pub open spec fn absorb(c: ContextView, r: SenMLRecord) -> ContextView {
    ContextView {
        name: overwrite(c.name, text_view(r.base_name)),
        time: overwrite(c.time, r.base_time),
        unit: overwrite(c.unit, text_view(r.base_unit)),
        value: overwrite(c.value, r.base_value),
        sum: overwrite(c.sum, r.base_sum),
        version: c.version,
    }
}

/// The version of the pack after a record gives `given`: the first record
/// settles it (to the default where it gives none), and later ones must agree.
pub open spec fn reconcile_version(current: Option<u64>, given: Option<u64>) -> Result<
    u64,
    SinditSenMLError,
> {
    match (current, given) {
        (Some(c), Some(v)) => if c == v {
            Ok(c)
        } else {
            Err(SinditSenMLError::DifferentBaseVersion)
        },
        (None, Some(v)) => if v == 0 {
            Err(SinditSenMLError::InvalidVersionNumber)
        } else {
            Ok(v)
        },
        (Some(c), None) => Ok(c),
        (None, None) => Ok(DEFAULT_VERSION),
    }
}

/// The base name followed by the own name; `None` where neither is given.
pub open spec fn resolved_name(base: Option<Seq<char>>, own: Option<Seq<char>>) -> Option<
    Seq<char>,
> {
    match (base, own) {
        (Some(b), Some(n)) => Some(b + n),
        (Some(b), None) => Some(b),
        (None, Some(n)) => Some(n),
        (None, None) => None,
    }
}

pub open spec fn decimal_of(p: (int, int)) -> Decimal {
    Decimal { mantissa: p.0 as i128, exponent: p.1 as i32 }
}

/// A record's number offset by its base: their sum (see
/// [`Decimal::rounded_sum`]) where both are given, else whichever is given.
pub open spec fn offset(base: Option<Decimal>, own: Option<Decimal>) -> Option<Decimal> {
    match (base, own) {
        (Some(b), Some(x)) => Some(decimal_of(Decimal::rounded_sum(b, x))),
        (Some(b), None) => Some(b),
        (None, x) => x,
    }
}

/// Whether [`offset`] can be held.
pub open spec fn offset_fits(base: Option<Decimal>, own: Option<Decimal>) -> bool {
    match (base, own) {
        (Some(b), Some(x)) => Decimal::rounded_sum(b, x).1 <= i32::MAX,
        _ => true,
    }
}

/// The time value of a record: its own time offset by the base time, zero
/// where neither is given.
pub open spec fn time_value(base: Option<Decimal>, own: Option<Decimal>) -> Decimal {
    match offset(base, own) {
        Some(t) => t,
        None => Decimal { mantissa: 0, exponent: 0 },
    }
}

/// The value a record resolves to, from its own value fields and the base
/// value in force. At most one kind may be given; the numeric kind is offset
/// by the base value, and the base value alone stands where no kind is given.
pub open spec fn value_outcome(r: SenMLRecord, base_value: Option<Decimal>, index: int) -> Result<
    Option<ValueView>,
    SinditSenMLError,
> {
    let too_many = Err(SinditSenMLError::OnlyOneValuePerRecord(index as usize));
    match r.value {
        Some(v) => if r.string_value is Some || r.bool_value is Some || r.data_value is Some {
            too_many
        } else if !offset_fits(base_value, Some(v)) {
            Err(SinditSenMLError::ValueOutOfRange(index as usize))
        } else {
            Ok(Some(ValueView::Number(offset(base_value, Some(v))->0)))
        },
        None => match r.string_value {
            Some(s) => if r.bool_value is Some || r.data_value is Some {
                too_many
            } else {
                Ok(Some(ValueView::Text(s@)))
            },
            None => match r.bool_value {
                Some(b) => if r.data_value is Some {
                    too_many
                } else {
                    Ok(Some(ValueView::Boolean(b)))
                },
                None => match r.data_value {
                    Some(d) => match url_safe_decoded(d@) {
                        Some(bytes) => Ok(Some(ValueView::Data(bytes))),
                        None => Err(SinditSenMLError::InvalidBase64Value(index as usize)),
                    },
                    None => match base_value {
                        Some(b) => Ok(Some(ValueView::Number(b))),
                        None => Ok(None),
                    },
                },
            },
        },
    }
}

/// The point in time `total` nanoseconds after the epoch.
pub open spec fn timestamp_at(total: int) -> Timestamp {
    Timestamp {
        seconds: (total / NANOS_PER_SECOND as int) as i64,
        nanos: (total % NANOS_PER_SECOND as int) as u32,
    }
}

/// The extra fields of a record, where there are any.
pub open spec fn kept_extras(r: SenMLRecord) -> Option<Seq<(String, serde_json::Value)>> {
    match r.extra_fields {
        Some(e) => if e@.len() == 0 {
            None
        } else {
            Some(e@)
        },
        None => None,
    }
}

/// Resolving the record at `index` in context `before`: the context after it
/// and the resolved record, or the error it meets first.
pub open spec fn record_outcome(
    before: ContextView,
    r: SenMLRecord,
    index: int,
    now: Timestamp,
) -> Result<(ContextView, ResolvedView), SinditSenMLError> {
    let c = absorb(before, r);
    match reconcile_version(c.version, r.base_version) {
        Err(e) => Err(e),
        Ok(version) => match resolved_name(c.name, text_view(r.name)) {
            None => Err(SinditSenMLError::MissingName(index as usize)),
            Some(name) => if !is_valid_name(name) {
                Err(SinditSenMLError::InvalidNameInRecord(index as usize))
            } else {
                match value_outcome(r, c.value, index) {
                    Err(e) => Err(e),
                    Ok(value) => {
                        let t = time_value(c.time, r.time);
                        let instant = senml_instant(t, now);
                        if !offset_fits(c.time, r.time) || !Timestamp::in_range(instant) {
                            Err(SinditSenMLError::InvalidTimeInRecord(index as usize))
                        } else if !offset_fits(c.sum, r.sum) {
                            Err(SinditSenMLError::ValueOutOfRange(index as usize))
                        } else {
                            let sum = offset(c.sum, r.sum);
                            Ok(
                                (
                                    ContextView { version: Some(version), ..c },
                                    ResolvedView {
                                        name,
                                        unit: overwrite(c.unit, text_view(r.unit)),
                                        value: if value is None && sum is None {
                                            Some(ValueView::Number(Decimal { mantissa: 0, exponent: 0 }))
                                        } else {
                                            value
                                        },
                                        sum,
                                        time: timestamp_at(instant),
                                        update_time: r.update_time,
                                        base_version: if version == DEFAULT_VERSION {
                                            None
                                        } else {
                                            Some(version)
                                        },
                                        extra_fields: kept_extras(r),
                                    },
                                ),
                            )
                        }
                    },
                }
            },
        },
    }
}

/// Resolving the first `k` records of a pack, left to right, stopping at the
/// first error.
pub open spec fn run(recs: Seq<SenMLRecord>, now: Timestamp, k: int) -> Result<
    (ContextView, Seq<ResolvedView>),
    SinditSenMLError,
>
    decreases k,
{
    if k <= 0 {
        Ok((empty_context(), Seq::empty()))
    } else {
        match run(recs, now, k - 1) {
            Err(e) => Err(e),
            Ok((c, out)) => match record_outcome(c, recs[k - 1], k - 1, now) {
                Err(e) => Err(e),
                Ok((c2, rv)) => Ok((c2, out.push(rv))),
            },
        }
    }
}

/// The resolved records of a whole pack, or the first error.
pub open spec fn resolution(recs: Seq<SenMLRecord>, now: Timestamp) -> Result<
    Seq<ResolvedView>,
    SinditSenMLError,
> {
    match run(recs, now, recs.len() as int) {
        Ok((_, out)) => Ok(out),
        Err(e) => Err(e),
    }
}

pub open spec fn views(v: Seq<SenMLResolvedRecord>) -> Seq<ResolvedView> {
    v.map_values(|x: SenMLResolvedRecord| x@)
}

/// An error stops the resolution for good.
pub proof fn lemma_error_persists(recs: Seq<SenMLRecord>, now: Timestamp, i: int, k: int)
    requires
        0 <= i <= k,
        run(recs, now, i) is Err,
    ensures
        run(recs, now, k) == run(recs, now, i),
    decreases k - i,
{
    if k > i {
        lemma_error_persists(recs, now, i, k - 1);
    }
}

proof fn lemma_timestamp_at(t: Timestamp)
    requires
        t.wf(),
    ensures
        timestamp_at(t.total_nanos()) == t,
{
    lemma_fundamental_div_mod_converse(
        t.total_nanos(),
        NANOS_PER_SECOND as int,
        t.seconds as int,
        t.nanos as int,
    );
}

/// A record's number offset by its base, or `None` where the sum cannot be
/// held.
fn apply_offset(base: Option<Decimal>, own: Option<Decimal>) -> (r: Option<Option<Decimal>>)
    ensures
        r is Some <==> offset_fits(base, own),
        r matches Some(x) ==> x == offset(base, own),
{
    match (base, own) {
        (Some(b), Some(x)) => match b.add(x) {
            Some(s) => Some(Some(s)),
            None => None,
        },
        (Some(b), None) => Some(Some(b)),
        (None, x) => Some(x),
    }
}

/// The value of a record, from its own value fields and the base value in
/// force.
pub fn resolve_value(record: &SenMLRecord, base_value: &Option<Decimal>, index: usize) -> (r:
    Result<Option<SenMLValueField>, SinditSenMLError>)
    ensures
        match value_outcome(*record, *base_value, index as int) {
            Ok(v) => r matches Ok(x) && match x {
                Some(f) => v == Some(f@),
                None => v is None,
            },
            Err(e) => r == Err::<Option<SenMLValueField>, SinditSenMLError>(e),
        },
{
    match record.value {
        Some(value) => {
            if record.string_value.is_some() || record.bool_value.is_some()
                || record.data_value.is_some() {
                return Err(SinditSenMLError::OnlyOneValuePerRecord(index));
            }
            match apply_offset(*base_value, Some(value)) {
                Some(Some(v)) => Ok(Some(SenMLValueField::FloatingPoint(v))),
                _ => Err(SinditSenMLError::ValueOutOfRange(index)),
            }
        },
        None => match &record.string_value {
            Some(value) => {
                if record.bool_value.is_some() || record.data_value.is_some() {
                    return Err(SinditSenMLError::OnlyOneValuePerRecord(index));
                }
                Ok(Some(SenMLValueField::StringValue(value.clone())))
            },
            None => match record.bool_value {
                Some(value) => {
                    if record.data_value.is_some() {
                        return Err(SinditSenMLError::OnlyOneValuePerRecord(index));
                    }
                    Ok(Some(SenMLValueField::BooleanValue(value)))
                },
                None => match &record.data_value {
                    Some(text) => match decode_url_safe(text.as_str()) {
                        Some(bytes) => Ok(Some(SenMLValueField::DataValue(bytes))),
                        None => Err(SinditSenMLError::InvalidBase64Value(index)),
                    },
                    None => match base_value {
                        Some(b) => Ok(Some(SenMLValueField::FloatingPoint(*b))),
                        None => Ok(None),
                    },
                },
            },
        },
    }
}

/// Resolves one record in the given context, which it then updates.
#[verifier::rlimit(50)]
pub fn resolve_record(
    ctx: &mut ResolutionContext,
    record: SenMLRecord,
    index: usize,
    now: Timestamp,
) -> (r: Result<SenMLResolvedRecord, SinditSenMLError>)
    requires
        now.wf(),
    ensures
        match record_outcome(old(ctx)@, record, index as int, now) {
            Ok((c, v)) => r matches Ok(x) && x@ == v && final(ctx)@ == c,
            Err(e) => r == Err::<SenMLResolvedRecord, SinditSenMLError>(e),
        },
{
    if let Some(b) = &record.base_name {
        ctx.base_name = Some(b.clone());
    }
    if let Some(t) = record.base_time {
        ctx.base_time = Some(t);
    }
    if let Some(u) = &record.base_unit {
        ctx.base_unit = Some(u.clone());
    }
    if let Some(v) = record.base_value {
        ctx.base_value = Some(v);
    }
    if let Some(s) = record.base_sum {
        ctx.base_sum = Some(s);
    }
    match record.base_version {
        Some(given) => match ctx.base_version {
            Some(current) => {
                if current != given {
                    return Err(SinditSenMLError::DifferentBaseVersion);
                }
            },
            None => {
                if given == 0 {
                    return Err(SinditSenMLError::InvalidVersionNumber);
                }
                ctx.base_version = Some(given);
            },
        },
        None => {
            if ctx.base_version.is_none() {
                ctx.base_version = Some(DEFAULT_VERSION);
            }
        },
    }
    let name: String = match &record.name {
        Some(own) => match &ctx.base_name {
            Some(base) => base.clone().concat(own.as_str()),
            None => own.clone(),
        },
        None => match &ctx.base_name {
            Some(base) => base.clone(),
            None => return Err(SinditSenMLError::MissingName(index)),
        },
    };
    if !validate_name(name.as_str()) {
        return Err(SinditSenMLError::InvalidNameInRecord(index));
    }
    let value = match resolve_value(&record, &ctx.base_value, index) {
        Ok(v) => v,
        Err(e) => return Err(e),
    };
    let seconds = match apply_offset(ctx.base_time, record.time) {
        Some(Some(t)) => t,
        Some(None) => Decimal::zero(),
        None => return Err(SinditSenMLError::InvalidTimeInRecord(index)),
    };
    let time = match convert_senml_time(seconds, now) {
        Some(t) => t,
        None => return Err(SinditSenMLError::InvalidTimeInRecord(index)),
    };
    proof {
        lemma_timestamp_at(time);
    }
    let sum = match apply_offset(ctx.base_sum, record.sum) {
        Some(s) => s,
        None => return Err(SinditSenMLError::ValueOutOfRange(index)),
    };
    let value = if value.is_none() && sum.is_none() {
        Some(SenMLValueField::FloatingPoint(Decimal::zero()))
    } else {
        value
    };
    let version = match ctx.base_version {
        Some(v) => v,
        None => DEFAULT_VERSION,
    };
    let unit = match record.unit {
        Some(u) => Some(u),
        None => ctx.base_unit.clone(),
    };
    let extra_fields = match record.extra_fields {
        Some(e) => if e.len() == 0 {
            None
        } else {
            Some(e)
        },
        None => None,
    };
    Ok(
        SenMLResolvedRecord {
            name,
            unit,
            value,
            sum,
            time,
            update_time: record.update_time,
            base_version: if version == DEFAULT_VERSION {
                None
            } else {
                Some(version)
            },
            extra_fields,
        },
    )
}

/// Resolves a pack, record by record from the first, with `now` as the
/// reference of relative times: all resolved records, or the first error.
pub fn resolve_records(records: Vec<SenMLRecord>, now: Timestamp) -> (r: Result<
    Vec<SenMLResolvedRecord>,
    SinditSenMLError,
>)
    requires
        now.wf(),
    ensures
        match resolution(records@, now) {
            Ok(out) => r matches Ok(v) && views(v@) == out,
            Err(e) => r == Err::<Vec<SenMLResolvedRecord>, SinditSenMLError>(e),
        },
{
    let ghost recs = records@;
    let n = records.len();
    let mut source = records;
    let mut pending: Vec<SenMLRecord> = Vec::new();
    while source.len() > 0
        invariant
            recs == records@,
            n == recs.len(),
            source.len() + pending.len() == n,
            forall|j: int| 0 <= j < source.len() ==> source@[j] == recs[j],
            forall|j: int| 0 <= j < pending.len() ==> pending@[j] == recs[n - 1 - j],
        decreases source.len(),
    {
        let rec = source.pop().unwrap();
        pending.push(rec);
    }
    let mut ctx = ResolutionContext::new();
    let mut out: Vec<SenMLResolvedRecord> = Vec::new();
    let mut i: usize = 0;
    assert(views(out@) =~= Seq::empty());
    while i < n
        invariant
            recs == records@,
            n == recs.len(),
            now.wf(),
            i <= n,
            pending.len() == n - i,
            forall|j: int| 0 <= j < pending.len() ==> pending@[j] == recs[n - 1 - j],
            run(recs, now, i as int) == Ok::<(ContextView, Seq<ResolvedView>), SinditSenMLError>(
                (ctx@, views(out@)),
            ),
        decreases n - i,
    {
        let rec = pending.pop().unwrap();
        assert(rec == recs[i as int]);
        match resolve_record(&mut ctx, rec, i, now) {
            Ok(resolved) => {
                let ghost before = out@;
                out.push(resolved);
                assert(views(out@) =~= views(before).push(resolved@));
            },
            Err(e) => {
                proof {
                    assert(run(recs, now, i + 1) == Err::<(ContextView, Seq<ResolvedView>), SinditSenMLError>(e));
                    lemma_error_persists(recs, now, i + 1, n as int);
                }
                return Err(e);
            },
        }
        i = i + 1;
    }
    Ok(out)
}

} // verus!
