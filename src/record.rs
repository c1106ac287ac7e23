//! Raw SenML records, resolved records, and the errors of resolution.
use crate::number::Decimal;
use crate::time::Timestamp;
use vstd::prelude::*;

verus! {

#[verifier::external_type_specification]
#[verifier::external_body]
pub struct ExJsonValue(serde_json::Value);

/// Fields of a record that SenML does not define, kept as they came.
pub type ExtraFields = Vec<(String, serde_json::Value)>;

/// One record of a SenML pack, as written: base fields apply to this record
/// and to those that follow it.
#[derive(Clone, Debug, PartialEq)]
pub struct SenMLRecord {
    pub base_name: Option<String>,
    pub base_time: Option<Decimal>,
    pub base_unit: Option<String>,
    pub base_value: Option<Decimal>,
    pub base_sum: Option<Decimal>,
    pub base_version: Option<u64>,
    pub name: Option<String>,
    pub unit: Option<String>,
    pub value: Option<Decimal>,
    pub string_value: Option<String>,
    pub bool_value: Option<bool>,
    pub data_value: Option<String>,
    pub sum: Option<Decimal>,
    pub time: Option<Decimal>,
    pub update_time: Option<Decimal>,
    pub extra_fields: Option<ExtraFields>,
}

pub open spec fn text_view(s: Option<String>) -> Option<Seq<char>> {
    match s {
        Some(t) => Some(t@),
        None => None,
    }
}

impl SenMLRecord {
    /// A record with no field set.
    pub fn empty() -> (r: SenMLRecord)
        ensures
            r.base_name is None && r.base_time is None && r.base_unit is None,
            r.base_value is None && r.base_sum is None && r.base_version is None,
            r.name is None && r.unit is None && r.value is None,
            r.string_value is None && r.bool_value is None && r.data_value is None,
            r.sum is None && r.time is None && r.update_time is None,
            r.extra_fields is None,
    {
        SenMLRecord {
            base_name: None,
            base_time: None,
            base_unit: None,
            base_value: None,
            base_sum: None,
            base_version: None,
            name: None,
            unit: None,
            value: None,
            string_value: None,
            bool_value: None,
            data_value: None,
            sum: None,
            time: None,
            update_time: None,
            extra_fields: None,
        }
    }
}

/// The value of a resolved record: one of four kinds.
#[derive(Clone, Debug, PartialEq)]
pub enum SenMLValueField {
    BooleanValue(bool),
    StringValue(String),
    DataValue(Vec<u8>),
    FloatingPoint(Decimal),
}

/// What a [`SenMLValueField`] holds.
pub enum ValueView {
    Boolean(bool),
    Text(Seq<char>),
    Data(Seq<u8>),
    Number(Decimal),
}

impl View for SenMLValueField {
    type V = ValueView;

    open spec fn view(&self) -> ValueView {
        match self {
            SenMLValueField::BooleanValue(b) => ValueView::Boolean(*b),
            SenMLValueField::StringValue(s) => ValueView::Text(s@),
            SenMLValueField::DataValue(d) => ValueView::Data(d@),
            SenMLValueField::FloatingPoint(x) => ValueView::Number(*x),
        }
    }
}

impl SenMLValueField {
    pub fn as_bool(&self) -> (r: Option<&bool>)
        ensures
            r matches Some(b) ==> self@ == ValueView::Boolean(*b),
            r is None ==> !(self@ is Boolean),
    {
        if let SenMLValueField::BooleanValue(value) = self {
            Some(value)
        } else {
            None
        }
    }

    pub fn as_string(&self) -> (r: Option<&String>)
        ensures
            r matches Some(s) ==> self@ == ValueView::Text(s@),
            r is None ==> !(self@ is Text),
    {
        if let SenMLValueField::StringValue(value) = self {
            Some(value)
        } else {
            None
        }
    }

    pub fn as_data(&self) -> (r: Option<&Vec<u8>>)
        ensures
            r matches Some(d) ==> self@ == ValueView::Data(d@),
            r is None ==> !(self@ is Data),
    {
        if let SenMLValueField::DataValue(value) = self {
            Some(value)
        } else {
            None
        }
    }

    pub fn as_float(&self) -> (r: Option<&Decimal>)
        ensures
            r matches Some(x) ==> self@ == ValueView::Number(*x),
            r is None ==> !(self@ is Number),
    {
        if let SenMLValueField::FloatingPoint(value) = self {
            Some(value)
        } else {
            None
        }
    }
}

/// A record with every base field applied: it needs no other record to be
/// read.
#[derive(Clone, Debug, PartialEq)]
pub struct SenMLResolvedRecord {
    /// The base name followed by the record's own name; never empty.
    pub name: String,
    pub unit: Option<String>,
    /// Absent only where a sum is present.
    pub value: Option<SenMLValueField>,
    pub sum: Option<Decimal>,
    pub time: Timestamp,
    pub update_time: Option<Decimal>,
    /// The version of the pack, where it is not the default 10.
    pub base_version: Option<u64>,
    /// Present only where not empty.
    pub extra_fields: Option<ExtraFields>,
}

/// What a [`SenMLResolvedRecord`] holds.
pub struct ResolvedView {
    pub name: Seq<char>,
    pub unit: Option<Seq<char>>,
    pub value: Option<ValueView>,
    pub sum: Option<Decimal>,
    pub time: Timestamp,
    pub update_time: Option<Decimal>,
    pub base_version: Option<u64>,
    pub extra_fields: Option<Seq<(String, serde_json::Value)>>,
}

impl View for SenMLResolvedRecord {
    type V = ResolvedView;

    open spec fn view(&self) -> ResolvedView {
        ResolvedView {
            name: self.name@,
            unit: text_view(self.unit),
            value: match self.value {
                Some(v) => Some(v@),
                None => None,
            },
            sum: self.sum,
            time: self.time,
            update_time: self.update_time,
            base_version: self.base_version,
            extra_fields: match self.extra_fields {
                Some(e) => Some(e@),
                None => None,
            },
        }
    }
}

impl SenMLResolvedRecord {
    pub fn get_bool_value(&self) -> (r: Option<bool>)
        ensures
            r matches Some(b) ==> self@.value == Some(ValueView::Boolean(b)),
            r is None ==> !(self@.value matches Some(ValueView::Boolean(_))),
    {
        match &self.value {
            Some(v) => match v.as_bool() {
                Some(b) => Some(*b),
                None => None,
            },
            None => None,
        }
    }

    pub fn get_string_value(&self) -> (r: Option<&String>)
        ensures
            r matches Some(s) ==> self@.value == Some(ValueView::Text(s@)),
            r is None ==> !(self@.value matches Some(ValueView::Text(_))),
    {
        match &self.value {
            Some(v) => v.as_string(),
            None => None,
        }
    }

    pub fn get_data_value(&self) -> (r: Option<&Vec<u8>>)
        ensures
            r matches Some(d) ==> self@.value == Some(ValueView::Data(d@)),
            r is None ==> !(self@.value matches Some(ValueView::Data(_))),
    {
        match &self.value {
            Some(v) => v.as_data(),
            None => None,
        }
    }

    pub fn get_float_value(&self) -> (r: Option<Decimal>)
        ensures
            r matches Some(x) ==> self@.value == Some(ValueView::Number(x)),
            r is None ==> !(self@.value matches Some(ValueView::Number(_))),
    {
        match &self.value {
            Some(v) => match v.as_float() {
                Some(x) => Some(*x),
                None => None,
            },
            None => None,
        }
    }
}

/// Why a pack could not be resolved. An index is that of the offending
/// record, counted from zero.
#[derive(Clone, Copy, Debug, PartialEq, Eq, Structural)]
pub enum SinditSenMLError {
    /// Neither a base name nor a name applies.
    MissingName(usize),
    /// The resolved name breaks the naming rule.
    InvalidNameInRecord(usize),
    /// The time cannot be held as a point in time.
    InvalidTimeInRecord(usize),
    /// A record gives a version other than the pack's.
    DifferentBaseVersion,
    /// More than one kind of value is given.
    OnlyOneValuePerRecord(usize),
    /// The binary value is not unpadded URL-safe base64.
    InvalidBase64Value(usize),
    /// The first version given is zero.
    InvalidVersionNumber,
    /// A value or sum plus its base is beyond `10^i32::MAX`: the exponent of
    /// the sum does not fit an `i32`.
    ValueOutOfRange(usize),
}

} // verus!
