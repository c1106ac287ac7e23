//! The fields a resolved record is written with, in order.
use crate::encoding::{encode_url_safe, url_safe_decoded, url_safe_encoded};
use crate::number::{canonical, Decimal};
use crate::number_text::json_text;
use crate::record::{ResolvedView, SenMLResolvedRecord, SenMLValueField, ValueView};
use crate::resolve::decimal_of;
use crate::time::datetime_to_timestamp;
use vstd::prelude::*;
use vstd::string::StringExecFns;

verus! {

/// A field value as written: text, a boolean, or a JSON number literal.
#[derive(Clone, Debug, PartialEq)]
pub enum WireValue {
    Text(String),
    Boolean(bool),
    Number(String),
}

pub enum WireView {
    Text(Seq<char>),
    Boolean(bool),
    Number(Seq<char>),
}

impl View for WireValue {
    type V = WireView;

    open spec fn view(&self) -> WireView {
        match self {
            WireValue::Text(s) => WireView::Text(s@),
            WireValue::Boolean(b) => WireView::Boolean(*b),
            WireValue::Number(s) => WireView::Number(s@),
        }
    }
}

pub open spec fn field_views(v: Seq<(String, WireValue)>) -> Seq<(Seq<char>, WireView)> {
    v.map_values(|f: (String, WireValue)| (f.0@, f.1@))
}

pub open spec fn integer_text(x: int) -> Seq<char> {
    json_text(Decimal { mantissa: x as i128, exponent: 0 })
}

/// The time as written: whole seconds as an integer where there is no
/// sub-second part, else the exact decimal number of seconds.
pub open spec fn time_text(r: ResolvedView) -> Seq<char> {
    if r.time.nanos == 0 {
        integer_text(r.time.seconds as int)
    } else {
        json_text(decimal_of(canonical(r.time.total_nanos(), -9)))
    }
}

pub open spec fn optional_field(key: Seq<char>, v: Option<WireView>) -> Seq<(Seq<char>, WireView)> {
    match v {
        Some(x) => seq![(key, x)],
        None => Seq::empty(),
    }
}

pub open spec fn value_field(v: Option<ValueView>) -> Seq<(Seq<char>, WireView)> {
    match v {
        Some(ValueView::Number(x)) => seq![(seq!['v'], WireView::Number(json_text(x)))],
        Some(ValueView::Text(s)) => seq![(seq!['v', 's'], WireView::Text(s))],
        Some(ValueView::Boolean(b)) => seq![(seq!['v', 'b'], WireView::Boolean(b))],
        Some(ValueView::Data(d)) => seq![(seq!['v', 'd'], WireView::Text(url_safe_encoded(d)))],
        None => Seq::empty(),
    }
}

/// The named fields of a resolved record, in the order they are written:
/// name, unit, the value under the key of its kind, sum, time, update time and
/// version, each optional one only where present.
pub open spec fn wire_fields_of(r: ResolvedView) -> Seq<(Seq<char>, WireView)> {
    seq![(seq!['n'], WireView::Text(r.name))] + optional_field(
        seq!['u'],
        match r.unit {
            Some(u) => Some(WireView::Text(u)),
            None => None,
        },
    ) + value_field(r.value) + optional_field(
        seq!['s'],
        match r.sum {
            Some(x) => Some(WireView::Number(json_text(x))),
            None => None,
        },
    ) + seq![(seq!['t'], WireView::Number(time_text(r)))] + optional_field(
        seq!['u', 't'],
        match r.update_time {
            Some(x) => Some(WireView::Number(json_text(x))),
            None => None,
        },
    ) + optional_field(
        seq!['b', 'v', 'e', 'r'],
        match r.base_version {
            Some(v) => Some(WireView::Number(integer_text(v as int))),
            None => None,
        },
    )
}

fn push_field(out: &mut Vec<(String, WireValue)>, k: &str, v: WireValue)
    ensures
        field_views(final(out)@) == field_views(old(out)@) + seq![(k@, v@)],
{
    out.push((String::from_str(k), v));
    assert(field_views(out@) =~= field_views(old(out)@) + seq![(k@, v@)]);
}

impl SenMLResolvedRecord {
    /// The named fields of the record as they are written, in order; the
    /// extra fields follow them. The text of a binary value decodes back to
    /// the same bytes.
    pub fn wire_fields(&self) -> (r: Vec<(String, WireValue)>)
        requires
            self.time.wf(),
        ensures
            field_views(r@) == wire_fields_of(self@),
            self@.value matches Some(ValueView::Data(d)) ==> url_safe_decoded(url_safe_encoded(d))
                == Some(d),
    {
        proof {
            reveal_strlit("n");
            reveal_strlit("u");
            reveal_strlit("v");
            reveal_strlit("vs");
            reveal_strlit("vb");
            reveal_strlit("vd");
            reveal_strlit("s");
            reveal_strlit("t");
            reveal_strlit("ut");
            reveal_strlit("bver");
            assert("n"@ =~= seq!['n']);
            assert("u"@ =~= seq!['u']);
            assert("v"@ =~= seq!['v']);
            assert("vs"@ =~= seq!['v', 's']);
            assert("vb"@ =~= seq!['v', 'b']);
            assert("vd"@ =~= seq!['v', 'd']);
            assert("s"@ =~= seq!['s']);
            assert("t"@ =~= seq!['t']);
            assert("ut"@ =~= seq!['u', 't']);
            assert("bver"@ =~= seq!['b', 'v', 'e', 'r']);
        }
        let ghost spec_fields = wire_fields_of(self@);
        let mut out: Vec<(String, WireValue)> = Vec::new();
        assert(field_views(out@) =~= Seq::empty());
        let name = self.name.clone();
        assert(name@ == self.name@);
        push_field(&mut out, "n", WireValue::Text(name));
        let ghost expected = seq![(seq!['n'], WireView::Text(self@.name))];
        assert(field_views(out@) =~= expected);
        if let Some(u) = &self.unit {
            let text = u.clone();
            assert(text@ == u@);
            push_field(&mut out, "u", WireValue::Text(text));
            assert(self@.unit == Some(u@));
        }
        let ghost expected = expected + optional_field(
            seq!['u'],
            match self@.unit {
                Some(u) => Some(WireView::Text(u)),
                None => None,
            },
        );
        assert(field_views(out@) =~= expected);
        match &self.value {
            Some(SenMLValueField::FloatingPoint(x)) => {
                push_field(&mut out, "v", WireValue::Number(x.to_json_text()));
            },
            Some(SenMLValueField::StringValue(s)) => {
                let text = s.clone();
                assert(text@ == s@);
                push_field(&mut out, "vs", WireValue::Text(text));
            },
            Some(SenMLValueField::BooleanValue(b)) => {
                push_field(&mut out, "vb", WireValue::Boolean(*b));
            },
            Some(SenMLValueField::DataValue(d)) => {
                push_field(&mut out, "vd", WireValue::Text(encode_url_safe(d)));
            },
            None => {},
        }
        let ghost expected = expected + value_field(self@.value);
        assert(field_views(out@) =~= expected);
        if let Some(x) = &self.sum {
            push_field(&mut out, "s", WireValue::Number(x.to_json_text()));
        }
        let ghost expected = expected + optional_field(
            seq!['s'],
            match self@.sum {
                Some(x) => Some(WireView::Number(json_text(x))),
                None => None,
            },
        );
        assert(field_views(out@) =~= expected);
        let (seconds, precise) = datetime_to_timestamp(&self.time);
        let time_literal = match precise {
            Some(d) => {
                assert(d == decimal_of(d.pair()));
                d.to_json_text()
            },
            None => Decimal { mantissa: seconds as i128, exponent: 0 }.to_json_text(),
        };
        push_field(&mut out, "t", WireValue::Number(time_literal));
        let ghost expected = expected + seq![(seq!['t'], WireView::Number(time_text(self@)))];
        assert(field_views(out@) =~= expected);
        if let Some(x) = &self.update_time {
            push_field(&mut out, "ut", WireValue::Number(x.to_json_text()));
        }
        let ghost expected = expected + optional_field(
            seq!['u', 't'],
            match self@.update_time {
                Some(x) => Some(WireView::Number(json_text(x))),
                None => None,
            },
        );
        assert(field_views(out@) =~= expected);
        if let Some(v) = self.base_version {
            push_field(&mut out, "bver", WireValue::Number(Decimal { mantissa: v as i128, exponent: 0 }.to_json_text()));
        }
        let ghost expected = expected + optional_field(
            seq!['b', 'v', 'e', 'r'],
            match self@.base_version {
                Some(v) => Some(WireView::Number(integer_text(v as int))),
                None => None,
            },
        );
        assert(field_views(out@) =~= expected);
        assert(expected =~= spec_fields);
        out
    }
}

} // verus!
