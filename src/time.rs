//! Conversion between SenML time values and points in time.
//!
//! A SenML time is a number of seconds. Values of at least 2^28 seconds are
//! absolute (counted from the Unix epoch); smaller values, negative ones
//! included, are relative to a reference time ("now"). Sub-second parts are
//! kept to the nanosecond, rounded toward zero.
use crate::number::{canonical, lemma_pow10_add, lemma_pow10_positive, normalize, pow10, Decimal};
use vstd::prelude::*;

verus! {

pub const NANOS_PER_SECOND: i128 = 1_000_000_000;

/// Unix time of January 1 of the year -262143, the earliest instant chrono holds.
pub const MIN_SECONDS: i64 = -8_334_601_228_800;

/// Unix time of the last second of December 31 of the year 262142, the latest
/// whole second chrono holds.
pub const MAX_SECONDS: i64 = 8_210_266_876_799;

/// 2^28 seconds: time values at or above it are absolute.
pub const ABSOLUTE_THRESHOLD: i128 = 268_435_456;

/// Relies on chrono's `DateTime::<Utc>::from_timestamp`: for nanoseconds below
/// one second it returns a value exactly when the seconds lie between
/// `MIN_SECONDS` and `MAX_SECONDS`. The result tells whether it did.
#[verifier::external_body]
fn utc_accepts(seconds: i64, nanos: u32) -> (r: bool)
    requires
        nanos < 1_000_000_000,
    ensures
        r <==> MIN_SECONDS <= seconds <= MAX_SECONDS,
{
    match chrono::DateTime::<chrono::Utc>::from_timestamp(seconds, nanos) {
        Some(_) => true,
        None => false,
    }
}

/// A point in time: whole seconds since the Unix epoch (rounded down) and the
/// nanoseconds past that second.
#[derive(Clone, Copy, Debug, PartialEq, Eq, Structural)]
pub struct Timestamp {
    pub seconds: i64,
    pub nanos: u32,
}

impl Timestamp {
    pub open spec fn wf(self) -> bool {
        &&& self.nanos < NANOS_PER_SECOND
        &&& MIN_SECONDS <= self.seconds <= MAX_SECONDS
    }

    /// Nanoseconds since the Unix epoch.
    pub open spec fn total_nanos(self) -> int {
        self.seconds * NANOS_PER_SECOND + self.nanos
    }

    /// Whether an instant, in nanoseconds since the Unix epoch, can be held.
    pub open spec fn in_range(total: int) -> bool {
        MIN_SECONDS * NANOS_PER_SECOND <= total < (MAX_SECONDS + 1) * NANOS_PER_SECOND
    }

    /// The point `seconds` + `nanos` after the epoch, if it can be held.
    pub fn new(seconds: i64, nanos: u32) -> (r: Option<Timestamp>)
        ensures
            r is Some <==> (nanos < NANOS_PER_SECOND && MIN_SECONDS <= seconds <= MAX_SECONDS),
            r matches Some(t) ==> t.wf() && t.seconds == seconds && t.nanos == nanos,
    {
        if nanos >= 1_000_000_000 {
            return None;
        }
        if utc_accepts(seconds, nanos) {
            Some(Timestamp { seconds, nanos })
        } else {
            None
        }
    }

    /// Whole seconds since the Unix epoch.
    pub fn timestamp(&self) -> (r: i64)
        ensures
            r == self.seconds,
    {
        self.seconds
    }

    /// Nanoseconds past the whole second.
    pub fn timestamp_subsec_nanos(&self) -> (r: u32)
        ensures
            r == self.nanos,
    {
        self.nanos
    }

    /// The point `total` nanoseconds after the epoch, if it can be held.
    pub fn from_total_nanos(total: i128) -> (r: Option<Timestamp>)
        ensures
            r is Some <==> Timestamp::in_range(total as int),
            r matches Some(t) ==> t.wf() && t.total_nanos() == total,
    {
        let limit: i128 = 100_000_000_000_000_000_000_000;
        if total > limit || total < -limit {
            return None;
        }
        let p: i128 = NANOS_PER_SECOND;
        let (seconds, nanos) = if total >= 0 {
            (total / p, total % p)
        } else {
            let q = (-total - 1) / p;
            (-q - 1, total + (q + 1) * p)
        };
        assert(seconds * p + nanos == total);
        assert(0 <= nanos < p);
        if utc_accepts(seconds as i64, nanos as u32) {
            Some(Timestamp { seconds: seconds as i64, nanos: nanos as u32 })
        } else {
            None
        }
    }
}

/// Whether a SenML time value is absolute: at least 2^28 seconds.
pub open spec fn is_absolute(seconds: Decimal) -> bool {
    seconds.truncated(9) >= ABSOLUTE_THRESHOLD * NANOS_PER_SECOND
}

/// Whether the number `seconds` is at least 2^28, compared exactly.
pub open spec fn at_least_threshold(seconds: Decimal) -> bool {
    if seconds.exponent >= 0 {
        seconds.mantissa * pow10(seconds.exponent as nat) >= ABSOLUTE_THRESHOLD
    } else {
        seconds.mantissa >= ABSOLUTE_THRESHOLD * pow10((-seconds.exponent) as nat)
    }
}

/// A time value is absolute exactly when it is at least 2^28 seconds: taking
/// it to the nanosecond first does not move it across the threshold.
pub proof fn lemma_absolute_threshold(seconds: Decimal)
    ensures
        is_absolute(seconds) <==> at_least_threshold(seconds),
{
    let m = seconds.mantissa as int;
    let e = seconds.exponent as int;
    let t = ABSOLUTE_THRESHOLD as int;
    reveal_with_fuel(pow10, 10);
    assert(pow10(9) == 1_000_000_000);
    if e >= 0 {
        lemma_pow10_add(e as nat, 9);
        let x = m * pow10(e as nat);
        assert(m * pow10((e + 9) as nat) == x * 1_000_000_000) by (nonlinear_arith)
            requires
                pow10((e + 9) as nat) == pow10(e as nat) * pow10(9),
                pow10(9) == 1_000_000_000,
                x == m * pow10(e as nat),
        ;
    } else if e >= -9 {
        let a = (-e) as nat;
        let b = (e + 9) as nat;
        lemma_pow10_add(a, b);
        lemma_pow10_positive(b);
        assert(a + b == 9);
        let pa = pow10(a);
        let pb = pow10(b);
        assert(m * pb >= t * 1_000_000_000 <==> m >= t * pa) by (nonlinear_arith)
            requires
                pa * pb == 1_000_000_000,
                pb >= 1,
        ;
    } else {
        let k = (-(e + 9)) as nat;
        lemma_pow10_add(9, k);
        lemma_pow10_positive(k);
        let p = pow10(k);
        assert(pow10((-e) as nat) == 1_000_000_000 * p);
        if m >= 0 {
            let q = m / p;
            vstd::arithmetic::div_mod::lemma_fundamental_div_mod(m, p);
            assert(q >= t * 1_000_000_000 <==> m >= t * (1_000_000_000 * p)) by (nonlinear_arith)
                requires
                    p >= 1,
                    m == p * q + m % p,
                    0 <= m % p < p,
            ;
        } else {
            assert(-m >= 0);
            vstd::arithmetic::div_mod::lemma_div_pos_is_pos(-m, p);
            assert(t * (1_000_000_000 * p) > 0) by (nonlinear_arith)
                requires
                    p >= 1,
                    t > 0,
            ;
        }
    }
}

/// The instant a SenML time value denotes, in nanoseconds since the epoch:
/// the value itself when absolute, else `now` moved by the value; the value
/// is taken to the nanosecond, rounded toward zero.
pub open spec fn senml_instant(seconds: Decimal, now: Timestamp) -> int {
    if is_absolute(seconds) {
        seconds.truncated(9)
    } else {
        now.total_nanos() + seconds.truncated(9)
    }
}

/// Converts a SenML time value to a point in time, with `now` as the
/// reference of relative values. `None` where the instant cannot be held.
pub fn convert_senml_time(seconds: Decimal, now: Timestamp) -> (r: Option<Timestamp>)
    requires
        now.wf(),
    ensures
        r is Some <==> Timestamp::in_range(senml_instant(seconds, now)),
        r matches Some(t) ==> t.wf() && t.total_nanos() == senml_instant(seconds, now),
{
    let limit: i128 = 1_000_000_000_000_000_000_000_000;
    let n = match seconds.truncate_scaled(9) {
        Some(n) => n,
        None => return None,
    };
    if n > limit || n < -limit {
        return None;
    }
    let threshold: i128 = ABSOLUTE_THRESHOLD * NANOS_PER_SECOND;
    let total = if n >= threshold {
        n
    } else {
        now.seconds as i128 * NANOS_PER_SECOND + now.nanos as i128 + n
    };
    Timestamp::from_total_nanos(total)
}

/// A point in time as SenML seconds: the whole seconds, and, where the point
/// has a sub-second part, the exact decimal number of seconds.
pub fn datetime_to_timestamp(datetime: &Timestamp) -> (r: (i64, Option<Decimal>))
    requires
        datetime.wf(),
    ensures
        r.0 == datetime.seconds,
        r.1 is Some <==> datetime.nanos > 0,
        r.1 matches Some(d) ==> d.pair() == canonical(datetime.total_nanos(), -9),
{
    if datetime.nanos == 0 {
        return (datetime.seconds, None);
    }
    let total: i128 = datetime.seconds as i128 * NANOS_PER_SECOND + datetime.nanos as i128;
    let (m, e) = normalize(total, -9);
    (datetime.seconds, Some(Decimal { mantissa: m, exponent: e as i32 }))
}

} // verus!
