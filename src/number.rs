//! Decimal numbers.
//!
//! A [`Decimal`] is `mantissa * 10^exponent`. Sums are exact wherever they
//! fit an `i128` mantissa, and are otherwise taken toward zero at the first
//! power of ten where they do. Results of arithmetic are kept
//! in canonical form: no trailing zero digit in the mantissa, and zero is
//! written with exponent zero, so that two canonical decimals denote the same
//! number exactly when their fields are equal.
use vstd::arithmetic::div_mod::lemma_div_denominator;
use vstd::prelude::*;

verus! {

/// `10^n`.
pub open spec fn pow10(n: nat) -> int
    decreases n,
{
    if n == 0 {
        1
    } else {
        10 * pow10((n - 1) as nat)
    }
}

pub open spec fn abs(x: int) -> int {
    if x < 0 {
        -x
    } else {
        x
    }
}

pub open spec fn fits_i128(x: int) -> bool {
    i128::MIN <= x <= i128::MAX
}

/// The canonical `(mantissa, exponent)` pair denoting `m * 10^e`.
pub open spec fn canonical(m: int, e: int) -> (int, int)
    decreases abs(m),
{
    if m == 0 {
        (0, 0)
    } else if m % 10 == 0 {
        canonical(m / 10, e + 1)
    } else {
        (m, e)
    }
}

pub proof fn lemma_pow10_positive(n: nat)
    ensures
        pow10(n) >= 1,
    decreases n,
{
    if n > 0 {
        lemma_pow10_positive((n - 1) as nat);
    }
}

pub proof fn lemma_pow10_add(a: nat, b: nat)
    ensures
        pow10(a + b) == pow10(a) * pow10(b),
    decreases a,
{
    if a == 0 {
        assert(pow10(0) == 1);
    } else {
        lemma_pow10_add((a - 1) as nat, b);
        let x = pow10((a - 1) as nat);
        let y = pow10(b);
        assert(pow10(a + b) == 10 * pow10((a - 1 + b) as nat));
        assert(pow10(a) == 10 * x);
        assert((10 * x) * y == 10 * (x * y)) by (nonlinear_arith);
    }
}

pub proof fn lemma_pow10_monotone(a: nat, b: nat)
    requires
        a <= b,
    ensures
        pow10(a) <= pow10(b),
{
    lemma_pow10_add(a, (b - a) as nat);
    lemma_pow10_positive(a);
    lemma_pow10_positive((b - a) as nat);
    assert(pow10(a) * pow10((b - a) as nat) >= pow10(a)) by (nonlinear_arith)
        requires
            pow10(a) >= 1,
            pow10((b - a) as nat) >= 1,
    ;
}

pub proof fn lemma_pow10_39()
    ensures
        pow10(39) > i128::MAX + 1,
{
    reveal_with_fuel(pow10, 40);
}

/// Magnitudes only grow when multiplied by a power of ten.
proof fn lemma_scaled_magnitude(x: int, n: nat)
    ensures
        abs(x * pow10(n)) >= abs(x),
{
    lemma_pow10_positive(n);
    let p = pow10(n);
    if x >= 0 {
        assert(x * p >= x) by (nonlinear_arith)
            requires
                x >= 0,
                p >= 1,
        ;
    } else {
        assert(x * p <= x) by (nonlinear_arith)
            requires
                x < 0,
                p >= 1,
        ;
    }
}

/// Division rounding toward zero.
pub open spec fn trunc_div(x: int, p: int) -> int {
    if x >= 0 {
        x / p
    } else {
        -((-x) / p)
    }
}

proof fn lemma_trunc_div_step(x: int, p: int)
    requires
        p >= 1,
    ensures
        trunc_div(trunc_div(x, p), 10) == trunc_div(x, p * 10),
{
    if x >= 0 {
        lemma_div_denominator(x, p, 10);
    } else {
        lemma_div_denominator(-x, p, 10);
        assert((-x) / p >= 0) by (nonlinear_arith)
            requires
                -x > 0,
                p >= 1,
        ;
    }
}

proof fn lemma_trunc_div_zero(x: int, p: int, q: int)
    requires
        p >= 1,
        q >= 1,
        trunc_div(x, p) == 0,
    ensures
        trunc_div(x, p * q) == 0,
{
    if x >= 0 {
        lemma_div_denominator(x, p, q);
    } else {
        lemma_div_denominator(-x, p, q);
    }
}

/// Stripping trailing zeros keeps the number denoted.
pub proof fn lemma_canonical_denotes(m: int, e: int)
    ensures
        canonical(m, e).1 >= e || m == 0,
        m == 0 || canonical(m, e).0 * pow10((canonical(m, e).1 - e) as nat) == m,
    decreases abs(m),
{
    if m != 0 && m % 10 == 0 {
        let q = m / 10;
        lemma_canonical_denotes(q, e + 1);
        let c = canonical(q, e + 1);
        let k = (c.1 - (e + 1)) as nat;
        assert(pow10((c.1 - e) as nat) == 10 * pow10(k));
        assert(c.0 * (10 * pow10(k)) == 10 * (c.0 * pow10(k))) by (nonlinear_arith);
    }
}

/// `mantissa * 10^exponent`.
#[derive(Clone, Copy, Debug, PartialEq, Eq, Structural)]
pub struct Decimal {
    pub mantissa: i128,
    pub exponent: i32,
}

impl Decimal {
    /// The fields as a pair of integers.
    pub open spec fn pair(self) -> (int, int) {
        (self.mantissa as int, self.exponent as int)
    }

    pub open spec fn is_canonical(self) -> bool {
        canonical(self.mantissa as int, self.exponent as int) == self.pair()
    }

    /// The number as an integer count of units of `10^at`; exact when
    /// `at <= self.exponent`.
    pub open spec fn scaled(self, at: int) -> int {
        self.mantissa * pow10((self.exponent - at) as nat)
    }

    pub open spec fn min_exponent(a: Decimal, b: Decimal) -> int {
        if a.exponent <= b.exponent {
            a.exponent as int
        } else {
            b.exponent as int
        }
    }

    /// `a + b` in units of `10^e`, each term taken toward zero to a whole
    /// number of units; exact where `e` is at most both exponents.
    pub open spec fn sum_at(a: Decimal, b: Decimal, e: int) -> int {
        a.truncated(-e) + b.truncated(-e)
    }

    /// Whether, in units of `10^e`, both terms and their sum fit an `i128`.
    pub open spec fn fits_at(a: Decimal, b: Decimal, e: int) -> bool {
        &&& fits_i128(a.truncated(-e))
        &&& fits_i128(b.truncated(-e))
        &&& fits_i128(Decimal::sum_at(a, b, e))
    }

    /// Whether `e` is the smallest exponent, from the smaller of the two
    /// exponents up, at which the sum can be held.
    pub open spec fn is_sum_exponent(a: Decimal, b: Decimal, e: int) -> bool {
        &&& Decimal::min_exponent(a, b) <= e
        &&& Decimal::fits_at(a, b, e)
        &&& forall|f: int|
            Decimal::min_exponent(a, b) <= f < e ==> !#[trigger] Decimal::fits_at(a, b, f)
    }

    pub open spec fn sum_exponent(a: Decimal, b: Decimal) -> int {
        choose|e: int| Decimal::is_sum_exponent(a, b, e)
    }

    /// The canonical pair denoting `a + b`: the exact sum where it can be
    /// held, else the sum taken toward zero at the first exponent where it
    /// can.
    pub open spec fn rounded_sum(a: Decimal, b: Decimal) -> (int, int) {
        let e = Decimal::sum_exponent(a, b);
        canonical(Decimal::sum_at(a, b, e), e)
    }

    /// `self * 10^digits`, rounded toward zero to an integer.
    pub open spec fn truncated(self, digits: int) -> int {
        let k = self.exponent + digits;
        if k >= 0 {
            self.mantissa * pow10(k as nat)
        } else {
            trunc_div(self.mantissa as int, pow10((-k) as nat))
        }
    }

    /// Zero.
    pub fn zero() -> (r: Decimal)
        ensures
            r.pair() == (0int, 0int),
            r.is_canonical(),
    {
        Decimal { mantissa: 0, exponent: 0 }
    }

    /// The canonical decimal denoting `mantissa * 10^exponent`, if its
    /// exponent fits an `i32`.
    pub fn new(mantissa: i128, exponent: i32) -> (r: Option<Decimal>)
        ensures
            r is Some <==> canonical(mantissa as int, exponent as int).1 <= i32::MAX,
            r matches Some(d) ==> d.pair() == canonical(mantissa as int, exponent as int),
    {
        let (m, e) = normalize(mantissa, exponent as i64);
        if e > i32::MAX as i64 {
            None
        } else {
            Some(Decimal { mantissa: m, exponent: e as i32 })
        }
    }

    /// The sum, in canonical form: exact where both terms, aligned to the
    /// smaller exponent, and their sum fit an `i128`; else taken toward zero
    /// at the first exponent where they do. `None` only where the exponent
    /// of the result does not fit an `i32`.
    pub fn add(self, other: Decimal) -> (r: Option<Decimal>)
        ensures
            Decimal::is_sum_exponent(self, other, Decimal::sum_exponent(self, other)),
            r is Some <==> Decimal::rounded_sum(self, other).1 <= i32::MAX,
            r matches Some(d) ==> d.pair() == Decimal::rounded_sum(self, other),
    {
        let (lo, hi) = if self.exponent <= other.exponent {
            (self, other)
        } else {
            (other, self)
        };
        let at: i64 = lo.exponent as i64;
        let top: i64 = hi.exponent as i64;
        let mut e: i64 = if hi.mantissa != 0 && top - 40 > at {
            top - 40
        } else {
            at
        };
        proof {
            assert forall|f: int| at <= f < e implies !#[trigger] Decimal::fits_at(self, other, f) by {
                if hi.mantissa != 0 && top - 40 > at {
                    lemma_too_fine(hi, f);
                }
            }
        }
        loop
            invariant
                (lo == self && hi == other) || (lo == other && hi == self),
                lo.exponent <= hi.exponent,
                at == lo.exponent,
                top == hi.exponent,
                at == Decimal::min_exponent(self, other),
                at <= e <= top + 1,
                forall|f: int| at <= f < e ==> !#[trigger] Decimal::fits_at(self, other, f),
            decreases top + 1 - e,
        {
            let x = self.truncate_scaled(-e);
            let y = other.truncate_scaled(-e);
            if let (Some(x), Some(y)) = (x, y) {
                if let Some(total) = x.checked_add(y) {
                    proof {
                        assert(Decimal::is_sum_exponent(self, other, e as int));
                        lemma_sum_exponent_unique(self, other, e as int);
                    }
                    let (m, ce) = normalize(total, e);
                    if ce > i32::MAX as i64 {
                        return None;
                    }
                    return Some(Decimal { mantissa: m, exponent: ce as i32 });
                }
            }
            proof {
                if e == top + 1 {
                    lemma_fits_above(lo, hi, e as int);
                    assert(false);
                }
            }
            e = e + 1;
        }
    }
}

impl Decimal {
    /// `self * 10^digits` rounded toward zero, or `None` where that does not
    /// fit an `i128`.
    pub fn truncate_scaled(self, digits: i64) -> (r: Option<i128>)
        requires
            -0x100_0000_0000 <= digits <= 0x100_0000_0000,
        ensures
            r is Some <==> fits_i128(self.truncated(digits as int)),
            r matches Some(v) ==> v == self.truncated(digits as int),
    {
        let k: i64 = self.exponent as i64 + digits as i64;
        if k >= 0 {
            return scale_up(self.mantissa, k as u64);
        }
        let n: u64 = (-k) as u64;
        let mut cur: i128 = self.mantissa;
        let mut i: u64 = 0;
        assert(pow10(0) == 1);
        assert(trunc_div(self.mantissa as int, 1) == self.mantissa);
        while i < n && cur != 0
            invariant
                i <= n,
                n == -(self.exponent + digits),
                cur == trunc_div(self.mantissa as int, pow10(i as nat)),
            decreases n - i,
        {
            proof {
                lemma_pow10_positive(i as nat);
                lemma_trunc_div_step(self.mantissa as int, pow10(i as nat));
                assert(pow10((i + 1) as nat) == pow10(i as nat) * 10);
            }
            cur = match cur.checked_div(10) {
                Some(q) => q,
                None => return None,
            };
            i = i + 1;
        }
        proof {
            lemma_pow10_positive(i as nat);
            lemma_pow10_positive((n - i) as nat);
            lemma_pow10_add(i as nat, (n - i) as nat);
            if i < n {
                lemma_trunc_div_zero(self.mantissa as int, pow10(i as nat), pow10((n - i) as nat));
            }
        }
        Some(cur)
    }
}

/// A non-zero number written with more than 40 digits below its last digit
/// does not fit an `i128`.
proof fn lemma_too_fine(d: Decimal, f: int)
    requires
        d.mantissa != 0,
        f < d.exponent - 40,
    ensures
        !fits_i128(d.truncated(-f)),
{
    let k = (d.exponent - f) as nat;
    lemma_scaled_magnitude(d.mantissa as int, k);
    lemma_pow10_monotone(39, k);
    lemma_pow10_39();
    lemma_pow10_positive(k);
    assert(abs(d.mantissa * pow10(k)) >= pow10(k)) by (nonlinear_arith)
        requires
            d.mantissa != 0,
            pow10(k) >= 1,
    ;
}

proof fn lemma_trunc_div_small(x: int, p: int)
    requires
        p >= 10,
        abs(x) <= 0x8000_0000_0000_0000_0000_0000_0000_0000int,
    ensures
        abs(trunc_div(x, p)) <= 0x8000_0000_0000_0000_0000_0000_0000_0000int / 10,
{
    let a = abs(x);
    vstd::arithmetic::div_mod::lemma_div_is_ordered_by_denominator(a, 10, p);
    vstd::arithmetic::div_mod::lemma_div_is_ordered(a, 0x8000_0000_0000_0000_0000_0000_0000_0000int, 10);
    vstd::arithmetic::div_mod::lemma_div_pos_is_pos(a, p);
}

/// One place above the larger exponent, both terms and their sum fit.
proof fn lemma_fits_above(lo: Decimal, hi: Decimal, e: int)
    requires
        lo.exponent <= hi.exponent,
        e == hi.exponent + 1,
    ensures
        Decimal::fits_at(lo, hi, e),
        Decimal::fits_at(hi, lo, e),
{
    reveal_with_fuel(pow10, 2);
    lemma_trunc_div_small(hi.mantissa as int, 10);
    let n = (e - lo.exponent) as nat;
    lemma_pow10_monotone(1, n);
    lemma_trunc_div_small(lo.mantissa as int, pow10(n));
}

/// The smallest exponent at which the sum can be held is the one chosen.
proof fn lemma_sum_exponent_unique(a: Decimal, b: Decimal, e: int)
    requires
        Decimal::is_sum_exponent(a, b, e),
    ensures
        Decimal::sum_exponent(a, b) == e,
        Decimal::is_sum_exponent(a, b, Decimal::sum_exponent(a, b)),
{
    let c = Decimal::sum_exponent(a, b);
    assert(Decimal::is_sum_exponent(a, b, c));
    if c < e {
        assert(!Decimal::fits_at(a, b, c));
    }
    if e < c {
        assert(!Decimal::fits_at(a, b, e));
    }
}

/// Where the terms aligned to the smaller exponent and their sum fit, the
/// sum is exact.
pub proof fn lemma_exact_when_it_fits(a: Decimal, b: Decimal)
    requires
        Decimal::fits_at(a, b, Decimal::min_exponent(a, b)),
    ensures
        Decimal::rounded_sum(a, b) == canonical(
            a.scaled(Decimal::min_exponent(a, b)) + b.scaled(Decimal::min_exponent(a, b)),
            Decimal::min_exponent(a, b),
        ),
{
    let at = Decimal::min_exponent(a, b);
    assert(Decimal::is_sum_exponent(a, b, at));
    lemma_sum_exponent_unique(a, b, at);
}

/// `m * 10^k`, or `None` where that does not fit an `i128`.
pub fn scale_up(m: i128, k: u64) -> (r: Option<i128>)
    ensures
        r is Some <==> fits_i128(m * pow10(k as nat)),
        r matches Some(v) ==> v == m * pow10(k as nat),
{
    if m == 0 {
        assert(m * pow10(k as nat) == 0);
        return Some(0);
    }
    let mut acc: i128 = m;
    let mut i: u64 = 0;
    assert(pow10(0) == 1);
    while i < k
        invariant
            i <= k,
            acc == m * pow10(i as nat),
        decreases k - i,
    {
        assert(pow10((i + 1) as nat) == 10 * pow10(i as nat));
        assert(m * pow10((i + 1) as nat) == (m * pow10(i as nat)) * 10) by (nonlinear_arith)
            requires
                pow10((i + 1) as nat) == 10 * pow10(i as nat),
        ;
        match acc.checked_mul(10) {
            Some(v) => {
                acc = v;
            },
            None => {
                proof {
                    let rest = (k - i - 1) as nat;
                    lemma_pow10_add((i + 1) as nat, rest);
                    assert(m * pow10(k as nat) == (acc * 10) * pow10(rest)) by (nonlinear_arith)
                        requires
                            pow10(k as nat) == pow10((i + 1) as nat) * pow10(rest),
                            acc * 10 == m * pow10((i + 1) as nat),
                    ;
                    lemma_scaled_magnitude(acc * 10, rest);
                }
                return None;
            },
        }
        i = i + 1;
    }
    Some(acc)
}

/// Strips trailing zero digits: the canonical pair for `m * 10^e`.
pub fn normalize(m: i128, e: i64) -> (r: (i128, i64))
    requires
        e <= i32::MAX + 1,
        e >= i32::MIN,
    ensures
        (r.0 as int, r.1 as int) == canonical(m as int, e as int),
        r.1 >= i32::MIN,
        r.1 <= e + 39 || r.1 == 0,
{
    if m == 0 {
        return (0, 0);
    }
    let mut cur: i128 = m;
    let mut exp: i64 = e;
    assert(pow10(0) == 1);
    while cur % 10 == 0
        invariant
            cur != 0,
            i32::MIN <= e <= i32::MAX + 1,
            e <= exp,
            exp - e <= 39,
            cur * pow10((exp - e) as nat) == m,
            canonical(cur as int, exp as int) == canonical(m as int, e as int),
        decreases abs(cur as int),
    {
        let q = cur / 10;
        proof {
            let k = (exp - e) as nat;
            assert(pow10(k + 1) == 10 * pow10(k));
            assert(q * pow10(k + 1) == m) by (nonlinear_arith)
                requires
                    cur == 10 * q,
                    cur * pow10(k) == m,
                    pow10(k + 1) == 10 * pow10(k),
            ;
            if k + 1 > 39 {
                lemma_pow10_monotone(39, k + 1);
                lemma_pow10_39();
                lemma_scaled_magnitude(q as int, k + 1);
                assert(abs(q * pow10(k + 1)) >= pow10(k + 1)) by (nonlinear_arith)
                    requires
                        q != 0,
                        pow10(k + 1) >= 1,
                ;
                assert(false);
            }
        }
        cur = q;
        exp = exp + 1;
    }
    (cur, exp)
}

} // verus!
