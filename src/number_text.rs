//! Decimal numbers as JSON number text.
use crate::number::{canonical, normalize, pow10, scale_up, Decimal};
use vstd::prelude::*;
use vstd::string::{StrSliceExecFns, StringExecFns};

verus! {

pub open spec fn is_digit(c: char) -> bool {
    '0' <= c && c <= '9'
}

pub open spec fn digit_value(c: char) -> int {
    c as int - '0' as int
}

pub open spec fn digit_char(d: int) -> char {
    ('0' as int + d) as char
}

/// The number a sequence of decimal digits denotes.
pub open spec fn digits_value(s: Seq<char>) -> int
    decreases s.len(),
{
    if s.len() == 0 {
        0
    } else {
        digits_value(s.drop_last()) * 10 + digit_value(s.last())
    }
}

/// The decimal digits of `n`, most significant first, without leading zeros.
pub open spec fn digits_of(n: nat) -> Seq<char>
    decreases n,
{
    if n < 10 {
        seq![digit_char(n as int)]
    } else {
        digits_of(n / 10).push(digit_char((n % 10) as int))
    }
}

pub open spec fn zeros(k: nat) -> Seq<char> {
    Seq::new(k, |i: int| '0')
}

pub open spec fn sign_text(negative: bool) -> Seq<char> {
    if negative {
        seq!['-']
    } else {
        Seq::empty()
    }
}

/// The `k` digits of `r` below the decimal point, with leading zeros.
pub open spec fn fraction_digits(r: nat, k: nat) -> Seq<char> {
    zeros((k - digits_of(r).len()) as nat) + digits_of(r)
}

pub open spec fn magnitude(m: int) -> nat {
    if m < 0 {
        (-m) as nat
    } else {
        m as nat
    }
}

/// The text of `m * 10^e`: an integer literal where `e` is not negative,
/// else the integer part, a point, and `-e` fraction digits.
pub open spec fn pair_text(m: int, e: int) -> Seq<char> {
    let n = magnitude(m);
    let k = (-e) as nat;
    sign_text(m < 0) + if e >= 0 {
        digits_of(n) + zeros(e as nat)
    } else {
        digits_of(n / pow10(k) as nat) + seq!['.'] + fraction_digits(n % pow10(k) as nat, k)
    }
}

/// The JSON text of a decimal, written from its canonical form: an integer
/// literal exactly where the number is a whole number, else the shortest
/// literal with a decimal point.
pub open spec fn json_text(d: Decimal) -> Seq<char> {
    let c = canonical(d.mantissa as int, d.exponent as int);
    pair_text(c.0, c.1)
}

proof fn lemma_digit_char(d: int)
    requires
        0 <= d < 10,
    ensures
        digit_value(digit_char(d)) == d,
        is_digit(digit_char(d)),
{
}

proof fn lemma_digits_of_len(n: nat)
    ensures
        digits_of(n).len() >= 1,
        forall|i: int| 0 <= i < digits_of(n).len() ==> is_digit(#[trigger] digits_of(n)[i]),
    decreases n,
{
    lemma_digit_char((n % 10) as int);
    if n >= 10 {
        lemma_digits_of_len(n / 10);
    }
}

pub proof fn lemma_digits_value_of(n: nat)
    ensures
        digits_value(digits_of(n)) == n,
    decreases n,
{
    lemma_digit_char((n % 10) as int);
    if n >= 10 {
        lemma_digits_value_of(n / 10);
        assert(digits_of(n).drop_last() =~= digits_of(n / 10));
        assert(digits_of(n).last() == digit_char((n % 10) as int));
        assert(digits_value(digits_of(n)) == digits_value(digits_of(n / 10)) * 10 + digit_value(
            digit_char((n % 10) as int),
        ));
    } else {
        assert(digits_of(n).drop_last() =~= Seq::<char>::empty());
        assert(digits_of(n).last() == digit_char(n as int));
        assert(digits_value(Seq::<char>::empty()) == 0);
        assert(digits_value(digits_of(n)) == digits_value(Seq::<char>::empty()) * 10 + digit_value(
            digit_char(n as int),
        ));
    }
}

proof fn lemma_digits_of_short(n: nat, k: nat)
    requires
        k >= 1,
        n < pow10(k),
    ensures
        digits_of(n).len() <= k,
    decreases k,
{
    if n >= 10 {
        assert(pow10(k) == 10 * pow10((k - 1) as nat));
        assert(k >= 2) by {
            if k == 1 {
                assert(pow10(0) == 1);
            }
        }
        lemma_digits_of_short(n / 10, (k - 1) as nat);
    }
}

fn digit_text(d: u128) -> (r: &'static str)
    requires
        d < 10,
    ensures
        r@ == seq![digit_char(d as int)],
{
    proof {
        reveal_strlit("0");
        reveal_strlit("1");
        reveal_strlit("2");
        reveal_strlit("3");
        reveal_strlit("4");
        reveal_strlit("5");
        reveal_strlit("6");
        reveal_strlit("7");
        reveal_strlit("8");
        reveal_strlit("9");
    }
    if d == 0 {
        "0"
    } else if d == 1 {
        "1"
    } else if d == 2 {
        "2"
    } else if d == 3 {
        "3"
    } else if d == 4 {
        "4"
    } else if d == 5 {
        "5"
    } else if d == 6 {
        "6"
    } else if d == 7 {
        "7"
    } else if d == 8 {
        "8"
    } else {
        "9"
    }
}

/// Appends the decimal digits of `n`.
fn push_digits(out: &mut String, n: u128)
    ensures
        final(out)@ == old(out)@ + digits_of(n as nat),
    decreases n,
{
    if n >= 10 {
        push_digits(out, n / 10);
    }
    out.append(digit_text(n % 10));
    proof {
        if n < 10 {
            assert(old(out)@ + digits_of(n as nat) =~= old(out)@ + seq![digit_char(n as int)]);
        } else {
            assert(old(out)@ + digits_of(n as nat) =~= old(out)@ + digits_of((n / 10) as nat) + seq![digit_char((n % 10) as int)]);
        }
    }
}

/// The number of decimal digits of `n`.
fn digit_count(n: u128) -> (r: u64)
    ensures
        r == digits_of(n as nat).len(),
        r <= 39,
    decreases n,
{
    if n >= 10 {
        let r = digit_count(n / 10);
        proof {
            reveal_with_fuel(pow10, 40);
            assert(pow10(39) > u128::MAX);
            lemma_digits_of_short(n as nat, 39);
        }
        r + 1
    } else {
        1
    }
}

/// Appends `k` zero digits.
fn push_zeros(out: &mut String, k: u64)
    ensures
        final(out)@ == old(out)@ + zeros(k as nat),
{
    proof {
        reveal_strlit("0");
    }
    let ghost start = out@;
    let mut i: u64 = 0;
    while i < k
        invariant
            i <= k,
            out@ == start + zeros(i as nat),
        decreases k - i,
    {
        proof {
            reveal_strlit("0");
        }
        out.append("0");
        assert(start + zeros((i + 1) as nat) =~= start + zeros(i as nat) + seq!['0']);
        i = i + 1;
    }
}

impl Decimal {
    /// The JSON text of the number: an integer literal where it is a whole
    /// number, else a literal with a decimal point and no trailing zero.
    pub fn to_json_text(&self) -> (r: String)
        ensures
            r@ == json_text(*self),
    {
        let (m, e) = normalize(self.mantissa, self.exponent as i64);
        write_pair(m, e)
    }
}

/// The text of `m * 10^e`.
fn write_pair(m: i128, e: i64) -> (r: String)
    requires
        i32::MIN <= e <= i32::MAX + 39,
    ensures
        r@ == pair_text(m as int, e as int),
{
    let negative = m < 0;
    let n: u128 = if negative {
        (-(m + 1)) as u128 + 1
    } else {
        m as u128
    };
    assert(n == magnitude(m as int));
    let mut out = String::new();
    proof {
        reveal_strlit("-");
        reveal_strlit(".");
    }
    if negative {
        out.append("-");
    }
    assert(out@ == sign_text(negative));
    if e >= 0 {
        push_digits(&mut out, n);
        push_zeros(&mut out, e as u64);
        assert(out@ =~= pair_text(m as int, e as int));
    } else {
        let k: u64 = (-e) as u64;
        let (whole, fraction) = if k >= 39 {
            proof {
                crate::number::lemma_pow10_monotone(39, k as nat);
                crate::number::lemma_pow10_39();
                vstd::arithmetic::div_mod::lemma_basic_div(n as int, pow10(k as nat));
                vstd::arithmetic::div_mod::lemma_small_mod(n as nat, pow10(k as nat) as nat);
            }
            (0u128, n)
        } else {
            let p = pow10_u128(k);
            proof {
                crate::number::lemma_pow10_positive(k as nat);
            }
            (n / p, n % p)
        };
        push_digits(&mut out, whole);
        out.append(".");
        proof {
            crate::number::lemma_pow10_positive(k as nat);
            vstd::arithmetic::div_mod::lemma_mod_bound(n as int, pow10(k as nat));
            lemma_digits_of_short(fraction as nat, k as nat);
        }
        let len = digit_count(fraction);
        push_zeros(&mut out, k - len);
        push_digits(&mut out, fraction);
        assert(out@ =~= pair_text(m as int, e as int));
    }
    out
}

/// `10^k` for `k` up to 38.
fn pow10_u128(k: u64) -> (r: u128)
    requires
        k <= 38,
    ensures
        r == pow10(k as nat),
{
    let mut r: u128 = 1;
    let mut i: u64 = 0;
    assert(pow10(0) == 1);
    while i < k
        invariant
            i <= k <= 38,
            r == pow10(i as nat),
        decreases k - i,
    {
        proof {
            crate::number::lemma_pow10_monotone((i + 1) as nat, 38);
            reveal_with_fuel(pow10, 39);
            assert(pow10(38) < u128::MAX);
            assert(pow10((i + 1) as nat) == 10 * pow10(i as nat));
        }
        r = r * 10;
        i = i + 1;
    }
    r
}


/// The largest exponent, in absolute value, that a number text may write.
pub const EXPONENT_LIMIT: u128 = 1_000_000_000;

/// The end of the run of digits that starts at `i`.
pub open spec fn digit_end(s: Seq<char>, i: int) -> int
    decreases s.len() - i,
{
    if 0 <= i < s.len() && is_digit(s[i]) {
        digit_end(s, i + 1)
    } else {
        i
    }
}

/// The pieces of a JSON number text `-? digits (. digits)? ([eE] [+-]? digits)?`.
pub struct NumberParts {
    pub negative: bool,
    pub whole: Seq<char>,
    pub fraction: Seq<char>,
    pub exponent_negative: bool,
    pub exponent: Seq<char>,
}

/// The pieces of `s`, or `None` where `s` is not a JSON number text.
pub open spec fn number_parts(s: Seq<char>) -> Option<NumberParts> {
    let i0: int = if s.len() > 0 && s[0] == '-' {
        1
    } else {
        0
    };
    let p = digit_end(s, i0);
    let has_fraction = p < s.len() && s[p] == '.';
    let q = if has_fraction {
        digit_end(s, p + 1)
    } else {
        p
    };
    let has_exponent = q < s.len() && (s[q] == 'e' || s[q] == 'E');
    let signed = has_exponent && q + 1 < s.len() && (s[q + 1] == '+' || s[q + 1] == '-');
    let j0 = if signed {
        q + 2
    } else {
        q + 1
    };
    let r = if has_exponent {
        digit_end(s, j0)
    } else {
        q
    };
    if p == i0 || (has_fraction && q == p + 1) || (has_exponent && r == j0) || r != s.len() {
        None
    } else {
        Some(
            NumberParts {
                negative: i0 == 1,
                whole: s.subrange(i0, p),
                fraction: if has_fraction {
                    s.subrange(p + 1, q)
                } else {
                    Seq::empty()
                },
                exponent_negative: signed && s[q + 1] == '-',
                exponent: if has_exponent {
                    s.subrange(j0, r)
                } else {
                    Seq::empty()
                },
            },
        )
    }
}

/// The canonical pair a JSON number text denotes, where it can be held: its
/// digits, read as one integer without trailing zeros, fit an `i128`, its
/// written exponent is at most
/// [`EXPONENT_LIMIT`], and the exponents fit an `i32`.
pub open spec fn parsed_number(s: Seq<char>) -> Option<(int, int)> {
    match number_parts(s) {
        None => None,
        Some(p) => {
            let raw = digits_value(p.whole + p.fraction);
            let ev = digits_value(p.exponent);
            let e = (if p.exponent_negative {
                -ev
            } else {
                ev
            }) - p.fraction.len();
            let m = if p.negative {
                -raw
            } else {
                raw
            };
            if stripped(raw) > i128::MAX || ev > EXPONENT_LIMIT || e < i32::MIN || e > i32::MAX || canonical(
                m,
                e,
            ).1 > i32::MAX {
                None
            } else {
                Some(canonical(m, e))
            }
        },
    }
}

proof fn lemma_digits_value_append(a: Seq<char>, b: Seq<char>)
    ensures
        digits_value(a + b) == digits_value(a) * pow10(b.len()) + digits_value(b),
    decreases b.len(),
{
    if b.len() == 0 {
        assert(a + b =~= a);
        assert(pow10(0) == 1);
    } else {
        lemma_digits_value_append(a, b.drop_last());
        assert((a + b).drop_last() =~= a + b.drop_last());
        assert((a + b).last() == b.last());
        assert(pow10(b.len()) == 10 * pow10((b.len() - 1) as nat));
        let x = digits_value(a);
        let p = pow10((b.len() - 1) as nat);
        assert((x * p + digits_value(b.drop_last())) * 10 == x * (10 * p) + digits_value(
            b.drop_last(),
        ) * 10) by (nonlinear_arith);
    }
}

proof fn lemma_digits_value_zeros(k: nat)
    ensures
        digits_value(zeros(k)) == 0,
    decreases k,
{
    if k > 0 {
        assert(zeros(k).drop_last() =~= zeros((k - 1) as nat));
        lemma_digits_value_zeros((k - 1) as nat);
    }
}

proof fn lemma_digit_end_all(s: Seq<char>, i: int)
    requires
        0 <= i <= s.len(),
        forall|j: int| i <= j < s.len() ==> is_digit(#[trigger] s[j]),
    ensures
        digit_end(s, i) == s.len(),
    decreases s.len() - i,
{
    if i < s.len() {
        lemma_digit_end_all(s, i + 1);
    }
}

proof fn lemma_canonical_shift(m: int, e: int, k: nat)
    requires
        m != 0,
    ensures
        canonical(m * pow10(k), e) == canonical(m, e + k),
    decreases k,
{
    if k > 0 {
        let x = m * pow10((k - 1) as nat);
        assert(pow10(k) == 10 * pow10((k - 1) as nat));
        assert(m * pow10(k) == x * 10) by (nonlinear_arith)
            requires
                pow10(k) == 10 * pow10((k - 1) as nat),
                x == m * pow10((k - 1) as nat),
        ;
        crate::number::lemma_pow10_positive((k - 1) as nat);
        assert(x != 0) by (nonlinear_arith)
            requires
                m != 0,
                pow10((k - 1) as nat) >= 1,
                x == m * pow10((k - 1) as nat),
        ;
        assert((x * 10) % 10 == 0 && (x * 10) / 10 == x);
        lemma_canonical_shift(m, e + 1, (k - 1) as nat);
    } else {
        assert(pow10(0) == 1);
    }
}


/// `x` without its trailing zero digits.
pub open spec fn stripped(x: int) -> int {
    if x == 0 {
        0
    } else {
        canonical(x, 0).0
    }
}

/// The number of trailing zero digits of `x`, none for zero.
pub open spec fn trailing_zeros(x: int) -> int {
    if x == 0 {
        0
    } else {
        canonical(x, 0).1
    }
}

proof fn lemma_canonical_exponent_shift(m: int, e: int)
    requires
        m != 0,
    ensures
        canonical(m, e + 1) == (canonical(m, e).0, canonical(m, e).1 + 1),
    decreases crate::number::abs(m),
{
    if m % 10 == 0 {
        lemma_canonical_exponent_shift(m / 10, e + 1);
    }
}

proof fn lemma_stripped_facts(x: int)
    requires
        x > 0,
    ensures
        stripped(x) * pow10(trailing_zeros(x) as nat) == x,
        trailing_zeros(x) >= 0,
        1 <= stripped(x) <= x,
        stripped(x) % 10 != 0,
{
    crate::number::lemma_canonical_denotes(x, 0);
    lemma_canonical_stops(x, 0);
    crate::number::lemma_pow10_positive(trailing_zeros(x) as nat);
    let c = canonical(x, 0);
    assert(c.0 >= 1 && c.0 <= x) by (nonlinear_arith)
        requires
            c.0 * pow10((c.1 - 0) as nat) == x,
            pow10((c.1 - 0) as nat) >= 1,
            x > 0,
    ;
}

proof fn lemma_canonical_stops(m: int, e: int)
    requires
        m != 0,
    ensures
        canonical(m, e).0 % 10 != 0,
        canonical(m, e).0 != 0,
    decreases crate::number::abs(m),
{
    if m % 10 == 0 {
        lemma_canonical_stops(m / 10, e + 1);
    }
}

/// Reads the digits from `start` on, continuing the number
/// `cur0 * 10^z0`: the end of the run, and the number read, without its
/// trailing zeros and with their count, where that stays within `i128`.
fn scan_mantissa(
    s: &str,
    len: usize,
    start: usize,
    cur0: u128,
    z0: u64,
    over0: bool,
    Ghost(a): Ghost<int>,
) -> (r: (usize, Option<(u128, u64)>))
    requires
        len == s@.len(),
        start <= len,
        a >= 0,
        !over0 ==> z0 <= start && cur0 <= i128::MAX && a == cur0 * pow10(z0 as nat) && cur0
            == stripped(a) && z0 == trailing_zeros(a),
        over0 ==> stripped(a) > i128::MAX,
    ensures
        r.0 == digit_end(s@, start as int),
        start <= r.0 <= len,
        forall|j: int| start <= j < r.0 ==> is_digit(#[trigger] s@[j]),
        ({
            let v = a * pow10((r.0 - start) as nat) + digits_value(
                s@.subrange(start as int, r.0 as int),
            );
            &&& v >= 0
            &&& r.1 is Some <==> stripped(v) <= i128::MAX
            &&& r.1 matches Some(p) ==> p.0 == stripped(v) && p.1 == trailing_zeros(v) && p.1 <= r.0
        }),
{
    let mut i: usize = start;
    let mut cur: u128 = cur0;
    let mut z: u64 = z0;
    let mut over = over0;
    assert(pow10(0) == 1);
    assert(s@.subrange(start as int, start as int) =~= Seq::<char>::empty());
    proof {
        assert(a * pow10(0) + digits_value(s@.subrange(start as int, start as int)) == a);
    }
    while i < len && digit_char_test(s.get_char(i))
        invariant
            len == s@.len(),
            start <= i <= len,
            a >= 0,
            digit_end(s@, start as int) == digit_end(s@, i as int),
            forall|j: int| start <= j < i ==> is_digit(#[trigger] s@[j]),
            ({
                let v = a * pow10((i - start) as nat) + digits_value(s@.subrange(start as int, i as int));
                &&& v >= 0
                &&& !over ==> cur <= i128::MAX && cur == stripped(v) && z == trailing_zeros(v) && z <= i
                    && v == cur * pow10(z as nat)
                &&& over ==> stripped(v) > i128::MAX
            }),
        decreases len - i,
    {
        let c = s.get_char(i);
        let d = (c as u32 - '0' as u32) as u128;
        let ghost v = a * pow10((i - start) as nat) + digits_value(s@.subrange(start as int, i as int));
        let ghost v2 = v * 10 + d;
        proof {
            assert(s@.subrange(start as int, i + 1).drop_last() =~= s@.subrange(start as int, i as int));
            assert(pow10((i + 1 - start) as nat) == 10 * pow10((i - start) as nat));
            assert(a * pow10((i + 1 - start) as nat) + digits_value(s@.subrange(start as int, i + 1))
                == v2) by (nonlinear_arith)
                requires
                    pow10((i + 1 - start) as nat) == 10 * pow10((i - start) as nat),
                    digits_value(s@.subrange(start as int, i + 1)) == digits_value(
                        s@.subrange(start as int, i as int),
                    ) * 10 + d,
                    v == a * pow10((i - start) as nat) + digits_value(s@.subrange(start as int, i as int)),
                    v2 == v * 10 + d,
            ;
            if !over && cur != 0 {
                crate::number::lemma_pow10_positive(z as nat);
                assert(v != 0) by (nonlinear_arith)
                    requires
                        v == cur * pow10(z as nat),
                        cur > 0,
                        pow10(z as nat) >= 1,
                ;
            }
            if d == 0 {
                if v != 0 {
                    assert((v * 10) % 10 == 0 && (v * 10) / 10 == v);
                    lemma_canonical_exponent_shift(v, 0);
                    assert(canonical(v2, 0) == canonical(v, 1));
                }
            } else {
                assert(v2 % 10 == d);
                assert(canonical(v2, 0) == (v2, 0int));
                if v > 0 {
                    lemma_stripped_facts(v);
                }
            }
        }
        if d == 0 {
            if over {
            } else if cur != 0 {
                z = z + 1;
                proof {
                    assert(pow10(z as nat) == 10 * pow10((z - 1) as nat));
                    assert(v2 == cur * pow10(z as nat)) by (nonlinear_arith)
                        requires
                            v == cur * pow10((z - 1) as nat),
                            pow10(z as nat) == 10 * pow10((z - 1) as nat),
                            v2 == v * 10,
                    ;
                }
            } else {
                proof {
                    if !over {
                        assert(v == 0) by (nonlinear_arith)
                            requires
                                v == cur * pow10(z as nat),
                                cur == 0,
                        ;
                    }
                }
            }
        } else if !over {
            match scale_up(cur as i128, z + 1) {
                Some(x) => {
                    proof {
                        assert(pow10((z + 1) as nat) == 10 * pow10(z as nat));
                        assert(v2 == x + d) by (nonlinear_arith)
                            requires
                                v == cur * pow10(z as nat),
                                x == cur * pow10((z + 1) as nat),
                                pow10((z + 1) as nat) == 10 * pow10(z as nat),
                                v2 == v * 10 + d,
                        ;
                    }
                    if x <= i128::MAX - d as i128 {
                        cur = (x + d as i128) as u128;
                        z = 0;
                        assert(pow10(0) == 1);
                        assert(v2 == cur * pow10(0));
                    } else {
                        over = true;
                    }
                },
                None => {
                    proof {
                        assert(pow10((z + 1) as nat) == 10 * pow10(z as nat));
                        crate::number::lemma_pow10_positive(z as nat);
                        assert(cur * pow10((z + 1) as nat) >= 0) by (nonlinear_arith)
                            requires
                                pow10((z + 1) as nat) == 10 * pow10(z as nat),
                                pow10(z as nat) >= 1,
                                cur >= 0,
                        ;
                        assert(v2 == cur * pow10((z + 1) as nat) + d) by (nonlinear_arith)
                            requires
                                v == cur * pow10(z as nat),
                                pow10((z + 1) as nat) == 10 * pow10(z as nat),
                                v2 == v * 10 + d,
                        ;
                    }
                    over = true;
                },
            }
        }
        proof {
            assert(v2 >= 0);
            if !over {
                assert(cur <= i128::MAX);
                assert(cur == stripped(v2));
                assert(z == trailing_zeros(v2));
                assert(z <= i + 1);
                assert(v2 == cur * pow10(z as nat));
            } else {
                assert(stripped(v2) > i128::MAX);
            }
        }
        i = i + 1;
    }
    (i, if over { None } else { Some((cur, z)) })
}

/// Reads the digits from `start` on, continuing the number `acc`: the end of
/// the run, and the number read where it stays within `limit`.
fn scan_digits(s: &str, len: usize, start: usize, acc: u128, limit: u128) -> (r: (usize, Option<u128>))
    requires
        len == s@.len(),
        start <= len,
        acc <= limit,
        limit >= 10,
    ensures
        r.0 == digit_end(s@, start as int),
        start <= r.0 <= len,
        forall|j: int| start <= j < r.0 ==> is_digit(#[trigger] s@[j]),
        r.1 is Some <==> acc * pow10((r.0 - start) as nat) + digits_value(s@.subrange(start as int, r.0 as int)) <= limit,
        r.1 matches Some(v) ==> v == acc * pow10((r.0 - start) as nat) + digits_value(s@.subrange(start as int, r.0 as int)),
{
    let mut i: usize = start;
    let mut cur: u128 = acc;
    let mut over = false;
    assert(pow10(0) == 1);
    assert(s@.subrange(start as int, start as int) =~= Seq::<char>::empty());
    while i < len && digit_char_test(s.get_char(i))
        invariant
            len == s@.len(),
            start <= i <= len,
            acc <= limit,
            limit >= 10,
            digit_end(s@, start as int) == digit_end(s@, i as int),
            forall|j: int| start <= j < i ==> is_digit(#[trigger] s@[j]),
            !over ==> cur <= limit && cur == acc * pow10((i - start) as nat) + digits_value(
                s@.subrange(start as int, i as int),
            ),
            over ==> acc * pow10((i - start) as nat) + digits_value(s@.subrange(start as int, i as int))
                > limit,
        decreases len - i,
    {
        let c = s.get_char(i);
        let d = (c as u32 - '0' as u32) as u128;
        let ghost before = acc * pow10((i - start) as nat) + digits_value(s@.subrange(start as int, i as int));
        proof {
            assert(s@.subrange(start as int, i + 1).drop_last() =~= s@.subrange(start as int, i as int));
            assert(pow10((i + 1 - start) as nat) == 10 * pow10((i - start) as nat));
            assert(acc * pow10((i + 1 - start) as nat) + digits_value(s@.subrange(start as int, i + 1))
                == before * 10 + d) by (nonlinear_arith)
                requires
                    pow10((i + 1 - start) as nat) == 10 * pow10((i - start) as nat),
                    digits_value(s@.subrange(start as int, i + 1)) == digits_value(
                        s@.subrange(start as int, i as int),
                    ) * 10 + d,
                    before == acc * pow10((i - start) as nat) + digits_value(s@.subrange(start as int, i as int)),
            ;
        }
        if !over {
            if cur <= (limit - d) / 10 {
                cur = cur * 10 + d;
            } else {
                over = true;
            }
        }
        i = i + 1;
    }
    (i, if over { None } else { Some(cur) })
}

fn digit_char_test(c: char) -> (r: bool)
    ensures
        r == is_digit(c),
{
    '0' <= c && c <= '9'
}

fn char_at(s: &str, len: usize, i: usize) -> (r: Option<char>)
    requires
        len == s@.len(),
    ensures
        r is Some <==> i < len,
        r matches Some(c) ==> c == s@[i as int],
{
    if i < len {
        Some(s.get_char(i))
    } else {
        None
    }
}

impl Decimal {
    /// Reads a JSON number text exactly, in canonical form; `None` where the
    /// text is not one or cannot be held (see [`parsed_number`]).
    #[verifier::rlimit(100)]
    pub fn parse(text: &str) -> (r: Option<Decimal>)
        ensures
            match parsed_number(text@) {
                Some(p) => r matches Some(d) && d.pair() == p,
                None => r is None,
            },
    {
        let ghost s = text@;
        let len = text.unicode_len();
        let negative = match char_at(text, len, 0) {
            Some(c) => c == '-',
            None => false,
        };
        let i0: usize = if negative { 1 } else { 0 };
        proof {
            assert(0u128 * pow10(0) == 0);
        }
        let (p, whole) = scan_mantissa(text, len, i0, 0, 0, false, Ghost(0));
        if p == i0 {
            return None;
        }
        let has_fraction = match char_at(text, len, p) {
            Some(c) => c == '.',
            None => false,
        };
        let ghost whole_value = digits_value(s.subrange(i0 as int, p as int));
        proof {
            assert(0 * pow10((p - i0) as nat) + whole_value == whole_value);
            if whole_value > 0 {
                lemma_stripped_facts(whole_value);
            }
        }
        let (q, raw) = if has_fraction {
            match whole {
                Some((w, z)) => scan_mantissa(text, len, p + 1, w, z, false, Ghost(whole_value)),
                None => scan_mantissa(text, len, p + 1, 0, 0, true, Ghost(whole_value)),
            }
        } else {
            (p, whole)
        };
        if has_fraction && q == p + 1 {
            return None;
        }
        let has_exponent = match char_at(text, len, q) {
            Some(c) => c == 'e' || c == 'E',
            None => false,
        };
        let sign = if has_exponent { char_at(text, len, q + 1) } else { None };
        let signed = match sign {
            Some(c) => c == '+' || c == '-',
            None => false,
        };
        let exponent_negative = match sign {
            Some(c) => signed && c == '-',
            None => false,
        };
        let j0 = if !has_exponent {
            q
        } else if signed {
            q + 2
        } else {
            q + 1
        };
        let (r, ev) = if has_exponent {
            scan_digits(text, len, j0, 0, EXPONENT_LIMIT)
        } else {
            (q, Some(0))
        };
        if (has_exponent && r == j0) || r != len {
            return None;
        }
        proof {
            let whole_digits = s.subrange(i0 as int, p as int);
            if has_fraction {
                let frac = s.subrange(p + 1, q as int);
                lemma_digits_value_append(whole_digits, frac);
            } else {
                assert(whole_digits + Seq::<char>::empty() =~= whole_digits);
            }
            if !has_exponent {
                assert(digits_value(Seq::<char>::empty()) == 0);
            }
            assert(number_parts(s) is Some);
        }
        let (cur, zeros) = match raw {
            Some(v) => v,
            None => return None,
        };
        let ev = match ev {
            Some(v) => v,
            None => return None,
        };
        let frac_len: u128 = if has_fraction { (q - p - 1) as u128 } else { 0 };
        let e: i128 = (if exponent_negative { -(ev as i128) } else { ev as i128 }) - frac_len as i128;
        if e < i32::MIN as i128 || e > i32::MAX as i128 {
            return None;
        }
        let ghost raw = digits_value(number_parts(s)->Some_0.whole + number_parts(s)->Some_0.fraction);
        let ghost signed_raw = if negative { -raw } else { raw };
        if cur == 0 {
            proof {
                if raw > 0 {
                    lemma_stripped_facts(raw);
                }
            }
            return Some(Decimal { mantissa: 0, exponent: 0 });
        }
        let ce: i128 = e + zeros as i128;
        proof {
            assert(raw != 0);
            lemma_stripped_facts(raw);
            let m = if negative { -(cur as int) } else { cur as int };
            assert(signed_raw == m * pow10(zeros as nat)) by (nonlinear_arith)
                requires
                    raw == cur * pow10(zeros as nat),
                    signed_raw == if negative { -raw } else { raw },
                    m == if negative { -(cur as int) } else { cur as int },
            ;
            lemma_canonical_shift(m, e as int, zeros as nat);
            assert(m % 10 != 0);
        }
        if ce > i32::MAX as i128 {
            return None;
        }
        let m: i128 = if negative { -(cur as i128) } else { cur as i128 };
        Some(Decimal { mantissa: m, exponent: ce as i32 })
    }
}

/// Stripping trailing zeros twice strips nothing more.
proof fn lemma_canonical_idempotent(m: int, e: int)
    ensures
        canonical(canonical(m, e).0, canonical(m, e).1) == canonical(m, e),
    decreases crate::number::abs(m),
{
    if m != 0 && m % 10 == 0 {
        lemma_canonical_idempotent(m / 10, e + 1);
    }
}

/// A whole number written by [`Decimal::to_json_text`] is an integer
/// literal, an optional minus sign and digits, however it is represented, and
/// reading it back gives the same number. (Reading leaves out only the
/// mantissa `i128::MIN`, whose magnitude is above `i128::MAX`, and exponents
/// beyond `i32::MAX`.)
pub proof fn lemma_integer_round_trip(d: Decimal)
    requires
        canonical(d.mantissa as int, d.exponent as int).1 >= 0,
        canonical(d.mantissa as int, d.exponent as int).1 <= i32::MAX,
        magnitude(canonical(d.mantissa as int, d.exponent as int).0) <= i128::MAX,
    ensures
        forall|i: int|
            0 <= i < json_text(d).len() ==> is_digit(#[trigger] json_text(d)[i]) || (i == 0
                && json_text(d)[i] == '-'),
        parsed_number(json_text(d)) == Some(canonical(d.mantissa as int, d.exponent as int)),
{
    let c = canonical(d.mantissa as int, d.exponent as int);
    lemma_canonical_idempotent(d.mantissa as int, d.exponent as int);
    let m = c.0;
    let n = magnitude(m);
    let k = c.1 as nat;
    let body = digits_of(n) + zeros(k);
    let s = json_text(d);
    lemma_digits_of_len(n);
    assert(s =~= sign_text(m < 0) + body);
    let i0: int = if m < 0 { 1 } else { 0 };
    assert(forall|j: int| i0 <= j < s.len() ==> is_digit(#[trigger] s[j])) by {
        assert forall|j: int| i0 <= j < s.len() implies is_digit(#[trigger] s[j]) by {
            assert(s[j] == body[j - i0]);
            if j - i0 >= digits_of(n).len() {
                assert(body[j - i0] == '0');
            }
        }
    }
    lemma_digit_end_all(s, i0);
    assert(s.subrange(i0, s.len() as int) =~= body);
    let parts = number_parts(s)->Some_0;
    assert(parts.whole + parts.fraction =~= body);
    lemma_digits_value_append(digits_of(n), zeros(k));
    lemma_digits_value_zeros(k);
    lemma_digits_value_of(n);
    assert(digits_value(parts.exponent) == 0);
    if m != 0 {
        let signed_raw = if m < 0 { -(n * pow10(k)) } else { n * pow10(k) };
        assert(signed_raw == m * pow10(k)) by (nonlinear_arith)
            requires
                signed_raw == if m < 0 { -(n * pow10(k)) } else { n * pow10(k) },
                n == if m < 0 { -m } else { m },
        ;
        lemma_canonical_shift(m, 0, k);
        lemma_canonical_stops(d.mantissa as int, d.exponent as int);
        lemma_canonical_shift(n as int, 0, k);
        assert(canonical(n as int, k as int) == (n as int, k as int));
        crate::number::lemma_pow10_positive(k);
        assert(n * pow10(k) > 0) by (nonlinear_arith)
            requires
                n >= 1,
                pow10(k) >= 1,
        ;
    } else {
        assert(n * pow10(k) == 0);
    }
}

} // verus!
