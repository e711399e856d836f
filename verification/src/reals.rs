//! Double-precision numbers by their bits: order, and the whole numbers among them.

use crate::pptx::int_text;
use crate::text::{concat2, decimal_text};
use crate::value::{cell_text, cell_to_string, Json, Num, Number, Value};
use vstd::prelude::*;

verus! {

// ── bits ────────────────────────────────────────────────────────────────────

pub open spec fn is_negative_bits(b: u64) -> bool {
    b >= 0x8000_0000_0000_0000
}

/// The biased exponent.
pub open spec fn expo(b: u64) -> int {
    (b as int / 0x10_0000_0000_0000) % 2048
}

/// The fraction field.
pub open spec fn frac(b: u64) -> int {
    b as int % 0x10_0000_0000_0000
}

pub open spec fn is_nan(b: u64) -> bool {
    expo(b) == 2047 && frac(b) != 0
}

pub open spec fn is_finite(b: u64) -> bool {
    expo(b) != 2047
}

/// An integer that orders numbers as their values do; the two zeros share one.
pub open spec fn rank(b: u64) -> int {
    let m = b as int % 0x8000_0000_0000_0000;
    if is_negative_bits(b) {
        -m
    } else {
        m
    }
}

/// Whether one number is less than another; never where one is no number.
pub open spec fn less(a: u64, b: u64) -> bool {
    !is_nan(a) && !is_nan(b) && rank(a) < rank(b)
}

/// Whether two numbers are the same value.
pub open spec fn equal(a: u64, b: u64) -> bool {
    !is_nan(a) && !is_nan(b) && rank(a) == rank(b)
}

pub fn bits_nan(b: u64) -> (r: bool)
    ensures
        r == is_nan(b),
{
    (b / 0x10_0000_0000_0000) % 2048 == 2047 && b % 0x10_0000_0000_0000 != 0
}

fn bits_rank(b: u64) -> (r: i128)
    ensures
        r == rank(b),
{
    let m: i128 = (b % 0x8000_0000_0000_0000) as i128;
    if b >= 0x8000_0000_0000_0000 {
        -m
    } else {
        m
    }
}

pub fn bits_less(a: u64, b: u64) -> (r: bool)
    ensures
        r == less(a, b),
{
    !bits_nan(a) && !bits_nan(b) && bits_rank(a) < bits_rank(b)
}

pub fn bits_equal(a: u64, b: u64) -> (r: bool)
    ensures
        r == equal(a, b),
{
    !bits_nan(a) && !bits_nan(b) && bits_rank(a) == bits_rank(b)
}

// ── whole numbers ───────────────────────────────────────────────────────────

pub open spec fn two_to(n: int) -> int
    decreases n,
{
    if n <= 0 {
        1
    } else {
        2 * two_to(n - 1)
    }
}

/// The significand of a finite number.
pub open spec fn significand(b: u64) -> int {
    if expo(b) == 0 {
        frac(b)
    } else {
        frac(b) + 0x10_0000_0000_0000
    }
}

/// The power of two that the significand is scaled by.
pub open spec fn scale(b: u64) -> int {
    (if expo(b) == 0 {
        1
    } else {
        expo(b)
    }) - 1075
}

/// The magnitude of a finite whole number.
pub open spec fn whole_magnitude(b: u64) -> Option<int> {
    if !is_finite(b) {
        None
    } else if scale(b) >= 0 {
        Some(significand(b) * two_to(scale(b)))
    } else if significand(b) % two_to(-scale(b)) == 0 {
        Some(significand(b) / two_to(-scale(b)))
    } else {
        None
    }
}

/// A number brought into 64 signed bits.
pub open spec fn to_i64(v: int) -> int {
    if v > i64::MAX {
        i64::MAX as int
    } else if v < i64::MIN {
        i64::MIN as int
    } else {
        v
    }
}

/// The smallest power of two, from `unit` on, that leaves `n` at most 53 bits.
pub open spec fn unit_for(n: int, unit: int) -> int
    decreases n - unit,
{
    if unit > 0 && n / unit >= 0x20_0000_0000_0000 && 2 * unit <= n {
        unit_for(n, 2 * unit)
    } else {
        unit
    }
}

/// The double nearest to a natural number; of two equally near, the even one.
pub open spec fn nearest_double(n: int) -> int {
    let u = unit_for(n, 1);
    let q = n / u;
    let r = n % u;
    if 2 * r > u || (2 * r == u && q % 2 == 1) {
        (q + 1) * u
    } else {
        q * u
    }
}

/// The whole number that a cell's number shows as, where it is whole: what it is as
/// a double, brought into 64 signed bits.
pub open spec fn whole_value(n: Num) -> Option<int> {
    match n {
        Num::Unsigned(u) => Some(to_i64(nearest_double(u as int))),
        Num::Negative(i) => Some(
            if i < 0 {
                to_i64(-nearest_double(-(i as int)))
            } else {
                to_i64(nearest_double(i as int))
            },
        ),
        Num::Float { bits, text } => match whole_magnitude(bits) {
            Some(m) => Some(
                to_i64(
                    if is_negative_bits(bits) {
                        -m
                    } else {
                        m
                    },
                ),
            ),
            None => None,
        },
    }
}

proof fn lemma_two_to(a: int, b: int)
    requires
        0 <= a <= b,
    ensures
        0 < two_to(a) <= two_to(b),
    decreases b,
{
    if a < b {
        lemma_two_to(a, b - 1);
    } else if a > 0 {
        lemma_two_to(a - 1, b - 1);
    }
}

fn power(n: u32) -> (r: u128)
    requires
        n <= 64,
    ensures
        r == two_to(n as int),
        0 < r <= 0x1_0000_0000_0000_0000,
{
    proof {
        lemma_two_to_64();
    }
    let mut r: u128 = 1;
    let mut i: u32 = 0;
    while i < n
        invariant
            i <= n <= 64,
            r == two_to(i as int),
            0 < r,
            i < 64 ==> r <= 0x8000_0000_0000_0000,
            r <= 0x1_0000_0000_0000_0000,
            two_to(64) == 0x1_0000_0000_0000_0000,
        decreases n - i,
    {
        i = i + 1;
        r = r * 2;
        proof {
            lemma_two_to(i as int, 64);
            if i < 64 {
                lemma_two_to((i + 1) as int, 64);
                assert(two_to((i + 1) as int) == 2 * two_to(i as int));
            }
        }
    }
    r
}

proof fn lemma_two_to_64()
    ensures
        two_to(64) == 0x1_0000_0000_0000_0000,
        two_to(53) == 0x20_0000_0000_0000,
        two_to(63) == 0x8000_0000_0000_0000,
        two_to(11) == 2048,
{
    reveal_with_fuel(two_to, 65);
}

/// The magnitude of a whole number, cut off at 2⁶⁴.
fn magnitude(b: u64) -> (r: Option<u128>)
    ensures
        match (r, whole_magnitude(b)) {
            (Some(m), Some(w)) => m == w || (m >= 0x8000_0000_0000_0001 && w
                >= 0x8000_0000_0000_0001),
            (None, None) => true,
            _ => false,
        },
{
    proof {
        lemma_two_to_64();
    }
    let e: u64 = (b / 0x10_0000_0000_0000) % 2048;
    let f: u64 = b % 0x10_0000_0000_0000;
    if e == 2047 {
        return None;
    }
    let (m, ex): (u64, u64) = if e == 0 {
        (f, 1)
    } else {
        (f + 0x10_0000_0000_0000, e)
    };
    assert(m == significand(b));
    assert(ex - 1075 == scale(b));
    if ex >= 1075 {
        if ex - 1075 > 11 {
            proof {
                lemma_two_to(12, ex - 1075);
                assert(two_to(12) == 2 * two_to(11));
                assert(m * two_to(ex - 1075) >= 0x8000_0000_0000_0001) by (nonlinear_arith)
                    requires
                        m >= 0x10_0000_0000_0000,
                        two_to(ex - 1075) >= 4096,
                ;
            }
            return Some(0x1_0000_0000_0000_0000);
        }
        let k: u32 = (ex - 1075) as u32;
        let p = power(k);
        proof {
            lemma_two_to(k as int, 11);
            assert(m * p <= 0x20_0000_0000_0000 * 2048) by (nonlinear_arith)
                requires
                    m <= 0x20_0000_0000_0000,
                    p <= 2048,
            ;
        }
        Some(m as u128 * p)
    } else {
        let k: u64 = 1075 - ex;
        if k > 60 {
            proof {
                lemma_two_to(60, k as int);
                assert(two_to(60) == 0x1000_0000_0000_0000) by {
                    reveal_with_fuel(two_to, 61);
                }
            }
            if m == 0 {
                assert(0int % two_to(k as int) == 0 && 0int / two_to(k as int) == 0)
                    by (nonlinear_arith)
                    requires
                        two_to(k as int) > 0,
                ;
                return Some(0);
            }
            assert(m as int % two_to(k as int) == m) by (nonlinear_arith)
                requires
                    0 < m < two_to(k as int),
            ;
            return None;
        }
        let p = power(k as u32);
        if m as u128 % p == 0 {
            Some(m as u128 / p)
        } else {
            None
        }
    }
}

/// Whether a finite number is whole.
pub fn is_whole(b: u64) -> (r: bool)
    ensures
        r == (whole_magnitude(b) is Some),
{
    magnitude(b).is_some()
}

proof fn lemma_unit(n: int, unit: int)
    requires
        0 < unit,
        0 <= n < 0x1_0000_0000_0000_0000,
        unit <= 0x800,
    ensures
        0 < unit_for(n, unit) <= 0x1000,
        n / unit_for(n, unit) < 0x20_0000_0000_0000,
    decreases n - unit,
{
    if n / unit >= 0x20_0000_0000_0000 && 2 * unit <= n {
        if unit == 0x800 {
            assert(false) by (nonlinear_arith)
                requires
                    n / unit >= 0x20_0000_0000_0000,
                    unit == 0x800,
                    n < 0x1_0000_0000_0000_0000,
            ;
        } else if unit > 0x400 {
            assert(unit_for(n, 2 * unit) == 2 * unit) by {
                assert(n / (2 * unit) < 0x20_0000_0000_0000) by (nonlinear_arith)
                    requires
                        unit > 0x400,
                        0 <= n < 0x1_0000_0000_0000_0000,
                ;
            }
            assert(n / (2 * unit) < 0x20_0000_0000_0000) by (nonlinear_arith)
                requires
                    unit > 0x400,
                    0 <= n < 0x1_0000_0000_0000_0000,
            ;
        } else {
            lemma_unit(n, 2 * unit);
        }
    } else if 2 * unit > n {
        assert(n / unit <= 1) by (nonlinear_arith)
            requires
                0 <= n < 2 * unit,
                unit > 0,
        ;
    }
}

/// The double nearest to a natural number.
fn nearest(n: u64) -> (r: u128)
    ensures
        r == nearest_double(n as int),
        r <= 0x2_0000_0000_0000_0000,
{
    let wide: u128 = n as u128;
    let mut unit: u128 = 1;
    proof {
        lemma_unit(n as int, 1);
    }
    while wide / unit >= 0x20_0000_0000_0000 && 2 * unit <= wide
        invariant
            wide == n,
            0 < unit <= 0x1000,
            unit_for(n as int, 1) == unit_for(n as int, unit as int),
            unit_for(n as int, 1) <= 0x1000,
        decreases wide - unit,
    {
        proof {
            if unit > 0x800 {
                assert(false) by (nonlinear_arith)
                    requires
                        wide / unit >= 0x20_0000_0000_0000,
                        unit > 0x800,
                        wide < 0x1_0000_0000_0000_0000,
                ;
            }
        }
        unit = unit * 2;
    }
    let q: u128 = wide / unit;
    let r: u128 = wide % unit;
    assert(q < 0x20_0000_0000_0000);
    assert((q + 1) * unit <= 0x20_0000_0000_0000 * 0x1000) by (nonlinear_arith)
        requires
            q < 0x20_0000_0000_0000,
            unit <= 0x1000,
    ;
    assert(q * unit <= (q + 1) * unit) by (nonlinear_arith)
        requires
            unit > 0,
            q >= 0,
    ;
    if 2 * r > unit || (2 * r == unit && q % 2 == 1) {
        (q + 1) * unit
    } else {
        q * unit
    }
}

fn saturate(neg: bool, m: u128) -> (r: i64)
    requires
        m <= 0x2_0000_0000_0000_0000,
    ensures
        r == to_i64(
            if neg {
                -(m as int)
            } else {
                m as int
            },
        ),
{
    if neg {
        if m >= 0x8000_0000_0000_0000 {
            i64::MIN
        } else {
            -(m as i64)
        }
    } else if m > 0x7fff_ffff_ffff_ffff {
        i64::MAX
    } else {
        m as i64
    }
}

/// The whole number that a number shows as.
pub fn whole_number(n: &Number) -> (r: Option<i64>)
    ensures
        match (r, whole_value(n.deep_view())) {
            (Some(v), Some(w)) => v == w,
            (None, None) => true,
            _ => false,
        },
{
    match n {
        Number::Unsigned(u) => Some(saturate(false, nearest(*u))),
        Number::Negative(i) => if *i < 0 {
            let m: u64 = (-(*i as i128)) as u64;
            Some(saturate(true, nearest(m)))
        } else {
            Some(saturate(false, nearest(*i as u64)))
        },
        Number::Float { bits, text: _ } => match magnitude(*bits) {
            Some(m) => {
                let c: u128 = if m > 0x1_0000_0000_0000_0000 {
                    0x1_0000_0000_0000_0000
                } else {
                    m
                };
                Some(saturate(*bits >= 0x8000_0000_0000_0000, c))
            },
            None => None,
        },
    }
}

/// The text of a cell in a rendered table: a whole number without a fraction, any
/// other cell as it displays.
pub open spec fn rendered_text(j: Json) -> Seq<char> {
    match j {
        Json::Number(n) => match whole_value(n) {
            Some(v) => int_text(v),
            None => cell_text(j),
        },
        _ => cell_text(j),
    }
}

pub fn render_cell(v: &Value) -> (r: String)
    ensures
        r@ == rendered_text(v.deep_view()),
{
    match v {
        Value::Number(n) => match whole_number(n) {
            Some(i) => if i < 0 {
                let m: u64 = (-(i as i128)) as u64;
                concat2("-", decimal_text(m).as_str())
            } else {
                decimal_text(i as u64)
            },
            None => cell_to_string(v),
        },
        _ => cell_to_string(v),
    }
}

} // verus!
