//! Exact scalar types standing in for the real-valued inputs of the algebra:
//! non-negative rationals for probabilities and bin sizes, and non-negative
//! decimals for choice weights.

use crate::text::{dec_str, trimmed_digits, u64_to_string};
use vstd::prelude::*;
use vstd::string::StringExecFns;

verus! {

/// An exact non-negative rational number. It stands in for every real-valued
/// probability-like input of the algebra: bin values handed to construction,
/// bin sizes, and mixture fractions. The value denoted is `num / den`.
#[derive(Clone, Copy, Debug)]
pub struct Frac {
    num: u64,
    den: u64,
}

/// `a == b` as rational values, by cross-multiplication.
pub open spec fn frac_eq(a: Frac, b: Frac) -> bool {
    a.num() * b.den() == b.num() * a.den()
}

/// `a <= b` as rational values, by cross-multiplication.
pub open spec fn frac_le(a: Frac, b: Frac) -> bool {
    a.num() * b.den() <= b.num() * a.den()
}

/// `a <= 1` as a rational value.
pub open spec fn frac_le_one(a: Frac) -> bool {
    a.num() <= a.den()
}

/// The product of two 64-bit values always fits in 128 bits.
proof fn lemma_u64_mul_fits(a: u64, b: u64)
    by (nonlinear_arith)
    ensures
        0 <= (a as int) * (b as int) <= u128::MAX,
{
}

/// Both parts are in the 64-bit range and the denominator is positive; true
/// of every rational this library hands out.
pub open spec fn frac_valid(a: Frac) -> bool {
    1 <= a.den() <= u64::MAX && 0 <= a.num() <= u64::MAX
}

/// `floor(n/d * 65535)`: the truncating quantization applied to every bin
/// value at construction of a CDF.
pub open spec fn quant_floor_int(n: int, d: int) -> int {
    n * 65535 / d
}

/// `floor(n/d * 65536)` saturated at 65535: the quantization applied to a
/// mixture fraction before it multiplies the bins of an operand.
pub open spec fn quant_scale_int(n: int, d: int) -> int {
    if n == d {
        65535
    } else {
        65536 * n / d
    }
}

pub open spec fn quant_floor(a: Frac) -> int {
    quant_floor_int(a.num(), a.den())
}

pub open spec fn quant_scale(a: Frac) -> int {
    quant_scale_int(a.num(), a.den())
}

/// Division bound: a quotient stays at or below `b` while the dividend stays
/// below `(b + 1) * d`.
pub proof fn lemma_div_bound(a: int, b: int, d: int)
    by (nonlinear_arith)
    requires
        d >= 1,
        0 <= a,
        0 <= b,
        a < (b + 1) * d,
    ensures
        0 <= a / d <= b,
{
}

/// A value at most one quantizes to a bin value: `0 <= floor(v * 65535) <= 65535`.
pub proof fn lemma_quant_floor_bounds(a: Frac)
    requires
        frac_le_one(a),
        frac_valid(a),
    ensures
        0 <= quant_floor(a) <= 65535,
{
    assert(a.num() * 65535 < (65535 + 1) * a.den()) by (nonlinear_arith)
        requires
            a.num() <= a.den(),
            a.den() >= 1,
    ;
    assert(a.num() * 65535 >= 0) by (nonlinear_arith)
        requires
            a.num() >= 0,
    ;
    lemma_div_bound(a.num() * 65535, 65535, a.den());
}

/// Shifting the dividend by a multiple of the divisor shifts the quotient.
pub proof fn lemma_div_add_multiple(a: int, k: int, d: int)
    requires
        d >= 1,
    ensures
        (a + k * d) / d == a / d + k,
{
    vstd::arithmetic::div_mod::lemma_fundamental_div_mod(a, d);
    assert(a + k * d == (a / d + k) * d + a % d) by (nonlinear_arith)
        requires
            a == d * (a / d) + a % d,
    ;
    vstd::arithmetic::div_mod::lemma_fundamental_div_mod_converse(
        a + k * d,
        d,
        a / d + k,
        a % d,
    );
}

/// Truncating division is monotone across denominators: if `x/p <= y/q` as
/// exact rationals, the same holds after flooring.
pub proof fn lemma_div_cross_mono(x: int, p: int, y: int, q: int)
    requires
        0 <= x,
        0 <= y,
        1 <= p,
        1 <= q,
        x * q <= y * p,
    ensures
        x / p <= y / q,
{
    let k = x / p;
    vstd::arithmetic::div_mod::lemma_div_pos_is_pos(x, p);
    vstd::arithmetic::div_mod::lemma_fundamental_div_mod(x, p);
    assert(p * k <= x);
    assert((p * k) * q <= x * q) by (nonlinear_arith)
        requires
            p * k <= x,
            q >= 1,
    ;
    assert(k * q <= y) by (nonlinear_arith)
        requires
            (p * k) * q <= y * p,
            p >= 1,
            k >= 0,
            q >= 1,
    ;
    vstd::arithmetic::div_mod::lemma_div_is_ordered(k * q, y, q);
    vstd::arithmetic::div_mod::lemma_div_by_multiple(k, q);
    assert((k * q) / q == k);
}

impl Frac {
    /// A rational needs a nonzero denominator.
    #[verifier::type_invariant]
    pub closed spec fn valid(self) -> bool {
        self.den >= 1
    }

    pub closed spec fn num(self) -> int {
        self.num as int
    }

    pub closed spec fn den(self) -> int {
        self.den as int
    }

    pub fn new(num: u64, den: u64) -> (r: Frac)
        requires
            den >= 1,
        ensures
            r.num() == num,
            r.den() == den,
    {
        Frac { num, den }
    }

    pub fn num_val(&self) -> (r: u64)
        ensures
            r == self.num(),
    {
        self.num
    }

    pub fn den_val(&self) -> (r: u64)
        ensures
            r == self.den(),
    {
        self.den
    }

    /// Exposes the validity of a reachable rational to callers.
    pub fn check_valid(&self)
        ensures
            frac_valid(*self),
    {
        proof {
            use_type_invariant(*self);
        }
    }

    /// True when the two rationals denote the same value.
    pub fn same_value(&self, other: &Frac) -> (r: bool)
        ensures
            r == frac_eq(*self, *other),
            frac_valid(*self),
            frac_valid(*other),
    {
        proof {
            use_type_invariant(*self);
            use_type_invariant(*other);
            lemma_u64_mul_fits(self.num, other.den);
            lemma_u64_mul_fits(other.num, self.den);
        }
        (self.num as u128) * (other.den as u128) == (other.num as u128) * (self.den as u128)
    }

    /// True when `self <= other` as rational values.
    pub fn le(&self, other: &Frac) -> (r: bool)
        ensures
            r == frac_le(*self, *other),
            frac_valid(*self),
            frac_valid(*other),
    {
        proof {
            use_type_invariant(*self);
            use_type_invariant(*other);
            lemma_u64_mul_fits(self.num, other.den);
            lemma_u64_mul_fits(other.num, self.den);
        }
        (self.num as u128) * (other.den as u128) <= (other.num as u128) * (self.den as u128)
    }

    /// True when the denoted value is at most one.
    pub fn at_most_one(&self) -> (r: bool)
        ensures
            r == frac_le_one(*self),
            frac_valid(*self),
    {
        proof {
            use_type_invariant(*self);
        }
        self.num <= self.den
    }

    /// The 16-bit fixed-point bin value of a probability: `floor(self * 65535)`.
    pub(crate) fn quantize_floor(&self) -> (r: u16)
        requires
            frac_le_one(*self),
        ensures
            r == quant_floor(*self),
            frac_valid(*self),
    {
        proof {
            use_type_invariant(*self);
            lemma_u64_mul_fits(self.num, 65535);
            assert((self.num as int) * 65535 < (65535 + 1) * (self.den as int)) by (nonlinear_arith)
                requires
                    self.num <= self.den,
                    self.den >= 1,
            ;
            lemma_div_bound((self.num as int) * 65535, 65535, self.den as int);
        }
        ((self.num as u128) * 65535 / (self.den as u128)) as u16
    }

    /// The 16-bit fixed-point multiplier of a mixture fraction:
    /// `floor(self * 65536)`, saturated at 65535.
    pub(crate) fn quantize_scale(&self) -> (r: u16)
        requires
            frac_le_one(*self),
        ensures
            r == quant_scale(*self),
            frac_valid(*self),
    {
        proof {
            use_type_invariant(*self);
        }
        if self.num == self.den {
            65535
        } else {
            proof {
                lemma_u64_mul_fits(self.num, 65536);
                assert(65536 * (self.num as int) < (65535 + 1) * (self.den as int))
                    by (nonlinear_arith)
                    requires
                        self.num < self.den,
                ;
                lemma_div_bound(65536 * (self.num as int), 65535, self.den as int);
            }
            ((self.num as u128) * 65536 / (self.den as u128)) as u16
        }
    }

    /// The fraction `1 - self`, defined for values at most one.
    pub fn complement(&self) -> (r: Frac)
        requires
            frac_le_one(*self),
        ensures
            r.num() == self.den() - self.num(),
            r.den() == self.den(),
            frac_valid(*self),
    {
        proof {
            use_type_invariant(*self);
        }
        Frac { num: self.den - self.num, den: self.den }
    }
}

/// Largest permitted numerator of a `Weight`.
pub const WEIGHT_UNITS_MAX: u64 = 1_000_000_000;

/// Largest permitted number of fractional digits of a `Weight`.
pub const WEIGHT_SCALE_MAX: u32 = 9;

/// `10^e` for small non-negative exponents.
pub open spec fn pow10_spec(e: int) -> int
    decreases e,
{
    if e <= 0 {
        1
    } else {
        10 * pow10_spec(e - 1)
    }
}

/// `10^e` as a machine integer, for exponents up to nine.
pub fn pow10(e: u32) -> (r: u64)
    requires
        e <= 9,
    ensures
        r == pow10_spec(e as int),
        1 <= r <= 1_000_000_000,
{
    proof {
        reveal_with_fuel(pow10_spec, 11);
    }
    match e {
        0 => 1,
        1 => 10,
        2 => 100,
        3 => 1_000,
        4 => 10_000,
        5 => 100_000,
        6 => 1_000_000,
        7 => 10_000_000,
        8 => 100_000_000,
        _ => 1_000_000_000,
    }
}

/// An exact non-negative decimal number with at most nine fractional digits,
/// denoting `units / 10^scale`. It stands in for the real-valued weights of a
/// probabilistic choice between two outcomes.
#[derive(Clone, Copy, Debug)]
pub struct Weight {
    units: u64,
    scale: u32,
}

impl Weight {
    /// Bounds that keep weight normalization inside 64-bit arithmetic.
    #[verifier::type_invariant]
    pub closed spec fn valid(self) -> bool {
        self.units <= WEIGHT_UNITS_MAX && self.scale <= WEIGHT_SCALE_MAX
    }

    pub closed spec fn units(self) -> int {
        self.units as int
    }

    pub closed spec fn scale(self) -> int {
        self.scale as int
    }

    pub fn new(units: u64, scale: u32) -> (r: Weight)
        requires
            units <= WEIGHT_UNITS_MAX,
            scale <= WEIGHT_SCALE_MAX,
        ensures
            r.units() == units,
            r.scale() == scale,
    {
        Weight { units, scale }
    }

    pub fn units_val(&self) -> (r: u64)
        ensures
            r == self.units(),
            r <= 1_000_000_000,
    {
        proof {
            use_type_invariant(*self);
        }
        self.units
    }

    pub fn scale_val(&self) -> (r: u32)
        ensures
            r == self.scale(),
            r <= 9,
    {
        proof {
            use_type_invariant(*self);
        }
        self.scale
    }

    /// Render the weight as the shortest plain decimal: the integer part,
    /// then a fractional part with trailing zeros removed when one remains.
    pub fn to_string(&self) -> (r: String)
        ensures
            r@ == weight_str(*self),
    {
        proof {
            use_type_invariant(*self);
        }
        let p = pow10(self.scale);
        let ip = self.units / p;
        let fp = self.units % p;
        if fp == 0 {
            u64_to_string(ip)
        } else {
            let mut s = u64_to_string(ip);
            s.append(".");
            let t = crate::text::trimmed_string(fp, self.scale);
            s.append(t.as_str());
            proof {
                reveal_strlit(".");
                assert(s@ =~= weight_str(*self));
            }
            s
        }
    }
}

/// The decimal rendering of a weight: integer part, and when the fraction
/// part is not zero, a point followed by its digits without trailing zeros.
pub open spec fn weight_str(w: Weight) -> Seq<char> {
    let p = pow10_spec(w.scale());
    let ip = w.units() / p;
    let fp = w.units() % p;
    if fp == 0 {
        dec_str(ip)
    } else {
        dec_str(ip) + "."@ + trimmed_digits(fp, w.scale())
    }
}

} // verus!
