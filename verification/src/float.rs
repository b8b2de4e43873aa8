//! Floating-point thresholds, held as bit patterns and compared with integers.
//!
//! Ratios and scores reach this crate as IEEE 754 numbers. The crate never
//! computes with them; it only decides which of two numbers is larger. Both
//! numbers are therefore held as bit patterns, and every comparison is carried
//! out on integers, with the rounding that the format prescribes.

use vstd::prelude::*;

verus! {

/// 2^52, the smallest significand of a normal binary64 number.
pub const SIGNIFICAND_MIN: u64 = 0x10_0000_0000_0000;

/// 2^53, one above the largest significand of a binary64 number.
pub const SIGNIFICAND_LIMIT: u64 = 0x20_0000_0000_0000;

/// 2^63, the bit pattern of `-0.0` in binary64.
pub const SIGN_64: u64 = 0x8000_0000_0000_0000;

/// The bit pattern of the binary32 number one.
pub const ONE_32: u32 = 0x3F80_0000;

/// 2^31, the bit pattern of `-0.0` in binary32.
pub const SIGN_32: u32 = 0x8000_0000;

/// The bit pattern of infinity in binary32.
pub const INFINITY_32: u32 = 0x7F80_0000;

/// 2^n.
pub open spec fn pow2(n: nat) -> nat
    decreases n,
{
    if n == 0 {
        1
    } else {
        2 * pow2((n - 1) as nat)
    }
}

/// A number of the form `significand * 2^exponent`.
pub struct Dyadic {
    pub significand: nat,
    pub exponent: int,
}

impl Dyadic {
    /// The significand once the number is written with the exponent `base`,
    /// which is at most its own.
    pub open spec fn scaled_to(self, base: int) -> nat {
        self.significand * pow2((self.exponent - base) as nat)
    }

    /// Whether this number is at least `other`.
    pub open spec fn at_least(self, other: Dyadic) -> bool {
        let base = if self.exponent <= other.exponent {
            self.exponent
        } else {
            other.exponent
        };
        self.scaled_to(base) >= other.scaled_to(base)
    }
}

/// What a binary64 bit pattern stands for.
pub enum FloatValue {
    NotANumber,
    Infinite { negative: bool },
    Finite { negative: bool, magnitude: Dyadic },
}

/// An IEEE 754 binary64 number, held as its bit pattern.
#[derive(Debug, Clone, Copy)]
pub struct Float64 {
    pub bits: u64,
}

impl Float64 {
    /// The eleven exponent bits.
    pub open spec fn exponent_field(self) -> int {
        (self.bits as int / SIGNIFICAND_MIN as int) % 2048
    }

    /// The fifty-two fraction bits.
    pub open spec fn fraction_field(self) -> nat {
        (self.bits as int % SIGNIFICAND_MIN as int) as nat
    }

    /// The number that the bit pattern stands for.
    pub open spec fn value(self) -> FloatValue {
        let negative = self.bits >= SIGN_64;
        let exponent = self.exponent_field();
        let fraction = self.fraction_field();
        if exponent == 2047 {
            if fraction == 0 {
                FloatValue::Infinite { negative }
            } else {
                FloatValue::NotANumber
            }
        } else if exponent == 0 {
            FloatValue::Finite {
                negative,
                magnitude: Dyadic { significand: fraction, exponent: -1074 },
            }
        } else {
            FloatValue::Finite {
                negative,
                magnitude: Dyadic {
                    significand: fraction + SIGNIFICAND_MIN as nat,
                    exponent: exponent - 1075,
                },
            }
        }
    }
}

/// An IEEE 754 binary32 number, held as its bit pattern.
#[derive(Debug, Clone, Copy)]
pub struct Float32 {
    pub bits: u32,
}

impl Float32 {
    /// Whether the bit pattern stands for no number.
    pub open spec fn is_nan(self) -> bool {
        self.bits % SIGN_32 > INFINITY_32
    }

    /// The place of this number in the order of all numbers; the two zeros
    /// share a place.
    pub open spec fn rank(self) -> int {
        if self.bits >= SIGN_32 {
            SIGN_32 - self.bits
        } else {
            self.bits as int
        }
    }

    /// Whether this number is at least `other`; no comparison with a pattern
    /// that stands for no number holds.
    pub open spec fn spec_at_least(self, other: Float32) -> bool {
        !self.is_nan() && !other.is_nan() && self.rank() >= other.rank()
    }

    /// Whether this number is below `other`.
    pub open spec fn spec_below(self, other: Float32) -> bool {
        !self.is_nan() && !other.is_nan() && self.rank() < other.rank()
    }

    /// The floating-point comparison `self >= other`.
    pub fn at_least(self, other: Float32) -> (r: bool)
        ensures
            r == self.spec_at_least(other),
    {
        if self.bits % SIGN_32 > INFINITY_32 || other.bits % SIGN_32 > INFINITY_32 {
            return false;
        }
        if self.bits >= SIGN_32 {
            if other.bits >= SIGN_32 {
                self.bits <= other.bits
            } else {
                self.bits == SIGN_32 && other.bits == 0
            }
        } else {
            other.bits >= SIGN_32 || self.bits >= other.bits
        }
    }

    /// The floating-point comparison `self < other`.
    pub fn below(self, other: Float32) -> (r: bool)
        ensures
            r == self.spec_below(other),
    {
        if self.bits % SIGN_32 > INFINITY_32 || other.bits % SIGN_32 > INFINITY_32 {
            return false;
        }
        !self.at_least(other)
    }
}

/// How binary32 numbers compare. Patterns above that of infinity, whatever their
/// sign, stand for no number, and no comparison with one holds. The positive
/// numbers are ordered as their patterns, the negative ones the other way
/// round, every negative number is below every positive one, and the two zeros
/// are equal.
pub proof fn law_numbers_are_ordered_by_their_patterns(a: Float32, b: Float32)
    ensures
        ({
            let nan = |x: u32| 0x7F80_0000 < x < 0x8000_0000 || 0xFF80_0000 < x;
            if nan(a.bits) || nan(b.bits) {
                !a.spec_at_least(b) && !a.spec_below(b)
            } else {
                &&& a.spec_below(b) == !a.spec_at_least(b)
                &&& a.bits < 0x8000_0000 && b.bits < 0x8000_0000 ==> (a.spec_at_least(b)
                    <==> a.bits >= b.bits)
                &&& a.bits >= 0x8000_0000 && b.bits >= 0x8000_0000 ==> (a.spec_at_least(b)
                    <==> a.bits <= b.bits)
                &&& a.bits < 0x8000_0000 && b.bits >= 0x8000_0000 ==> a.spec_at_least(b)
                &&& a.bits >= 0x8000_0000 && b.bits < 0x8000_0000 ==> (a.spec_at_least(b)
                    <==> a.bits == 0x8000_0000 && b.bits == 0)
            }
        }),
{
}

/// `p / q` rounded to the nearest integer, ties to the even one.
pub open spec fn round_half_even(p: nat, q: nat) -> nat {
    let floor = p / q;
    let rest = p % q;
    if 2 * rest < q || (2 * rest == q && floor % 2 == 0) {
        floor
    } else {
        floor + 1
    }
}

/// `p / q` written as a fraction of `2^exponent`.
pub open spec fn in_units_of(p: nat, q: nat, exponent: int) -> (nat, nat) {
    if exponent >= 0 {
        (p, q * pow2(exponent as nat))
    } else {
        (p * pow2((-exponent) as nat), q)
    }
}

/// Whether `p / q`, in units of `2^exponent`, has exactly 53 bits before the
/// binary point.
pub open spec fn has_exponent(p: nat, q: nat, exponent: int) -> bool {
    let (num, den) = in_units_of(p, q, exponent);
    SIGNIFICAND_MIN * den <= num < SIGNIFICAND_LIMIT * den
}

/// The binary64 number nearest to the positive rational `p / q`, ties to even.
/// The quotients of two lengths are far from both ends of the format's range,
/// so neither overflow nor gradual underflow plays a part.
pub open spec fn nearest(p: nat, q: nat) -> Dyadic {
    let exponent = choose|e: int| has_exponent(p, q, e);
    let (num, den) = in_units_of(p, q, exponent);
    Dyadic { significand: round_half_even(num, den), exponent }
}

/// The natural number that a length becomes when it is converted to binary64.
pub open spec fn length_as_float(n: nat) -> nat {
    let rounded = nearest(n, 1);
    if n == 0 {
        0
    } else if rounded.exponent <= 0 {
        n
    } else {
        rounded.scaled_to(0)
    }
}

/// The binary64 quotient of two lengths, the second of them not zero.
pub open spec fn float_ratio(part: nat, whole: nat) -> Dyadic {
    if part == 0 {
        Dyadic { significand: 0, exponent: 0 }
    } else {
        nearest(length_as_float(part), length_as_float(whole))
    }
}

/// Whether the nonnegative number `x` is at least `bound`.
pub open spec fn at_least(x: Dyadic, bound: FloatValue) -> bool {
    match bound {
        FloatValue::NotANumber => false,
        FloatValue::Infinite { negative } => negative,
        FloatValue::Finite { negative, magnitude } => negative || x.at_least(magnitude),
    }
}

/// Whether the nonnegative number `x` is above `bound`.
pub open spec fn exceeds(x: Dyadic, bound: FloatValue) -> bool {
    match bound {
        FloatValue::NotANumber => false,
        FloatValue::Infinite { negative } => negative,
        FloatValue::Finite { negative, magnitude } => if negative && magnitude.significand > 0 {
            true
        } else {
            !magnitude.at_least(x)
        },
    }
}

/// `nearest(p, q)`, for `p` and `q` no larger than a length can become.
fn nearest_parts(p: u128, q: u128) -> (r: (u64, i32))
    requires
        1 <= p <= 0x1_0000_0000_0000_0000,
        1 <= q <= 0x1_0000_0000_0000_0000,
    ensures
        nearest(p as nat, q as nat) == (Dyadic { significand: r.0 as nat, exponent: r.1 as int }),
        has_exponent(p as nat, q as nat, r.1 as int),
        SIGNIFICAND_MIN <= r.0 <= SIGNIFICAND_LIMIT,
        -128 < r.1 < 128,
{
    let mut num: u128 = p;
    let mut den: u128 = q;
    let mut exponent: i32 = 0;
    proof {
        assert(pow2(0) == 1);
        assert(q * 1 == q && p * 1 == p) by (nonlinear_arith);
    }
    while num >= SIGNIFICAND_LIMIT as u128 * den
        invariant
            num == p,
            1 <= p <= 0x1_0000_0000_0000_0000,
            1 <= q,
            0 <= exponent < 128,
            den == q * pow2(exponent as nat),
            1 <= den <= 0x1_0000_0000_0000_0000,
            exponent > 0 ==> num >= SIGNIFICAND_MIN * den,
        decreases 0x1_0000_0000_0000_0000 - den,
    {
        proof {
            lemma_pow2_step(exponent as nat);
            assert(q * (2 * pow2(exponent as nat)) == 2 * (q * pow2(exponent as nat)))
                by (nonlinear_arith);
        }
        assert(den <= 0x800) by (nonlinear_arith)
            requires
                0x20_0000_0000_0000 * den <= num,
                num <= 0x1_0000_0000_0000_0000,
        ;
        den = den * 2;
        exponent = exponent + 1;
        proof {
            lemma_pow2_below(q as nat, exponent as nat, den as nat);
        }
    }
    while num < SIGNIFICAND_MIN as u128 * den
        invariant
            1 <= p <= 0x1_0000_0000_0000_0000,
            1 <= q,
            1 <= den <= 0x1_0000_0000_0000_0000,
            -128 < exponent < 128,
            num < SIGNIFICAND_LIMIT * den,
            num < SIGNIFICAND_MIN * den ==> exponent <= 0,
            exponent > 0 ==> num == p && den == q * pow2(exponent as nat),
            exponent <= 0 ==> den == q && num == p * pow2((-exponent) as nat),
            1 <= num,
        decreases SIGNIFICAND_LIMIT * den - num,
    {
        proof {
            lemma_pow2_step((-exponent) as nat);
            assert(p * (2 * pow2((-exponent) as nat)) == 2 * (p * pow2((-exponent) as nat)))
                by (nonlinear_arith);
        }
        num = num * 2;
        exponent = exponent - 1;
        proof {
            lemma_pow2_below(p as nat, (-exponent) as nat, num as nat);
        }
    }
    proof {
        lemma_exponent_is_chosen(p as nat, q as nat, exponent as int);
        lemma_quotient_range(num as nat, den as nat);
    }
    let floor: u64 = (num / den) as u64;
    let rest: u128 = num % den;
    if 2 * rest < den || (2 * rest == den && floor % 2 == 0) {
        (floor, exponent)
    } else {
        (floor + 1, exponent)
    }
}

/// `length_as_float(n)`.
fn length_to_float(n: usize) -> (r: u128)
    ensures
        r == length_as_float(n as nat),
        r <= 0x1_0000_0000_0000_0000,
        n > 0 ==> r > 0,
{
    if n == 0 {
        return 0;
    }
    let (significand, exponent) = nearest_parts(n as u128, 1);
    if exponent <= 0 {
        return n as u128;
    }
    let mut unit: u128 = 1;
    let mut k: i32 = 0;
    proof {
        let one = pow2(exponent as nat);
        assert(1 * one == one) by (nonlinear_arith);
        assert(SIGNIFICAND_MIN * one <= n);
        assert(one <= 0xFFF) by (nonlinear_arith)
            requires
                0x10_0000_0000_0000 * one <= n,
                n <= 0xFFFF_FFFF_FFFF_FFFF,
        ;
        reveal_with_fuel(pow2, 13);
        if exponent >= 12 {
            lemma_pow2_monotone(12, exponent as nat);
        } else {
            lemma_pow2_monotone(exponent as nat, 11);
        }
    }
    while k < exponent
        invariant
            0 <= k <= exponent,
            unit == pow2(k as nat),
            pow2(exponent as nat) <= 0x800,
        decreases exponent - k,
    {
        proof {
            lemma_pow2_step(k as nat);
            lemma_pow2_monotone((k + 1) as nat, exponent as nat);
        }
        unit = unit * 2;
        k = k + 1;
    }
    proof {
        lemma_rounding_up_stays_below(n as nat, unit as nat);
    }
    significand as u128 * unit
}

/// Rounding a 64-bit length to a multiple of `unit` never passes 2^64.
proof fn lemma_rounding_up_stays_below(n: nat, unit: nat)
    requires
        1 <= unit <= 0x800,
        SIGNIFICAND_MIN * unit <= n < SIGNIFICAND_LIMIT * unit,
    ensures
        0 < round_half_even(n, unit) * unit <= 0x1_0000_0000_0000_0000,
{
    lemma_quotient_range(n, unit);
    let rounded = round_half_even(n, unit);
    assert(0 < rounded * unit <= 0x1_0000_0000_0000_0000) by (nonlinear_arith)
        requires
            1 <= unit <= 0x800,
            1 <= rounded <= 0x20_0000_0000_0000,
    ;
}

impl Float64 {
    /// Whether `part / whole`, as a binary64 quotient, is at least this number.
    pub fn at_most_ratio(self, part: usize, whole: usize) -> (r: bool)
        requires
            whole > 0,
        ensures
            r == at_least(float_ratio(part as nat, whole as nat), self.value()),
    {
        let exponent: u64 = (self.bits / SIGNIFICAND_MIN) % 2048;
        let fraction: u64 = self.bits % SIGNIFICAND_MIN;
        if exponent == 2047 && fraction != 0 {
            return false;
        }
        if self.bits >= SIGN_64 {
            return true;
        }
        if exponent == 2047 {
            return false;
        }
        let ghost bound = self.value()->magnitude;
        if part == 0 {
            proof {
                lemma_compare_with_zero(bound);
            }
            return exponent == 0 && fraction == 0;
        }
        let p: u128 = length_to_float(part);
        let q: u128 = length_to_float(whole);
        let (m, e) = nearest_parts(p, q);
        proof {
            lemma_compare(Dyadic { significand: m as nat, exponent: e as int }, bound);
        }
        if exponent == 0 {
            return true;
        }
        let f: i32 = exponent as i32 - 1075;
        let t: u64 = fraction + SIGNIFICAND_MIN;
        e > f || (e == f && m >= t) || (e + 1 == f && m == SIGNIFICAND_LIMIT && t
            == SIGNIFICAND_MIN)
    }

    /// Whether `part / whole`, as a binary64 quotient, is above this number.
    pub fn below_ratio(self, part: usize, whole: usize) -> (r: bool)
        requires
            whole > 0,
        ensures
            r == exceeds(float_ratio(part as nat, whole as nat), self.value()),
    {
        let exponent: u64 = (self.bits / SIGNIFICAND_MIN) % 2048;
        let fraction: u64 = self.bits % SIGNIFICAND_MIN;
        if exponent == 2047 {
            return fraction == 0 && self.bits >= SIGN_64;
        }
        if self.bits >= SIGN_64 && (exponent != 0 || fraction != 0) {
            return true;
        }
        let ghost bound = self.value()->magnitude;
        if part == 0 {
            proof {
                lemma_compare_with_zero(bound);
            }
            return false;
        }
        let p: u128 = length_to_float(part);
        let q: u128 = length_to_float(whole);
        let (m, e) = nearest_parts(p, q);
        proof {
            lemma_compare(Dyadic { significand: m as nat, exponent: e as int }, bound);
        }
        if exponent == 0 {
            return true;
        }
        let f: i32 = exponent as i32 - 1075;
        let t: u64 = fraction + SIGNIFICAND_MIN;
        e > f || (e == f && m > t)
    }
}

/// The bit pattern of the binary64 number written `0.05`.
pub const ONE_TWENTIETH: u64 = 0x3FA9_9999_9999_999A;

/// The bit pattern of the binary64 number written `0.5`.
pub const ONE_HALF: u64 = 0x3FE0_0000_0000_0000;

/// Lengths below 2^53 are converted to binary64 without rounding.
pub proof fn law_short_lengths_are_exact(n: nat)
    requires
        n < SIGNIFICAND_LIMIT,
    ensures
        length_as_float(n) == n,
{
    if n > 0 {
        let rounded = nearest(n, 1);
        let e = rounded.exponent;
        lemma_exponent_exists(n, 1);
        if e > 0 {
            lemma_pow2_step((e - 1) as nat);
            let unit = pow2(e as nat);
            assert(1 * unit == unit) by (nonlinear_arith);
            assert(SIGNIFICAND_MIN * unit >= SIGNIFICAND_LIMIT) by (nonlinear_arith)
                requires
                    unit >= 2,
                    SIGNIFICAND_MIN * 2 == SIGNIFICAND_LIMIT,
            ;
        }
    }
}

/// The binary64 quotient of two lengths is the number with 53 bits that is
/// nearest to the quotient of the lengths as binary64 numbers, and of two that
/// are equally near the one with the even significand. The quotient of no bytes
/// is zero.
pub proof fn law_quotients_are_rounded_to_the_nearest(part: nat, whole: nat)
    requires
        length_as_float(part) > 0 || part == 0,
        length_as_float(whole) > 0,
    ensures
        part == 0 ==> float_ratio(part, whole).significand == 0,
        part > 0 ==> {
            let ratio = float_ratio(part, whole);
            let e = ratio.exponent;
            let num = if e >= 0 {
                length_as_float(part)
            } else {
                length_as_float(part) * pow2((-e) as nat)
            };
            let den = if e >= 0 {
                length_as_float(whole) * pow2(e as nat)
            } else {
                length_as_float(whole)
            };
            let error = ratio.significand * den - num;
            &&& 0x10_0000_0000_0000 * den <= num < 0x20_0000_0000_0000 * den
            &&& -den <= 2 * error <= den
            &&& 2 * error == den || 2 * error == -den ==> ratio.significand % 2 == 0
        },
{
    if part > 0 {
        let p = length_as_float(part);
        let q = length_as_float(whole);
        lemma_exponent_exists(p, q);
        let e = nearest(p, q).exponent;
        let (num, den) = in_units_of(p, q, e);
        lemma_units_positive(p, q, e);
        lemma_rounding(num, den);
    }
}

proof fn lemma_rounding(num: nat, den: nat)
    requires
        den >= 1,
    ensures
        ({
            let rounded = round_half_even(num, den);
            let error = rounded * den - num;
            &&& -den <= 2 * error <= den
            &&& 2 * error == den || 2 * error == -den ==> rounded % 2 == 0
        }),
{
    let floor = num / den;
    let rest = num % den;
    assert(num == floor * den + rest && 0 <= rest < den) by (nonlinear_arith)
        requires
            floor == num / den,
            rest == num % den,
            den >= 1,
    ;
    assert((floor + 1) * den == floor * den + den) by (nonlinear_arith);
}

/// A length becomes the binary64 number nearest to it: itself below 2^53, and
/// beyond that a multiple of the power of two that leaves it 53 bits.
pub proof fn law_lengths_are_rounded_to_the_nearest(n: nat)
    ensures
        n < 0x20_0000_0000_0000 ==> length_as_float(n) == n,
        n >= 0x20_0000_0000_0000 ==> exists|number: Dyadic|
            #![trigger number.significand]
            {
                let unit = pow2(number.exponent as nat);
                &&& number.exponent > 0
                &&& length_as_float(n) == number.significand * unit
                &&& 0x10_0000_0000_0000 * unit <= n < 0x20_0000_0000_0000 * unit
                &&& -unit <= 2 * (length_as_float(n) - n) <= unit
                &&& 2 * (length_as_float(n) - n) == unit || 2 * (length_as_float(n) - n) == -unit
                    ==> number.significand % 2 == 0
            },
{
    if n < 0x20_0000_0000_0000 {
        law_short_lengths_are_exact(n);
    } else {
        lemma_exponent_exists(n, 1);
        let rounded = nearest(n, 1);
        let e = rounded.exponent;
        if e <= 0 {
            let scale = pow2((-e) as nat);
            lemma_pow2_step((-e) as nat);
            assert(n * scale >= n) by (nonlinear_arith)
                requires
                    scale >= 1,
            ;
            assert(n * pow2(0) == n) by {
                assert(pow2(0) == 1);
            }
            assert(false);
        }
        let unit = pow2(e as nat);
        let m = rounded.significand;
        assert(1 * unit == unit) by (nonlinear_arith);
        lemma_pow2_step(e as nat);
        lemma_rounding(n, unit);
        assert(m * unit == length_as_float(n));
    }
}

/// How a quotient compares with a threshold. No quotient is at least, or above,
/// a pattern that stands for no number or positive infinity; each is above every
/// negative number. Otherwise the two are compared as numbers: their
/// significands, once both are written with the same exponent.
pub proof fn law_thresholds_compare_as_numbers(ratio: Dyadic, bits: u64)
    ensures
        ({
            let e = (bits % 0x8000_0000_0000_0000) as int / 0x10_0000_0000_0000;
            let fraction = bits as int % 0x10_0000_0000_0000;
            let negative = bits >= 0x8000_0000_0000_0000;
            let threshold = Float64 { bits }.value();
            let significand = if e == 0 {
                fraction
            } else {
                fraction + 0x10_0000_0000_0000
            };
            let exponent = if e == 0 {
                -1074
            } else {
                e - 1075
            };
            let base = if ratio.exponent <= exponent {
                ratio.exponent
            } else {
                exponent
            };
            let left = ratio.significand * pow2((ratio.exponent - base) as nat);
            let right = significand * pow2((exponent - base) as nat);
            if e == 2047 {
                &&& at_least(ratio, threshold) <==> negative && fraction == 0
                &&& exceeds(ratio, threshold) <==> negative && fraction == 0
            } else if negative && significand > 0 {
                at_least(ratio, threshold) && exceeds(ratio, threshold)
            } else {
                &&& at_least(ratio, threshold) <==> negative || left >= right
                &&& exceeds(ratio, threshold) <==> left > right
            }
        }),
{
    let m = 0x8000_0000_0000_0000int;
    let q = 0x10_0000_0000_0000int;
    assert((bits as int / q) % 2048 == (bits as int % m) / q) by (nonlinear_arith)
        requires
            0 <= bits < 2 * m,
            m == 2048 * q,
            q == 0x10_0000_0000_0000int,
    ;
}

/// The quotient of two lengths below 2^53 is at least the binary64 number
/// written `0.05` exactly when the first length is a twentieth of the second
/// or more.
pub proof fn law_one_twentieth_is_exact(part: nat, whole: nat)
    requires
        0 < part < SIGNIFICAND_LIMIT,
        0 < whole < SIGNIFICAND_LIMIT,
    ensures
        at_least(float_ratio(part, whole), Float64 { bits: ONE_TWENTIETH }.value()) <==> 20 * part
            >= whole,
{
    law_short_lengths_are_exact(part);
    law_short_lengths_are_exact(whole);
    let bound = Dyadic { significand: 0x19_9999_9999_999A, exponent: -57 };
    assert(Float64 { bits: ONE_TWENTIETH }.value() == (FloatValue::Finite {
        negative: false,
        magnitude: bound,
    }));
    lemma_exponent_exists(part, whole);
    let e = choose|e: int| has_exponent(part, whole, e);
    let (num, den) = in_units_of(part, whole, e);
    lemma_units_positive(part, whole, e);
    lemma_quotient_range(num, den);
    let x = nearest(part, whole);
    lemma_compare(x, bound);
    lemma_powers_of_two();
    if e > -57 {
        lemma_ratio_from_exponent(part, whole, e, -56, 0x100_0000_0000_0000);
        assert(part * 16 >= whole);
    } else if e < -57 {
        lemma_ratio_from_exponent(part, whole, e, -58, 0x400_0000_0000_0000);
        assert(part * 32 < whole);
    } else {
        let floor = (num / den) as int;
        let rest = (num % den) as int;
        assert(num == floor * den + rest) by {
            vstd::arithmetic::div_mod::lemma_fundamental_div_mod(num as int, den as int);
            assert(den * floor == floor * den) by (nonlinear_arith);
        }
        assert(num == part * 0x200_0000_0000_0000);
        if 20 * part >= whole {
            if floor <= 0x19_9999_9999_9998 {
                assert(floor * den <= 0x19_9999_9999_9998 * den) by (nonlinear_arith)
                    requires
                        floor <= 0x19_9999_9999_9998,
                        den >= 0,
                ;
            } else if floor == 0x19_9999_9999_9999 {
                assert(floor * den == 0x19_9999_9999_9999 * den);
            }
        } else {
            if floor >= 0x19_9999_9999_9999 {
                assert(floor * den >= 0x19_9999_9999_9999 * den) by (nonlinear_arith)
                    requires
                        floor >= 0x19_9999_9999_9999,
                        den >= 0,
                ;
            }
        }
    }
}

/// The quotient of two lengths below 2^53 is above the binary64 number `0.5`
/// exactly when the first length is more than half of the second.
pub proof fn law_one_half_is_exact(part: nat, whole: nat)
    requires
        part < SIGNIFICAND_LIMIT,
        0 < whole < SIGNIFICAND_LIMIT,
    ensures
        exceeds(float_ratio(part, whole), Float64 { bits: ONE_HALF }.value()) <==> 2 * part
            > whole,
{
    let bound = Dyadic { significand: 0x10_0000_0000_0000, exponent: -53 };
    assert(Float64 { bits: ONE_HALF }.value() == (FloatValue::Finite {
        negative: false,
        magnitude: bound,
    }));
    if part == 0 {
        lemma_compare_with_zero(bound);
    } else {
        law_short_lengths_are_exact(part);
        law_short_lengths_are_exact(whole);
        lemma_exponent_exists(part, whole);
        let e = choose|e: int| has_exponent(part, whole, e);
        let (num, den) = in_units_of(part, whole, e);
        lemma_units_positive(part, whole, e);
        lemma_quotient_range(num, den);
        lemma_compare(nearest(part, whole), bound);
        lemma_powers_of_two();
        if e > -53 {
            lemma_ratio_from_exponent(part, whole, e, -52, 0x10_0000_0000_0000);
        } else if e < -53 {
            lemma_ratio_from_exponent(part, whole, e, -54, 0x40_0000_0000_0000);
        } else {
            let floor = (num / den) as int;
            let rest = (num % den) as int;
            assert(num == floor * den + rest) by {
                vstd::arithmetic::div_mod::lemma_fundamental_div_mod(num as int, den as int);
                assert(den * floor == floor * den) by (nonlinear_arith);
            }
            assert(num == part * 0x20_0000_0000_0000);
            if floor == 0x10_0000_0000_0000 {
                assert(floor * den == 0x10_0000_0000_0000 * den);
            } else {
                assert(floor * den >= 0x10_0000_0000_0001 * den) by (nonlinear_arith)
                    requires
                        floor >= 0x10_0000_0000_0001,
                        den >= 0,
                ;
            }
        }
    }
}

/// What an exponent says of the quotient, relative to another exponent below
/// zero.
proof fn lemma_ratio_from_exponent(p: nat, q: nat, exponent: int, other: int, shift: nat)
    requires
        shift == pow2((-other) as nat),
        p >= 1,
        q >= 1,
        other < 0,
        has_exponent(p, q, exponent),
    ensures
        exponent >= other ==> p * shift >= SIGNIFICAND_MIN * q,
        exponent <= other ==> p * shift < SIGNIFICAND_LIMIT * q,
{
    lemma_pow2_step((-other) as nat);
    if exponent >= 0 {
        let unit = pow2(exponent as nat);
        lemma_pow2_step(exponent as nat);
        let m = SIGNIFICAND_MIN as int;
        assert(p * shift >= m * q) by (nonlinear_arith)
            requires
                p >= m * (q * unit),
                unit >= 1,
                shift >= 1,
                m >= 1,
                q >= 1,
        {
            assert(q * unit >= q);
            assert(m * (q * unit) >= m * q);
            assert(p * shift >= p);
        }
    } else if exponent >= other {
        let unit = pow2((-exponent) as nat);
        lemma_pow2_monotone((-exponent) as nat, (-other) as nat);
        assert(p * shift >= p * unit) by (nonlinear_arith)
            requires
                shift >= unit,
                p >= 1,
        ;
    }
    if exponent <= other {
        let unit = pow2((-exponent) as nat);
        lemma_pow2_monotone((-other) as nat, (-exponent) as nat);
        assert(p * shift <= p * unit) by (nonlinear_arith)
            requires
                shift <= unit,
                p >= 1,
        ;
    }
}

proof fn lemma_units_positive(p: nat, q: nat, exponent: int)
    requires
        p >= 1,
        q >= 1,
    ensures
        in_units_of(p, q, exponent).0 >= 1,
        in_units_of(p, q, exponent).1 >= 1,
{
    if exponent >= 0 {
        lemma_pow2_step(exponent as nat);
        let unit = pow2(exponent as nat);
        assert(q * unit >= 1) by (nonlinear_arith)
            requires
                q >= 1,
                unit >= 1,
        ;
    } else {
        lemma_pow2_step((-exponent) as nat);
        let unit = pow2((-exponent) as nat);
        assert(p * unit >= 1) by (nonlinear_arith)
            requires
                p >= 1,
                unit >= 1,
        ;
    }
}

/// Every positive rational has an exponent.
proof fn lemma_exponent_exists(p: nat, q: nat)
    requires
        p >= 1,
        q >= 1,
    ensures
        has_exponent(p, q, choose|e: int| has_exponent(p, q, e)),
{
    lemma_pow2_exceeds(p);
    let unit = pow2(p);
    assert(p < 0x20_0000_0000_0000 * (q * unit)) by (nonlinear_arith)
        requires
            p < unit,
            q >= 1,
    ;
    lemma_exponent_at_most(p, q, p as int);
}

proof fn lemma_pow2_exceeds(n: nat)
    ensures
        n < pow2(n),
    decreases n,
{
    if n > 0 {
        lemma_pow2_exceeds((n - 1) as nat);
    }
}

proof fn lemma_exponent_at_most(p: nat, q: nat, exponent: int)
    requires
        p >= 1,
        q >= 1,
        in_units_of(p, q, exponent).0 < SIGNIFICAND_LIMIT * in_units_of(p, q, exponent).1,
    ensures
        exists|e: int| has_exponent(p, q, e),
    decreases
            if exponent > 0 {
                exponent
            } else {
                0
            },
            SIGNIFICAND_LIMIT * q - in_units_of(p, q, exponent).0,
{
    let (num, den) = in_units_of(p, q, exponent);
    if has_exponent(p, q, exponent) {
    } else {
        lemma_units_positive(p, q, exponent);
        if exponent > 0 {
            let half = pow2((exponent - 1) as nat);
            assert(q * (2 * half) == 2 * (q * half)) by (nonlinear_arith);
            lemma_exponent_at_most(p, q, exponent - 1);
        } else {
            let unit = pow2((-exponent) as nat);
            lemma_pow2_step((-exponent) as nat);
            assert(pow2((-(exponent - 1)) as nat) == 2 * unit);
            assert(p * (2 * unit) == 2 * (p * unit)) by (nonlinear_arith);
            assert(p * 1 == p && q * 1 == q) by (nonlinear_arith);
            assert(in_units_of(p, q, exponent).0 == p * unit);
            lemma_exponent_at_most(p, q, exponent - 1);
        }
    }
}

proof fn lemma_powers_of_two()
    ensures
        pow2(58) == 0x400_0000_0000_0000,
        pow2(57) == 0x200_0000_0000_0000,
        pow2(56) == 0x100_0000_0000_0000,
        pow2(54) == 0x40_0000_0000_0000,
        pow2(53) == SIGNIFICAND_LIMIT,
        pow2(52) == SIGNIFICAND_MIN,
{
    assert(pow2(26) == 0x400_0000) by {
        reveal_with_fuel(pow2, 27);
    }
    lemma_pow2_add(26, 26);
    lemma_pow2_step(52);
    lemma_pow2_step(53);
    lemma_pow2_step(54);
    lemma_pow2_step(55);
    lemma_pow2_step(56);
    lemma_pow2_step(57);
}

proof fn lemma_compare_with_zero(bound: Dyadic)
    ensures
        (Dyadic { significand: 0, exponent: 0 }).at_least(bound) == (bound.significand == 0),
        bound.at_least(Dyadic { significand: 0, exponent: 0 }),
{
    let zero = Dyadic { significand: 0, exponent: 0 };
    let base = if bound.exponent <= 0 { bound.exponent } else { 0 };
    let shift = pow2((bound.exponent - base) as nat);
    lemma_pow2_step((bound.exponent - base) as nat);
    assert(zero.scaled_to(base) == 0) by (nonlinear_arith)
        requires
            zero.scaled_to(base) == 0 * pow2((0 - base) as nat),
    ;
    assert(bound.significand * shift == 0 <==> bound.significand == 0) by (nonlinear_arith)
        requires
            shift >= 1,
    ;
}

/// Numbers are compared by exponent first, then by significand.
proof fn lemma_compare(a: Dyadic, b: Dyadic)
    requires
        SIGNIFICAND_MIN <= a.significand <= SIGNIFICAND_LIMIT,
        b.significand < SIGNIFICAND_LIMIT,
        b.significand >= SIGNIFICAND_MIN || b.exponent < a.exponent,
    ensures
        a.at_least(b) == (a.exponent > b.exponent || (a.exponent == b.exponent && a.significand
            >= b.significand) || (a.exponent + 1 == b.exponent && a.significand
            == SIGNIFICAND_LIMIT && b.significand == SIGNIFICAND_MIN)),
        b.at_least(a) == (a.exponent < b.exponent || (a.exponent == b.exponent && b.significand
            >= a.significand)),
{
    let am = a.significand as int;
    let bm = b.significand as int;
    assert(pow2(0) == 1);
    assert(am * 1 == am && bm * 1 == bm) by (nonlinear_arith);
    if a.exponent > b.exponent {
        let gap = (a.exponent - b.exponent) as nat;
        lemma_pow2_step((gap - 1) as nat);
        let shift = pow2(gap);
        assert(am * shift >= 2 * am) by (nonlinear_arith)
            requires
                shift >= 2,
                am >= 0,
        ;
        assert(a.scaled_to(b.exponent) == am * shift);
        assert(b.scaled_to(b.exponent) == bm);
    } else if a.exponent < b.exponent {
        let gap = (b.exponent - a.exponent) as nat;
        lemma_pow2_step((gap - 1) as nat);
        let shift = pow2(gap);
        assert(b.scaled_to(a.exponent) == bm * shift);
        assert(a.scaled_to(a.exponent) == am);
        if gap == 1 {
            assert(shift == 2);
            assert(bm * shift == 2 * bm) by (nonlinear_arith)
                requires
                    shift == 2,
            ;
        } else {
            lemma_pow2_step((gap - 2) as nat);
            assert(shift >= 4);
            assert(bm * shift >= 4 * bm) by (nonlinear_arith)
                requires
                    shift >= 4,
                    bm >= 0,
            ;
        }
    } else {
        assert(a.scaled_to(a.exponent) == am);
        assert(b.scaled_to(a.exponent) == bm);
    }
}

proof fn lemma_pow2_step(n: nat)
    ensures
        pow2(n + 1) == 2 * pow2(n),
        pow2(n) >= 1,
    decreases n,
{
    if n > 0 {
        lemma_pow2_step((n - 1) as nat);
    }
}

proof fn lemma_pow2_add(a: nat, b: nat)
    ensures
        pow2(a + b) == pow2(a) * pow2(b),
    decreases b,
{
    if b == 0 {
        assert(pow2(a) * 1 == pow2(a)) by (nonlinear_arith);
    } else {
        lemma_pow2_add(a, (b - 1) as nat);
        assert((a + b - 1) as nat == a + (b - 1) as nat);
        assert(pow2(a) * (2 * pow2((b - 1) as nat)) == 2 * (pow2(a) * pow2((b - 1) as nat)))
            by (nonlinear_arith);
    }
}

proof fn lemma_pow2_monotone(a: nat, b: nat)
    requires
        a <= b,
    ensures
        pow2(a) <= pow2(b),
    decreases b - a,
{
    if a < b {
        lemma_pow2_monotone(a, (b - 1) as nat);
    }
}

proof fn lemma_pow2_128()
    ensures
        pow2(128) == 0x1_0000_0000_0000_0000 * 0x1_0000_0000_0000_0000,
{
    assert(pow2(32) == 0x1_0000_0000) by {
        reveal_with_fuel(pow2, 33);
    }
    lemma_pow2_add(32, 32);
    lemma_pow2_add(64, 64);
}

/// A product with `2^n` that fits in 128 bits has `n` below 128.
proof fn lemma_pow2_below(x: nat, n: nat, product: nat)
    requires
        x >= 1,
        product == x * pow2(n),
        product <= u128::MAX,
    ensures
        n < 128,
{
    if n >= 128 {
        lemma_pow2_128();
        lemma_pow2_monotone(128, n);
        assert(x * pow2(n) >= pow2(n)) by (nonlinear_arith)
            requires
                x >= 1,
        ;
    }
}

proof fn lemma_quotient_range(num: nat, den: nat)
    requires
        den >= 1,
        SIGNIFICAND_MIN * den <= num < SIGNIFICAND_LIMIT * den,
    ensures
        SIGNIFICAND_MIN <= num / den < SIGNIFICAND_LIMIT,
{
    let lo = SIGNIFICAND_MIN as int;
    let hi = SIGNIFICAND_LIMIT as int;
    assert(lo <= (num as int) / (den as int) && (num as int) / (den as int) < hi) by (nonlinear_arith)
        requires
            den >= 1,
            lo * den <= num < hi * den,
    ;
}

/// At most one exponent fits a positive rational.
proof fn lemma_exponent_unique(p: nat, q: nat, low: int, high: int)
    requires
        p >= 1,
        q >= 1,
        low < high,
        has_exponent(p, q, low),
    ensures
        !has_exponent(p, q, high),
{
    let a1 = if low >= 0 { pow2(low as nat) } else { 1 };
    let b1 = if low >= 0 { 1 } else { pow2((-low) as nat) };
    let a2 = if high >= 0 { pow2(high as nat) } else { 1 };
    let b2 = if high >= 0 { 1 } else { pow2((-high) as nat) };
    assert(a2 * b1 >= 2 * (a1 * b2)) by {
        if low >= 0 {
            lemma_pow2_step(low as nat);
            lemma_pow2_monotone((low + 1) as nat, high as nat);
        } else if high >= 0 {
            lemma_pow2_step((-low - 1) as nat);
            lemma_pow2_step(high as nat);
            assert(pow2((-low) as nat) >= 2);
            assert(a2 * b1 >= 2) by (nonlinear_arith)
                requires
                    a2 >= 1,
                    b1 >= 2,
            ;
        } else {
            lemma_pow2_step((-high) as nat);
            lemma_pow2_monotone((-high + 1) as nat, (-low) as nat);
        }
    }
    lemma_pow2_step(if high >= 0 { high as nat } else { (-high) as nat });
    lemma_pow2_step(if low >= 0 { low as nat } else { (-low) as nat });
    if has_exponent(p, q, high) {
        let m = SIGNIFICAND_MIN as int;
        assert(p * b1 < 2 * m * (q * a1));
        assert(m * (q * a2) <= p * b2);
        assert(false) by (nonlinear_arith)
            requires
                p * b1 < 2 * m * (q * a1),
                m * (q * a2) <= p * b2,
                a2 * b1 >= 2 * (a1 * b2),
                b1 >= 1,
                b2 >= 1,
                m >= 1,
                q >= 1,
        {
            assert((p * b1) * b2 < (2 * m * (q * a1)) * b2);
            assert((m * (q * a2)) * b1 <= (p * b2) * b1);
            assert((m * q) * (a2 * b1) >= (m * q) * (2 * (a1 * b2)));
            assert((m * (q * a2)) * b1 == (m * q) * (a2 * b1));
            assert((2 * m * (q * a1)) * b2 == (m * q) * (2 * (a1 * b2)));
            assert((p * b1) * b2 == (p * b2) * b1);
        }
    }
}

proof fn lemma_exponent_is_chosen(p: nat, q: nat, exponent: int)
    requires
        p >= 1,
        q >= 1,
        has_exponent(p, q, exponent),
    ensures
        exponent == choose|e: int| has_exponent(p, q, e),
{
    let chosen = choose|e: int| has_exponent(p, q, e);
    if exponent < chosen {
        lemma_exponent_unique(p, q, exponent, chosen);
    } else if chosen < exponent {
        lemma_exponent_unique(p, q, chosen, exponent);
    }
}

} // verus!
