//! Audio samples: IEEE 754 binary32 values held by their bit patterns.
//!
//! The arithmetic runs in integer registers, so a result is the same on every
//! machine, and is proved to be the correctly rounded one (to nearest, ties to
//! even).
use crate::rounding::{
    lemma_nearest_even_at_most, lemma_nearest_even_bound, lemma_nearest_even_is_near,
    lemma_pow2_grows, lemma_rounded_parts, lemma_rounded_ratio, lemma_rounds_back, magnitude_of,
    nearest_even, power_of_two, quotient_denominator, quotient_numerator, round_quotient,
    round_scaled, rounded, rounding_exponent, scaled_denominator, scaled_numerator, BINADE,
    INFINITY_MAGNITUDE,
};
use vstd::arithmetic::power2::{lemma_pow2_adds, lemma_pow2_pos, lemma_pow2_unfold, pow2};
use vstd::prelude::*;

verus! {

/// The sign bit of a pattern.
pub const SIGN_BIT: u32 = 0x8000_0000;

/// The pattern that invalid operations return.
pub const NAN_BITS: u32 = 0x7fc0_0000;

/// One sample: the bit pattern of a binary32 value. Samples are equal where
/// their patterns are.
#[derive(Clone, Copy, Debug, PartialEq, Eq, Structural)]
pub struct Sample {
    pub bits: u32,
}

/// Exponent of a magnitude: its significand counts multiples of 2^exponent units.
pub open spec fn exponent(m: nat) -> nat {
    if m < BINADE {
        0
    } else {
        (m / BINADE as nat - 1) as nat
    }
}

/// Significand of a magnitude, with the leading bit that the pattern leaves out.
pub open spec fn significand(m: nat) -> nat {
    (m - exponent(m) * BINADE) as nat
}

/// Value of a magnitude, in units of 2^-149. Infinity counts as 2^128.
pub open spec fn magnitude_units(m: nat) -> nat {
    significand(m) * pow2(exponent(m))
}

/// Distance of an integer from zero.
pub open spec fn distance(i: int) -> nat {
    if i < 0 {
        (-i) as nat
    } else {
        i as nat
    }
}

/// Puts a sign and a magnitude together.
pub open spec fn signed(negative: bool, m: nat) -> Sample {
    Sample {
        bits: (if negative {
            m + SIGN_BIT
        } else {
            m as int
        }) as u32,
    }
}

/// The value that invalid operations return.
pub open spec fn not_a_number() -> Sample {
    Sample { bits: NAN_BITS }
}

impl Sample {
    pub open spec fn negative(self) -> bool {
        self.bits >= SIGN_BIT
    }

    pub open spec fn magnitude(self) -> nat {
        (self.bits % SIGN_BIT) as nat
    }

    pub open spec fn is_nan(self) -> bool {
        self.magnitude() > INFINITY_MAGNITUDE
    }

    pub open spec fn is_infinite(self) -> bool {
        self.magnitude() == INFINITY_MAGNITUDE
    }

    pub open spec fn is_zero(self) -> bool {
        self.magnitude() == 0
    }

    /// The value, in units of 2^-149; infinities count as 2^128 and -2^128.
    pub open spec fn units(self) -> int {
        if self.negative() {
            -magnitude_units(self.magnitude())
        } else {
            magnitude_units(self.magnitude()) as int
        }
    }

    /// The same magnitude with the other sign.
    pub open spec fn opposite(self) -> Sample {
        signed(!self.negative(), self.magnitude())
    }
}

/// The correctly rounded sum.
pub open spec fn sum(a: Sample, b: Sample) -> Sample {
    if a.is_nan() || b.is_nan() {
        not_a_number()
    } else if a.is_infinite() {
        if b.is_infinite() && a.negative() != b.negative() {
            not_a_number()
        } else {
            a
        }
    } else if b.is_infinite() {
        b
    } else {
        let exact = a.units() + b.units();
        if exact == 0 {
            signed(a.negative() && b.negative(), 0)
        } else {
            signed(exact < 0, magnitude_of(distance(exact), 1))
        }
    }
}

/// The correctly rounded difference.
pub open spec fn difference(a: Sample, b: Sample) -> Sample {
    sum(a, b.opposite())
}

/// The correctly rounded product.
pub open spec fn product(a: Sample, b: Sample) -> Sample {
    let negative = a.negative() != b.negative();
    if a.is_nan() || b.is_nan() || (a.is_infinite() && b.is_zero()) || (a.is_zero()
        && b.is_infinite()) {
        not_a_number()
    } else if a.is_infinite() || b.is_infinite() {
        signed(negative, INFINITY_MAGNITUDE as nat)
    } else {
        signed(negative, magnitude_of(distance(a.units()) * distance(b.units()), pow2(149)))
    }
}

/// The correctly rounded quotient.
pub open spec fn quotient(a: Sample, b: Sample) -> Sample {
    let negative = a.negative() != b.negative();
    if a.is_nan() || b.is_nan() || (a.is_infinite() && b.is_infinite()) || (a.is_zero()
        && b.is_zero()) {
        not_a_number()
    } else if a.is_infinite() || b.is_zero() {
        signed(negative, INFINITY_MAGNITUDE as nat)
    } else if b.is_infinite() {
        signed(negative, 0)
    } else {
        signed(negative, magnitude_of(distance(a.units()) * pow2(149), distance(b.units())))
    }
}

/// The sample nearest to an integer.
pub open spec fn of_integer(i: int) -> Sample {
    signed(i < 0, magnitude_of(distance(i) * pow2(149), 1))
}

/// Whether `a < b` as values.
pub open spec fn is_less(a: Sample, b: Sample) -> bool {
    !a.is_nan() && !b.is_nan() && a.units() < b.units()
}

/// Whether `a <= b` as values.
pub open spec fn is_at_most(a: Sample, b: Sample) -> bool {
    !a.is_nan() && !b.is_nan() && a.units() <= b.units()
}

/// The lesser of two samples; the other where one is not a number.
pub open spec fn minimum(a: Sample, b: Sample) -> Sample {
    if a.is_nan() || is_less(b, a) {
        b
    } else {
        a
    }
}

/// The integer part, towards zero, brought into the range of `i16`.
pub open spec fn truncated(a: Sample) -> int {
    let whole = (distance(a.units()) / pow2(149)) as int;
    if a.is_nan() {
        0
    } else if a.negative() {
        if whole > 32768 {
            -32768
        } else {
            -whole
        }
    } else {
        if whole > 32767 {
            32767
        } else {
            whole
        }
    }
}

/// A magnitude is made of its exponent and its significand.
pub proof fn lemma_parts(m: nat)
    requires
        m < 0x8000_0000,
    ensures
        m == exponent(m) * BINADE + significand(m),
        significand(m) < 0x0100_0000,
        exponent(m) > 0 ==> significand(m) >= BINADE,
        exponent(m) <= 254,
        m < INFINITY_MAGNITUDE ==> exponent(m) <= 253,
        significand(m) == 0 <==> m == 0,
        magnitude_units(m) == 0 <==> m == 0,
{
    if m >= BINADE {
        vstd::arithmetic::div_mod::lemma_fundamental_div_mod(m as int, BINADE as int);
        assert(exponent(m) * BINADE == m - m % BINADE as nat - BINADE) by (nonlinear_arith)
            requires
                m == BINADE * (m / BINADE as nat) + m % BINADE as nat,
                exponent(m) == m / BINADE as nat - 1,
        ;
    }
    lemma_pow2_pos(exponent(m));
    assert(significand(m) * pow2(exponent(m)) == 0 <==> significand(m) == 0) by (nonlinear_arith)
        requires
            pow2(exponent(m)) > 0,
    ;
}

/// Larger magnitudes are larger values.
pub proof fn lemma_units_monotone(m1: nat, m2: nat)
    requires
        m1 < m2 < 0x8000_0000,
    ensures
        magnitude_units(m1) < magnitude_units(m2),
{
    lemma_parts(m1);
    lemma_parts(m2);
    let e1 = exponent(m1);
    let e2 = exponent(m2);
    if e1 == e2 {
        lemma_pow2_pos(e1);
        assert(significand(m1) * pow2(e1) < significand(m2) * pow2(e1)) by (nonlinear_arith)
            requires
                significand(m1) < significand(m2),
                pow2(e1) > 0,
        ;
    } else {
        assert(e1 < e2) by {
            if e1 > e2 {
                assert(e1 * BINADE >= (e2 + 1) * BINADE) by (nonlinear_arith)
                    requires
                        e1 >= e2 + 1,
                ;
            }
        }
        lemma_pow2_grows(e1 + 1, e2);
        lemma_pow2_unfold(e1 + 1);
        lemma_pow2_pos(e1);
        assert(significand(m1) * pow2(e1) < significand(m2) * pow2(e2)) by (nonlinear_arith)
            requires
                significand(m1) < 0x0100_0000,
                significand(m2) >= 0x0080_0000,
                pow2(e2) >= 2 * pow2(e1),
                pow2(e1) > 0,
        ;
    }
}

/// Rounding does not go beyond a bound that is a magnitude.
pub proof fn lemma_rounded_at_most(n: nat, d: nat, m: nat)
    requires
        d > 0,
        m < 0x8000_0000,
        n <= d * magnitude_units(m),
    ensures
        rounded(n, d) <= m,
    decreases n - d,
{
    lemma_parts(m);
    let s = significand(m);
    let e = exponent(m);
    if n < d * 0x0100_0000 {
        if e == 0 {
            vstd::arithmetic::power2::lemma2_to64();
            assert(n <= d * m);
            lemma_nearest_even_at_most(n, d, m);
        } else {
            lemma_nearest_even_bound(n, d, 0x0100_0000);
            assert(e * BINADE >= BINADE) by (nonlinear_arith)
                requires
                    e >= 1,
            ;
        }
    } else {
        if e == 0 {
            vstd::arithmetic::power2::lemma2_to64();
            assert(d * m < d * 0x0100_0000) by (nonlinear_arith)
                requires
                    d > 0,
                    m < 0x0100_0000,
            ;
        }
        let half = (m - BINADE) as nat;
        assert(e * BINADE == (e - 1) * BINADE + BINADE) by (nonlinear_arith);
        assert(half == (e - 1) * BINADE + s);
        assert(half == e * BINADE + (s - BINADE));
        vstd::arithmetic::div_mod::lemma_fundamental_div_mod_converse(
            half as int,
            BINADE as int,
            e as int,
            s - BINADE,
        );
        assert(half >= BINADE) by (nonlinear_arith)
            requires
                half == e * BINADE + (s - BINADE),
                e >= 1,
                s >= BINADE,
        ;
        assert(exponent(half) == e - 1);
        assert(significand(half) == s);
        lemma_pow2_unfold(e);
        assert(d * (s * pow2(e)) == (2 * d) * (s * pow2((e - 1) as nat))) by (nonlinear_arith)
            requires
                pow2(e) == 2 * pow2((e - 1) as nat),
        ;
        lemma_rounded_at_most(n, 2 * d, half);
    }
}

/// Significand and exponent of a magnitude.
fn split(m: u32) -> (parts: (u64, i32))
    requires
        m <= INFINITY_MAGNITUDE,
    ensures
        parts.0 == significand(m as nat),
        parts.1 == exponent(m as nat),
        0 <= parts.1 <= 254,
        parts.0 < 0x0100_0000,
{
    proof {
        lemma_parts(m as nat);
    }
    if m < BINADE {
        (m as u64, 0)
    } else {
        let e: u32 = m / BINADE - 1;
        assert(e * BINADE + BINADE <= m);
        ((m - e * BINADE) as u64, e as i32)
    }
}

/// Puts a sign and a magnitude together.
fn join(negative: bool, m: u32) -> (r: Sample)
    requires
        m < SIGN_BIT,
    ensures
        r == signed(negative, m as nat),
        r.negative() == negative,
        r.magnitude() == m,
{
    if negative {
        Sample { bits: m + SIGN_BIT }
    } else {
        Sample { bits: m }
    }
}

impl Sample {
    /// Positive zero.
    pub fn zero() -> (r: Sample)
        ensures
            r == (Sample { bits: 0 }),
            r.units() == 0,
            !r.is_nan(),
    {
        proof {
            lemma_parts(0);
        }
        Sample { bits: 0 }
    }

    /// Takes a sample from the bit pattern of a binary32 value.
    pub fn from_bits(bits: u32) -> (r: Sample)
        ensures
            r.bits == bits,
    {
        Sample { bits }
    }

    /// The bit pattern.
    pub fn to_bits(self) -> (bits: u32)
        ensures
            bits == self.bits,
    {
        self.bits
    }

    /// The same magnitude with the other sign.
    pub fn negated(self) -> (r: Sample)
        ensures
            r == self.opposite(),
    {
        join(self.bits < SIGN_BIT, self.bits % SIGN_BIT)
    }

    /// Product of two samples.
    pub fn times(self, other: Sample) -> (r: Sample)
        ensures
            r == product(self, other),
    {
        let negative = (self.bits >= SIGN_BIT) != (other.bits >= SIGN_BIT);
        let m1: u32 = self.bits % SIGN_BIT;
        let m2: u32 = other.bits % SIGN_BIT;
        if m1 > INFINITY_MAGNITUDE || m2 > INFINITY_MAGNITUDE {
            return Sample { bits: NAN_BITS };
        }
        if m1 == INFINITY_MAGNITUDE || m2 == INFINITY_MAGNITUDE {
            if m1 == 0 || m2 == 0 {
                return Sample { bits: NAN_BITS };
            }
            return join(negative, INFINITY_MAGNITUDE);
        }
        let (s1, e1) = split(m1);
        let (s2, e2) = split(m2);
        assert(s1 * s2 < 0x0001_0000_0000_0000) by (nonlinear_arith)
            requires
                s1 < 0x0100_0000,
                s2 < 0x0100_0000,
        ;
        let m: u32 = round_scaled(s1 * s2, e1 + e2 - 149);
        proof {
            lemma_product_ratio(s1 as nat, e1 as nat, s2 as nat, e2 as nat);
        }
        join(negative, m)
    }

    /// Sum of two samples.
    pub fn plus(self, other: Sample) -> (r: Sample)
        ensures
            r == sum(self, other),
    {
        let m1: u32 = self.bits % SIGN_BIT;
        let m2: u32 = other.bits % SIGN_BIT;
        if m1 > INFINITY_MAGNITUDE || m2 > INFINITY_MAGNITUDE {
            return Sample { bits: NAN_BITS };
        }
        if m1 == INFINITY_MAGNITUDE {
            if m2 == INFINITY_MAGNITUDE && (self.bits >= SIGN_BIT) != (other.bits >= SIGN_BIT) {
                return Sample { bits: NAN_BITS };
            }
            return self;
        }
        if m2 == INFINITY_MAGNITUDE {
            return other;
        }
        if m1 >= m2 {
            add_smaller(self, other)
        } else {
            add_smaller(other, self)
        }
    }

    /// Difference of two samples.
    pub fn minus(self, other: Sample) -> (r: Sample)
        ensures
            r == difference(self, other),
    {
        self.plus(other.negated())
    }

    /// Quotient of two samples.
    pub fn over(self, other: Sample) -> (r: Sample)
        ensures
            r == quotient(self, other),
    {
        let negative = (self.bits >= SIGN_BIT) != (other.bits >= SIGN_BIT);
        let m1: u32 = self.bits % SIGN_BIT;
        let m2: u32 = other.bits % SIGN_BIT;
        if m1 > INFINITY_MAGNITUDE || m2 > INFINITY_MAGNITUDE {
            return Sample { bits: NAN_BITS };
        }
        if m1 == INFINITY_MAGNITUDE || m2 == 0 {
            if m2 == INFINITY_MAGNITUDE || m1 == 0 {
                return Sample { bits: NAN_BITS };
            }
            return join(negative, INFINITY_MAGNITUDE);
        }
        if m2 == INFINITY_MAGNITUDE {
            return join(negative, 0);
        }
        let (s1, e1) = split(m1);
        let (s2, e2) = split(m2);
        proof {
            lemma_parts(m2 as nat);
            lemma_quotient_ratio(s1 as nat, e1 as nat, s2 as nat, e2 as nat);
        }
        let m: u32 = round_quotient(s1, s2, e1 - e2 + 149);
        join(negative, m)
    }

    /// The sample nearest to an integer.
    pub fn from_i32(i: i32) -> (r: Sample)
        ensures
            r == of_integer(i as int),
    {
        let wide: i64 = i as i64;
        let m: u64 = if wide < 0 {
            (-wide) as u64
        } else {
            wide as u64
        };
        join(i < 0, round_scaled(m, 149))
    }

    /// The sample nearest to a count.
    pub fn from_count(n: usize) -> (r: Sample)
        requires
            n <= isize::MAX,
        ensures
            r == of_integer(n as int),
    {
        join(false, round_scaled(n as u64, 149))
    }

    /// Whether the value is less than that of `other`; false where either is not a number.
    pub fn less_than(self, other: Sample) -> (r: bool)
        ensures
            r == is_less(self, other),
    {
        let m1: u32 = self.bits % SIGN_BIT;
        let m2: u32 = other.bits % SIGN_BIT;
        if m1 > INFINITY_MAGNITUDE || m2 > INFINITY_MAGNITUDE {
            return false;
        }
        proof {
            lemma_parts(m1 as nat);
            lemma_parts(m2 as nat);
            if m1 < m2 {
                lemma_units_monotone(m1 as nat, m2 as nat);
            } else if m2 < m1 {
                lemma_units_monotone(m2 as nat, m1 as nat);
            }
        }
        if self.bits >= SIGN_BIT {
            if other.bits >= SIGN_BIT {
                m2 < m1
            } else {
                m1 > 0 || m2 > 0
            }
        } else {
            if other.bits >= SIGN_BIT {
                false
            } else {
                m1 < m2
            }
        }
    }

    /// Whether the value is at most that of `other`; false where either is not a number.
    pub fn at_most(self, other: Sample) -> (r: bool)
        ensures
            r == is_at_most(self, other),
    {
        if self.bits % SIGN_BIT > INFINITY_MAGNITUDE || other.bits % SIGN_BIT > INFINITY_MAGNITUDE {
            return false;
        }
        !other.less_than(self)
    }

    /// The lesser of two samples; the other where one is not a number.
    pub fn min(self, other: Sample) -> (r: Sample)
        ensures
            r == minimum(self, other),
    {
        if self.bits % SIGN_BIT > INFINITY_MAGNITUDE || other.less_than(self) {
            other
        } else {
            self
        }
    }

    /// The integer part, towards zero, brought into the range of `i16`.
    pub fn to_i16(self) -> (r: i16)
        ensures
            r == truncated(self),
    {
        let m: u32 = self.bits % SIGN_BIT;
        if m > INFINITY_MAGNITUDE {
            return 0;
        }
        let whole: i32 = whole_part(m);
        if self.bits >= SIGN_BIT {
            if whole > 32768 {
                -32768
            } else {
                (-whole) as i16
            }
        } else {
            if whole > 32767 {
                32767
            } else {
                whole as i16
            }
        }
    }
}

/// The integer part of a magnitude, where it is below 40000.
fn whole_part(m: u32) -> (w: i32)
    requires
        m <= INFINITY_MAGNITUDE,
    ensures
        0 <= w <= 40000,
        w < 40000 ==> w == magnitude_units(m as nat) / pow2(149),
        w == 40000 ==> magnitude_units(m as nat) / pow2(149) >= 40000,
{
    let (s, e) = split(m);
    proof {
        lemma_parts(m as nat);
        lemma_pow2_pos(149);
        vstd::arithmetic::power2::lemma2_to64();
        vstd::arithmetic::power2::lemma2_to64_rest();
    }
    if e >= 149 {
        let ghost p = pow2((e - 149) as nat);
        proof {
            lemma_pow2_adds((e - 149) as nat, 149);
            lemma_pow2_pos((e - 149) as nat);
            assert(s * pow2(e as nat) == pow2(149) * (s * p)) by (nonlinear_arith)
                requires
                    pow2(e as nat) == p * pow2(149),
            ;
            vstd::arithmetic::div_mod::lemma_div_multiples_vanish((s * p) as int, pow2(149) as int);
            assert(s * p >= s) by (nonlinear_arith)
                requires
                    p >= 1,
            ;
        }
        return 40000;
    }
    let k: u32 = (149 - e) as u32;
    proof {
        lemma_pow2_adds(e as nat, k as nat);
        lemma_pow2_pos(e as nat);
        lemma_pow2_pos(k as nat);
        vstd::arithmetic::div_mod::lemma_fundamental_div_mod(s as int, pow2(k as nat) as int);
        let q = s as nat / pow2(k as nat);
        let r = s as nat % pow2(k as nat);
        let p = pow2(e as nat);
        assert(s * p == q * pow2(149) + r * p) by (nonlinear_arith)
            requires
                s == pow2(k as nat) * q + r,
                pow2(149) == p * pow2(k as nat),
        ;
        assert(r * p < pow2(149)) by (nonlinear_arith)
            requires
                r < pow2(k as nat),
                pow2(149) == p * pow2(k as nat),
                p > 0,
        ;
        vstd::arithmetic::div_mod::lemma_fundamental_div_mod_converse(
            (s * p) as int,
            pow2(149) as int,
            q as int,
            (r * p) as int,
        );
        if k >= 24 {
            lemma_pow2_grows(24, k as nat);
            vstd::arithmetic::div_mod::lemma_basic_div(s as int, pow2(k as nat) as int);
        }
    }
    if k >= 24 {
        return 0;
    }
    let q: u64 = s / power_of_two(k);
    if q >= 40000 {
        40000
    } else {
        q as i32
    }
}

/// The quotient of two values, as the rounding function is handed it.
proof fn lemma_quotient_ratio(s1: nat, e1: nat, s2: nat, e2: nat)
    requires
        s2 > 0,
    ensures
        magnitude_of((s1 * pow2(e1)) * pow2(149), s2 * pow2(e2)) == magnitude_of(
            quotient_numerator(s1, e1 - e2 + 149),
            quotient_denominator(s2, e1 - e2 + 149),
        ),
{
    let t = e1 - e2 + 149;
    lemma_pow2_adds(e1, 149);
    lemma_pow2_pos(e2);
    let p = pow2(e1 + 149);
    let b = pow2(e2);
    let n = (s1 * pow2(e1)) * pow2(149);
    assert(n == s1 * p) by (nonlinear_arith)
        requires
            p == pow2(e1) * pow2(149),
            n == (s1 * pow2(e1)) * pow2(149),
    ;
    assert(s2 * b > 0) by (nonlinear_arith)
        requires
            s2 > 0,
            b > 0,
    ;
    if t >= 0 {
        lemma_pow2_adds(t as nat, e2);
        let c = pow2(t as nat);
        assert((s1 * p) * (s2 * 1) == (s1 * c) * (s2 * b)) by (nonlinear_arith)
            requires
                p == c * b,
        ;
        lemma_rounded_ratio(n, s2 * b, s1 * c, s2 * 1);
    } else {
        let c = pow2((-t) as nat);
        lemma_pow2_pos((-t) as nat);
        lemma_pow2_adds(e1 + 149, (-t) as nat);
        assert((s1 * p) * (s2 * c) == s1 * (s2 * b)) by (nonlinear_arith)
            requires
                b == p * c,
        ;
        assert(s2 * c > 0) by (nonlinear_arith)
            requires
                s2 > 0,
                c > 0,
        ;
        lemma_rounded_ratio(n, s2 * b, s1, s2 * c);
    }
}

/// The product of two values, as the rounding function is handed it.
proof fn lemma_product_ratio(s1: nat, e1: nat, s2: nat, e2: nat)
    ensures
        magnitude_of((s1 * pow2(e1)) * (s2 * pow2(e2)), pow2(149)) == magnitude_of(
            scaled_numerator(s1 * s2, e1 + e2 - 149),
            scaled_denominator(e1 + e2 - 149),
        ),
{
    let s = e1 + e2 - 149;
    lemma_pow2_adds(e1, e2);
    lemma_pow2_pos(149);
    let p = pow2(e1 + e2);
    assert((s1 * pow2(e1)) * (s2 * pow2(e2)) == (s1 * s2) * p) by (nonlinear_arith)
        requires
            p == pow2(e1) * pow2(e2),
    ;
    if s >= 0 {
        lemma_pow2_adds(s as nat, 149);
        assert(((s1 * s2) * p) * 1 == ((s1 * s2) * pow2(s as nat)) * pow2(149)) by (nonlinear_arith)
            requires
                p == pow2(s as nat) * pow2(149),
        ;
        lemma_rounded_ratio((s1 * s2) * p, pow2(149), (s1 * s2) * pow2(s as nat), 1);
    } else {
        let t = (-s) as nat;
        lemma_pow2_pos(t);
        lemma_pow2_adds(e1 + e2, t);
        assert(((s1 * s2) * p) * pow2(t) == (s1 * s2) * pow2(149)) by (nonlinear_arith)
            requires
                pow2(149) == p * pow2(t),
        ;
        lemma_rounded_ratio((s1 * s2) * p, pow2(149), s1 * s2, pow2(t));
    }
}

/// Adds to `a` a value that is not larger in magnitude.
fn add_smaller(a: Sample, b: Sample) -> (r: Sample)
    requires
        b.magnitude() <= a.magnitude() < INFINITY_MAGNITUDE,
    ensures
        r == sum(a, b),
        r == sum(b, a),
{
    let na = a.bits >= SIGN_BIT;
    let nb = b.bits >= SIGN_BIT;
    let ma: u32 = a.bits % SIGN_BIT;
    let mb: u32 = b.bits % SIGN_BIT;
    let (sa, ea) = split(ma);
    let (sb, eb) = split(mb);
    let ghost ua = magnitude_units(ma as nat);
    let ghost ub = magnitude_units(mb as nat);
    proof {
        lemma_parts(ma as nat);
        lemma_parts(mb as nat);
        if mb < ma {
            lemma_units_monotone(mb as nat, ma as nat);
        }
        lemma_exponent_monotone(mb as nat, ma as nat);
    }
    let gap: i32 = ea - eb;
    if gap > 38 {
        proof {
            lemma_absorbed(ma as nat, mb as nat);
        }
        return a;
    }
    let scale: u64 = power_of_two(gap as u32);
    proof {
        lemma_pow2_adds(gap as nat, eb as nat);
        lemma_pow2_grows(gap as nat, 38);
        vstd::arithmetic::power2::lemma2_to64();
        vstd::arithmetic::power2::lemma2_to64_rest();
        assert(sa * scale <= 0x0100_0000 * 0x40_0000_0000) by (nonlinear_arith)
            requires
                sa < 0x0100_0000,
                scale <= 0x40_0000_0000,
        ;
        let p = pow2(eb as nat);
        lemma_pow2_pos(eb as nat);
        assert(ua == (sa * scale) * p) by (nonlinear_arith)
            requires
                ua == sa * pow2(ea as nat),
                pow2(ea as nat) == scale * p,
        ;
        assert(ua + ub == (sa * scale + sb) * p) by (nonlinear_arith)
            requires
                ua == (sa * scale) * p,
                ub == sb * p,
        ;
        assert(ua - ub == (sa * scale - sb) * p) by (nonlinear_arith)
            requires
                ua == (sa * scale) * p,
                ub == sb * p,
        ;
        assert(sa * scale >= sb) by (nonlinear_arith)
            requires
                ua - ub == (sa * scale - sb) * p,
                ua >= ub,
                p > 0,
        ;
        assert((ua - ub == 0) == (sa * scale - sb == 0)) by (nonlinear_arith)
            requires
                ua - ub == (sa * scale - sb) * p,
                p > 0,
        ;
    }
    let aligned: u64 = sa * scale;
    if na == nb {
        if aligned + sb == 0 {
            proof {
                assert(ma == 0 && mb == 0);
            }
            return join(na, 0);
        }
        let m: u32 = round_scaled(aligned + sb, eb);
        join(na, m)
    } else {
        if aligned == sb {
            return join(false, 0);
        }
        let m: u32 = round_scaled(aligned - sb, eb);
        join(na, m)
    }
}

proof fn lemma_exponent_monotone(m1: nat, m2: nat)
    requires
        m1 <= m2 < 0x8000_0000,
    ensures
        exponent(m1) <= exponent(m2),
{
    vstd::arithmetic::div_mod::lemma_div_is_ordered(m1 as int, m2 as int, BINADE as int);
}

/// A value far below the last place of another does not change it.
proof fn lemma_absorbed(ma: nat, mb: nat)
    requires
        mb <= ma < INFINITY_MAGNITUDE,
        exponent(ma) > exponent(mb) + 38,
    ensures
        magnitude_of(magnitude_units(ma) + magnitude_units(mb), 1) == ma,
        magnitude_of((magnitude_units(ma) - magnitude_units(mb)) as nat, 1) == ma,
        magnitude_units(ma) > magnitude_units(mb),
{
    lemma_parts(ma);
    lemma_parts(mb);
    let ea = exponent(ma);
    let eb = exponent(mb);
    lemma_pow2_adds(24, eb);
    vstd::arithmetic::power2::lemma2_to64();
    lemma_pow2_grows(24 + eb, (ea - 2) as nat);
    lemma_pow2_pos(eb);
    assert(significand(mb) * pow2(eb) < 0x0100_0000 * pow2(eb)) by (nonlinear_arith)
        requires
            significand(mb) < 0x0100_0000,
            pow2(eb) > 0,
    ;
    assert(magnitude_units(mb) < pow2((ea - 2) as nat));
    lemma_pow2_grows((ea - 2) as nat, ea);
    lemma_units_monotone(mb, ma);
    lemma_rounds_back(significand(ma), ea, magnitude_units(ma) + magnitude_units(mb));
    lemma_rounds_back(significand(ma), ea, (magnitude_units(ma) - magnitude_units(mb)) as nat);
}

/// The value of a pattern that is put together from an exponent and a significand.
proof fn lemma_units_of_parts(e: nat, q: nat)
    requires
        q <= 0x0100_0000,
        e == 0 || q >= BINADE,
    ensures
        magnitude_units((e * BINADE + q) as nat) == q * pow2(e),
{
    let m = (e * BINADE + q) as nat;
    vstd::arithmetic::power2::lemma2_to64();
    if q < BINADE {
        assert(m == q);
    } else if q < 0x0100_0000 {
        assert(m == (e + 1) * BINADE + (q - BINADE)) by (nonlinear_arith)
            requires
                m == e * BINADE + q,
        ;
        vstd::arithmetic::div_mod::lemma_fundamental_div_mod_converse(
            m as int,
            BINADE as int,
            (e + 1) as int,
            (q - BINADE) as int,
        );
        assert(m >= BINADE) by (nonlinear_arith)
            requires
                m == e * BINADE + q,
                q >= BINADE,
        ;
    } else {
        assert(m == (e + 2) * BINADE) by (nonlinear_arith)
            requires
                m == e * BINADE + 2 * BINADE,
        ;
        vstd::arithmetic::div_mod::lemma_fundamental_div_mod_converse(
            m as int,
            BINADE as int,
            (e + 2) as int,
            0,
        );
        assert(m >= BINADE) by (nonlinear_arith)
            requires
                m == (e + 2) * BINADE,
        ;
        assert(exponent(m) == e + 1);
        assert(significand(m) == BINADE) by (nonlinear_arith)
            requires
                m == (e + 2) * BINADE,
                significand(m) == m - (e + 1) * BINADE,
        ;
        lemma_pow2_unfold(e + 1);
        assert(BINADE * pow2(e + 1) == q * pow2(e)) by (nonlinear_arith)
            requires
                pow2(e + 1) == 2 * pow2(e),
                q == 2 * BINADE,
        ;
    }
}

/// Exponent and significand of any pattern.
proof fn lemma_parts_of_any(m: nat)
    ensures
        m == exponent(m) * BINADE + significand(m),
        significand(m) < 0x0100_0000,
        exponent(m) > 0 ==> significand(m) >= BINADE,
{
    if m >= BINADE {
        vstd::arithmetic::div_mod::lemma_fundamental_div_mod(m as int, BINADE as int);
        assert(exponent(m) * BINADE == m - m % BINADE as nat - BINADE) by (nonlinear_arith)
            requires
                m == BINADE * (m / BINADE as nat) + m % BINADE as nat,
                exponent(m) == m / BINADE as nat - 1,
        ;
    }
}

/// No multiple of `d` is nearer to `n` than one that is at most half of `d` away.
proof fn lemma_no_multiple_is_nearer(n: int, d: int, q: int, k: int)
    requires
        d > 0,
        2 * (n - q * d) <= d,
        2 * (q * d - n) <= d,
    ensures
        distance(n - q * d) <= distance(n - k * d),
        q != k && distance(n - q * d) == distance(n - k * d) ==> 2 * (n - q * d) == d || 2 * (q * d
            - n) == d,
{
    if k > q {
        assert(k * d >= q * d + d) by (nonlinear_arith)
            requires
                k >= q + 1,
                d > 0,
        ;
    } else if k < q {
        assert(k * d <= q * d - d) by (nonlinear_arith)
            requires
                k <= q - 1,
                d > 0,
        ;
    }
}

/// Rounding gives the nearest value: no other pattern has a value that is nearer to
/// the ratio `n / d`, and where another is as near, the pattern is even.
#[verifier::spinoff_prover]
pub proof fn lemma_rounded_is_nearest(n: nat, d: nat, m: nat)
    requires
        d > 0,
    ensures
        distance(n - d * magnitude_units(rounded(n, d))) <= distance(n - d * magnitude_units(m)),
        magnitude_units(m) != magnitude_units(rounded(n, d)) && distance(
            n - d * magnitude_units(rounded(n, d)),
        ) == distance(n - d * magnitude_units(m)) ==> rounded(n, d) % 2 == 0,
{
    lemma_rounded_parts(n, d);
    let e = rounding_exponent(n, d);
    let p = pow2(e);
    let scale = d * p;
    let q = nearest_even(n, scale);
    let r = rounded(n, d);
    lemma_nearest_even_is_near(n, scale);
    lemma_nearest_even_bound(n, scale, 0x0100_0000);
    if e > 0 {
        assert(q >= BINADE) by (nonlinear_arith)
            requires
                n >= scale * 0x0080_0000,
                2 * (n - q * scale) <= scale,
                scale > 0,
                BINADE == 0x0080_0000,
        ;
    }
    lemma_units_of_parts(e, q);
    assert(d * (q * p) == q * scale) by (nonlinear_arith)
        requires
            scale == d * p,
    ;
    assert(r % 2 == q % 2) by {
        assert(r == 2 * (e * 0x0040_0000) + q) by (nonlinear_arith)
            requires
                r == e * BINADE + q,
                BINADE == 0x0080_0000,
        ;
    }
    lemma_parts_of_any(m);
    let s = significand(m);
    let f = exponent(m);
    if f >= e {
        let t = pow2((f - e) as nat);
        lemma_pow2_adds((f - e) as nat, e);
        let k = s * t;
        assert(d * (s * pow2(f)) == k * scale) by (nonlinear_arith)
            requires
                pow2(f) == t * p,
                k == s * t,
                scale == d * p,
        ;
        assert(s * pow2(f) == k * p) by (nonlinear_arith)
            requires
                pow2(f) == t * p,
                k == s * t,
        ;
        lemma_no_multiple_is_nearer(n as int, scale as int, q as int, k as int);
    } else {
        let h = pow2((e - 1) as nat);
        lemma_pow2_unfold(e);
        lemma_pow2_grows(f, (e - 1) as nat);
        lemma_pow2_pos(f);
        assert(s * pow2(f) < 0x0080_0000 * p) by (nonlinear_arith)
            requires
                s < 0x0100_0000,
                pow2(f) <= h,
                p == 2 * h,
                pow2(f) > 0,
        {
            assert(s * pow2(f) < 0x0100_0000 * pow2(f));
        }
        assert(d * (s * pow2(f)) < 0x0080_0000 * scale) by (nonlinear_arith)
            requires
                s * pow2(f) < 0x0080_0000 * p,
                d > 0,
                scale == d * p,
        ;
        lemma_no_multiple_is_nearer(n as int, scale as int, q as int, 0x0080_0000);
    }
}

/// What becomes infinity: what is at least half a step beyond the largest finite
/// value.
#[verifier::spinoff_prover]
pub proof fn lemma_what_overflows(n: nat, d: nat)
    requires
        d > 0,
    ensures
        magnitude_of(n, d) == INFINITY_MAGNITUDE <==> n >= d * (0x01ff_ffff * pow2(252)),
        magnitude_of(n, d) <= INFINITY_MAGNITUDE,
{
    lemma_rounded_parts(n, d);
    let e = rounding_exponent(n, d);
    let h = pow2(252);
    let scale = d * pow2(e);
    let q = nearest_even(n, scale);
    lemma_nearest_even_is_near(n, scale);
    lemma_nearest_even_bound(n, scale, 0x0100_0000);
    lemma_pow2_pos(252);
    lemma_pow2_unfold(253);
    assert(d * h > 0) by (nonlinear_arith)
        requires
            d > 0,
            h > 0,
    ;
    assert(d * (0x01ff_ffff * h) == 0x01ff_ffff * (d * h)) by (nonlinear_arith);
    if e > 0 {
        assert(q >= BINADE) by (nonlinear_arith)
            requires
                n >= scale * 0x0080_0000,
                2 * (n - q * scale) <= scale,
                scale > 0,
                BINADE == 0x0080_0000,
        ;
    }
    if e <= 252 {
        lemma_pow2_grows(e, 252);
        assert(scale <= d * h) by (nonlinear_arith)
            requires
                scale == d * pow2(e),
                pow2(e) <= h,
        ;
        assert(e * BINADE <= 252 * BINADE) by (nonlinear_arith)
            requires
                e <= 252,
        ;
    } else if e == 253 {
        assert(scale == 2 * (d * h)) by (nonlinear_arith)
            requires
                scale == d * pow2(253),
                pow2(253) == 2 * h,
        ;
        assert(q == 0x0100_0000 ==> q * scale == 0x0100_0000 * scale) by (nonlinear_arith);
        assert(q == 0x00ff_ffff ==> q * scale == 0x00ff_ffff * scale) by (nonlinear_arith);
        assert(q < 0x00ff_ffff ==> q * scale <= 0x00ff_fffe * scale) by (nonlinear_arith)
            requires
                scale > 0,
        ;
        if q == 0x00ff_ffff {
            assert(2 * (n - q * scale) < scale);
        }
    } else {
        lemma_pow2_grows(254, e);
        lemma_pow2_unfold(254);
        assert(scale >= 4 * (d * h)) by (nonlinear_arith)
            requires
                scale == d * pow2(e),
                pow2(e) >= 4 * h,
        ;
        assert(e * BINADE >= 254 * BINADE) by (nonlinear_arith)
            requires
                e >= 254,
        ;
    }
}

/// A value with a sign is the nearest one, too.
proof fn lemma_signed_is_nearest(negative: bool, n: nat, d: nat, x: Sample)
    requires
        d > 0,
        magnitude_of(n, d) < INFINITY_MAGNITUDE,
    ensures
        ({
            let r = signed(negative, magnitude_of(n, d));
            let exact = if negative {
                -n
            } else {
                n as int
            };
            &&& r.negative() == negative
            &&& r.magnitude() == magnitude_of(n, d)
            &&& distance(exact - d * r.units()) <= distance(exact - d * x.units())
        }),
{
    let r = signed(negative, magnitude_of(n, d));
    let held = magnitude_units(r.magnitude());
    let other = magnitude_units(x.magnitude());
    assert(r.magnitude() == magnitude_of(n, d));
    lemma_rounded_is_nearest(n, d, x.magnitude());
    lemma_rounded_is_nearest(n, d, 0);
    lemma_parts(0);
    assert(d * (-held) == -(d * held)) by (nonlinear_arith);
    assert(d * (-other) == -(d * other)) by (nonlinear_arith);
    assert(d * other >= 0) by (nonlinear_arith);
    assert(d * 0 == 0);
}

/// The sum of two finite samples is the sample nearest to their exact sum; it is
/// infinite where that is out of range. What an infinite sample and one that is not
/// a number add up to does not depend on rounding.
pub proof fn lemma_sum_is_nearest(a: Sample, b: Sample, x: Sample)
    ensures
        sum(a, b) == sum(b, a),
        sum(a, b).is_nan() <==> a.is_nan() || b.is_nan() || (a.is_infinite() && b.is_infinite()
            && a.negative() != b.negative()),
        a.is_infinite() && !sum(a, b).is_nan() ==> sum(a, b) == a,
        !a.is_nan() && !a.is_infinite() && !b.is_nan() && !b.is_infinite() ==> {
            let exact = a.units() + b.units();
            &&& sum(a, b).is_infinite() <==> distance(exact) >= 0x01ff_ffff * pow2(252)
            &&& exact != 0 ==> sum(a, b).negative() == (exact < 0)
            &&& exact == 0 ==> sum(a, b).is_zero() && sum(a, b).negative() == (a.negative()
                && b.negative())
            &&& !sum(a, b).is_infinite() ==> distance(exact - sum(a, b).units()) <= distance(
                exact - x.units(),
            )
        },
{
    lemma_parts(0);
    lemma_pow2_pos(252);
    if !a.is_nan() && !a.is_infinite() && !b.is_nan() && !b.is_infinite() {
        let exact = a.units() + b.units();
        lemma_what_overflows(distance(exact), 1);
        if magnitude_of(distance(exact), 1) < INFINITY_MAGNITUDE {
            lemma_signed_is_nearest(exact < 0, distance(exact), 1, x);
        }
    }
}

/// The difference is the sum with the sign of the second sample turned.
pub proof fn lemma_difference_is_nearest(a: Sample, b: Sample, x: Sample)
    requires
        !a.is_nan() && !a.is_infinite(),
        !b.is_nan() && !b.is_infinite(),
    ensures
        difference(a, b).is_infinite() <==> distance(a.units() - b.units()) >= 0x01ff_ffff * pow2(
            252,
        ),
        !difference(a, b).is_infinite() ==> distance(
            a.units() - b.units() - difference(a, b).units(),
        ) <= distance(a.units() - b.units() - x.units()),
{
    lemma_sum_is_nearest(a, b.opposite(), x);
}

/// The product of two finite samples is the sample nearest to their exact product;
/// it is infinite where that is out of range. It is negative where the signs differ.
pub proof fn lemma_product_is_nearest(a: Sample, b: Sample, x: Sample)
    ensures
        product(a, b) == product(b, a),
        product(a, b).is_nan() <==> a.is_nan() || b.is_nan() || (a.is_infinite() && b.is_zero())
            || (a.is_zero() && b.is_infinite()),
        !product(a, b).is_nan() ==> product(a, b).negative() == (a.negative() != b.negative()),
        !product(a, b).is_nan() && (a.is_infinite() || b.is_infinite()) ==> product(
            a,
            b,
        ).is_infinite(),
        !a.is_nan() && !a.is_infinite() && !b.is_nan() && !b.is_infinite() ==> {
            let exact = a.units() * b.units();
            &&& product(a, b).is_infinite() <==> distance(exact) >= pow2(149) * (0x01ff_ffff * pow2(
                252,
            ))
            &&& !product(a, b).is_infinite() ==> distance(
                exact - pow2(149) * product(a, b).units(),
            ) <= distance(exact - pow2(149) * x.units())
        },
{
    lemma_pow2_pos(149);
    if !a.is_nan() && !a.is_infinite() && !b.is_nan() && !b.is_infinite() {
        let p = magnitude_units(a.magnitude());
        let q = magnitude_units(b.magnitude());
        let n = p * q;
        assert((-p) * q == -(p * q)) by (nonlinear_arith);
        assert(p * (-q) == -(p * q)) by (nonlinear_arith);
        assert((-p) * (-q) == p * q) by (nonlinear_arith);
        assert(p * q == q * p) by (nonlinear_arith);
        assert(p * q >= 0) by (nonlinear_arith);
        assert(distance(a.units()) == p && distance(b.units()) == q);
        lemma_what_overflows(n, pow2(149));
        if magnitude_of(n, pow2(149)) < INFINITY_MAGNITUDE {
            lemma_signed_is_nearest(a.negative() != b.negative(), n, pow2(149), x);
        }
    }
}

/// The quotient of two finite samples is the sample nearest to their exact quotient.
/// It is negative where the signs differ, and infinite where only the divisor is
/// zero.
pub proof fn lemma_quotient_is_nearest(a: Sample, b: Sample, x: Sample)
    ensures
        quotient(a, b).is_nan() <==> a.is_nan() || b.is_nan() || (a.is_infinite()
            && b.is_infinite()) || (a.is_zero() && b.is_zero()),
        !quotient(a, b).is_nan() ==> quotient(a, b).negative() == (a.negative() != b.negative()),
        !quotient(a, b).is_nan() && (a.is_infinite() || b.is_zero()) ==> quotient(
            a,
            b,
        ).is_infinite(),
        !quotient(a, b).is_nan() && b.is_infinite() ==> quotient(a, b).is_zero(),
        !a.is_nan() && !a.is_infinite() && !b.is_nan() && !b.is_infinite() && !b.is_zero() ==> {
            let exact = a.units() * pow2(149);
            &&& quotient(a, b).is_infinite() <==> distance(a.units()) * pow2(149) >= distance(
                b.units(),
            ) * (0x01ff_ffff * pow2(252))
            &&& !quotient(a, b).is_infinite() ==> distance(
                exact - b.units() * quotient(a, b).units(),
            ) <= distance(exact - b.units() * x.units())
        },
{
    lemma_pow2_pos(149);
    if !a.is_nan() && !a.is_infinite() && !b.is_nan() && !b.is_infinite() && !b.is_zero() {
        let u = pow2(149);
        let p = magnitude_units(a.magnitude());
        let d = magnitude_units(b.magnitude());
        lemma_parts(b.magnitude());
        assert(distance(a.units()) == p && distance(b.units()) == d);
        let n = p * u;
        lemma_what_overflows(n, d);
        let negative = a.negative() != b.negative();
        if magnitude_of(n, d) < INFINITY_MAGNITUDE {
            lemma_signed_is_nearest(negative, n, d, x);
            let y = quotient(a, b).units();
            let z = x.units();
            assert((-p) * u == -(p * u)) by (nonlinear_arith);
            assert((-d) * y == -(d * y)) by (nonlinear_arith);
            assert((-d) * z == -(d * z)) by (nonlinear_arith);
        }
    }
}

/// An integer becomes the sample nearest to it.
pub proof fn lemma_integer_is_nearest(i: int, x: Sample)
    requires
        distance(i) < 0x8000_0000_0000_0000,
    ensures
        !of_integer(i).is_nan() && !of_integer(i).is_infinite(),
        distance(i * pow2(149) - of_integer(i).units()) <= distance(i * pow2(149) - x.units()),
{
    let u = pow2(149);
    let n = distance(i) * u;
    lemma_pow2_pos(149);
    lemma_pow2_grows(149, 252);
    assert(n < 0x01ff_ffff * pow2(252)) by {
        lemma_pow2_adds(149, 64);
        lemma_pow2_grows(213, 252);
        vstd::arithmetic::power2::lemma2_to64();
        assert(n < 0x1_0000_0000_0000_0000 * u) by (nonlinear_arith)
            requires
                n == distance(i) * u,
                distance(i) < 0x8000_0000_0000_0000,
                u > 0,
        ;
        lemma_pow2_pos(252);
    }
    lemma_what_overflows(n, 1);
    lemma_signed_is_nearest(i < 0, n, 1, x);
    assert((-i) * u == -(i * u)) by (nonlinear_arith);
}

/// How samples are ordered, by their patterns.
pub proof fn lemma_order_of_patterns(a: Sample, b: Sample)
    requires
        !a.is_nan(),
        !b.is_nan(),
    ensures
        a.bits < 0x8000_0000 && b.bits < 0x8000_0000 ==> (is_less(a, b) <==> a.bits < b.bits),
        a.bits >= 0x8000_0000 && b.bits >= 0x8000_0000 ==> (is_less(a, b) <==> a.bits > b.bits),
        a.bits >= 0x8000_0000 && b.bits < 0x8000_0000 ==> (is_less(a, b) <==> a.bits != 0x8000_0000
            || b.bits != 0),
        a.bits < 0x8000_0000 && b.bits >= 0x8000_0000 ==> !is_less(a, b),
        is_at_most(a, b) <==> !is_less(b, a),
{
    let m1 = a.magnitude();
    let m2 = b.magnitude();
    lemma_parts(m1);
    lemma_parts(m2);
    if m1 < m2 {
        lemma_units_monotone(m1, m2);
    } else if m2 < m1 {
        lemma_units_monotone(m2, m1);
    }
}

/// The lesser of two samples is one of them, and neither is less than it; what is
/// not a number gives way.
pub proof fn lemma_minimum_is_least(a: Sample, b: Sample)
    ensures
        minimum(a, b) == a || minimum(a, b) == b,
        !is_less(a, minimum(a, b)) && !is_less(b, minimum(a, b)),
        a.is_nan() ==> minimum(a, b) == b,
        b.is_nan() && !a.is_nan() ==> minimum(a, b) == a,
{
}

/// The integer part lies between the sample and zero, less than one away, as far as
/// an `i16` goes.
pub proof fn lemma_integer_part(a: Sample)
    ensures
        a.is_nan() ==> truncated(a) == 0,
        -32768 <= truncated(a) <= 32767,
        !a.is_nan() && a.units() >= 32767 * pow2(149) ==> truncated(a) == 32767,
        !a.is_nan() && a.units() <= -32768 * pow2(149) ==> truncated(a) == -32768,
        !a.is_nan() && 0 <= a.units() < 32768 * pow2(149) ==> truncated(a) * pow2(149) <= a.units()
            < (truncated(a) + 1) * pow2(149),
        !a.is_nan() && -32769 * pow2(149) < a.units() <= 0 ==> (truncated(a) - 1) * pow2(149)
            < a.units() <= truncated(a) * pow2(149),
{
    let u = pow2(149);
    let v = distance(a.units());
    let w = v / u;
    lemma_pow2_pos(149);
    vstd::arithmetic::div_mod::lemma_fundamental_div_mod(v as int, u as int);
    assert(w * u <= v < (w + 1) * u) by (nonlinear_arith)
        requires
            v == u * w + v % u,
            0 <= v % u < u,
    ;
    assert(w >= 32769 ==> w * u >= 32769 * u) by (nonlinear_arith)
        requires
            u > 0,
    ;
    assert(w >= 32768 ==> w * u >= 32768 * u) by (nonlinear_arith)
        requires
            u > 0,
    ;
    assert(w <= 32766 ==> (w + 1) * u <= 32767 * u) by (nonlinear_arith)
        requires
            u > 0,
    ;
    assert(w <= 32767 ==> (w + 1) * u <= 32768 * u) by (nonlinear_arith)
        requires
            u > 0,
    ;
    assert((-w) * u == -(w * u)) by (nonlinear_arith);
    assert((-w - 1) * u == -((w + 1) * u)) by (nonlinear_arith);
}

} // verus!
