//! Sample formats.
//!
//! A *float* sample lies in [-1, 1], a *float S16* sample in [-32768, 32768],
//! an *S16* sample is an `i16`.
use crate::rounding::{
    lemma_rounded_normalised, lemma_rounded_ratio, magnitude_of, nearest_even, BINADE,
    INFINITY_MAGNITUDE,
};
use crate::sample::{
    distance, exponent, is_at_most, is_less, lemma_integer_part, lemma_parts,
    lemma_product_is_nearest, lemma_units_monotone, magnitude_units, of_integer, product, quotient,
    signed, significand, sum, truncated, Sample, SIGN_BIT,
};
use vstd::arithmetic::power2::{lemma_pow2_adds, lemma_pow2_pos, lemma_pow2_unfold, pow2};
use vstd::prelude::*;

verus! {

/// `v`, brought into the range from `low` to `high`; what is not a number stays.
pub open spec fn clamped(v: Sample, low: Sample, high: Sample) -> Sample {
    if is_less(v, low) {
        low
    } else if is_less(high, v) {
        high
    } else {
        v
    }
}

/// One half, with the sign of `v`.
pub open spec fn signed_half(v: Sample) -> Sample {
    if v.negative() {
        quotient(of_integer(1), of_integer(2)).opposite()
    } else {
        quotient(of_integer(1), of_integer(2))
    }
}

/// The float S16 sample of a float sample.
pub open spec fn scaled_up(v: Sample) -> Sample {
    product(clamped(v, of_integer(-1), of_integer(1)), of_integer(32768))
}

/// The float sample of a float S16 sample.
pub open spec fn scaled_down(v: Sample) -> Sample {
    product(
        clamped(v, of_integer(-32768), of_integer(32768)),
        quotient(of_integer(1), of_integer(32768)),
    )
}

/// The S16 sample of a float S16 sample: rounded to nearest, away from zero at ties.
pub open spec fn to_s16(v: Sample) -> int {
    let c = clamped(v, of_integer(-32768), of_integer(32767));
    truncated(sum(c, signed_half(c)))
}

fn clamp(v: Sample, low: Sample, high: Sample) -> (r: Sample)
    ensures
        r == clamped(v, low, high),
{
    if v.less_than(low) {
        low
    } else if high.less_than(v) {
        high
    } else {
        v
    }
}

/// Converts a float sample to float S16.
pub fn float_to_float_s16(v: Sample) -> (r: Sample)
    ensures
        r == scaled_up(v),
{
    clamp(v, Sample::from_i32(-1), Sample::from_i32(1)).times(Sample::from_i32(32768))
}

/// Converts a float S16 sample to float.
pub fn float_s16_to_float(v: Sample) -> (r: Sample)
    ensures
        r == scaled_down(v),
{
    let scale = Sample::from_i32(1).over(Sample::from_i32(32768));
    clamp(v, Sample::from_i32(-32768), Sample::from_i32(32768)).times(scale)
}

/// Converts a float S16 sample to S16, rounding to nearest.
pub fn float_s16_to_s16(v: Sample) -> (r: i16)
    ensures
        r == to_s16(v),
{
    let c = clamp(v, Sample::from_i32(-32768), Sample::from_i32(32767));
    let half = Sample::from_i32(1).over(Sample::from_i32(2));
    let offset = if c.bits >= SIGN_BIT {
        half.negated()
    } else {
        half
    };
    c.plus(offset).to_i16()
}

/// A whole number of units that needs at most 24 bits is a sample exactly.
pub proof fn lemma_exact(a: nat, k: nat)
    requires
        a < 0x0100_0000,
        k <= 200,
    ensures
        magnitude_units(magnitude_of(a * pow2(k), 1)) == a * pow2(k),
        magnitude_of(a * pow2(k), 1) < INFINITY_MAGNITUDE,
    decreases k,
{
    if k == 0 || a >= BINADE {
        lemma_rounded_normalised(a, 1, k);
        let m = k * BINADE + a;
        assert(nearest_even(a, 1) == a);
        assert(k * BINADE <= 200 * BINADE) by (nonlinear_arith)
            requires
                k <= 200,
        ;
        assert(exponent(m as nat) == k) by {
            if a >= BINADE {
                assert(m == (k + 1) * BINADE + (a - BINADE)) by (nonlinear_arith)
                    requires
                        m == k * BINADE + a,
                ;
                vstd::arithmetic::div_mod::lemma_fundamental_div_mod_converse(
                    m as int,
                    BINADE as int,
                    (k + 1) as int,
                    (a - BINADE) as int,
                );
            }
        }
    } else {
        lemma_pow2_unfold(k);
        assert(a * pow2(k) == (2 * a) * pow2((k - 1) as nat)) by (nonlinear_arith)
            requires
                pow2(k) == 2 * pow2((k - 1) as nat),
        ;
        lemma_exact(2 * a, (k - 1) as nat);
    }
}

/// An integer of at most 24 bits is held exactly.
pub proof fn lemma_integer_exact(i: int)
    requires
        -0x0100_0000 < i < 0x0100_0000,
    ensures
        of_integer(i).units() == i * pow2(149),
        of_integer(i).magnitude() < INFINITY_MAGNITUDE,
        of_integer(i).negative() <==> i < 0,
{
    lemma_exact(distance(i), 149);
    assert(-(distance(i) * pow2(149)) == (-distance(i)) * pow2(149)) by (nonlinear_arith);
}

/// One over a power of two is held exactly.
proof fn lemma_inverse_power(i: int, k: nat)
    requires
        0 < i < 0x0100_0000,
        i == pow2(k),
        k <= 149,
    ensures
        quotient(of_integer(1), of_integer(i)).units() == pow2((149 - k) as nat),
        quotient(of_integer(1), of_integer(i)).magnitude() < INFINITY_MAGNITUDE,
        !quotient(of_integer(1), of_integer(i)).negative(),
{
    lemma_integer_exact(1);
    lemma_integer_exact(i);
    let u = pow2(149);
    let r = pow2((149 - k) as nat);
    lemma_pow2_pos(149);
    lemma_pow2_adds(k, (149 - k) as nat);
    lemma_parts(of_integer(1).magnitude());
    lemma_parts(of_integer(i).magnitude());
    assert(i * u > 0) by (nonlinear_arith)
        requires
            i > 0,
            u > 0,
    ;
    assert((u * u) * 1 == r * (i * u)) by (nonlinear_arith)
        requires
            u == i * r,
    ;
    lemma_rounded_ratio(u * u, (i * u) as nat, r, 1);
    lemma_exact(1, (149 - k) as nat);
}

/// A sum that needs at most 24 bits is exact.
proof fn lemma_sum_exact(a: Sample, b: Sample, n: int, k: nat)
    requires
        a.magnitude() < INFINITY_MAGNITUDE,
        b.magnitude() < INFINITY_MAGNITUDE,
        -0x0100_0000 < n < 0x0100_0000,
        k <= 200,
        a.units() + b.units() == n * pow2(k),
    ensures
        sum(a, b).units() == n * pow2(k),
        sum(a, b).magnitude() < INFINITY_MAGNITUDE,
        n != 0 ==> (sum(a, b).negative() <==> n < 0),
{
    let exact = n * pow2(k);
    lemma_pow2_pos(k);
    assert(n < 0 <==> exact < 0) by (nonlinear_arith)
        requires
            exact == n * pow2(k),
            pow2(k) > 0,
    ;
    assert(n == 0 <==> exact == 0) by (nonlinear_arith)
        requires
            exact == n * pow2(k),
            pow2(k) > 0,
    ;
    assert(distance(exact) == distance(n) * pow2(k)) by (nonlinear_arith)
        requires
            exact == n * pow2(k),
            pow2(k) > 0,
            distance(n) == (if n < 0 {
                -n
            } else {
                n
            }),
            distance(exact) == (if exact < 0 {
                -exact
            } else {
                exact
            }),
    ;
    lemma_exact(distance(n), k);
    lemma_parts(0);
}

/// Every `i16` comes back unchanged from its float S16 sample.
pub proof fn lemma_s16_round_trip(i: int)
    requires
        -32768 <= i <= 32767,
    ensures
        to_s16(of_integer(i)) == i,
{
    let v = of_integer(i);
    let u = pow2(149);
    let h = pow2(148);
    lemma_pow2_pos(148);
    lemma_pow2_unfold(149);
    vstd::arithmetic::power2::lemma2_to64();
    lemma_integer_exact(i);
    lemma_integer_exact(-32768);
    lemma_integer_exact(32767);
    assert(-32768 * u <= i * u <= 32767 * u) by (nonlinear_arith)
        requires
            -32768 <= i <= 32767,
            u > 0,
    ;
    let c = clamped(v, of_integer(-32768), of_integer(32767));
    assert(c == v);
    lemma_inverse_power(2, 1);
    let half = signed_half(c);
    let n = if i < 0 {
        2 * i - 1
    } else {
        2 * i + 1
    };
    assert(i * u == (2 * i) * h) by (nonlinear_arith)
        requires
            u == 2 * h,
    ;
    assert((2 * i) * h + h == (2 * i + 1) * h) by (nonlinear_arith);
    assert((2 * i) * h - h == (2 * i - 1) * h) by (nonlinear_arith);
    lemma_sum_exact(c, half, n, 148);
    let r = sum(c, half);
    lemma_parts(r.magnitude());
    assert(n * h != 0) by (nonlinear_arith)
        requires
            n != 0,
            h > 0,
    ;
    let w = distance(i);
    assert(distance(r.units()) == w * u + h) by {
        assert((-(2 * i - 1)) * h == (2 * (-i)) * h + h) by (nonlinear_arith);
        assert((2 * (-i)) * h == (-i) * u) by (nonlinear_arith)
            requires
                u == 2 * h,
        ;
        assert(-((2 * i - 1) * h) == (-(2 * i - 1)) * h) by (nonlinear_arith);
        assert(i >= 0 ==> (2 * i + 1) * h >= 0) by (nonlinear_arith)
            requires
                h > 0,
        ;
        assert(i < 0 ==> (2 * i - 1) * h < 0) by (nonlinear_arith)
            requires
                h > 0,
        ;
    }
    vstd::arithmetic::div_mod::lemma_fundamental_div_mod_converse(
        distance(r.units()) as int,
        u as int,
        w as int,
        h as int,
    );
}

/// Magnitudes with the same value are the same.
proof fn lemma_magnitude_injective(m1: nat, m2: nat)
    requires
        m1 < 0x8000_0000,
        m2 < 0x8000_0000,
        magnitude_units(m1) == magnitude_units(m2),
    ensures
        m1 == m2,
{
    if m1 < m2 {
        lemma_units_monotone(m1, m2);
    } else if m2 < m1 {
        lemma_units_monotone(m2, m1);
    }
}

/// Multiplying by 2^15 is exact for values up to 1.
proof fn lemma_times_32768(v: Sample)
    requires
        magnitude_units(v.magnitude()) <= pow2(149),
        v.magnitude() < INFINITY_MAGNITUDE,
    ensures
        ({
            let up = product(v, of_integer(32768));
            &&& up.negative() == v.negative()
            &&& up.magnitude() < INFINITY_MAGNITUDE
            &&& magnitude_units(up.magnitude()) == magnitude_units(v.magnitude()) * 32768
        }),
{
    let u = pow2(149);
    vstd::arithmetic::power2::lemma2_to64();
    lemma_pow2_pos(149);
    let m = v.magnitude();
    lemma_parts(m);
    let e = exponent(m);
    let s = significand(m);
    let x = magnitude_units(m);
    if e > 149 {
        vstd::arithmetic::power2::lemma_pow2_strictly_increases(149, e);
        assert(s * pow2(e) >= pow2(e)) by (nonlinear_arith)
            requires
                s >= 1,
        ;
    }
    let big = of_integer(32768);
    lemma_integer_exact(32768);
    lemma_parts(big.magnitude());
    lemma_pow2_adds(e, 15);
    let n = x * ((32768 * u) as nat);
    assert(n * 1 == (x * 32768) * u) by (nonlinear_arith)
        requires
            n == x * (32768 * u),
    ;
    lemma_rounded_ratio(n, u, x * 32768, 1);
    assert(x * 32768 == s * pow2(e + 15)) by (nonlinear_arith)
        requires
            x == s * pow2(e),
            pow2(e + 15) == pow2(e) * 32768,
    ;
    lemma_exact(s, e + 15);
}

/// Multiplying by 2^-15 is exact where the result is a sample.
proof fn lemma_over_32768(w: Sample, m: nat)
    requires
        w.magnitude() < INFINITY_MAGNITUDE,
        m < INFINITY_MAGNITUDE,
        exponent(m) <= 149,
        magnitude_units(w.magnitude()) == magnitude_units(m) * 32768,
    ensures
        product(w, quotient(of_integer(1), of_integer(32768))) == signed(w.negative(), m),
{
    let u = pow2(149);
    vstd::arithmetic::power2::lemma2_to64();
    lemma_pow2_pos(149);
    lemma_inverse_power(32768, 15);
    let small = quotient(of_integer(1), of_integer(32768));
    let r = pow2(134);
    let x = magnitude_units(m);
    lemma_pow2_adds(134, 15);
    lemma_parts(w.magnitude());
    lemma_parts(small.magnitude());
    lemma_parts(m);
    let n = (x * 32768) * r;
    assert(n * 1 == x * u) by (nonlinear_arith)
        requires
            n == (x * 32768) * r,
            u == r * 32768,
    ;
    lemma_rounded_ratio(n, u, x, 1);
    lemma_exact(significand(m), exponent(m));
    lemma_magnitude_injective(magnitude_of(x, 1), m);
}

/// A float sample in [-1, 1] comes back unchanged from float S16.
pub proof fn lemma_float_round_trip(v: Sample)
    requires
        is_at_most(of_integer(-1), v),
        is_at_most(v, of_integer(1)),
    ensures
        scaled_down(scaled_up(v)) == v,
{
    let u = pow2(149);
    lemma_integer_exact(-1);
    lemma_integer_exact(1);
    lemma_integer_exact(32768);
    lemma_integer_exact(-32768);
    lemma_pow2_pos(149);
    let m = v.magnitude();
    lemma_parts(m);
    assert(magnitude_units(m) <= u);
    assert(m <= INFINITY_MAGNITUDE);
    assert(exponent(m) <= 149) by {
        let e = exponent(m);
        if e > 149 {
            vstd::arithmetic::power2::lemma_pow2_strictly_increases(149, e);
            assert(significand(m) * pow2(e) >= pow2(e)) by (nonlinear_arith)
                requires
                    significand(m) >= 1,
            ;
        }
    }
    assert(m < INFINITY_MAGNITUDE);
    assert(clamped(v, of_integer(-1), of_integer(1)) == v);
    lemma_times_32768(v);
    let up = scaled_up(v);
    assert(clamped(up, of_integer(-32768), of_integer(32768)) == up);
    lemma_over_32768(up, m);
}

/// A float sample becomes 32768 times as large, exactly; what lies outside [-1, 1]
/// is brought to its ends first.
pub proof fn lemma_float_is_scaled_exactly(v: Sample)
    ensures
        v.is_nan() ==> scaled_up(v).is_nan(),
        !v.is_nan() ==> !scaled_up(v).is_nan() && scaled_up(v).units() == 32768 * (if v.units()
            < -pow2(149) {
            -pow2(149)
        } else if v.units() > pow2(149) {
            pow2(149) as int
        } else {
            v.units()
        }),
{
    lemma_integer_exact(-1);
    lemma_integer_exact(1);
    lemma_pow2_pos(149);
    assert(-1 * pow2(149) == -pow2(149));
    assert(1 * pow2(149) == pow2(149));
    if !v.is_nan() {
        let c = clamped(v, of_integer(-1), of_integer(1));
        lemma_parts(c.magnitude());
        assert(magnitude_units(c.magnitude()) <= pow2(149));
        assert(c.magnitude() < INFINITY_MAGNITUDE) by {
            if c.magnitude() == INFINITY_MAGNITUDE {
                vstd::arithmetic::power2::lemma_pow2_strictly_increases(149, 254);
                assert(exponent(INFINITY_MAGNITUDE as nat) == 254);
                assert(significand(c.magnitude()) * pow2(254) >= pow2(254)) by (nonlinear_arith)
                    requires
                        significand(c.magnitude()) >= 1,
                ;
            }
        }
        lemma_times_32768(c);
    }
}

/// A float S16 sample becomes the sample nearest to its 32768th part; what lies
/// outside [-32768, 32768] is brought to its ends first.
pub proof fn lemma_float_s16_is_scaled_to_nearest(v: Sample, x: Sample)
    ensures
        v.is_nan() ==> scaled_down(v).is_nan(),
        !v.is_nan() ==> {
            let c = if v.units() < -32768 * pow2(149) {
                -32768 * pow2(149)
            } else if v.units() > 32768 * pow2(149) {
                (32768 * pow2(149)) as int
            } else {
                v.units()
            };
            &&& !scaled_down(v).is_nan()
            &&& !scaled_down(v).is_infinite()
            &&& distance(c - 32768 * scaled_down(v).units()) <= distance(c - 32768 * x.units())
        },
{
    lemma_integer_exact(-32768);
    lemma_integer_exact(32768);
    lemma_pow2_pos(149);
    lemma_pow2_pos(134);
    vstd::arithmetic::power2::lemma2_to64();
    lemma_pow2_adds(134, 15);
    lemma_inverse_power(32768, 15);
    if !v.is_nan() {
        let held = clamped(v, of_integer(-32768), of_integer(32768));
        let small = quotient(of_integer(1), of_integer(32768));
        let k = pow2(134);
        let c = held.units();
        lemma_parts(held.magnitude());
        assert(held.magnitude() < INFINITY_MAGNITUDE) by {
            if held.magnitude() == INFINITY_MAGNITUDE {
                lemma_pow2_adds(149, 15);
                vstd::arithmetic::power2::lemma_pow2_strictly_increases(164, 254);
                assert(exponent(INFINITY_MAGNITUDE as nat) == 254);
                assert(significand(held.magnitude()) * pow2(254) >= pow2(254)) by (nonlinear_arith)
                    requires
                        significand(held.magnitude()) >= 1,
                ;
            }
        }
        lemma_product_is_nearest(held, small, x);
        let y = scaled_down(v).units();
        let z = x.units();
        assert(c * k - pow2(149) * y == k * (c - 32768 * y)) by (nonlinear_arith)
            requires
                pow2(149) == k * 32768,
        ;
        assert(c * k - pow2(149) * z == k * (c - 32768 * z)) by (nonlinear_arith)
            requires
                pow2(149) == k * 32768,
        ;
        assert(!product(held, small).is_infinite()) by {
            let top = 0x01ff_ffff * pow2(252);
            vstd::arithmetic::power2::lemma_pow2_strictly_increases(149, 252);
            assert(distance(c * k) < pow2(149) * top) by (nonlinear_arith)
                requires
                    -32768 * pow2(149) <= c <= 32768 * pow2(149),
                    top >= 0x01ff_ffff * pow2(149),
                    pow2(149) == k * 32768,
                    k > 0,
                    distance(c * k) == (if c * k < 0 {
                        -(c * k)
                    } else {
                        c * k
                    }),
            {
                assert(-32768 * pow2(149) * k <= c * k <= 32768 * pow2(149) * k);
                assert(32768 * pow2(149) * k == pow2(149) * pow2(149));
                assert(pow2(149) * pow2(149) < pow2(149) * top);
            }
        }
        lemma_distance_scales(k, c - 32768 * y);
        lemma_distance_scales(k, c - 32768 * z);
        assert(distance(c - 32768 * y) <= distance(c - 32768 * z)) by (nonlinear_arith)
            requires
                k * distance(c - 32768 * y) <= k * distance(c - 32768 * z),
                k > 0,
        ;
    }
}

proof fn lemma_distance_scales(k: nat, z: int)
    ensures
        distance(k * z) == k * distance(z),
{
    assert(z >= 0 ==> k * z >= 0) by (nonlinear_arith);
    assert(z < 0 ==> k * z <= 0) by (nonlinear_arith);
    assert(k * (-z) == -(k * z)) by (nonlinear_arith);
}

/// Adding one half with the sign of a sample and cutting off the fraction rounds it
/// to the nearest integer, where the sample is a whole number of 256ths.
#[verifier::spinoff_prover]
proof fn lemma_256ths_are_rounded(c: Sample, k: int)
    requires
        !c.is_nan(),
        -0x0080_0000 <= k <= 0x007f_ff00,
        c.units() == k * pow2(141),
    ensures
        ({
            let t = truncated(sum(c, signed_half(c)));
            &&& 2 * (c.units() - t * pow2(149)) <= pow2(149)
            &&& 2 * (t * pow2(149) - c.units()) <= pow2(149)
            &&& 2 * (c.units() - t * pow2(149)) == pow2(149) ==> c.units() < 0
            &&& 2 * (t * pow2(149) - c.units()) == pow2(149) ==> c.units() > 0
            &&& k == 0x007f_ff00 ==> t == 32767
            &&& k == -0x0080_0000 ==> t == -32768
        }),
{
    let h = pow2(141);
    let u = pow2(149);
    vstd::arithmetic::power2::lemma2_to64();
    lemma_pow2_pos(141);
    lemma_256ths();
    lemma_inverse_power(2, 1);
    lemma_parts(c.magnitude());
    assert(-0x0080_0000 * h <= k * h <= 0x007f_ff00 * h) by (nonlinear_arith)
        requires
            -0x0080_0000 <= k <= 0x007f_ff00,
            h > 0,
    ;
    assert(c.magnitude() < INFINITY_MAGNITUDE) by {
        if c.magnitude() == INFINITY_MAGNITUDE {
            lemma_pow2_adds(141, 32);
            vstd::arithmetic::power2::lemma_pow2_strictly_increases(173, 254);
            assert(exponent(INFINITY_MAGNITUDE as nat) == 254);
            assert(significand(c.magnitude()) * pow2(254) >= pow2(254)) by (nonlinear_arith)
                requires
                    significand(c.magnitude()) >= 1,
            ;
        }
    }
    let half = signed_half(c);
    let moved = if c.negative() {
        k - 128
    } else {
        k + 128
    };
    assert((k - 128) * h == k * h - 128 * h) by (nonlinear_arith);
    assert((k + 128) * h == k * h + 128 * h) by (nonlinear_arith);
    assert(k * h >= 0 ==> k >= 0) by (nonlinear_arith)
        requires
            h > 0,
    ;
    assert(k * h <= 0 ==> k <= 0) by (nonlinear_arith)
        requires
            h > 0,
    ;
    lemma_sum_exact(c, half, moved, 141);
    let r = sum(c, half);
    lemma_integer_part(r);
    let t = truncated(r);
    assert((t + 1) * u == t * u + u) by (nonlinear_arith);
    assert((t - 1) * u == t * u - u) by (nonlinear_arith);
    assert(t != 0 ==> t * u >= u || t * u <= -u) by (nonlinear_arith)
        requires
            u > 0,
    ;
    assert(t == 0 ==> t * u == 0) by (nonlinear_arith);
}

/// One and one half in 256ths.
proof fn lemma_256ths()
    ensures
        pow2(149) == 256 * pow2(141),
        pow2(148) == 128 * pow2(141),
{
    vstd::arithmetic::power2::lemma2_to64();
    lemma_pow2_adds(141, 8);
    lemma_pow2_adds(141, 7);
    assert(pow2(149) == 256 * pow2(141)) by (nonlinear_arith)
        requires
            pow2(149) == pow2(141) * pow2(8),
            pow2(8) == 256,
    ;
    assert(pow2(148) == 128 * pow2(141)) by (nonlinear_arith)
        requires
            pow2(148) == pow2(141) * pow2(7),
            pow2(7) == 128,
    ;
}

/// A float S16 sample becomes the nearest `i16`, for every sample that is a whole
/// number of 256ths; halves go away from zero. What lies outside the range of an
/// `i16` is brought to its ends, and what is not a number becomes zero.
pub proof fn lemma_s16_is_nearest(v: Sample, n: int)
    ensures
        v.is_nan() ==> to_s16(v) == 0,
        !v.is_nan() && v.units() >= 32767 * pow2(149) ==> to_s16(v) == 32767,
        !v.is_nan() && v.units() <= -32768 * pow2(149) ==> to_s16(v) == -32768,
        !v.is_nan() && -32768 * pow2(149) <= v.units() <= 32767 * pow2(149) && v.units() == n
            * pow2(141) ==> {
            let t = to_s16(v) * pow2(149);
            &&& 2 * (v.units() - t) <= pow2(149)
            &&& 2 * (t - v.units()) <= pow2(149)
            &&& 2 * (v.units() - t) == pow2(149) ==> v.units() < 0
            &&& 2 * (t - v.units()) == pow2(149) ==> v.units() > 0
        },
{
    let h = pow2(141);
    let u = pow2(149);
    lemma_pow2_pos(141);
    lemma_256ths();
    lemma_integer_exact(-32768);
    lemma_integer_exact(32767);
    let c = clamped(v, of_integer(-32768), of_integer(32767));
    if !v.is_nan() {
        if v.units() >= 32767 * u {
            lemma_256ths_are_rounded(c, 0x007f_ff00);
        } else if v.units() <= -32768 * u {
            lemma_256ths_are_rounded(c, -0x0080_0000);
        } else if v.units() == n * h {
            assert(-0x0080_0000 <= n <= 0x007f_ff00) by (nonlinear_arith)
                requires
                    -0x0080_0000 * h <= n * h <= 0x007f_ff00 * h,
                    h > 0,
            ;
            lemma_256ths_are_rounded(c, n);
        }
    }
}

} // verus!
