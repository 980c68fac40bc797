//! Rounding of exact ratios to IEEE 754 binary32 magnitudes.
//!
//! A magnitude is the 31-bit pattern of a non-negative binary32 value. Every
//! finite binary32 value is a whole number of *units*, one unit being 2^-149,
//! the smallest positive value. An exact result is given as a ratio of two
//! naturals, counted in units.
use vstd::arithmetic::power2::{
    lemma_pow2_adds, lemma_pow2_pos, lemma_pow2_strictly_increases, lemma_pow2_unfold, pow2,
};
use vstd::prelude::*;

verus! {

/// Magnitude of infinity. Larger patterns are not numbers.
pub const INFINITY_MAGNITUDE: u32 = 0x7f80_0000;

/// Number of magnitudes that share one exponent.
pub const BINADE: u32 = 0x0080_0000;

/// The natural nearest to `n / d`; of two that are equally near, the even one.
pub open spec fn nearest_even(n: nat, d: nat) -> nat
    recommends
        d > 0,
{
    let q = n / d;
    let twice_rest = 2 * (n % d);
    if twice_rest < d {
        q
    } else if twice_rest > d {
        q + 1
    } else {
        q + q % 2
    }
}

/// The pattern of the ratio `n / d`, rounded to 24 significant bits, without
/// an upper bound on the exponent. The exponent goes up, one binade at a time,
/// until the significand fits.
pub open spec fn rounded(n: nat, d: nat) -> nat
    decreases n - d,
{
    if d == 0 || n < d * 0x0100_0000 {
        nearest_even(n, d)
    } else {
        BINADE as nat + rounded(n, 2 * d)
    }
}

/// The magnitude nearest to the ratio `n / d`; what is too large is infinity.
pub open spec fn magnitude_of(n: nat, d: nat) -> nat {
    if rounded(n, d) < INFINITY_MAGNITUDE {
        rounded(n, d)
    } else {
        INFINITY_MAGNITUDE as nat
    }
}

/// Two ratios that are equal have the same remainder up to scale.
proof fn lemma_nearest_even_scale(k: nat, n: nat, d: nat)
    requires
        k > 0,
        d > 0,
    ensures
        nearest_even(k * n, k * d) == nearest_even(n, d),
{
    let q = n / d;
    let r = n % d;
    vstd::arithmetic::div_mod::lemma_fundamental_div_mod(n as int, d as int);
    assert(k * n == q * (k * d) + k * r) by (nonlinear_arith)
        requires
            n == d * q + r,
    ;
    assert(0 <= k * r < k * d) by (nonlinear_arith)
        requires
            0 <= r < d,
            k > 0,
    ;
    vstd::arithmetic::div_mod::lemma_fundamental_div_mod_converse(
        (k * n) as int,
        (k * d) as int,
        q as int,
        (k * r) as int,
    );
    assert((2 * (k * r) < k * d) == (2 * r < d)) by (nonlinear_arith)
        requires
            k > 0,
    ;
    assert((2 * (k * r) > k * d) == (2 * r > d)) by (nonlinear_arith)
        requires
            k > 0,
    ;
}

proof fn lemma_rounded_scale(k: nat, n: nat, d: nat)
    requires
        k > 0,
        d > 0,
    ensures
        rounded(k * n, k * d) == rounded(n, d),
    decreases n - d,
{
    assert(k * d > 0) by (nonlinear_arith)
        requires
            k > 0,
            d > 0,
    ;
    assert((k * n < (k * d) * 0x0100_0000) == (n < d * 0x0100_0000)) by (nonlinear_arith)
        requires
            k > 0,
    ;
    if n < d * 0x0100_0000 {
        lemma_nearest_even_scale(k, n, d);
    } else {
        lemma_rounded_scale(k, n, 2 * d);
        assert(2 * (k * d) == k * (2 * d)) by (nonlinear_arith);
    }
}

/// Equal ratios round to the same pattern.
pub proof fn lemma_rounded_ratio(n1: nat, d1: nat, n2: nat, d2: nat)
    requires
        d1 > 0,
        d2 > 0,
        n1 * d2 == n2 * d1,
    ensures
        rounded(n1, d1) == rounded(n2, d2),
        magnitude_of(n1, d1) == magnitude_of(n2, d2),
{
    lemma_rounded_scale(d2, n1, d1);
    lemma_rounded_scale(d1, n2, d2);
    assert(d2 * n1 == d1 * n2) by (nonlinear_arith)
        requires
            n1 * d2 == n2 * d1,
    ;
    assert(d2 * d1 == d1 * d2) by (nonlinear_arith);
}

/// A ratio whose significand is normalised at exponent `e` rounds in place.
pub proof fn lemma_rounded_normalised(n: nat, d: nat, e: nat)
    requires
        d > 0,
        n < d * 0x0100_0000,
        e == 0 || n >= d * 0x0080_0000,
    ensures
        rounded(n * pow2(e), d) == e * BINADE + nearest_even(n, d),
    decreases e,
{
    if e == 0 {
        vstd::arithmetic::power2::lemma2_to64();
    } else {
        let p = pow2((e - 1) as nat);
        lemma_pow2_unfold(e);
        lemma_pow2_pos((e - 1) as nat);
        assert(n * pow2(e) == 2 * (n * p)) by (nonlinear_arith)
            requires
                pow2(e) == 2 * p,
        ;
        assert(n * p >= d * 0x0080_0000) by (nonlinear_arith)
            requires
                n >= d * 0x0080_0000,
                p >= 1,
        ;
        lemma_rounded_scale(2, n * p, d);
        lemma_rounded_normalised(n, d, (e - 1) as nat);
        assert(e * BINADE == BINADE + (e - 1) * BINADE) by (nonlinear_arith);
    }
}

/// Powers of two in `u64`.
pub fn power_of_two(k: u32) -> (p: u64)
    requires
        k < 64,
    ensures
        p == pow2(k as nat),
{
    proof {
        vstd::bits::lemma_u64_pow2_no_overflow(k as nat);
        vstd::bits::lemma_u64_shl_is_mul(1u64, k as u64);
    }
    1u64 << (k as u64)
}

/// The natural nearest to `n / d`, ties to even.
fn divide_to_even(n: u64, d: u64) -> (q: u64)
    requires
        0 < d,
        n < 0x8000_0000_0000_0000,
    ensures
        q == nearest_even(n as nat, d as nat),
{
    let q: u64 = n / d;
    let r: u64 = n % d;
    proof {
        vstd::arithmetic::div_mod::lemma_div_is_ordered_by_denominator(n as int, 1, d as int);
    }
    let rest: u64 = d - r;
    if r < rest {
        q
    } else if r > rest {
        q + 1
    } else {
        q + q % 2
    }
}

/// Puts exponent and significand together, saturating at infinity.
fn assemble(e: u32, q: u64) -> (m: u32)
    requires
        e <= 1000,
        q <= 0x0100_0000,
    ensures
        m as nat == if e * BINADE + q < INFINITY_MAGNITUDE {
            (e * BINADE + q) as nat
        } else {
            INFINITY_MAGNITUDE as nat
        },
{
    assert(e * BINADE <= 1000 * 0x0080_0000) by (nonlinear_arith)
        requires
            e <= 1000,
    ;
    let pattern: u64 = (e as u64) * (BINADE as u64) + q;
    if pattern < INFINITY_MAGNITUDE as u64 {
        pattern as u32
    } else {
        INFINITY_MAGNITUDE
    }
}

/// Rounding does not go beyond a bound that is a natural and is reached.
pub proof fn lemma_nearest_even_at_most(n: nat, d: nat, b: nat)
    requires
        d > 0,
        n <= d * b,
    ensures
        nearest_even(n, d) <= b,
{
    if n < d * b {
        lemma_nearest_even_bound(n, d, b);
    } else {
        assert(n == b * d) by (nonlinear_arith)
            requires
                n == d * b,
        ;
        vstd::arithmetic::div_mod::lemma_fundamental_div_mod_converse(
            n as int,
            d as int,
            b as int,
            0,
        );
    }
}

/// Rounding does not go beyond a natural that is not reached.
pub proof fn lemma_nearest_even_bound(n: nat, d: nat, b: nat)
    requires
        d > 0,
        n < d * b,
    ensures
        nearest_even(n, d) <= b,
{
    assert(d * b == b * d) by (nonlinear_arith);
    vstd::arithmetic::div_mod::lemma_div_by_multiple_is_strongly_ordered(
        n as int,
        (d * b) as int,
        b as int,
        d as int,
    );
    vstd::arithmetic::div_mod::lemma_div_multiples_vanish(b as int, d as int);
}

/// Numerator of `m * 2^s`.
pub open spec fn scaled_numerator(m: nat, s: int) -> nat {
    if s >= 0 {
        m * pow2(s as nat)
    } else {
        m
    }
}

/// Denominator of `m * 2^s`.
pub open spec fn scaled_denominator(s: int) -> nat {
    if s >= 0 {
        1
    } else {
        pow2((-s) as nat)
    }
}

/// The magnitude nearest to `m * 2^s`, counted in units.
pub fn round_scaled(m: u64, s: i32) -> (r: u32)
    requires
        m < 0x8000_0000_0000_0000,
        -400 <= s <= 400,
    ensures
        r as nat == magnitude_of(
            scaled_numerator(m as nat, s as int),
            scaled_denominator(s as int),
        ),
        r <= INFINITY_MAGNITUDE,
{
    proof {
        vstd::arithmetic::power2::lemma2_to64();
        vstd::arithmetic::power2::lemma2_to64_rest();
    }
    // The number of bits beyond 24 that `m` has.
    let mut k: u32 = 0;
    while k < 39 && m >= power_of_two(24 + k)
        invariant
            k <= 39,
            m < 0x8000_0000_0000_0000,
            pow2(63) == 0x8000_0000_0000_0000,
            k > 0 ==> m >= pow2((23 + k) as nat),
        ensures
            k <= 39,
            k > 0 ==> m >= pow2((23 + k) as nat),
            m < pow2((24 + k) as nat),
        decreases 39 - k,
    {
        k = k + 1;
    }
    let e: i32 = k as i32 + s;
    if k > 0 && e >= 0 {
        let d: u64 = power_of_two(k);
        let q: u64 = divide_to_even(m, d);
        proof {
            lemma_pow2_adds(24, k as nat);
            lemma_pow2_adds(23, k as nat);
            lemma_nearest_even_bound(m as nat, d as nat, 0x0100_0000);
            lemma_rounded_normalised(m as nat, d as nat, e as nat);
            lemma_scaled_ratio(m as nat, s as int, k as nat, e as nat);
        }
        return assemble(e as u32, q);
    }
    if s <= 0 {
        if s <= -64 {
            proof {
                lemma_pow2_grows(64, (-s) as nat);
                lemma_small_ratio(m as nat, pow2((-s) as nat));
            }
            return 0;
        }
        let d: u64 = power_of_two((-s) as u32);
        let q: u64 = divide_to_even(m, d);
        proof {
            lemma_pow2_adds(24, (-s) as nat);
            lemma_pow2_grows((24 + k) as nat, (24 - s) as nat);
            lemma_nearest_even_bound(m as nat, d as nat, 0x0100_0000);
            assert(m * pow2(0) == m) by (nonlinear_arith)
                requires
                    pow2(0) == 1,
            ;
        }
        return assemble(0, q);
    }
    let mut n: u64 = m;
    let mut f: i32 = s;
    while f > 0 && n < 0x0080_0000
        invariant
            0 <= f <= s <= 400,
            n < 0x0100_0000,
            n * pow2(f as nat) == m * pow2(s as nat),
        decreases f,
    {
        proof {
            lemma_pow2_unfold(f as nat);
            assert(n * pow2(f as nat) == (2 * n) * pow2((f - 1) as nat)) by (nonlinear_arith)
                requires
                    pow2(f as nat) == 2 * pow2((f - 1) as nat),
            ;
        }
        n = 2 * n;
        f = f - 1;
    }
    proof {
        lemma_rounded_normalised(n as nat, 1, f as nat);
    }
    assemble(f as u32, n)
}

/// Powers of two do not decrease.
pub proof fn lemma_pow2_grows(a: nat, b: nat)
    requires
        a <= b,
    ensures
        pow2(a) <= pow2(b),
{
    if a < b {
        lemma_pow2_strictly_increases(a, b);
    }
}

/// `m * 2^s` is the ratio of `m * 2^e` to `2^k` where `e == s + k`.
proof fn lemma_scaled_ratio(m: nat, s: int, k: nat, e: nat)
    requires
        e == s + k,
    ensures
        magnitude_of(m * pow2(e), pow2(k)) == magnitude_of(
            scaled_numerator(m, s),
            scaled_denominator(s),
        ),
{
    lemma_pow2_pos(k);
    if s >= 0 {
        lemma_pow2_adds(s as nat, k);
        assert((m * pow2(e)) * 1 == (m * pow2(s as nat)) * pow2(k)) by (nonlinear_arith)
            requires
                pow2(e) == pow2(s as nat) * pow2(k),
        ;
        lemma_rounded_ratio(m * pow2(e), pow2(k), m * pow2(s as nat), 1);
    } else {
        let t = (-s) as nat;
        lemma_pow2_pos(t);
        lemma_pow2_adds(e, t);
        assert((m * pow2(e)) * pow2(t) == m * pow2(k)) by (nonlinear_arith)
            requires
                pow2(k) == pow2(e) * pow2(t),
        ;
        lemma_rounded_ratio(m * pow2(e), pow2(k), m, pow2(t));
    }
}

/// Less than half a unit rounds to zero.
proof fn lemma_small_ratio(n: nat, d: nat)
    requires
        2 * n < d,
    ensures
        magnitude_of(n, d) == 0,
{
    vstd::arithmetic::div_mod::lemma_small_mod(n, d);
    vstd::arithmetic::div_mod::lemma_basic_div(n as int, d as int);
    assert(n < d * 0x0100_0000) by (nonlinear_arith)
        requires
            2 * n < d,
    ;
}

/// Numerator of `(n / d) * 2^t`.
pub open spec fn quotient_numerator(n: nat, t: int) -> nat {
    scaled_numerator(n, t)
}

/// Denominator of `(n / d) * 2^t`.
pub open spec fn quotient_denominator(d: nat, t: int) -> nat {
    d * scaled_denominator(t)
}

/// Whether `(n / d) * 2^t` is the ratio of `big_n` to `big_d`.
spec fn same_ratio(n: nat, d: nat, t: int, big_n: nat, big_d: nat) -> bool {
    t >= -500 && (n * pow2((t + 500) as nat)) * big_d == (big_n * d) * pow2(500)
}

proof fn lemma_same_ratio_start(n: nat, d: nat, t: int)
    requires
        t >= -500,
    ensures
        same_ratio(n, d, t, quotient_numerator(n, t), quotient_denominator(d, t)),
{
    let b = pow2(500);
    let c = pow2((t + 500) as nat);
    if t >= 0 {
        let p = pow2(t as nat);
        lemma_pow2_adds(t as nat, 500);
        assert((n * c) * (d * 1) == ((n * p) * d) * b) by (nonlinear_arith)
            requires
                c == p * b,
        ;
    } else {
        let p = pow2((-t) as nat);
        lemma_pow2_adds((-t) as nat, (t + 500) as nat);
        assert((n * c) * (d * p) == (n * d) * b) by (nonlinear_arith)
            requires
                b == p * c,
        ;
    }
}

proof fn lemma_same_ratio_numerator(n: nat, d: nat, t: int, big_n: nat, big_d: nat, k: nat)
    requires
        same_ratio(n, d, t, big_n, big_d),
        t - k >= -500,
    ensures
        same_ratio(n * pow2(k), d, t - k, big_n, big_d),
{
    let c = pow2((t - k + 500) as nat);
    let p = pow2(k);
    lemma_pow2_adds(k, (t - k + 500) as nat);
    assert((n * p) * c == n * (p * c)) by (nonlinear_arith);
}

proof fn lemma_same_ratio_denominator(n: nat, d: nat, t: int, big_n: nat, big_d: nat, k: nat)
    requires
        same_ratio(n, d, t, big_n, big_d),
    ensures
        same_ratio(n, d * pow2(k), t + k, big_n, big_d),
{
    let c = pow2((t + 500) as nat);
    let p = pow2(k);
    let b = pow2(500);
    lemma_pow2_adds((t + 500) as nat, k);
    assert((n * (c * p)) * big_d == (big_n * (d * p)) * b) by (nonlinear_arith)
        requires
            (n * c) * big_d == (big_n * d) * b,
    ;
}

proof fn lemma_same_ratio_end(n: nat, d: nat, t: nat, big_n: nat, big_d: nat)
    requires
        same_ratio(n, d, t as int, big_n, big_d),
        d > 0,
        big_d > 0,
    ensures
        rounded(n * pow2(t), d) == rounded(big_n, big_d),
        magnitude_of(n * pow2(t), d) == magnitude_of(big_n, big_d),
{
    let b = pow2(500);
    let p = pow2(t);
    lemma_pow2_adds(t, 500);
    lemma_pow2_pos(500);
    assert((n * p) * big_d == big_n * d) by (nonlinear_arith)
        requires
            (n * (p * b)) * big_d == (big_n * d) * b,
            b > 0,
    ;
    lemma_rounded_ratio(n * p, d, big_n, big_d);
}

/// The magnitude nearest to `(n / d) * 2^t`, counted in units.
pub fn round_quotient(n: u64, d: u64, t: i32) -> (r: u32)
    requires
        n < 0x0100_0000,
        0 < d < 0x0100_0000,
        -400 <= t <= 430,
    ensures
        r as nat == magnitude_of(
            quotient_numerator(n as nat, t as int),
            quotient_denominator(d as nat, t as int),
        ),
        r <= INFINITY_MAGNITUDE,
{
    let ghost big_n = quotient_numerator(n as nat, t as int);
    let ghost big_d = quotient_denominator(d as nat, t as int);
    proof {
        vstd::arithmetic::power2::lemma2_to64();
        vstd::arithmetic::power2::lemma2_to64_rest();
        lemma_pow2_pos((-t) as nat);
        assert(big_d > 0) by (nonlinear_arith)
            requires
                big_d == d * scaled_denominator(t as int),
                d > 0,
                scaled_denominator(t as int) > 0,
        ;
        lemma_same_ratio_start(n as nat, d as nat, t as int);
    }
    if n == 0 {
        proof {
            assert(0 * pow2(t as nat) == 0);
            lemma_small_ratio(0, big_d);
        }
        return 0;
    }
    // Bring the numerator to 62 bits.
    let mut a: u64 = n;
    let mut j: i32 = 0;
    while a < 0x0080_0000
        invariant
            -400 <= t,
            0 <= j <= 23,
            pow2(j as nat) <= a < 0x0100_0000,
            pow2(23) == 0x0080_0000,
            same_ratio(a as nat, d as nat, t - j, big_n, big_d),
        decreases 23 - j,
    {
        proof {
            vstd::arithmetic::power2::lemma2_to64();
            lemma_same_ratio_numerator(a as nat, d as nat, t - j, big_n, big_d, 1);
            lemma_pow2_unfold((j + 1) as nat);
            if j == 23 {
                assert(false);
            }
        }
        a = 2 * a;
        j = j + 1;
    }
    let top: u64 = a * 0x40_0000_0000;
    let start: i32 = t - j - 38;
    proof {
        lemma_same_ratio_numerator(a as nat, d as nat, t - j, big_n, big_d, 38);
    }
    // Bring the quotient to 24 bits.
    let mut bottom: u64 = d;
    let mut i: i32 = 0;
    while bottom <= top / 0x0100_0000
        invariant
            0 <= i <= 38,
            -470 <= start <= 400,
            0 < bottom,
            pow2(i as nat) <= bottom,
            pow2(38) == 0x40_0000_0000,
            bottom < 0x80_0000_0000,
            top >= bottom * 0x0080_0000,
            0x2000_0000_0000_0000 <= top < 0x4000_0000_0000_0000,
            same_ratio(top as nat, bottom as nat, start + i, big_n, big_d),
        decreases 0x80_0000_0000 - bottom,
    {
        proof {
            vstd::arithmetic::power2::lemma2_to64();
            lemma_same_ratio_denominator(top as nat, bottom as nat, start + i, big_n, big_d, 1);
            lemma_pow2_unfold((i + 1) as nat);
        }
        bottom = 2 * bottom;
        i = i + 1;
    }
    let e: i32 = start + i;
    if e >= 0 {
        let q: u64 = divide_to_even(top, bottom);
        proof {
            lemma_same_ratio_end(top as nat, bottom as nat, e as nat, big_n, big_d);
            lemma_rounded_normalised(top as nat, bottom as nat, e as nat);
            lemma_nearest_even_bound(top as nat, bottom as nat, 0x0100_0000);
        }
        return assemble(e as u32, q);
    }
    let k: u32 = (-e) as u32;
    proof {
        lemma_same_ratio_denominator(top as nat, bottom as nat, e as int, big_n, big_d, k as nat);
        lemma_pow2_pos(k as nat);
        assert(bottom * pow2(k as nat) > 0) by (nonlinear_arith)
            requires
                bottom > 0,
                pow2(k as nat) > 0,
        ;
        lemma_same_ratio_end(top as nat, bottom as nat * pow2(k as nat), 0, big_n, big_d);
        assert(top * pow2(0) == top);
    }
    if k > 25 {
        proof {
            lemma_pow2_grows(26, k as nat);
            assert(2 * top < bottom * pow2(k as nat)) by (nonlinear_arith)
                requires
                    top < bottom * 0x0100_0000,
                    pow2(k as nat) >= 0x0400_0000,
            ;
            lemma_small_ratio(top as nat, bottom as nat * pow2(k as nat));
        }
        return 0;
    }
    let scale: u64 = power_of_two(k);
    proof {
        lemma_pow2_grows(k as nat, 25);
        lemma_pow2_grows(1, k as nat);
        assert(bottom * scale <= 0x7f_ffff_ffff * 0x0200_0000) by (nonlinear_arith)
            requires
                bottom <= 0x7f_ffff_ffff,
                scale <= 0x0200_0000,
        ;
        assert(bottom * scale >= bottom) by (nonlinear_arith)
            requires
                scale >= 1,
        ;
    }
    let low: u64 = bottom * scale;
    let q: u64 = divide_to_even(top, low);
    proof {
        lemma_nearest_even_bound(top as nat, low as nat, 0x0100_0000);
    }
    assemble(0, q)
}

/// A sum that lies within a quarter of a unit in the last place of a
/// normalised value rounds to that value.
pub proof fn lemma_rounds_back(m: nat, e: nat, n: nat)
    requires
        0x0080_0000 <= m < 0x0100_0000,
        e >= 2,
        m * pow2(e) - pow2((e - 2) as nat) < n < m * pow2(e) + pow2((e - 2) as nat),
    ensures
        rounded(n, 1) == e * BINADE + m,
{
    let p = pow2((e - 2) as nat);
    lemma_pow2_pos((e - 2) as nat);
    lemma_pow2_unfold((e - 1) as nat);
    lemma_pow2_unfold(e);
    let h = pow2((e - 1) as nat);
    let u = pow2(e);
    assert(u == 4 * p && h == 2 * p);
    if n >= m * u {
        lemma_rounded_at(n, e, m, (n - m * u) as nat);
    } else if m > 0x0080_0000 {
        let r = (n - (m - 1) * u) as int;
        assert((m - 1) * u == m * u - u) by (nonlinear_arith);
        lemma_rounded_at(n, e, (m - 1) as nat, r as nat);
    } else {
        let r = (n - 0x00ff_ffff * h) as int;
        assert(m * u == 0x0100_0000 * h);
        lemma_rounded_at(n, (e - 1) as nat, 0x00ff_ffff, r as nat);
        assert((e - 1) * BINADE + 0x0100_0000 == e * BINADE + m) by (nonlinear_arith)
            requires
                m == BINADE,
        ;
    }
}

/// Rounding of `q * 2^e + r` where the significand `q` has 24 bits.
proof fn lemma_rounded_at(n: nat, e: nat, q: nat, r: nat)
    requires
        0x0080_0000 <= q < 0x0100_0000,
        n == q * pow2(e) + r,
        r < pow2(e),
        2 * r != pow2(e),
    ensures
        rounded(n, 1) == e * BINADE + q + (if 2 * r < pow2(e) {
            0int
        } else {
            1int
        }),
{
    let u = pow2(e);
    lemma_pow2_pos(e);
    assert(n < u * 0x0100_0000 && n >= u * 0x0080_0000) by (nonlinear_arith)
        requires
            0x0080_0000 <= q < 0x0100_0000,
            n == q * u + r,
            r < u,
    ;
    lemma_rounded_normalised(n, u, e);
    assert((n * u) * 1 == n * u);
    lemma_rounded_ratio(n * u, u, n, 1);
    vstd::arithmetic::div_mod::lemma_fundamental_div_mod_converse(
        n as int,
        u as int,
        q as int,
        r as int,
    );
}

/// What a ratio is rounded to is no further from it than one half; at one half it
/// is even.
pub proof fn lemma_nearest_even_is_near(n: nat, d: nat)
    requires
        d > 0,
    ensures
        2 * (n - nearest_even(n, d) * d) <= d,
        2 * (nearest_even(n, d) * d - n) <= d,
        2 * (n - nearest_even(n, d) * d) == d ==> nearest_even(n, d) % 2 == 0,
        2 * (nearest_even(n, d) * d - n) == d ==> nearest_even(n, d) % 2 == 0,
{
    let q = n / d;
    let r = n % d;
    vstd::arithmetic::div_mod::lemma_fundamental_div_mod(n as int, d as int);
    assert(n == q * d + r) by (nonlinear_arith)
        requires
            n == d * q + r,
    ;
    assert((q + 1) * d == q * d + d) by (nonlinear_arith);
}

/// How often the denominator is doubled until the significand fits.
pub open spec fn rounding_exponent(n: nat, d: nat) -> nat
    decreases n - d,
{
    if d == 0 || n < d * 0x0100_0000 {
        0
    } else {
        1 + rounding_exponent(n, 2 * d)
    }
}

/// A rounded pattern is made of an exponent and a significand that fits.
pub proof fn lemma_rounded_parts(n: nat, d: nat)
    requires
        d > 0,
    ensures
        ({
            let e = rounding_exponent(n, d);
            let scale = d * pow2(e);
            &&& rounded(n, d) == e * BINADE + nearest_even(n, scale)
            &&& scale > 0
            &&& n < scale * 0x0100_0000
            &&& e > 0 ==> n >= scale * 0x0080_0000
        }),
    decreases n - d,
{
    let e = rounding_exponent(n, d);
    vstd::arithmetic::power2::lemma2_to64();
    if n < d * 0x0100_0000 {
        assert(d * pow2(0) == d);
    } else {
        lemma_rounded_parts(n, 2 * d);
        let p = pow2((e - 1) as nat);
        lemma_pow2_unfold(e);
        assert((2 * d) * p == d * pow2(e)) by (nonlinear_arith)
            requires
                pow2(e) == 2 * p,
        ;
        assert(e * BINADE == BINADE + (e - 1) * BINADE) by (nonlinear_arith);
        if e == 1 {
            assert(d * pow2(1) == 2 * d);
        }
    }
}

} // verus!
