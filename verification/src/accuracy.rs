//! How near the arithmetic comes to exact results.
use crate::binary32::{
    absolute, integer, nearest_bits, nearest_even, units, unity, Binary32, INFINITE,
};
use crate::composite::lemma_fraction;
use crate::consts::{CHANNEL_MAX, HALF, ONE, TWO, ZERO};
use crate::gradient::{fraction, nearest_byte};
use crate::order::{
    lemma_add_value, lemma_div_value, lemma_finite_between, lemma_mul_value, lemma_rounded_exact,
    lemma_rounded_order, lemma_rounded_zero, lemma_values, lemma_zero_product, lemma_zero_quotient,
    products_commute, rounded,
};
use crate::rounding::{
    lemma_nearest_exact, lemma_nearest_order, lemma_nearest_scaled, lemma_units_binades,
    lemma_units_order,
};
use vstd::arithmetic::div_mod::{lemma_fundamental_div_mod, lemma_fundamental_div_mod_converse};
use vstd::arithmetic::power2::{
    lemma2_to64, lemma2_to64_rest, lemma_pow2_adds, lemma_pow2_strictly_increases,
    lemma_pow2_unfold, pow2,
};
use vstd::prelude::*;

verus! {

/// How far `x` is from `n / d`, counted in parts of `d`.
pub open spec fn distance(x: nat, n: nat, d: nat) -> nat {
    absolute(x * d - n)
}

/// The nearest integer is at most half a step away, and none is nearer.
proof fn lemma_nearest_even(n: nat, d: nat, m: nat)
    requires
        d > 0,
    ensures
        2 * distance(nearest_even(n, d), n, d) <= d,
        distance(nearest_even(n, d), n, d) <= distance(m, n, d),
{
    let (q, r) = (n / d, n % d);
    lemma_fundamental_div_mod(n as int, d as int);
    assert(d * q == q * d) by (nonlinear_arith);
    assert((q + 1) * d == q * d + d) by (nonlinear_arith);
    if m <= q {
        assert(m * d <= q * d) by (nonlinear_arith)
            requires
                m <= q,
        ;
    } else {
        assert(m * d >= (q + 1) * d) by (nonlinear_arith)
            requires
                m >= q + 1,
        ;
    }
}

/// Rounding past the first binades gives a magnitude past the first binade.
proof fn lemma_nearest_large(n: nat, d: nat)
    requires
        d > 0,
        n >= d * 0x0080_0000,
    ensures
        nearest_bits(n, d) >= 0x0080_0000,
{
    lemma_nearest_order(d * 0x0080_0000, n, d);
    lemma_nearest_scaled(0x0080_0000, 1, d);
    assert(0x0080_0000 * d == d * 0x0080_0000 && 1 * d == d) by (nonlinear_arith);
    lemma_nearest_exact(0x0080_0000);
}

/// Rounding is to the nearest: no number is nearer to a fraction than the one that the
/// fraction rounds to.
pub proof fn lemma_nearest_is_nearest(n: nat, d: nat, magnitude: nat)
    requires
        d > 0,
    ensures
        distance(units(nearest_bits(n, d)), n, d) <= distance(units(magnitude), n, d),
    decreases n - d,
{
    if n < d * 0x0100_0000 {
        let q = nearest_even(n, d);
        lemma_nearest_even(n, d, units(magnitude));
        lemma_nearest_even(n, d, 0x0100_0000);
        if q >= 0x0100_0000 {
            // The result is the first number of the next binade.
            if q > 0x0100_0000 {
                assert(q * d >= 0x0100_0001 * d) by (nonlinear_arith)
                    requires
                        q >= 0x0100_0001,
                ;
            }
            assert(0x0100_0000 * d == d * 0x0100_0000) by (nonlinear_arith);
            assert(0x0100_0001 * d == d * 0x0100_0000 + d) by (nonlinear_arith);
            assert(q == 0x0100_0000);
            assert(units(0x0080_0000) == 0x0080_0000);
        }
    } else {
        lemma_nearest_large(n, 2 * d);
        let below = nearest_bits(n, 2 * d);
        let u = units(below);
        assert(units(nearest_bits(n, d)) == 2 * u);
        assert((2 * u) * d == u * (2 * d)) by (nonlinear_arith);
        if magnitude >= 0x0100_0000 {
            let m = (magnitude - 0x0080_0000) as nat;
            lemma_nearest_is_nearest(n, 2 * d, m);
            let v = units(m);
            assert((2 * v) * d == v * (2 * d)) by (nonlinear_arith);
        } else {
            lemma_nearest_is_nearest(n, 2 * d, 0x0080_0000);
            assert(0x0080_0000 * (2 * d) == d * 0x0100_0000) by (nonlinear_arith);
            assert(magnitude * d <= d * 0x0100_0000) by (nonlinear_arith)
                requires
                    magnitude < 0x0100_0000,
            ;
        }
    }
}

/// Rounding is accurate to twenty-four bits.
pub proof fn lemma_nearest_error(n: nat, d: nat)
    requires
        d > 0,
        n >= d * 0x0080_0000,
    ensures
        distance(units(nearest_bits(n, d)), n, d) * 0x0100_0000 <= n,
    decreases n - d,
{
    if n < d * 0x0100_0000 {
        let q = nearest_even(n, d);
        lemma_nearest_even(n, d, 0x0100_0000);
        if q >= 0x0100_0000 {
            if q > 0x0100_0000 {
                assert(q * d >= 0x0100_0001 * d) by (nonlinear_arith)
                    requires
                        q >= 0x0100_0001,
                ;
            }
            assert(0x0100_0000 * d == d * 0x0100_0000) by (nonlinear_arith);
            assert(0x0100_0001 * d == d * 0x0100_0000 + d) by (nonlinear_arith);
            assert(q == 0x0100_0000);
            assert(units(0x0080_0000) == 0x0080_0000);
        }
        assert(units(q) == q);
    } else {
        lemma_nearest_large(n, 2 * d);
        lemma_nearest_error(n, 2 * d);
        let u = units(nearest_bits(n, 2 * d));
        assert((2 * u) * d == u * (2 * d)) by (nonlinear_arith);
    }
}

/// Whether `x` is `n / d` up to `k` parts in `2^24`.
pub open spec fn near(x: nat, n: nat, d: nat, k: nat) -> bool {
    distance(x, n, d) * 0x0100_0000 <= k * n
}

/// What comes near to a scaled number that is itself near comes near to the scaled target.
pub proof fn lemma_near_step(x: nat, n: nat, d: nat, k: nat, y: nat, p: nat, q: nat)
    requires
        near(x, n, d, k),
        k <= 0x0100_0000,
        near(y, x * p, q, 1),
    ensures
        near(y, n * p, d * q, k + 2),
{
    let t: int = 0x0100_0000;
    let e = distance(x, n, d) as int;
    let f = distance(y, x * p, q) as int;
    let g = distance(y, n * p, d * q) as int;
    // g <= d * f + p * e, d * f * t <= d * x * p and p * e * t <= k * n * p.
    assert(y * (d * q) - n * p == d * (y * q - x * p) + p * (x * d - n)) by (nonlinear_arith);
    let (a, b) = (y * q - x * p, x * d - n);
    lemma_scaled_bound(d as int, a, f);
    lemma_scaled_bound(p as int, b, e);
    assert(g <= d * f + p * e);
    assert((d * f) * t <= (d * x) * p) by (nonlinear_arith)
        requires
            f * t <= x * p,
            d >= 0,
    ;
    assert(d * x == x * d) by (nonlinear_arith);
    assert(e * t <= n * t) by (nonlinear_arith)
        requires
            e * t <= k * n,
            k <= t,
            n >= 0,
    ;
    assert(x * d <= 2 * n);
    assert((d * x) * p <= 2 * (n * p)) by (nonlinear_arith)
        requires
            d * x <= 2 * n,
            p >= 0,
    ;
    assert((p * e) * t <= k * (n * p)) by (nonlinear_arith)
        requires
            e * t <= k * n,
            p >= 0,
    ;
    assert(g * t <= (d * f) * t + (p * e) * t) by (nonlinear_arith)
        requires
            g <= d * f + p * e,
            t >= 0,
    ;
    assert((k + 2) * (n * p) == k * (n * p) + 2 * (n * p)) by (nonlinear_arith);
}

proof fn lemma_scaled_bound(c: int, a: int, f: int)
    requires
        c >= 0,
        -f <= a <= f,
    ensures
        -(c * f) <= c * a <= c * f,
{
    assert(c * a <= c * f) by (nonlinear_arith)
        requires
            c >= 0,
            a <= f,
    ;
    assert(-(c * f) <= c * a) by (nonlinear_arith)
        requires
            c >= 0,
            -f <= a,
    ;
}

/// A number of twenty-four bits, scaled by a power of two, is not changed by rounding.
pub proof fn lemma_exact_scaled(m: nat, k: nat)
    requires
        m < 0x0100_0000,
    ensures
        units(nearest_bits(m * pow2(k), 1)) == m * pow2(k),
    decreases k,
{
    lemma2_to64();
    if k == 0 {
        assert(m * pow2(0) == m) by (nonlinear_arith)
            requires
                pow2(0) == 1,
        ;
        lemma_nearest_exact(m);
    } else if m >= 0x0080_0000 {
        lemma_units_binades(m, k);
        lemma_nearest_exact(k * 0x0080_0000 + m);
    } else {
        lemma_pow2_unfold(k);
        lemma_exact_scaled(2 * m, (k - 1) as nat);
        assert((2 * m) * pow2((k - 1) as nat) == m * (2 * pow2((k - 1) as nat)))
            by (nonlinear_arith);
    }
}

/// A fraction well within range rounds to a finite number near it.
pub proof fn lemma_rounded_near(n: nat, d: nat)
    requires
        d > 0,
        d * 0x0080_0000 <= n,
        n <= d * pow2(200),
    ensures
        near(rounded(n, d), n, d, 1),
        nearest_bits(n, d) < INFINITE,
        rounded(n, d) == units(nearest_bits(n, d)),
{
    lemma_nearest_error(n, d);
    lemma_nearest_order(n, d * pow2(200), d);
    lemma_nearest_scaled(pow2(200), 1, d);
    assert(pow2(200) * d == d * pow2(200) && 1 * d == d) by (nonlinear_arith);
    lemma_exact_scaled(1, 200);
    assert(1 * pow2(200) == pow2(200));
    lemma_units_binades(0x0080_0000, 254);
    lemma2_to64();
    lemma_pow2_adds(23, 254);
    lemma_pow2_strictly_increases(200, 277);
    lemma_units_order(nearest_bits(pow2(200), 1), INFINITE as nat);
}

/// Integers of twenty-four bits are numbers.
pub proof fn lemma_integer_exact(negative: bool, n: nat)
    requires
        n < 0x0100_0000,
    ensures
        integer(negative, n).finite(),
        integer(negative, n).negative() == negative,
        units(integer(negative, n).magnitude()) == n * unity(),
{
    lemma_exact_scaled(n, 149);
    lemma_exact_scaled(1, 200);
    lemma2_to64();
    lemma_pow2_adds(24, 149);
    lemma_pow2_strictly_increases(173, 277);
    lemma_units_binades(0x0080_0000, 254);
    lemma_pow2_adds(23, 254);
    assert(n * pow2(149) <= 0x0100_0000 * pow2(149)) by (nonlinear_arith)
        requires
            n <= 0x0100_0000,
    ;
    lemma_units_order(nearest_bits(n * pow2(149), 1), INFINITE as nat);
}

/// A product well within range is near the exact one.
proof fn lemma_mul_near(x: Binary32, y: Binary32)
    requires
        x.finite(),
        y.finite(),
        x.value() >= 0,
        y.value() >= 0,
        unity() * 0x0080_0000 <= x.value() * y.value() <= unity() * pow2(200),
    ensures
        x.mul(y).finite(),
        x.mul(y).value() >= 0,
        near(
            x.mul(y).value() as nat,
            (x.value() as nat) * (y.value() as nat),
            unity(),
            1,
        ),
{
    lemma_values();
    lemma_mul_value(x, y);
    let n = (x.value() as nat) * (y.value() as nat);
    lemma_rounded_near(n, unity());
    reveal(Binary32::spec_mul);
    assert(units(0) == 0);
    lemma_units_order(0, x.mul(y).magnitude());
    lemma_units_order(x.mul(y).magnitude(), nearest_bits(n, unity()));
    lemma_units_order(nearest_bits(n, unity()), x.mul(y).magnitude());
}

/// A quotient well within range is near the exact one.
proof fn lemma_div_near(x: Binary32, y: Binary32)
    requires
        x.finite(),
        y.finite(),
        x.value() >= 0,
        y.value() > 0,
        y.value() * 0x0080_0000 <= x.value() * unity() <= y.value() * pow2(200),
    ensures
        x.div(y).finite(),
        x.div(y).value() >= 0,
        near(x.div(y).value() as nat, (x.value() as nat) * unity(), y.value() as nat, 1),
{
    lemma_values();
    lemma_div_value(x, y);
    let n = (x.value() as nat) * unity();
    let d = y.value() as nat;
    lemma_rounded_near(n, d);
    assert(units(0) == 0);
    lemma_units_order(0, x.div(y).magnitude());
    lemma_units_order(x.div(y).magnitude(), nearest_bits(n, d));
    lemma_units_order(nearest_bits(n, d), x.div(y).magnitude());
}

/// A number near a byte has that byte as its nearest.
pub proof fn lemma_byte_near(x: Binary32, c: u8, n: nat, d: nat, k: nat)
    requires
        x.finite(),
        x.value() >= 0,
        d > 0,
        n == (c * unity()) * d,
        k <= 16,
        near(x.value() as nat, n, d, k),
    ensures
        nearest_byte(x) == c,
{
    lemma_values();
    reveal(Binary32::spec_round);
    let (v, u, t) = (x.value(), unity() as int, 0x0100_0000int);
    let target = c * u;
    assert(0 <= target <= 255 * u) by (nonlinear_arith)
        requires
            target == c * u,
            0 <= c <= 255,
            u > 0,
    ;
    assert(v * d - n == (v - target) * d) by (nonlinear_arith)
        requires
            n == target * d,
    ;
    let gap = absolute(v - target) as int;
    assert(distance(v as nat, n, d) == gap * d) by (nonlinear_arith)
        requires
            distance(v as nat, n, d) == absolute((v - target) * d),
            gap == absolute(v - target),
            d > 0,
    ;
    assert((gap * d) * t == (gap * t) * d) by (nonlinear_arith);
    assert(k * n == (k * target) * d) by (nonlinear_arith)
        requires
            n == target * d,
    ;
    assert(gap * t <= k * target) by (nonlinear_arith)
        requires
            (gap * t) * d <= (k * target) * d,
            d > 0,
    ;
    assert(k * target <= 16 * target <= 16 * (255 * u)) by (nonlinear_arith)
        requires
            k <= 16,
            0 <= target <= 255 * u,
            0 <= k,
    ;
    assert(2 * gap < u);
    let m = units(x.magnitude()) as int;
    assert(m == v || m == 0);
    assert(units(0) == 0);
    assert(m == v);
    assert(2 * m + u == c * (2 * u) + (2 * (v - target) + u)) by (nonlinear_arith)
        requires
            m == v,
            target == c * u,
    ;
    lemma_fundamental_div_mod_converse(2 * m + u, 2 * u, c as int, 2 * (v - target) + u);
    assert(x.whole_nearest() == c);
    lemma_integer_exact(x.negative(), c as nat);
    let r = x.round();
    assert(r == integer(x.negative(), c as nat));
    if x.negative() {
        lemma_units_order(0, x.magnitude());
        assert(v == 0);
        assert(c == 0) by (nonlinear_arith)
            requires
                2 * gap < u,
                gap == absolute(0 - c * u),
                u > 0,
        ;
    }
    lemma_fundamental_div_mod_converse(target, u, c as int, 0);
    let held = r.clamp(Binary32(ZERO), Binary32(CHANNEL_MAX));
    assert(held == r);
}

/// How some powers of two compare.
proof fn lemma_scales()
    ensures
        unity() >= 0x1_0000_0000_0000,
        pow2(200) >= unity() * 0x1_0000_0000_0000,
{
    lemma2_to64();
    lemma2_to64_rest();
    lemma_pow2_strictly_increases(48, 149);
    lemma_pow2_adds(48, 149);
    lemma_pow2_strictly_increases(197, 200);
    assert(pow2(48) * unity() == unity() * pow2(48)) by (nonlinear_arith);
}

/// What is near a target is not far below or above it.
proof fn lemma_near_bounds(x: nat, n: nat, d: nat, k: nat)
    requires
        near(x, n, d, k),
        k <= 0x0080_0000,
    ensures
        n <= 2 * (x * d),
        x * d <= 2 * n,
{
    let t: int = 0x0100_0000;
    let e = distance(x, n, d) as int;
    assert(2 * (e * t) <= n * t) by (nonlinear_arith)
        requires
            e * t <= k * n,
            2 * k <= t,
            n >= 0,
    ;
}

/// The fraction of a channel is near the exact one.
proof fn lemma_fraction_near(c: u8)
    requires
        c > 0,
    ensures
        fraction(c).finite(),
        0 < fraction(c).value() <= unity(),
        unity() <= 512 * fraction(c).value(),
        near(fraction(c).value() as nat, c as nat * unity(), 255, 1),
{
    lemma_values();
    lemma_scales();
    lemma_fraction(c, c);
    lemma_integer_exact(false, c as nat);
    let (u, x) = (unity(), integer(false, c as nat));
    let n = c as nat * u;
    lemma_div_value(x, Binary32(CHANNEL_MAX));
    lemma_nearest_scaled(n, 255, u);
    assert(u <= n <= 255 * u) by (nonlinear_arith)
        requires
            n == c * u,
            1 <= c <= 255,
    ;
    lemma_rounded_near(n, 255);
    lemma_near_bounds(fraction(c).value() as nat, n, 255, 1);
}

/// A channel with its alpha divided out and multiplied in again comes back.
pub proof fn lemma_unscaled_channel(c: u8, a: u8)
    requires
        c <= a,
        a > 0,
    ensures
        nearest_byte(
            fraction(c).div(fraction(a)).mul(fraction(a)).mul(Binary32(CHANNEL_MAX)),
        ) == c,
{
    lemma_values();
    lemma_scales();
    lemma_fraction_near(a);
    let (fc, fa, most) = (fraction(c), fraction(a), Binary32(CHANNEL_MAX));
    if c == 0 {
        lemma_zero_channel(fc.div(fa).mul(fa));
        lemma_zero_fraction(fa);
        lemma_zero_product(fc.div(fa), fa);
    } else {
        lemma_fraction_near(c);
        let (u, n) = (unity(), c as nat * unity());
        let (x, y) = (fc.value() as nat, fa.value() as nat);
        let p: nat = pow2(200);
        assert(y * 0x0080_0000 <= x * u <= y * p) by (nonlinear_arith)
            requires
                x <= u,
                y <= u,
                u <= 512 * x,
                u <= 512 * y,
                u >= 0x1_0000_0000_0000,
                p >= u * 0x1_0000_0000_0000,
        ;
        lemma_div_near(fc, fa);
        let q = fc.div(fa).value() as nat;
        lemma_near_bounds(q, x * u, y, 1);
        lemma_near_step(x, n, 255, 1, q, u, y);
        assert(u * 0x0080_0000 <= q * y <= u * p) by (nonlinear_arith)
            requires
                x * u <= 2 * (q * y),
                q * y <= 2 * (x * u),
                x <= u,
                u <= 512 * x,
                u >= 0x1_0000_0000_0000,
                p >= u * 0x1_0000_0000_0000,
        ;
        lemma_mul_near(fc.div(fa), fa);
        let r = fc.div(fa).mul(fa).value() as nat;
        lemma_near_bounds(r, q * y, u, 1);
        lemma_near_step(q, n * u, 255 * y, 3, r, y, u);
        let m: nat = 255 * u;
        assert(u * 0x0080_0000 <= r * m <= u * p) by (nonlinear_arith)
            requires
                m == 255 * u,
                x * u <= 2 * (q * y),
                q * y <= 2 * (x * u),
                q * y <= 2 * (r * u),
                r * u <= 2 * (q * y),
                x <= u,
                u <= 512 * x,
                u >= 0x1_0000_0000_0000,
                p >= u * 0x1_0000_0000_0000,
        ;
        lemma_mul_near(fc.div(fa).mul(fa), most);
        let z = fc.div(fa).mul(fa).mul(most).value() as nat;
        lemma_near_step(r, n * u * y, 255 * y * u, 5, z, m, u);
        let d = 255 * y * u * u;
        assert(n * u * y * m == n * d) by (nonlinear_arith)
            requires
                m == 255 * u,
                d == 255 * y * u * u,
        ;
        assert(d > 0) by (nonlinear_arith)
            requires
                d == 255 * y * u * u,
                y > 0,
                u > 0,
        ;
        lemma_byte_near(fc.div(fa).mul(fa).mul(most), c, n * d, d, 7);
    }
}

/// No channel has no fraction, over any alpha.
proof fn lemma_zero_fraction(a: Binary32)
    requires
        a.finite(),
        a.value() > 0,
    ensures
        fraction(0).finite(),
        fraction(0).value() == 0,
        fraction(0).div(a).finite(),
        fraction(0).div(a).value() == 0,
{
    lemma_values();
    lemma_integer_exact(false, 0);
    lemma_zero_quotient(integer(false, 0), Binary32(CHANNEL_MAX));
    lemma_zero_quotient(fraction(0), a);
}

/// Nothing of a channel gives the byte zero.
proof fn lemma_zero_channel(x: Binary32)
    ensures
        x.finite() && x.value() == 0 ==> nearest_byte(x.mul(Binary32(CHANNEL_MAX))) == 0,
{
    if x.finite() && x.value() == 0 {
        lemma_zero_product(x, Binary32(CHANNEL_MAX));
        assert((0 * unity()) * 1 == 0) by (nonlinear_arith);
        lemma_byte_near(x.mul(Binary32(CHANNEL_MAX)), 0, 0, 1, 1);
    }
}

/// The fraction of a channel scales back to the channel.
pub proof fn lemma_whole_channel(c: u8)
    ensures
        nearest_byte(fraction(c).mul(Binary32(CHANNEL_MAX))) == c,
{
    lemma_values();
    lemma_scales();
    let (x, most) = (fraction(c), Binary32(CHANNEL_MAX));
    if c == 0 {
        lemma_zero_fraction(most);
        lemma_zero_channel(x);
    } else {
        lemma_fraction_near(c);
        let (u, n, v) = (unity(), c as nat * unity(), x.value() as nat);
        let (m, p): (nat, nat) = (255 * unity(), pow2(200));
        assert(u * 0x0080_0000 <= v * m <= u * p) by (nonlinear_arith)
            requires
                m == 255 * u,
                v <= u,
                u <= 512 * v,
                u >= 0x1_0000_0000_0000,
                p >= u * 0x1_0000_0000_0000,
        ;
        lemma_mul_near(x, most);
        let z = x.mul(most).value() as nat;
        lemma_near_step(v, n, 255, 1, z, m, u);
        let d: nat = 255 * u;
        assert(n * m == n * d);
        lemma_byte_near(x.mul(most), c, n * d, d, 3);
    }
}

/// A channel that is premultiplied and then taken out of its alpha comes back.
pub proof fn lemma_rescaled_channel(c: u8, a: u8)
    requires
        a > 0,
    ensures
        nearest_byte(
            fraction(c).mul(fraction(a)).div(fraction(a)).clamp(
                Binary32(ZERO),
                Binary32(ONE),
            ).mul(Binary32(CHANNEL_MAX)),
        ) == c,
{
    lemma_values();
    lemma_scales();
    lemma_fraction_near(a);
    let (fc, fa, most) = (fraction(c), fraction(a), Binary32(CHANNEL_MAX));
    let quotient = fc.mul(fa).div(fa);
    let held = quotient.clamp(Binary32(ZERO), Binary32(ONE));
    if c == 0 {
        lemma_zero_fraction(fa);
        lemma_zero_product(fc, fa);
        lemma_zero_quotient(fc.mul(fa), fa);
        lemma_zero_channel(held);
    } else {
        lemma_fraction_near(c);
        let (u, n) = (unity(), c as nat * unity());
        let (x, y) = (fc.value() as nat, fa.value() as nat);
        let p: nat = pow2(200);
        assert(u * 0x0080_0000 <= x * y <= u * p) by (nonlinear_arith)
            requires
                x <= u,
                y <= u,
                u <= 512 * x,
                u <= 512 * y,
                u >= 0x1_0000_0000_0000,
                p >= u * 0x1_0000_0000_0000,
        ;
        lemma_mul_near(fc, fa);
        let q = fc.mul(fa).value() as nat;
        lemma_near_bounds(q, x * y, u, 1);
        lemma_near_step(x, n, 255, 1, q, y, u);
        assert(y * 0x0080_0000 <= q * u <= y * p) by (nonlinear_arith)
            requires
                x * y <= 2 * (q * u),
                q * u <= 2 * (x * y),
                x <= u,
                u <= 512 * x,
                y > 0,
                u >= 0x1_0000_0000_0000,
                p >= u * 0x1_0000_0000_0000,
        ;
        lemma_div_near(fc.mul(fa), fa);
        let r = quotient.value() as nat;
        lemma_near_bounds(r, q * u, y, 1);
        lemma_near_step(q, n * y, 255 * u, 3, r, u, y);
        // The quotient is near the exact fraction, and so is what it is held to.
        let e = 255 * u * y;
        assert(n * y * u == (c as nat * u) * (u * y)) by (nonlinear_arith)
            requires
                n == c * u,
        ;
        let h = held.value() as nat;
        assert(e > 0) by (nonlinear_arith)
            requires
                e == 255 * u * y,
                u > 0,
                y > 0,
        ;
        assert(near(h, n * y * u, e, 5)) by {
            if r > u {
                assert(h == u);
                assert(n * y * u <= u * e) by (nonlinear_arith)
                    requires
                        n * y * u == (c * u) * (u * y),
                        e == 255 * u * y,
                        0 <= c <= 255,
                        u > 0,
                        y > 0,
                ;
                lemma_held(u, r, n * y * u, e, 5);
            }
        }
        lemma_near_bounds(h, n * y * u, e, 5);
        let m: nat = 255 * u;
        assert(c * u <= 2 * (h * 255) && h * 255 <= 2 * (c * u)) by (nonlinear_arith)
            requires
                n * y * u == (c * u) * (u * y),
                e == 255 * u * y,
                n * y * u <= 2 * (h * e),
                h * e <= 2 * (n * y * u),
                u > 0,
                y > 0,
        ;
        assert(u * 0x0080_0000 <= h * m <= u * p) by (nonlinear_arith)
            requires
                m == 255 * u,
                c * u <= 2 * (h * 255),
                h * 255 <= 2 * (c * u),
                1 <= c <= 255,
                u >= 0x1_0000_0000_0000,
                p >= u * 0x1_0000_0000_0000,
        ;
        lemma_mul_near(held, most);
        let z = held.mul(most).value() as nat;
        lemma_near_step(h, n * y * u, e, 5, z, m, u);
        let d = e * u;
        assert(n * y * u * m == n * d) by (nonlinear_arith)
            requires
                m == 255 * u,
                e == 255 * u * y,
                d == e * u,
        ;
        assert(d > 0) by (nonlinear_arith)
            requires
                d == e * u,
                e > 0,
                u > 0,
        ;
        lemma_byte_near(held.mul(most), c, n * d, d, 7);
    }
}

/// A bound that lies between a target and what is near it is near too.
proof fn lemma_held(bound: nat, x: nat, n: nat, d: nat, k: nat)
    requires
        near(x, n, d, k),
        bound <= x,
        n <= bound * d,
    ensures
        near(bound, n, d, k),
{
    assert(bound * d <= x * d) by (nonlinear_arith)
        requires
            bound <= x,
    ;
    assert(distance(bound, n, d) * 0x0100_0000 <= distance(x, n, d) * 0x0100_0000);
}

/// A straight channel that is put back into its alpha, taken out again and put back once
/// more still comes back.
pub proof fn lemma_unscaled_twice(c: u8, a: u8, scaled: Binary32, held: Binary32)
    requires
        c <= a,
        a > 0,
        scaled.finite(),
        scaled.value() == fraction(a).mul(fraction(c).div(fraction(a))).value(),
        held == scaled.div(fraction(a)).clamp(Binary32(ZERO), Binary32(ONE)),
    ensures
        nearest_byte(held.mul(fraction(a)).mul(Binary32(CHANNEL_MAX))) == c,
{
    lemma_values();
    lemma_scales();
    lemma_fraction_near(a);
    let (fc, fa, most) = (fraction(c), fraction(a), Binary32(CHANNEL_MAX));
    let straight = fc.div(fa);
    let quotient = scaled.div(fa);
    if c == 0 {
        lemma_zero_fraction(fa);
        products_commute(fa, straight);
        lemma_zero_product(straight, fa);
        lemma_zero_quotient(scaled, fa);
        lemma_zero_product(held, fa);
        lemma_zero_channel(held.mul(fa));
    } else {
        lemma_fraction_near(c);
        let (u, n) = (unity(), c as nat * unity());
        let (x, y) = (fc.value() as nat, fa.value() as nat);
        let p: nat = pow2(200);
        assert(y * 0x0080_0000 <= x * u <= y * p) by (nonlinear_arith)
            requires
                x <= u,
                y <= u,
                u <= 512 * x,
                u <= 512 * y,
                u >= 0x1_0000_0000_0000,
                p >= u * 0x1_0000_0000_0000,
        ;
        lemma_div_near(fc, fa);
        let q = straight.value() as nat;
        lemma_near_bounds(q, x * u, y, 1);
        lemma_near_step(x, n, 255, 1, q, u, y);
        // The target, c / a, as a fraction of u.
        let (t, d) = (n * u, 255 * y);
        assert(y * q == q * y) by (nonlinear_arith);
        assert(u * 0x0080_0000 <= q * y <= u * p) by (nonlinear_arith)
            requires
                x * u <= 2 * (q * y),
                q * y <= 2 * (x * u),
                x <= u,
                u <= 512 * x,
                u >= 0x1_0000_0000_0000,
                p >= u * 0x1_0000_0000_0000,
        ;
        products_commute(fa, straight);
        lemma_mul_near(straight, fa);
        let r = scaled.value() as nat;
        lemma_near_bounds(r, q * y, u, 1);
        lemma_near_step(q, t, d, 3, r, y, u);
        assert(y * 0x0080_0000 <= r * u <= y * p) by (nonlinear_arith)
            requires
                x * u <= 2 * (q * y),
                q * y <= 2 * (x * u),
                q * y <= 2 * (r * u),
                r * u <= 2 * (q * y),
                x <= u,
                y <= u,
                u <= 512 * x,
                u <= 512 * y,
                u >= 0x1_0000_0000_0000,
                p >= u * 0x1_0000_0000_0000,
        ;
        lemma_div_near(scaled, fa);
        let z = quotient.value() as nat;
        lemma_near_step(r, t * y, d * u, 5, z, u, y);
        let (t2, d2) = (t * y * u, d * u * y);
        let h = held.value() as nat;
        // A channel that is not above its alpha has a target that is not above one.
        assert(near(h, t2, d2, 7)) by {
            if z > u {
                lemma_target(c, a, x, y, z);
            }
        }
        lemma_near_bounds(h, t2, d2, 7);
        assert(t2 == (n * u) * (y * u) && d2 == (255 * y) * (y * u)) by (nonlinear_arith)
            requires
                t2 == n * u * y * u,
                d2 == 255 * y * u * y,
        ;
        assert(y * u > 0) by (nonlinear_arith)
            requires
                y > 0,
                u > 0,
        ;
        assert(n * u <= 2 * (h * (255 * y)) && h * (255 * y) <= 2 * (n * u)) by (nonlinear_arith)
            requires
                t2 == (n * u) * (y * u),
                d2 == (255 * y) * (y * u),
                t2 <= 2 * (h * d2),
                h * d2 <= 2 * t2,
                y * u > 0,
        ;
        assert(u * 0x0080_0000 <= h * y <= u * p) by (nonlinear_arith)
            requires
                n * u <= 2 * (h * (255 * y)),
                h * (255 * y) <= 2 * (n * u),
                n == c * u,
                1 <= c <= 255,
                u >= 0x1_0000_0000_0000,
                p >= u * 0x1_0000_0000_0000,
        ;
        lemma_mul_near(held, fa);
        let w = held.mul(fa).value() as nat;
        lemma_near_bounds(w, h * y, u, 1);
        lemma_near_step(h, t2, d2, 7, w, y, u);
        let m: nat = 255 * u;
        assert(u * 0x0080_0000 <= w * m <= u * p) by (nonlinear_arith)
            requires
                m == 255 * u,
                h * y <= 2 * (w * u),
                w * u <= 2 * (h * y),
                n * u <= 2 * (h * (255 * y)),
                h * (255 * y) <= 2 * (n * u),
                n == c * u,
                1 <= c <= 255,
                u >= 0x1_0000_0000_0000,
                p >= u * 0x1_0000_0000_0000,
        ;
        lemma_mul_near(held.mul(fa), most);
        let v = held.mul(fa).mul(most).value() as nat;
        lemma_near_step(w, t2 * y, d2 * u, 9, v, m, u);
        let e = d2 * u * u;
        assert(t2 * y * m == n * e) by (nonlinear_arith)
            requires
                t2 == (n * u) * (y * u),
                d2 == (255 * y) * (y * u),
                m == 255 * u,
                e == d2 * u * u,
        ;
        assert(e > 0) by (nonlinear_arith)
            requires
                d2 == (255 * y) * (y * u),
                e == d2 * u * u,
                y > 0,
                u > 0,
        ;
        lemma_byte_near(held.mul(fa).mul(most), c, n * e, e, 11);
    }
}

/// A quotient above one, of a channel that is not above its alpha, is near one.
proof fn lemma_target(c: u8, a: u8, x: nat, y: nat, z: nat)
    requires
        0 < c <= a,
        x == fraction(c).value(),
        y == fraction(a).value(),
        z > unity(),
        near(
            z,
            c as nat * unity() * unity() * y * unity(),
            255 * y * unity() * y,
            7,
        ),
    ensures
        near(
            unity(),
            c as nat * unity() * unity() * y * unity(),
            255 * y * unity() * y,
            7,
        ),
{
    lemma_values();
    lemma_scales();
    lemma_fraction_near(a);
    let u = unity();
    let n = c as nat * u * u * y * u;
    let d: nat = 255 * y * u * y;
    // The alpha may lie below its exact value by a part in 2^24, and the target above one
    // by as much.
    let e = distance(y, a as nat * u, 255) as int;
    assert(c * u <= a * u <= 255 * y + e) by (nonlinear_arith)
        requires
            0 <= c <= a,
            u > 0,
            e >= a * u - y * 255,
    ;
    assert(e * 0x0100_0000 <= a * u);
    assert(a * u <= 2 * (255 * y)) by {
        lemma_near_bounds(y, a as nat * u, 255, 1);
    }
    let f = u * u * y;
    assert(n == (c * u) * f) by (nonlinear_arith)
        requires
            n == c * u * u * y * u,
            f == u * u * y,
    ;
    assert(u * d == (255 * y) * f) by (nonlinear_arith)
        requires
            d == 255 * y * u * y,
            f == u * u * y,
    ;
    assert(f > 0) by (nonlinear_arith)
        requires
            f == u * u * y,
            u > 0,
            y > 0,
    ;
    if n <= u * d {
        lemma_held(u, z, n, d, 7);
    } else {
        let g: int = n - u * d;
        assert(g <= e * f) by (nonlinear_arith)
            requires
                g == (c * u) * f - (255 * y) * f,
                c * u <= 255 * y + e,
                f > 0,
        ;
        assert(g * 0x0100_0000 <= 7 * n) by (nonlinear_arith)
            requires
                g <= e * f,
                e * 0x0100_0000 <= 2 * (255 * y),
                (255 * y) * f < n,
                f > 0,
        ;
    }
}

/// A magnitude past the precision of the format is a whole number; one below it is not
/// above twenty-three bits.
proof fn lemma_whole_magnitude(a: nat)
    ensures
        a >= 0x4b00_0000 ==> units(a) % unity() == 0,
        a < 0x4b00_0000 ==> units(a) < 0x0080_0000 * unity(),
{
    lemma_values();
    if a >= 0x4b00_0000 {
        let k = (a / 0x0080_0000 - 1) as nat;
        let m = (a - k * 0x0080_0000) as nat;
        lemma_fundamental_div_mod(a as int, 0x0080_0000);
        assert(0x0080_0000 <= m < 0x0100_0000);
        lemma_units_binades(m, k);
        let c = pow2((k - 149) as nat);
        lemma_pow2_adds((k - 149) as nat, 149);
        assert(m * (c * unity()) == (m * c) * unity()) by (nonlinear_arith);
        lemma_fundamental_div_mod_converse(
            (m * pow2(k)) as int,
            unity() as int,
            (m * c) as int,
            0,
        );
    } else {
        lemma_units_binades(0x0080_0000, 149);
        lemma_units_order(a, 0x4b00_0000);
    }
}

/// An integer that is the whole part of a number, or the one after it, is a number.
proof fn lemma_whole_exact(x: Binary32, negative: bool)
    requires
        x.finite(),
    ensures
        integer(negative, x.whole()).finite(),
        integer(negative, x.whole_above()).finite(),
        integer(negative, x.whole()).negative() == negative,
        integer(negative, x.whole_above()).negative() == negative,
        units(integer(negative, x.whole()).magnitude()) == x.whole() * unity(),
        units(integer(negative, x.whole_above()).magnitude()) == x.whole_above() * unity(),
{
    lemma_values();
    let (v, u) = (units(x.magnitude()), unity());
    lemma_whole_magnitude(x.magnitude());
    lemma_fundamental_div_mod(v as int, u as int);
    if x.magnitude() >= 0x4b00_0000 {
        assert(x.whole() * u == v) by (nonlinear_arith)
            requires
                v == u * x.whole() + 0,
        ;
        lemma_nearest_exact(x.magnitude());
    } else {
        assert(x.whole() < 0x0080_0000) by (nonlinear_arith)
            requires
                v < 0x0080_0000 * u,
                u * x.whole() <= v,
                u > 0,
        ;
        lemma_integer_exact(negative, x.whole());
        lemma_integer_exact(negative, x.whole_above());
    }
}

/// The floor of a number is the greatest integer that is not above it, exactly.
pub proof fn lemma_floor_value(x: Binary32)
    requires
        x.finite(),
    ensures
        x.floor().finite(),
        x.floor().value() == (x.value() / unity() as int) * unity(),
{
    reveal(Binary32::spec_floor);
    lemma_values();
    lemma_whole_exact(x, x.negative());
    let (v, u) = (units(x.magnitude()) as int, unity() as int);
    lemma_fundamental_div_mod(v, u);
    if x.negative() {
        let w = x.whole_above() as int;
        if v % u == 0 {
            assert(-v == (-w) * u + 0) by (nonlinear_arith)
                requires
                    v == u * w,
            ;
            lemma_fundamental_div_mod_converse(-v, u, -w, 0);
        } else {
            assert(-v == (-w) * u + (u - v % u)) by (nonlinear_arith)
                requires
                    v == u * (w - 1) + v % u,
            ;
            lemma_fundamental_div_mod_converse(-v, u, -w, u - v % u);
        }
        assert(-(w * u) == (-w) * u) by (nonlinear_arith);
    }
}

/// The ceiling of a number is the least integer that is not below it, exactly.
pub proof fn lemma_ceil_value(x: Binary32)
    requires
        x.finite(),
    ensures
        x.ceil().finite(),
        x.ceil().value() == -(((-x.value()) / unity() as int) * unity()),
{
    reveal(Binary32::spec_ceil);
    reveal(Binary32::spec_floor);
    lemma_values();
    lemma_whole_exact(x, x.negative());
    lemma_floor_value(x.neg());
    lemma_whole_exact(x.neg(), !x.negative());
}

/// The rounded value of an integer up to one or two stays there.
proof fn lemma_rounded_within(n: nat, most: Binary32)
    requires
        most.finite(),
        n <= units(most.magnitude()),
    ensures
        rounded(n, 1) <= units(most.magnitude()),
{
    lemma_rounded_order(n, 1, units(most.magnitude()), 1);
    lemma_rounded_exact(most);
}

/// The difference of two numbers, where it lies between zero and another number.
pub proof fn lemma_difference_within(x: Binary32, y: Binary32, most: Binary32)
    requires
        x.finite(),
        y.finite(),
        most.finite(),
        0 <= x.value() - y.value() <= most.value(),
    ensures
        x.sub(y).finite(),
        0 <= x.sub(y).value() <= most.value(),
        x.value() - y.value() == most.value() ==> x.sub(y).value() == most.value(),
{
    lemma_add_value(x, y.neg());
    let s = (x.value() - y.value()) as nat;
    assert(y.neg().value() == -y.value());
    lemma_values();
    assert(units(0) == 0);
    lemma_units_order(0, most.magnitude());
    lemma_rounded_within(s, most);
    lemma_rounded_exact(most);
    lemma_finite_between(Binary32(ZERO), x.sub(y), most);
}

/// The values of one half and of two.
pub proof fn lemma_half_and_two()
    ensures
        2 * Binary32(HALF).value() == unity(),
        Binary32(TWO).value() == 2 * unity(),
{
    lemma2_to64();
    lemma_values();
    lemma_units_binades(0x0080_0000, 125);
    lemma_pow2_adds(23, 125);
    lemma_pow2_unfold(149);
    lemma_units_binades(0x0080_0000, 127);
    lemma_pow2_adds(23, 127);
    lemma_pow2_unfold(150);
}

/// Half of a number: exact, but for an odd count of the smallest units.
proof fn lemma_half_value(x: Binary32)
    requires
        x.finite(),
    ensures
        x.mul(Binary32(HALF)).finite(),
        units(x.magnitude()) % 2 == 0 ==> 2 * x.mul(Binary32(HALF)).value() == x.value(),
        units(x.magnitude()) % 2 == 1 ==> {
            let h = x.mul(Binary32(HALF)).value();
            &&& units(x.magnitude()) < 0x0100_0000
            &&& x.value() > 0 ==> 0 <= h <= x.value()
            &&& x.value() < -1 ==> x.value() <= h < 0
        },
{
    lemma_values();
    lemma_half_and_two();
    let h = x.mul(Binary32(HALF));
    let half = (Binary32(HALF).value()) as nat;
    lemma_mul_value(x, Binary32(HALF));
    let m = x.magnitude();
    let n = units(m);
    // The product, in units, is a half of the number.
    lemma_nearest_scaled(n, 2, half);
    assert(2 * half == unity());
    assert(rounded(n * half, unity()) == rounded(n, 2));
    assert(x.value() < 0 ==> x.value() * half < 0) by (nonlinear_arith)
        requires
            half > 0,
    ;
    assert(x.value() >= 0 ==> x.value() * half >= 0) by (nonlinear_arith)
        requires
            half > 0,
    ;
    if m >= 0x0100_0000 {
        let k = (m - 0x0080_0000) as nat;
        lemma_nearest_scaled(units(k), 1, 2);
        lemma_nearest_exact(k);
        assert(rounded(n, 2) == units(k));
    } else if n % 2 == 0 {
        let k = n / 2;
        lemma_nearest_scaled(k, 1, 2);
        lemma_nearest_exact(k);
        assert(rounded(n, 2) == k);
    } else {
        lemma_fundamental_div_mod_converse(n as int, 2, (n / 2) as int, 1);
        let q = nearest_even(n, 2);
        assert(n >= 3 ==> 1 <= q <= n);
        assert(0 <= q <= n);
        assert(nearest_bits(n, 2) == q);
    }
    lemma_units_order(rounded(n, 2), n);
    lemma_half_finite(h, x);
}

proof fn lemma_half_finite(h: Binary32, x: Binary32)
    requires
        x.finite(),
        !h.nan(),
        absolute(h.value()) <= absolute(x.value()),
    ensures
        h.finite(),
{
    assert(units(0) == 0);
    lemma_units_order(0, h.magnitude());
    lemma_units_order(0, x.magnitude());
    lemma_units_order(x.magnitude(), h.magnitude());
}

/// Twice a whole number is exact.
proof fn lemma_twice_value(x: Binary32, bound: Binary32)
    requires
        x.finite(),
        bound.finite(),
        x.value() == 0 || absolute(x.value()) >= unity(),
        2 * absolute(x.value()) <= absolute(bound.value()) || absolute(x.value()) <= 0x0100_0000
            * unity(),
    ensures
        Binary32(TWO).mul(x).finite(),
        Binary32(TWO).mul(x).value() == 2 * x.value(),
{
    lemma_values();
    lemma_half_and_two();
    lemma_mul_value(Binary32(TWO), x);
    let (u, v) = (unity(), absolute(x.value()));
    let m = x.magnitude();
    assert(units(0) == 0);
    lemma_units_order(0, m);
    assert((2 * u) * v == (2 * v) * u) by (nonlinear_arith);
    lemma_nearest_scaled(2 * v, 1, u);
    assert(rounded((2 * u) * v, u) == rounded(2 * v, 1));
    let y = Binary32(TWO).mul(x);
    if v == 0 {
        lemma_rounded_zero(1);
    } else {
        lemma_scales();
        lemma_units_order(m, 0x0080_0000);
        let k: nat = m + 0x0080_0000;
        assert(units(k) == 2 * v);
        lemma_nearest_exact(k);
        if 2 * v <= absolute(bound.value()) {
            lemma_units_order(bound.magnitude(), k);
        } else {
            lemma_integer_exact(false, 0x00ff_ffff);
            lemma2_to64();
            lemma_pow2_adds(25, 149);
            lemma_pow2_strictly_increases(174, 277);
            lemma_units_binades(0x0080_0000, 254);
            lemma_pow2_adds(23, 254);
            lemma_units_order(k, INFINITE as nat);
        }
        assert(k < INFINITE);
    }
    assert(2 * u * x.value() >= 0 <==> x.value() >= 0) by (nonlinear_arith)
        requires
            u > 0,
    ;
    assert(y.value() == 2 * x.value());
    lemma_units_order(y.magnitude(), (m + 0x0080_0000) as nat);
    lemma_units_order(INFINITE as nat, y.magnitude());
}

/// What is left of a number over twice the floor of its half is its remainder by two. The
/// one number that this fails for is the greatest negative one, whose half rounds
/// to zero.
pub proof fn lemma_fold_value(t: Binary32)
    requires
        t.finite(),
        t.value() != -1,
    ensures
        ({
            let low = Binary32(TWO).mul(t.mul(Binary32(HALF)).floor());
            &&& low.finite()
            &&& t.value() - low.value() == t.value() % (2 * unity()) as int
        }),
{
    lemma_values();
    lemma_half_and_two();
    lemma_half_value(t);
    let h = t.mul(Binary32(HALF));
    lemma_floor_value(h);
    let (v, u, hv) = (t.value(), unity() as int, h.value());
    let q = hv / u;
    let g = q * u;
    lemma_fundamental_div_mod(hv, u);
    assert(u * q == q * u) by (nonlinear_arith);
    assert(q == 0 || g >= u || g <= -u) by (nonlinear_arith)
        requires
            g == q * u,
            u > 0,
    ;
    let n = units(t.magnitude()) as int;
    lemma_scales();
    if n % 2 == 0 {
        if absolute(g) > 0x0100_0000 * u {
            // The half is past the precision of the format, and so a whole number.
            lemma_whole_magnitude(h.magnitude());
            assert(g == hv) by {
                let w = units(h.magnitude()) as int;
                assert(w >= 0x0080_0000 * u);
                assert(h.magnitude() >= 0x4b00_0000);
                lemma_fundamental_div_mod(w, u);
                let c = w / u;
                if hv < 0 {
                    assert(hv == (-c) * u + 0) by (nonlinear_arith)
                        requires
                            w == u * c,
                            hv == -w,
                    ;
                    lemma_fundamental_div_mod_converse(hv, u, -c, 0);
                }
            }
        }
        lemma_twice_value(h.floor(), t);
        // The half is exact, and so are twice its whole part and what is left.
        assert(v == q * (2 * u) + 2 * (hv % u)) by (nonlinear_arith)
            requires
                v == 2 * hv,
                hv == u * q + hv % u,
        ;
        lemma_fundamental_div_mod_converse(v, 2 * u, q, 2 * (hv % u));
    } else {
        if v > 0 {
            lemma_fundamental_div_mod_converse(hv, u, 0, hv);
            lemma_fundamental_div_mod_converse(v, 2 * u, 0, v);
        } else {
            assert(units(0) == 0);
            lemma_fundamental_div_mod_converse(hv, u, -1, hv + u);
            lemma_fundamental_div_mod_converse(v, 2 * u, -1, v + 2 * u);
        }
        lemma_twice_value(h.floor(), t);
    }
}

} // verus!
