//! The arithmetic against exact real numbers.
use crate::accuracy::{
    distance, lemma_ceil_value, lemma_floor_value, lemma_half_and_two, lemma_nearest_error,
};
use crate::binary32::{
    absolute, nearest_bits, nearest_even, signed, units, unity, Binary32, INFINITE,
};
use crate::bounds::{fractional, lemma_bounded, lemma_rounded_bound};
use crate::consts::{ONE, TWO, ZERO};
use crate::order::{lemma_add_value, lemma_mul_value, lemma_rounded_zero, lemma_values, rounded};
use crate::rounding::{lemma_units_binades, lemma_units_order};
use vstd::arithmetic::div_mod::lemma_fundamental_div_mod;
use vstd::arithmetic::power2::{
    lemma2_to64, lemma2_to64_rest, lemma_pow2_adds, lemma_pow2_strictly_increases, pow2,
};
use vstd::prelude::*;

verus! {

/// The real number that a finite number is.
pub open spec fn number(x: Binary32) -> real {
    x.value() as real / unity() as real
}

/// The absolute value of a real number.
pub open spec fn size(r: real) -> real {
    if r < 0real {
        -r
    } else {
        r
    }
}

/// Whether a number is finite and not larger than a bound.
pub open spec fn within(x: Binary32, bound: real) -> bool {
    x.finite() && size(number(x)) <= bound
}

/// The part of a result that rounding may take away or add: one in `2^24`.
pub open spec fn part() -> real {
    1real / 16777216real
}

/// Half of the smallest positive number, which rounding may take away or add where results
/// are next to nothing.
pub open spec fn speck() -> real {
    1real / (2real * unity() as real)
}

/// What the sizes of numbers are held to here, so that no result is out of range.
pub open spec fn limit() -> real {
    pow2(100) as real
}

/// How far a rounded fraction in range is from the exact one.
pub proof fn lemma_rounded_error(n: nat, d: nat)
    requires
        d > 0,
        rounded(n, d) < units(INFINITE as nat),
    ensures
        distance(rounded(n, d), n, d) * 0x0100_0000 <= n + d * 0x0080_0000,
        d == 1 ==> distance(rounded(n, d), n, d) * 0x0100_0000 <= n,
        n >= d * 0x0080_0000 ==> distance(rounded(n, d), n, d) * 0x0100_0000 <= n,
{
    lemma_units_order(
        signed(false, nearest_bits(n, d)).magnitude(),
        INFINITE as nat,
    );
    assert(rounded(n, d) == units(nearest_bits(n, d)));
    if n >= d * 0x0080_0000 {
        lemma_nearest_error(n, d);
    } else {
        assert(n < d * 0x0100_0000) by (nonlinear_arith)
            requires
                n < d * 0x0080_0000,
                d > 0,
        ;
        let (q, r) = (n / d, n % d);
        lemma_fundamental_div_mod(n as int, d as int);
        let k = nearest_even(n, d);
        assert(q < 0x0080_0000) by (nonlinear_arith)
            requires
                n == d * q + r,
                n < d * 0x0080_0000,
                d > 0,
                r >= 0,
        ;
        assert(units(k) == k);
        assert(d * q == q * d && (q + 1) * d == q * d + d) by (nonlinear_arith);
        if d == 1 {
            assert(q == n && r == 0);
            assert(k == n);
        }
    }
}

/// Half a unit, and what a number counts in units.
pub proof fn lemma_scale(x: Binary32)
    ensures
        unity() as real > 0real,
        number(x) * (unity() as real) == x.value() as real,
        speck() * (unity() as real) == 1real / 2real,
        speck() > 0real,
{
    lemma_values();
    let (u, v) = (unity() as real, x.value() as real);
    assert(u > 0real);
    assert((v / u) * u == v) by (nonlinear_arith)
        requires
            u > 0real,
    ;
    assert((1real / (2real * u)) * u == 1real / 2real) by (nonlinear_arith)
        requires
            u > 0real,
    ;
    assert(1real / (2real * u) > 0real) by (nonlinear_arith)
        requires
            u > 0real,
    ;
}

/// A number within the limit, in units.
proof fn lemma_limit(n: int)
    requires
        size(n as real) <= limit() * (unity() as real),
    ensures
        absolute(n) <= pow2(100) * unity(),
{
    let (p, u) = (pow2(100) as int, unity() as int);
    assert((p * u) as real == p as real * u as real) by (nonlinear_arith);
    assert(size(n as real) == absolute(n) as int as real);
}

/// A finite number is less than infinity.
proof fn lemma_below_infinity(x: Binary32)
    requires
        x.finite(),
    ensures
        absolute(x.value()) < units(INFINITE as nat),
{
    lemma_units_order(x.magnitude(), INFINITE as nat);
}

/// A finite number is not larger than `2^128`.
pub proof fn lemma_range(x: Binary32)
    requires
        x.finite(),
    ensures
        size(number(x)) <= pow2(128) as int as real,
{
    lemma_below_infinity(x);
    lemma_values();
    lemma_scale(x);
    lemma2_to64();
    lemma_units_binades(0x0080_0000, 254);
    lemma_pow2_adds(23, 254);
    lemma_pow2_adds(149, 128);
    let (u, p) = (unity() as int, pow2(128) as int);
    let (n, ur, pr) = (number(x), u as real, p as real);
    assert((u * p) as real == ur * pr) by (nonlinear_arith)
        requires
            ur == u as real,
            pr == p as real,
    ;
    lemma_size_scaled(n, ur);
    assert(size(x.value() as real) == absolute(x.value()) as int as real);
    let s = size(n);
    assert(s <= pr) by (nonlinear_arith)
        requires
            s * ur <= ur * pr,
            ur > 0real,
    ;
}

/// The terms of a sum or a difference in range are finite.
pub proof fn lemma_finite_terms(x: Binary32, y: Binary32)
    ensures
        x.add(y).finite() ==> x.finite() && y.finite(),
        x.sub(y).finite() ==> x.finite() && y.finite(),
{
    reveal(Binary32::spec_add);
}

/// The factors of a product in range are finite.
pub proof fn lemma_finite_factors(x: Binary32, y: Binary32)
    ensures
        x.mul(y).finite() ==> x.finite() && y.finite(),
{
    reveal(Binary32::spec_mul);
}

/// The dividend of a quotient in range is finite.
pub proof fn lemma_finite_dividend(x: Binary32, y: Binary32)
    ensures
        x.div(y).finite() ==> x.finite(),
{
    reveal(Binary32::spec_div);
}

/// A sum in range is near the exact one.
pub proof fn lemma_finite_sum(x: Binary32, y: Binary32)
    requires
        x.finite(),
        y.finite(),
        x.add(y).finite(),
    ensures
        size(number(x.add(y)) - (number(x) + number(y))) <= part() * size(number(x) + number(y)),
{
    lemma_values();
    lemma_scale(x);
    lemma_scale(y);
    lemma_scale(x.add(y));
    lemma_add_value(x, y);
    let n = x.value() + y.value();
    let u = unity() as real;
    let (a, b, c) = (number(x), number(y), number(x.add(y)));
    assert((a + b) * u == n as real) by (nonlinear_arith)
        requires
            a * u == x.value() as real,
            b * u == y.value() as real,
            n as real == x.value() as real + y.value() as real,
    ;
    lemma_size_scaled(a + b, u);
    let m = absolute(n);
    lemma_below_infinity(x.add(y));
    lemma_rounded_error(m, 1);
    let e = x.add(y).value() - n;
    assert(absolute(e) == distance(rounded(m, 1), m, 1));
    assert((c - (a + b)) * u == e as real) by (nonlinear_arith)
        requires
            c * u == x.add(y).value() as real,
            (a + b) * u == n as real,
            e as real == x.add(y).value() as real - n as real,
    ;
    lemma_size_scaled(c - (a + b), u);
    let (s, t) = (size(c - (a + b)), size(a + b));
    assert(s * u * 16777216real <= t * u);
    assert(s <= (1real / 16777216real) * t) by (nonlinear_arith)
        requires
            s * u * 16777216real <= t * u,
            u > 0real,
    ;
}

/// A sum is near the exact one.
pub proof fn lemma_sum(x: Binary32, y: Binary32)
    requires
        x.finite(),
        y.finite(),
        size(number(x) + number(y)) <= limit(),
    ensures
        x.add(y).finite(),
        size(number(x.add(y)) - (number(x) + number(y))) <= part() * size(number(x) + number(y)),
{
    lemma_values();
    lemma_scale(x);
    lemma_scale(y);
    lemma_add_value(x, y);
    let n = x.value() + y.value();
    let u = unity() as real;
    let (a, b) = (number(x), number(y));
    assert((a + b) * u == n as real) by (nonlinear_arith)
        requires
            a * u == x.value() as real,
            b * u == y.value() as real,
            n as real == x.value() as real + y.value() as real,
    ;
    lemma_size_scaled(a + b, u);
    assert(size(a + b) * u <= limit() * u) by (nonlinear_arith)
        requires
            size(a + b) <= limit(),
            u > 0real,
    ;
    lemma_limit(n);
    let m = absolute(n);
    assert(m <= (pow2(100) * unity()) * 1);
    lemma_rounded_bound(m, 1, 100);
    lemma_bounded(x.add(y), 100);
    lemma_finite_sum(x, y);
}

/// The size of a number in units.
proof fn lemma_size_scaled(r: real, u: real)
    requires
        u > 0real,
    ensures
        size(r * u) == size(r) * u,
{
    assert(r < 0real ==> r * u < 0real) by (nonlinear_arith)
        requires
            u > 0real,
    ;
    assert(r >= 0real ==> r * u >= 0real) by (nonlinear_arith)
        requires
            u > 0real,
    ;
    assert((-r) * u == -(r * u)) by (nonlinear_arith);
}

/// A difference is near the exact one.
pub proof fn lemma_subtraction(x: Binary32, y: Binary32)
    requires
        x.finite(),
        y.finite(),
        size(number(x) - number(y)) <= limit(),
    ensures
        x.sub(y).finite(),
        size(number(x.sub(y)) - (number(x) - number(y))) <= part() * size(number(x) - number(y)),
{
    lemma_negated(y);
    lemma_sum(x, y.neg());
}

/// A difference in range is near the exact one.
pub proof fn lemma_finite_difference(x: Binary32, y: Binary32)
    requires
        x.finite(),
        y.finite(),
        x.sub(y).finite(),
    ensures
        size(number(x.sub(y)) - (number(x) - number(y))) <= part() * size(number(x) - number(y)),
{
    lemma_negated(y);
    lemma_finite_sum(x, y.neg());
}

/// The opposite of a number.
pub proof fn lemma_negated(y: Binary32)
    requires
        y.finite(),
    ensures
        y.neg().finite(),
        number(y.neg()) == -number(y),
{
    lemma_scale(y);
    let (v, u) = (y.value() as real, unity() as real);
    assert(y.neg().value() == -y.value());
    assert((-v) / u == -(v / u)) by (nonlinear_arith)
        requires
            u > 0real,
    ;
}

/// A product in range is near the exact one.
pub proof fn lemma_finite_product(x: Binary32, y: Binary32)
    requires
        x.finite(),
        y.finite(),
        x.mul(y).finite(),
    ensures
        size(number(x.mul(y)) - number(x) * number(y)) <= part() * size(number(x) * number(y))
            + speck(),
{
    lemma_values();
    lemma_scale(x);
    lemma_scale(y);
    lemma_scale(x.mul(y));
    lemma_mul_value(x, y);
    let (v, w, k) = (x.value(), y.value(), unity() as int);
    let n = v * w;
    let u = unity() as real;
    let (a, b, c) = (number(x), number(y), number(x.mul(y)));
    let m = absolute(n);
    lemma_absolute_product(v, w);
    lemma_product_units(x, y);
    lemma_size_scaled(a * b, u * u);
    assert(size(n as real) == m as int as real);
    lemma_below_infinity(x.mul(y));
    lemma_rounded_error(m, unity());
    let r = x.mul(y).value();
    let e = r * k - n;
    let z = rounded(m, unity()) as int;
    assert((-z) * k == -(z * k)) by (nonlinear_arith);
    assert(absolute(e) == distance(rounded(m, unity()), m, unity()));
    assert((c - a * b) * (u * u) == e as real) by (nonlinear_arith)
        requires
            c * u == r as real,
            (a * b) * (u * u) == n as real,
            e == r * k - n,
            u == k as real,
    ;
    lemma_size_scaled(c - a * b, u * u);
    let (s, t, g) = (size(c - a * b), size(a * b), speck());
    assert(size(e as real) == absolute(e) as int as real);
    assert((s * (u * u)) * 16777216real <= t * (u * u) + u * 8388608real);
    assert(s <= (1real / 16777216real) * t + g) by (nonlinear_arith)
        requires
            (s * (u * u)) * 16777216real <= t * (u * u) + u * 8388608real,
            g * u == 1real / 2real,
            u > 0real,
    ;
}

/// A product in units.
proof fn lemma_product_units(x: Binary32, y: Binary32)
    ensures
        (number(x) * number(y)) * (unity() as real * unity() as real) == (x.value() * y.value())
            as real,
        unity() as real * unity() as real > 0real,
{
    lemma_scale(x);
    lemma_scale(y);
    let (v, w) = (x.value(), y.value());
    let n = v * w;
    let (a, b, u) = (number(x), number(y), unity() as real);
    assert(n as real == v as real * w as real) by (nonlinear_arith)
        requires
            n == v * w,
    ;
    assert((a * b) * (u * u) == n as real) by (nonlinear_arith)
        requires
            a * u == v as real,
            b * u == w as real,
            n as real == v as real * w as real,
    ;
    assert(u * u > 0real) by (nonlinear_arith)
        requires
            u > 0real,
    ;
}

/// A product is near the exact one.
pub proof fn lemma_product(x: Binary32, y: Binary32)
    requires
        x.finite(),
        y.finite(),
        size(number(x) * number(y)) <= limit(),
    ensures
        x.mul(y).finite(),
        size(number(x.mul(y)) - number(x) * number(y)) <= part() * size(number(x) * number(y))
            + speck(),
{
    lemma_values();
    lemma_mul_value(x, y);
    let (v, w) = (x.value(), y.value());
    let n = v * w;
    let u = unity() as real;
    let (a, b) = (number(x), number(y));
    let m = absolute(n);
    lemma_absolute_product(v, w);
    lemma_product_units(x, y);
    lemma_size_scaled(a * b, u * u);
    assert(size(a * b) * (u * u) <= limit() * (u * u)) by (nonlinear_arith)
        requires
            size(a * b) <= limit(),
            u * u > 0real,
    ;
    let (p, k) = (pow2(100) as int, unity() as int);
    assert(((p * k) * k) as real == limit() * (u * u)) by (nonlinear_arith)
        requires
            limit() == p as real,
            u == k as real,
    ;
    assert(size(n as real) == m as int as real);
    assert(m <= (pow2(100) * unity()) * unity());
    lemma_rounded_bound(m, unity(), 100);
    lemma_bounded(x.mul(y), 100);
    lemma_finite_product(x, y);
}

/// The absolute value of a product.
proof fn lemma_absolute_product(v: int, w: int)
    ensures
        absolute(v * w) == absolute(v) * absolute(w),
{
    let (m, n) = (absolute(v) as int, absolute(w) as int);
    assert((-m) * (-n) == m * n && (-m) * n == -(m * n) && m * (-n) == -(m * n))
        by (nonlinear_arith);
    assert(m * n >= 0) by (nonlinear_arith)
        requires
            m >= 0,
            n >= 0,
    ;
}

/// A quotient in range is near the exact one.
pub proof fn lemma_finite_quotient(x: Binary32, y: Binary32)
    requires
        x.finite(),
        y.finite(),
        number(y) != 0real,
        x.div(y).finite(),
    ensures
        size(number(x.div(y)) - number(x) / number(y)) <= part() * size(number(x) / number(y))
            + speck(),
{
    reveal(Binary32::spec_div);
    lemma_values();
    lemma_scale(x);
    lemma_scale(y);
    lemma_scale(x.div(y));
    let (v, w, k) = (x.value(), y.value(), unity() as int);
    let u = unity() as real;
    let (a, b, c) = (number(x), number(y), number(x.div(y)));
    assert(w != 0) by {
        if w == 0 {
            assert(b * u == 0real);
            assert(b == 0real) by (nonlinear_arith)
                requires
                    b * u == 0real,
                    u > 0real,
            ;
        }
    }
    assert(units(0) == 0);
    let (m, d) = (absolute(v) * unity(), absolute(w));
    let q = a / b;
    assert(q * b == a) by (nonlinear_arith)
        requires
            q == a / b,
            b != 0real,
    ;
    // In units: the exact quotient times the divisor.
    let dr = d as int as real;
    assert(size(w as real) == dr && dr > 0real);
    lemma_size_product(q, w as real);
    assert(q * (w as real) == v as real) by (nonlinear_arith)
        requires
            q * b == a,
            a * u == v as real,
            b * u == w as real,
            u > 0real,
    ;
    assert(size(v as real) == absolute(v) as int as real);
    assert(size(q) * dr == absolute(v) as int as real);
    assert((m as int) as real == (size(q) * dr) * u) by (nonlinear_arith)
        requires
            m == absolute(v) * unity(),
            u == unity() as real,
            size(q) * dr == absolute(v) as int as real,
    ;
    let z = rounded(m, d) as int;
    let r = x.div(y).value();
    assert(m == 0 ==> z == 0) by {
        if m == 0 {
            lemma_rounded_zero(d);
        }
    }
    assert(v == 0 <==> m == 0) by (nonlinear_arith)
        requires
            m == absolute(v) * unity(),
            unity() > 0,
    ;
    assert(absolute(r) == z);
    lemma_below_infinity(x.div(y));
    lemma_rounded_error(m, d);
    // The signs agree, so that the distance is that of the sizes.
    let e = r * w - v * k;
    assert(absolute(e) == distance(rounded(m, d), m, d)) by {
        let (i, j) = (absolute(v) as int, d as int);
        assert((-z) * (-j) == z * j && (-z) * j == -(z * j) && z * (-j) == -(z * j) && (-i) * k
            == -(i * k)) by (nonlinear_arith);
    }
    assert((c - q) * (u * (w as real)) == e as real) by (nonlinear_arith)
        requires
            c * u == r as real,
            q * (w as real) == v as real,
            e == r * w - v * k,
            u == k as real,
    ;
    let ud = u * dr;
    assert(ud > 0real) by (nonlinear_arith)
        requires
            ud == u * dr,
            u > 0real,
            dr > 0real,
    ;
    lemma_size_product(c - q, u * (w as real));
    lemma_size_product(u, w as real);
    let (s, t, g) = (size(c - q), size(q), speck());
    assert(size(e as real) == absolute(e) as int as real);
    assert(s * ud == absolute(e) as int as real);
    assert((s * ud) * 16777216real <= t * dr * u + dr * 8388608real);
    assert(s <= (1real / 16777216real) * t + g) by (nonlinear_arith)
        requires
            (s * ud) * 16777216real <= t * dr * u + dr * 8388608real,
            ud == u * dr,
            g * u == 1real / 2real,
            u > 0real,
            dr > 0real,
    ;
}

/// A quotient is near the exact one.
pub proof fn lemma_quotient(x: Binary32, y: Binary32)
    requires
        x.finite(),
        y.finite(),
        number(y) != 0real,
        size(number(x) / number(y)) <= limit(),
    ensures
        x.div(y).finite(),
        size(number(x.div(y)) - number(x) / number(y)) <= part() * size(number(x) / number(y))
            + speck(),
{
    reveal(Binary32::spec_div);
    lemma_values();
    lemma_scale(x);
    lemma_scale(y);
    let (v, w, k) = (x.value(), y.value(), unity() as int);
    let u = unity() as real;
    let (a, b) = (number(x), number(y));
    assert(w != 0) by {
        if w == 0 {
            assert(b * u == 0real);
            assert(b == 0real) by (nonlinear_arith)
                requires
                    b * u == 0real,
                    u > 0real,
            ;
        }
    }
    assert(units(0) == 0);
    let (m, d) = (absolute(v) * unity(), absolute(w));
    let q = a / b;
    assert(q * b == a) by (nonlinear_arith)
        requires
            q == a / b,
            b != 0real,
    ;
    // In units: the exact quotient times the divisor.
    let dr = d as int as real;
    assert(size(w as real) == dr && dr > 0real);
    lemma_size_product(q, w as real);
    assert(q * (w as real) == v as real) by (nonlinear_arith)
        requires
            q * b == a,
            a * u == v as real,
            b * u == w as real,
            u > 0real,
    ;
    assert(size(v as real) == absolute(v) as int as real);
    assert(size(q) * dr == absolute(v) as int as real);
    assert((m as int) as real == (size(q) * dr) * u) by (nonlinear_arith)
        requires
            m == absolute(v) * unity(),
            u == unity() as real,
            size(q) * dr == absolute(v) as int as real,
    ;
    let p = pow2(100) as int;
    assert(((p * k) * (d as int)) as real == limit() * u * dr) by (nonlinear_arith)
        requires
            limit() == p as real,
            u == k as real,
            dr == d as int as real,
    ;
    assert((size(q) * dr) * u <= limit() * u * dr) by (nonlinear_arith)
        requires
            size(q) <= limit(),
            dr > 0real,
            u > 0real,
    ;
    assert(m <= (pow2(100) * unity()) * d);
    lemma_rounded_bound(m, d, 100);
    let z = rounded(m, d) as int;
    let r = x.div(y).value();
    assert(m == 0 ==> z == 0) by {
        if m == 0 {
            lemma_rounded_zero(d);
        }
    }
    assert(v == 0 <==> m == 0) by (nonlinear_arith)
        requires
            m == absolute(v) * unity(),
            unity() > 0,
    ;
    assert(absolute(r) == z);
    lemma_bounded(x.div(y), 100);
    lemma_finite_quotient(x, y);
}

/// The size of a product.
pub proof fn lemma_size_product(a: real, b: real)
    ensures
        size(a * b) == size(a) * size(b),
{
    assert((-a) * (-b) == a * b && (-a) * b == -(a * b) && a * (-b) == -(a * b))
        by (nonlinear_arith);
    let (m, n) = (size(a), size(b));
    assert(m * n >= 0real) by (nonlinear_arith)
        requires
            m >= 0real,
            n >= 0real,
    ;
}

/// The size of a sum.
pub proof fn lemma_size_sum(a: real, b: real)
    ensures
        size(a + b) <= size(a) + size(b),
        size(a - b) <= size(a) + size(b),
{
}

/// The error of a sum.
pub proof fn lemma_sum_error(x: real, y: real, p: real, q: real, d: real, e: real)
    requires
        size(x - p) <= d,
        size(y - q) <= e,
    ensures
        size((x + y) - (p + q)) <= d + e,
{
}

/// The size of a sum of bounded numbers.
pub proof fn lemma_sum_size(x: real, y: real, d: real, e: real)
    requires
        size(x) <= d,
        size(y) <= e,
    ensures
        size(x + y) <= d + e,
{
}

/// The size of a rounded number.
pub proof fn lemma_rounded_size(s: real, x: real)
    requires
        size(s - x) <= size(x) / 16777216real,
    ensures
        size(s) <= 2real * size(x),
{
}

/// The error of a rounded number.
pub proof fn lemma_rounded_once(s: real, x: real, p: real, d: real, m: real)
    requires
        size(s - x) <= size(x) / 16777216real,
        size(x - p) <= d,
        size(p) <= m,
    ensures
        size(s - p) <= d + (m + d) / 16777216real,
        size(s) <= m + d + (m + d) / 16777216real,
{
}

/// The order of numbers is that of the real numbers.
pub proof fn lemma_number_order(x: Binary32, y: Binary32)
    ensures
        x.value() <= y.value() ==> number(x) <= number(y),
        x.value() < y.value() ==> number(x) < number(y),
        number(x) < number(y) ==> x.value() < y.value(),
        number(x) == number(y) ==> x.value() == y.value(),
        number(Binary32(ZERO)) == 0real,
        number(Binary32(ONE)) == 1real,
{
    lemma_values();
    lemma_scale(x);
    lemma_scale(y);
    lemma_scale(Binary32(ZERO));
    lemma_scale(Binary32(ONE));
    let (a, b, u) = (number(x), number(y), unity() as real);
    assert(a * u <= b * u ==> a <= b) by (nonlinear_arith)
        requires
            u > 0real,
    ;
    assert(a * u < b * u ==> a < b) by (nonlinear_arith)
        requires
            u > 0real,
    ;
    let (zero, one) = (number(Binary32(ZERO)), number(Binary32(ONE)));
    assert(zero == 0real) by (nonlinear_arith)
        requires
            zero * u == 0real,
            u > 0real,
    ;
    assert(one == 1real) by (nonlinear_arith)
        requires
            one * u == u,
            u > 0real,
    ;
    assert(a < b ==> a * u < b * u) by (nonlinear_arith)
        requires
            u > 0real,
    ;
    assert(a == b ==> a * u == b * u);
}

/// A number between zero and one lies there as a real number.
pub proof fn lemma_small_number(x: Binary32)
    requires
        fractional(x),
    ensures
        0real <= number(x),
        number(x) <= 1real,
{
    lemma_values();
    lemma_number_order(Binary32(ZERO), x);
    lemma_number_order(x, Binary32(ONE));
}

/// A positive number is a positive real number.
pub proof fn lemma_positive_number(x: Binary32)
    requires
        x.value() > 0,
    ensures
        number(x) > 0real,
{
    lemma_values();
    lemma_number_order(Binary32(ZERO), x);
}

/// The limit is large.
pub proof fn lemma_limit_size()
    ensures
        limit() == 1267650600228229401496703205376real,
        part() > 0real,
        speck() > 0real,
        speck() <= part() * part(),
{
    lemma2_to64();
    lemma2_to64_rest();
    lemma_pow2_adds(50, 50);
    lemma_pow2_strictly_increases(64, 149);
    lemma_scale(Binary32(ZERO));
    let (u, g) = (unity() as real, speck());
    assert(g <= (1real / 16777216real) * (1real / 16777216real)) by (nonlinear_arith)
        requires
            g * u == 1real / 2real,
            u >= 18446744073709551616real,
            g > 0real,
    ;
}

/// A part of a number, and what is next to nothing.
pub proof fn lemma_part(x: real)
    ensures
        part() * x == x / 16777216real,
        0real < speck(),
        speck() * limit() <= 1real,
        speck() <= 1real / 1267650600228229401496703205376real,
{
    lemma_limit_size();
    lemma_pow2_strictly_increases(100, 149);
    let (e, g, l, u) = (part(), speck(), limit(), unity() as real);
    assert(e * x == x / 16777216real) by (nonlinear_arith)
        requires
            e == 1real / 16777216real,
    ;
    assert(u > l && l > 0real);
    assert(g * l <= 1real) by (nonlinear_arith)
        requires
            g == 1real / (2real * u),
            u > l,
            l > 0real,
    ;
    assert(g * l == g * 1267650600228229401496703205376real);
}

/// Half of the smallest positive number is at most half of any positive number.
pub proof fn lemma_speck(x: Binary32)
    requires
        x.value() > 0,
    ensures
        2real * speck() <= number(x),
        speck() / number(x) <= 1real / 2real,
{
    lemma_scale(x);
    lemma_positive_number(x);
    let (u, g, a) = (unity() as real, speck(), number(x));
    assert(a * u >= 1real);
    assert(2real * g <= a) by (nonlinear_arith)
        requires
            g * u == 1real / 2real,
            a * u >= 1real,
            u > 0real,
    ;
    assert(g / a <= 1real / 2real) by (nonlinear_arith)
        requires
            2real * g <= a,
            a > 0real,
    ;
}

/// The size of a number is the number without its sign.
pub proof fn lemma_absolute_number(x: Binary32)
    requires
        x.finite(),
    ensures
        number(x.abs()) == size(number(x)),
        x.abs().finite(),
{
    lemma_values();
    let (v, u) = (x.value() as real, unity() as real);
    assert(x.abs().value() == absolute(x.value()));
    assert((-v) / u == -(v / u)) by (nonlinear_arith)
        requires
            u > 0real,
    ;
    assert(v >= 0real ==> v / u >= 0real) by (nonlinear_arith)
        requires
            u > 0real,
    ;
    assert(v < 0real ==> v / u < 0real) by (nonlinear_arith)
        requires
            u > 0real,
    ;
}

/// Two, as a real number.
pub proof fn lemma_two()
    ensures
        number(Binary32(TWO)) == 2real,
{
    lemma_half_and_two();
    lemma_scale(Binary32(TWO));
    let (a, u) = (number(Binary32(TWO)), unity() as real);
    assert(a == 2real) by (nonlinear_arith)
        requires
            a * u == 2real * u,
            u > 0real,
    ;
}

/// A whole number.
pub proof fn lemma_whole_number(x: Binary32, k: int)
    requires
        x.value() == k * unity(),
    ensures
        number(x) == k as real,
{
    lemma_values();
    let (u, kr) = (unity() as real, k as real);
    assert((k * unity() as int) as real == kr * u) by (nonlinear_arith)
        requires
            kr == k as real,
            u == unity() as int as real,
    ;
    assert((kr * u) / u == kr) by (nonlinear_arith)
        requires
            u > 0real,
    ;
}

/// The floor of a number is the whole number below it.
pub proof fn lemma_floor_number(x: Binary32)
    requires
        x.finite(),
    ensures
        ({
            let k = x.value() / unity() as int;
            &&& x.floor().finite()
            &&& x.floor().value() == k * unity()
            &&& number(x.floor()) == k as real
            &&& k as real <= number(x)
            &&& number(x) < k as real + 1real
        }),
{
    lemma_values();
    lemma_floor_value(x);
    let (v, u) = (x.value(), unity() as int);
    let k = v / u;
    lemma_whole_number(x.floor(), k);
    lemma_fundamental_div_mod(v, u);
    let (vr, ur, kr) = (v as real, u as real, k as real);
    assert((u * k) as real == kr * ur) by (nonlinear_arith)
        requires
            kr == k as real,
            ur == u as real,
    ;
    let y = vr / ur;
    assert(kr <= y && y < kr + 1real) by (nonlinear_arith)
        requires
            y == vr / ur,
            kr * ur <= vr,
            vr < kr * ur + ur,
            ur > 0real,
    ;
}

/// The ceiling of a number is the whole number above it.
pub proof fn lemma_ceil_number(x: Binary32)
    requires
        x.finite(),
    ensures
        ({
            let k = -((-x.value()) / unity() as int);
            &&& x.ceil().finite()
            &&& x.ceil().value() == k * unity()
            &&& number(x.ceil()) == k as real
            &&& number(x) <= k as real
            &&& (k as real) < number(x) + 1real
        }),
{
    lemma_values();
    lemma_ceil_value(x);
    let (v, u) = (x.value(), unity() as int);
    let j = (-v) / u;
    let k = -j;
    assert(-(j * u) == k * u) by (nonlinear_arith)
        requires
            k == -j,
    ;
    lemma_whole_number(x.ceil(), k);
    lemma_fundamental_div_mod(-v, u);
    let (vr, ur, kr) = (v as real, u as real, k as real);
    assert((u * j) as real == -(kr * ur)) by (nonlinear_arith)
        requires
            kr == k as real,
            k == -j,
            ur == u as real,
    ;
    let y = vr / ur;
    assert(y <= kr && kr < y + 1real) by (nonlinear_arith)
        requires
            y == vr / ur,
            -(kr * ur) <= -vr,
            -vr < -(kr * ur) + ur,
            ur > 0real,
    ;
}

/// Two numbers scaled alike keep their order.
pub proof fn lemma_times(x: real, y: real, k: real)
    requires
        x <= y,
        0real <= k,
    ensures
        x * k <= y * k,
{
    assert(x * k <= y * k) by (nonlinear_arith)
        requires
            x <= y,
            0real <= k,
    ;
}

/// Two numbers that keep their order when they are scaled alike had it.
pub proof fn lemma_cancelled(x: real, y: real, k: real)
    requires
        x * k <= y * k,
        0real < k,
    ensures
        x <= y,
{
    if x > y {
        let d = x - y;
        lemma_distributes(x, y, k);
        assert(d * k > 0real) by (nonlinear_arith)
            requires
                d > 0real,
                k > 0real,
        ;
    }
}

/// A sum and a difference, scaled.
pub proof fn lemma_distributes(x: real, y: real, k: real)
    ensures
        (x + y) * k == x * k + y * k,
        (x - y) * k == x * k - y * k,
{
    assert((x + y) * k == x * k + y * k) by (nonlinear_arith);
    assert((x - y) * k == x * k - y * k) by (nonlinear_arith);
}

/// Factors can be exchanged.
pub proof fn lemma_exchanged(x: real, y: real)
    ensures
        x * y == y * x,
{
    assert(x * y == y * x) by (nonlinear_arith);
}

/// A quotient times its divisor.
pub proof fn lemma_divided_back(x: real, y: real)
    requires
        y != 0real,
    ensures
        (x / y) * y == x,
{
    let q = x / y;
    assert(q * y == x) by (nonlinear_arith)
        requires
            q == x / y,
            y != 0real,
    ;
}

/// A number scaled by a share of at most all.
pub proof fn lemma_shared(x: real, k: real)
    requires
        0real <= k,
        k <= 1real,
    ensures
        size(x * k) <= size(x),
        x >= 0real ==> 0real <= x * k && x * k <= x,
        x <= 0real ==> x <= x * k && x * k <= 0real,
{
    lemma_size_product(x, k);
    let s = size(x);
    lemma_exchanged(s, k);
    lemma_times(k, 1real, s);
    lemma_times(0real, k, s);
    lemma_exchanged(x, k);
    if x >= 0real {
        lemma_times(0real, x, k);
    } else {
        lemma_times(x, 0real, k);
    }
}

} // verus!
