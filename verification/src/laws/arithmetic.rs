//! What holds of the arithmetic: it is correctly rounded.
use crate::accuracy::{distance, lemma_exact_scaled, lemma_nearest_error, lemma_nearest_is_nearest};
use crate::binary32::{absolute, nearest_bits, signed, units, unity, whole_root, Binary32, INFINITE};
use crate::order::{lemma_add_value, lemma_div_value, lemma_mul_value, lemma_values, rounded};
use crate::rounding::{
    lemma_nearest_order, lemma_nearest_scaled, lemma_root_exists, lemma_units_binades,
    lemma_units_order,
};
use vstd::arithmetic::power2::{
    lemma2_to64, lemma2_to64_rest, lemma_pow2_adds, lemma_pow2_strictly_increases,
    lemma_pow2_unfold, pow2,
};
use vstd::prelude::*;

verus! {

/// No finite number is nearer to the exact product of two numbers than their product.
pub proof fn products_are_nearest(x: Binary32, y: Binary32, other: Binary32)
    requires
        x.finite(),
        y.finite(),
        x.mul(y).finite(),
        other.finite(),
    ensures
        absolute(x.mul(y).value() * unity() - x.value() * y.value()) <= absolute(
            other.value() * unity() - x.value() * y.value(),
        ),
{
    lemma_values();
    lemma_mul_value(x, y);
    let (a, b) = (x.value(), y.value());
    assert(absolute(a * b) == absolute(a) * absolute(b)) by {
        let (m, n) = (absolute(a) as int, absolute(b) as int);
        assert((-m) * (-n) == m * n) by (nonlinear_arith);
        assert((-m) * n == -(m * n)) by (nonlinear_arith);
        assert(m * (-n) == -(m * n)) by (nonlinear_arith);
        assert(m * n >= 0) by (nonlinear_arith)
            requires
                m >= 0,
                n >= 0,
        ;
    }
    lemma_nearest_signed(x.mul(y), a * b, unity(), other);
}

/// No finite number is nearer to the exact quotient of two numbers than their quotient.
pub proof fn quotients_are_nearest(x: Binary32, y: Binary32, other: Binary32)
    requires
        x.finite(),
        y.finite(),
        y.value() > 0,
        x.div(y).finite(),
        other.finite(),
    ensures
        absolute(x.div(y).value() * y.value() - x.value() * unity()) <= absolute(
            other.value() * y.value() - x.value() * unity(),
        ),
{
    lemma_values();
    lemma_div_value(x, y);
    let (a, u) = (x.value(), unity() as int);
    assert(absolute(a * u) == absolute(a) * unity() && (a < 0 <==> a * u < 0)) by {
        assert(a < 0 <==> a * u < 0) by (nonlinear_arith)
            requires
                u > 0,
        ;
        assert((-a) * u == -(a * u)) by (nonlinear_arith);
    }
    lemma_nearest_signed(x.div(y), a * u, y.value() as nat, other);
}

/// No finite number is nearer to the exact sum of two numbers than their sum.
pub proof fn sums_are_nearest(x: Binary32, y: Binary32, other: Binary32)
    requires
        x.finite(),
        y.finite(),
        x.add(y).finite(),
        other.finite(),
    ensures
        absolute(x.add(y).value() - (x.value() + y.value())) <= absolute(
            other.value() - (x.value() + y.value()),
        ),
{
    lemma_add_value(x, y);
    lemma_nearest_signed(x.add(y), x.value() + y.value(), 1, other);
}

/// No number that is not negative is nearer to the exact square root of a positive number
/// than its square root: the exact root lies on the near side of the middle between the two.
pub proof fn roots_are_nearest(x: Binary32, other: Binary32)
    requires
        x.finite(),
        x.value() > 0,
        other.finite(),
        other.value() >= 0,
    ensures
        x.sqrt().finite(),
        ({
            let (sum, square) = (x.sqrt().value() + other.value(), x.value() * unity());
            &&& x.sqrt().value() < other.value() ==> 4 * square <= sum * sum
            &&& other.value() < x.sqrt().value() ==> sum * sum <= 4 * square
        }),
{
    reveal(Binary32::spec_sqrt);
    lemma_values();
    assert(units(0) == 0);
    assert(!x.zero() && !x.negative());
    let square = units(x.magnitude()) * unity();
    let root = whole_root(square);
    lemma_root_exists(square);
    lemma_root_size(x);
    let (n, d): (nat, nat) = if root * root == square {
        (root, 1)
    } else {
        (2 * root + 1, 2)
    };
    let bits = nearest_bits(n, d);
    lemma_pow2_unfold(214);
    lemma_root_finite(n, d);
    let (r, z) = (units(bits), units(other.magnitude()));
    assert(x.sqrt().value() == r);
    lemma_units_order(0, other.magnitude());
    assert(other.value() == z);
    lemma_nearest_is_nearest(n, d, other.magnitude());
    let sum = r + z;
    if d == 1 {
        assert(sum <= 2 * root ==> sum * sum <= 4 * (root * root)) by (nonlinear_arith)
            requires
                sum >= 0,
                root >= 0,
        ;
        assert(sum >= 2 * root ==> sum * sum >= 4 * (root * root)) by (nonlinear_arith)
            requires
                root >= 0,
        ;
    } else {
        // The middle cannot be the half that stands for the fraction of the root: both numbers
        // are past the precision of the format, and so even.
        lemma_even(bits);
        lemma_even(other.magnitude());
        lemma_nearest_error(n, d);
        assert(sum != n) by {
            if sum == n {
                assert(r >= 0x0100_0000 && z >= 0x0100_0000);
            }
        }
        assert(sum >= 2 * root + 2 ==> sum * sum >= 4 * ((root + 1) * (root + 1)))
            by (nonlinear_arith)
            requires
                root >= 0,
        ;
        assert(sum <= 2 * root ==> sum * sum <= 4 * (root * root)) by (nonlinear_arith)
            requires
                sum >= 0,
                root >= 0,
        ;
    }
}

/// What is not past `2^214` units rounds to a finite number.
pub proof fn lemma_root_finite(n: nat, d: nat)
    requires
        d > 0,
        n <= pow2(214) * d,
    ensures
        nearest_bits(n, d) < INFINITE,
{
    lemma2_to64();
    lemma_nearest_order(n, pow2(214) * d, d);
    lemma_nearest_scaled(pow2(214), 1, d);
    lemma_exact_scaled(1, 214);
    assert(1 * pow2(214) == pow2(214) && 1 * d == d) by (nonlinear_arith);
    lemma_units_binades(0x0080_0000, 254);
    lemma_pow2_adds(23, 254);
    lemma_pow2_strictly_increases(214, 277);
    lemma_units_order(nearest_bits(pow2(214), 1), INFINITE as nat);
}

/// A number past the precision of the format is an even count of units.
proof fn lemma_even(bits: nat)
    ensures
        units(bits) >= 0x0100_0000 ==> units(bits) % 2 == 0,
{
}

/// The whole root of a positive number is well within range.
pub proof fn lemma_root_size(x: Binary32)
    requires
        x.finite(),
        x.value() > 0,
    ensures
        ({
            let root = whole_root(units(x.magnitude()) * unity());
            0x1_0000_0000 <= root <= pow2(213)
        }),
{
    lemma_values();
    lemma2_to64();
    lemma2_to64_rest();
    let (n, u) = (units(x.magnitude()), unity());
    let square = n * u;
    let root = whole_root(square);
    lemma_root_exists(square);
    lemma_pow2_strictly_increases(64, 149);
    let low: nat = 0x1_0000_0000;
    assert(square >= low * low) by (nonlinear_arith)
        requires
            square == n * u,
            n >= 1,
            u >= 0x1_0000_0000_0000_0000,
            low == 0x1_0000_0000,
    ;
    assert(root >= low) by (nonlinear_arith)
        requires
            square >= low * low,
            square < (root + 1) * (root + 1),
            root >= 0,
            low >= 0,
    ;
    // The largest number is below 2^277 units, and its square counts in units of units.
    lemma_units_order(x.magnitude(), INFINITE as nat);
    lemma_units_binades(0x0080_0000, 254);
    lemma_pow2_adds(23, 254);
    lemma_pow2_adds(277, 149);
    let high = pow2(213);
    lemma_pow2_adds(213, 213);
    assert(square <= high * high) by (nonlinear_arith)
        requires
            square == n * u,
            n <= pow2(277),
            pow2(277) * u == pow2(426),
            high * high == pow2(426),
            u >= 0,
    ;
    assert(root <= high) by (nonlinear_arith)
        requires
            root * root <= high * high,
            root >= 0,
            high >= 0,
    ;
}

/// A finite number that a signed fraction rounds to is the nearest one.
proof fn lemma_nearest_signed(r: Binary32, n: int, d: nat, other: Binary32)
    requires
        d > 0,
        r.finite(),
        r.value() == if n < 0 {
            -(rounded(absolute(n), d) as int)
        } else {
            rounded(absolute(n), d) as int
        },
    ensures
        absolute(r.value() * d - n) <= absolute(other.value() * d - n),
{
    let m = absolute(n);
    let bits = nearest_bits(m, d);
    assert(units(0) == 0);
    lemma_units_order(0, r.magnitude());
    lemma_units_order(r.magnitude(), INFINITE as nat);
    lemma_units_order(r.magnitude(), signed(false, bits).magnitude());
    assert(bits < INFINITE && rounded(m, d) == units(bits));
    let u = units(bits) as int;
    assert((-u) * d == -(u * d)) by (nonlinear_arith);
    assert(absolute(r.value() * d - n) == distance(units(bits), m, d));
    let v = other.value();
    let w = units(other.magnitude()) as int;
    assert((-w) * d == -(w * d)) by (nonlinear_arith);
    assert(w * d >= 0) by (nonlinear_arith)
        requires
            w >= 0,
            d >= 0,
    ;
    if (v < 0) == (n < 0) {
        lemma_nearest_is_nearest(m, d, other.magnitude());
    } else {
        lemma_nearest_is_nearest(m, d, 0);
        assert(0 * d == 0) by (nonlinear_arith);
    }
}

} // verus!
