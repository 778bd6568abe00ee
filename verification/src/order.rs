//! The order and the symmetry of the arithmetic.
use crate::binary32::{
    absolute, nearest, nearest_bits, nearest_even, signed, units, unity, Binary32, INFINITE,
};
use crate::consts::{CHANNEL_MAX, ONE, ZERO};
use crate::gradient::nearest_byte;
use crate::rounding::{
    lemma_nearest_exact, lemma_nearest_fraction_order, lemma_nearest_scaled, lemma_units_binades,
    lemma_units_order,
};
use vstd::arithmetic::div_mod::{lemma_div_is_ordered, lemma_fundamental_div_mod_converse};
use vstd::arithmetic::power2::{lemma2_to64, lemma_pow2_adds, lemma_pow2_pos, pow2};
use vstd::prelude::*;

verus! {

/// The value of the number nearest to `n / d` units; past the largest finite number,
/// that of infinity.
pub open spec fn rounded(n: nat, d: nat) -> nat {
    units(signed(false, nearest_bits(n, d)).magnitude())
}

/// An integer with the sign of another.
pub open spec fn with_sign_of(sign: int, n: nat) -> int {
    if sign < 0 {
        -(n as int)
    } else {
        n as int
    }
}

/// Rounding keeps the order of two fractions.
pub proof fn lemma_rounded_order(m: nat, c: nat, n: nat, d: nat)
    requires
        c > 0,
        d > 0,
        m * d <= n * c,
    ensures
        rounded(m, c) <= rounded(n, d),
{
    lemma_nearest_fraction_order(m, c, n, d);
    lemma_units_order(
        signed(false, nearest_bits(m, c)).magnitude(),
        signed(false, nearest_bits(n, d)).magnitude(),
    );
}

/// A value that a number has rounds to itself.
pub proof fn lemma_rounded_exact(x: Binary32)
    requires
        !x.nan(),
    ensures
        rounded(units(x.magnitude()), 1) == units(x.magnitude()),
{
    lemma_nearest_exact(x.magnitude());
}

/// Nothing rounds to nothing.
pub proof fn lemma_rounded_zero(d: nat)
    requires
        d > 0,
    ensures
        rounded(0, d) == 0,
        nearest_bits(0, d) == 0,
{
    lemma_fundamental_div_mod_converse(0, d as int, 0, 0);
    assert(0 < d * 0x0100_0000) by (nonlinear_arith)
        requires
            d > 0,
    ;
    assert(nearest_even(0, d) == 0);
}

/// The value of a rounded number with a sign.
proof fn lemma_nearest_value(negative: bool, n: nat, d: nat)
    requires
        d > 0,
    ensures
        !nearest(negative, n, d).nan(),
        nearest(negative, n, d).value() == if negative {
            -(rounded(n, d) as int)
        } else {
            rounded(n, d) as int
        },
        units(nearest(negative, n, d).magnitude()) == rounded(n, d),
{
}

/// The values of some numbers.
pub proof fn lemma_values()
    ensures
        unity() > 0,
        Binary32(ZERO).value() == 0,
        Binary32(ONE).value() == unity(),
        Binary32(CHANNEL_MAX).value() == 255 * unity(),
{
    lemma2_to64();
    lemma_pow2_pos(149);
    lemma_units_binades(0x0080_0000, 126);
    lemma_pow2_adds(23, 126);
    lemma_units_binades(0x00ff_0000, 133);
    lemma_pow2_adds(16, 133);
    assert(0x00ff_0000 * pow2(133) == 255 * (0x1_0000 * pow2(133))) by (nonlinear_arith);
}

/// The value of a product.
pub proof fn lemma_mul_value(x: Binary32, y: Binary32)
    requires
        x.finite(),
        y.finite(),
    ensures
        !x.mul(y).nan(),
        x.mul(y).value() == with_sign_of(
            x.value() * y.value(),
            rounded(absolute(x.value()) * absolute(y.value()), unity()),
        ),
{
    reveal(Binary32::spec_mul);
    lemma_values();
    let (m, n) = (units(x.magnitude()), units(y.magnitude()));
    lemma_nearest_value(x.negative() != y.negative(), m * n, unity());
    if m * n == 0 {
        lemma_rounded_zero(unity());
    }
    lemma_signs(m, n, x.negative(), y.negative());
}

/// The sign of a product of two signed integers.
proof fn lemma_signs(m: nat, n: nat, a: bool, b: bool)
    ensures
        ({
            let x: int = if a {
                -(m as int)
            } else {
                m as int
            };
            let y: int = if b {
                -(n as int)
            } else {
                n as int
            };
            x * y == if a != b {
                -((m * n) as int)
            } else {
                (m * n) as int
            }
        }),
{
    assert((-m) * (-n) == m * n) by (nonlinear_arith);
    assert((-m) * n == -(m * n)) by (nonlinear_arith);
    assert(m * (-n) == -(m * n)) by (nonlinear_arith);
}

/// The value of a quotient.
pub proof fn lemma_div_value(x: Binary32, y: Binary32)
    requires
        x.finite(),
        y.finite(),
        y.value() > 0,
    ensures
        !x.div(y).nan(),
        x.div(y).value() == with_sign_of(
            x.value(),
            rounded(absolute(x.value()) * unity(), absolute(y.value())),
        ),
{
    reveal(Binary32::spec_div);
    lemma_values();
    let (m, n) = (units(x.magnitude()), units(y.magnitude()));
    assert(units(0) == 0);
    assert(!y.zero());
    lemma_nearest_value(x.negative() != y.negative(), m * unity(), n);
    if m == 0 {
        assert(m * unity() == 0) by (nonlinear_arith)
            requires
                m == 0,
        ;
        lemma_rounded_zero(n);
    }
}

/// The value of a sum.
pub proof fn lemma_add_value(x: Binary32, y: Binary32)
    requires
        x.finite(),
        y.finite(),
    ensures
        !x.add(y).nan(),
        x.add(y).value() == with_sign_of(
            x.value() + y.value(),
            rounded(absolute(x.value() + y.value()), 1),
        ),
{
    reveal(Binary32::spec_add);
    let sum = x.value() + y.value();
    lemma_nearest_value(sum < 0, absolute(sum), 1);
    if sum == 0 {
        lemma_rounded_zero(1);
        assert(units(0) == 0);
    }
}

/// Multiplying by a number that is not negative keeps the order of two numbers.
pub proof fn lemma_mul_order(x: Binary32, y: Binary32, k: Binary32)
    requires
        x.finite(),
        y.finite(),
        k.finite(),
        x.at_most(y),
        k.value() >= 0,
    ensures
        x.mul(k).at_most(y.mul(k)),
{
    lemma_values();
    lemma_mul_value(x, k);
    lemma_mul_value(y, k);
    let (a, b, c) = (x.value(), y.value(), k.value());
    assert(a * c <= b * c) by (nonlinear_arith)
        requires
            a <= b,
            c >= 0,
    ;
    lemma_products(a, c);
    lemma_products(b, c);
    lemma_rounded_signs(a * c, unity(), b * c, unity());
}

/// Rounding keeps the order of two signed fractions over one denominator.
proof fn lemma_rounded_signs(m: int, c: nat, n: int, d: nat)
    requires
        c > 0,
        c == d,
        m <= n,
    ensures
        with_sign_of(m, rounded(absolute(m), c)) <= with_sign_of(n, rounded(absolute(n), d)),
{
    if m >= 0 {
        assert(absolute(m) * d <= absolute(n) * c) by (nonlinear_arith)
            requires
                absolute(m) <= absolute(n),
                c == d,
        ;
        lemma_rounded_order(absolute(m), c, absolute(n), d);
    } else if n < 0 {
        assert(absolute(n) * c <= absolute(m) * d) by (nonlinear_arith)
            requires
                absolute(n) <= absolute(m),
                c == d,
        ;
        lemma_rounded_order(absolute(n), d, absolute(m), c);
    }
}

/// The absolute value of a product with a factor that is not negative.
proof fn lemma_products(a: int, c: int)
    requires
        c >= 0,
    ensures
        absolute(a * c) == absolute(a) * absolute(c),
        a >= 0 ==> a * c >= 0,
        a <= 0 ==> a * c <= 0,
{
    assert(a >= 0 ==> a * c >= 0) by (nonlinear_arith)
        requires
            c >= 0,
    ;
    assert(a <= 0 ==> a * c <= 0) by (nonlinear_arith)
        requires
            c >= 0,
    ;
    assert((-a) * c == -(a * c)) by (nonlinear_arith);
}

/// Dividing by a positive number keeps the order of two numbers.
pub proof fn lemma_div_order(x: Binary32, y: Binary32, k: Binary32)
    requires
        x.finite(),
        y.finite(),
        k.finite(),
        x.at_most(y),
        k.value() > 0,
    ensures
        x.div(k).at_most(y.div(k)),
{
    lemma_values();
    lemma_div_value(x, k);
    lemma_div_value(y, k);
    let (a, b, u) = (x.value(), y.value(), unity() as int);
    assert(a * u <= b * u) by (nonlinear_arith)
        requires
            a <= b,
            u >= 0,
    ;
    lemma_products(a, u);
    lemma_products(b, u);
    assert(a < 0 ==> a * u < 0) by (nonlinear_arith)
        requires
            u > 0,
    ;
    assert(b < 0 ==> b * u < 0) by (nonlinear_arith)
        requires
            u > 0,
    ;
    lemma_rounded_signs(a * u, absolute(k.value()), b * u, absolute(k.value()));
}

/// Adding a number keeps the order of two numbers.
pub proof fn lemma_add_order(x: Binary32, y: Binary32, k: Binary32)
    requires
        x.finite(),
        y.finite(),
        k.finite(),
        x.at_most(y),
    ensures
        x.add(k).at_most(y.add(k)),
{
    lemma_add_value(x, k);
    lemma_add_value(y, k);
    lemma_rounded_signs(x.value() + k.value(), 1, y.value() + k.value(), 1);
}

/// One times a number is the number.
pub proof fn lemma_mul_one(k: Binary32)
    requires
        !k.nan(),
    ensures
        Binary32(ONE).mul(k) == k,
        k.mul(Binary32(ONE)) == k,
{
    reveal(Binary32::spec_mul);
    lemma_values();
    let n = units(k.magnitude());
    lemma_nearest_scaled(n, 1, unity());
    lemma_nearest_exact(k.magnitude());
    assert(unity() * n == n * unity()) by (nonlinear_arith);
}

/// A number over itself is one.
pub proof fn lemma_div_self(k: Binary32)
    requires
        k.finite(),
        k.value() > 0,
    ensures
        k.div(k) == Binary32(ONE),
{
    reveal(Binary32::spec_div);
    lemma_values();
    let n = units(k.magnitude());
    assert(units(0) == 0);
    lemma_nearest_scaled(unity(), 1, n);
    lemma_nearest_exact(ONE as nat);
    assert(unity() * n == n * unity()) by (nonlinear_arith);
}

/// A number that lies between two finite numbers is finite.
pub proof fn lemma_finite_between(low: Binary32, x: Binary32, high: Binary32)
    requires
        low.finite(),
        high.finite(),
        low.at_most(x),
        x.at_most(high),
    ensures
        x.finite(),
{
    lemma_units_order(x.magnitude(), high.magnitude());
    lemma_units_order(x.magnitude(), low.magnitude());
    assert(units(0) == 0);
    lemma_units_order(0, x.magnitude());
}

/// Rounding to an integer keeps the order of two numbers.
pub proof fn lemma_round_order(x: Binary32, y: Binary32)
    requires
        x.at_most(y),
    ensures
        x.round().at_most(y.round()),
        x.value() >= 0 ==> x.round().value() >= 0,
        x.value() <= 0 ==> x.round().value() <= 0,
{
    reveal(Binary32::spec_round);
    lemma_values();
    lemma_round_value(x);
    lemma_round_value(y);
    assert(units(0) == 0);
    if x.value() >= 0 {
        lemma_round_magnitudes(x, y);
    } else if y.value() <= 0 {
        lemma_round_magnitudes(y, x);
    }
}

/// The value of a number rounded to an integer.
proof fn lemma_round_value(x: Binary32)
    requires
        !x.nan(),
    ensures
        !x.round().nan(),
        x.round().negative() == x.negative(),
        x.value() == 0 ==> x.round().value() == 0,
{
    reveal(Binary32::spec_round);
    lemma_values();
    assert(units(0) == 0);
    lemma_units_order(0, x.magnitude());
    if x.finite() && x.value() == 0 {
        assert((2 * 0 + unity()) / (2 * unity()) == 0) by {
            lemma_fundamental_div_mod_converse(
                unity() as int,
                (2 * unity()) as int,
                0,
                unity() as int,
            );
        }
        assert(0 * unity() == 0) by (nonlinear_arith);
        lemma_rounded_zero(1);
    }
}

proof fn lemma_round_magnitudes(x: Binary32, y: Binary32)
    requires
        !x.nan(),
        !y.nan(),
        units(x.magnitude()) <= units(y.magnitude()),
    ensures
        units(x.round().magnitude()) <= units(y.round().magnitude()),
{
    reveal(Binary32::spec_round);
    lemma_values();
    lemma_units_order(x.magnitude(), y.magnitude());
    lemma_units_order(y.magnitude(), x.magnitude());
    let (m, n) = (x.whole_nearest(), y.whole_nearest());
    lemma_div_is_ordered(
        (2 * units(x.magnitude()) + unity()) as int,
        (2 * units(y.magnitude()) + unity()) as int,
        (2 * unity()) as int,
    );
    assert(m * unity() <= n * unity()) by (nonlinear_arith)
        requires
            m <= n,
    ;
    assert((m * unity()) * 1 <= (n * unity()) * 1);
    if x.finite() {
        lemma_rounded_order(m * unity(), 1, n * unity(), 1);
        if !y.finite() {
            lemma_units_order(x.round().magnitude(), INFINITE as nat);
        }
    }
}

/// A larger number is not nearest to a smaller byte; what is not a number counts as zero.
pub proof fn lemma_nearest_byte_order(x: Binary32, y: Binary32)
    requires
        x.nan() || x.at_most(y),
    ensures
        nearest_byte(x) <= nearest_byte(y),
{
    reveal(Binary32::spec_round);
    lemma_values();
    if !x.nan() {
        lemma_round_order(x, y);
        let (low, high) = (Binary32(ZERO), Binary32(CHANNEL_MAX));
        let (a, b) = (x.round().clamp(low, high), y.round().clamp(low, high));
        assert(a.value() <= b.value());
        assert(0 <= a.value() && 0 <= b.value());
        assert(units(0) == 0);
        lemma_units_order(0, a.magnitude());
        lemma_units_order(0, b.magnitude());
        lemma_div_is_ordered(units(a.magnitude()) as int, units(b.magnitude()) as int, unity() as int);
        if a.negative() {
            lemma_fundamental_div_mod_converse(0, unity() as int, 0, 0);
        }
        if b.negative() {
            lemma_fundamental_div_mod_converse(0, unity() as int, 0, 0);
        }
    }
}

/// A number of the value of a finite one is finite.
pub proof fn lemma_same_size(x: Binary32, y: Binary32)
    requires
        y.finite(),
        x.value() == y.value(),
    ensures
        x.finite(),
{
    assert(units(0) == 0);
    lemma_units_order(0, x.magnitude());
    lemma_units_order(0, y.magnitude());
    lemma_units_order(x.magnitude(), y.magnitude());
}

/// Positive numbers of one value are one number.
pub proof fn lemma_same_number(x: Binary32, y: Binary32)
    requires
        x.value() == y.value(),
        x.value() > 0,
    ensures
        x == y,
{
    assert(units(0) == 0);
    lemma_units_order(x.magnitude(), y.magnitude());
    lemma_units_order(0, x.magnitude());
    lemma_units_order(0, y.magnitude());
}

/// A number and nothing are the number.
pub proof fn lemma_plus_nothing(x: Binary32, zero: Binary32)
    requires
        x.finite(),
        zero.finite(),
        zero.value() == 0,
    ensures
        x.add(zero).finite(),
        x.add(zero).value() == x.value(),
{
    lemma_add_value(x, zero);
    lemma_rounded_exact(x);
    lemma_same_size(x.add(zero), x);
}

/// The terms of a finite sum are finite.
pub proof fn lemma_finite_terms(x: Binary32, y: Binary32)
    requires
        x.add(y).finite(),
    ensures
        x.finite(),
        y.finite(),
{
    reveal(Binary32::spec_add);
}

/// A number with a finite square is finite.
pub proof fn lemma_finite_factor(x: Binary32)
    requires
        x.mul(x).finite(),
    ensures
        x.finite(),
{
    reveal(Binary32::spec_mul);
}

/// Nothing of a number is nothing.
pub proof fn lemma_zero_product(x: Binary32, y: Binary32)
    requires
        x.finite(),
        y.finite(),
        x.value() == 0,
    ensures
        x.mul(y).finite(),
        x.mul(y).value() == 0,
{
    lemma_values();
    lemma_mul_value(x, y);
    assert(absolute(0) * absolute(y.value()) == 0) by (nonlinear_arith)
        requires
            absolute(0) == 0,
    ;
    lemma_rounded_zero(unity());
    lemma_same_size(x.mul(y), Binary32(ZERO));
}

/// Nothing over a positive number is nothing.
pub proof fn lemma_zero_quotient(x: Binary32, y: Binary32)
    requires
        x.finite(),
        x.value() == 0,
        y.finite(),
        y.value() > 0,
    ensures
        x.div(y).finite(),
        x.div(y).value() == 0,
{
    lemma_values();
    lemma_div_value(x, y);
    assert(absolute(0) * unity() == 0) by (nonlinear_arith)
        requires
            absolute(0) == 0,
    ;
    lemma_rounded_zero(absolute(y.value()));
    lemma_same_size(x.div(y), Binary32(ZERO));
}

/// The order of the terms of a sum does not matter.
pub proof fn sums_commute(x: Binary32, y: Binary32)
    ensures
        x.add(y) == y.add(x),
{
    reveal(Binary32::spec_add);
}

/// The order of the factors of a product does not matter.
pub proof fn products_commute(x: Binary32, y: Binary32)
    ensures
        x.mul(y) == y.mul(x),
{
    reveal(Binary32::spec_mul);
    let (m, n) = (units(x.magnitude()), units(y.magnitude()));
    assert(m * n == n * m) by (nonlinear_arith);
}

} // verus!
