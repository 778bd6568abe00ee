//! What holds of numbers that become bytes.
use crate::accuracy::lemma_integer_exact;
use crate::binary32::{integer, units, unity, Binary32};
use crate::bounds::{fractional, lemma_fractional_product};
use crate::color::Rgba;
use crate::composite::premultiplied_bytes;
use crate::consts::{CHANNEL_MAX, ONE, ZERO};
use crate::gradient::nearest_byte;
use crate::laws::blends::{lemma_product_near, lemma_unit_product};
use crate::laws::operators::fractional_pixel;
use crate::order::{
    lemma_mul_one, lemma_mul_order, lemma_values, lemma_zero_product, products_commute,
};
use crate::reals::{
    lemma_cancelled, lemma_distributes, lemma_limit_size, lemma_number_order, lemma_part,
    lemma_product, lemma_scale, lemma_shared, lemma_small_number, lemma_whole_number, number, size,
};
use crate::rounding::lemma_units_order;
use vstd::arithmetic::div_mod::{lemma_fundamental_div_mod, lemma_fundamental_div_mod_converse};
use vstd::arithmetic::mul::{
    lemma_mul_inequality, lemma_mul_is_associative, lemma_mul_is_commutative,
};
use vstd::prelude::*;

verus! {

/// The byte nearest to a number is at most half away from it, where the number is that of a byte.
pub proof fn bytes_are_nearest(x: Binary32)
    requires
        x.finite(),
        0real <= number(x),
        number(x) <= 255real,
    ensures
        size(nearest_byte(x) as int as real - number(x)) <= 1real / 2real,
{
    lemma_values();
    lemma_number_order(x, Binary32(ZERO));
    lemma_number_order(Binary32(CHANNEL_MAX), x);
    lemma_whole_number(Binary32(CHANNEL_MAX), 255);
    lemma_nearest_units(x);
    lemma_scale(x);
    let (n, v, u) = (nearest_byte(x) as int, x.value(), unity() as int);
    lemma_half_away(n, v, u, number(x));
}

/// The byte nearest to a number, counted in units.
proof fn lemma_nearest_units(x: Binary32)
    requires
        x.finite(),
        0 <= x.value() <= 255 * unity(),
    ensures
        -(unity() as int) <= 2 * (nearest_byte(x) * unity()) - 2 * x.value() <= unity(),
{
    reveal(Binary32::spec_round);
    lemma_values();
    let (v, u) = (x.value(), unity() as int);
    assert(units(0) == 0);
    lemma_units_order(0, x.magnitude());
    assert(units(x.magnitude()) == v);
    let n = (2 * v + u) / (2 * u);
    lemma_fundamental_div_mod(2 * v + u, 2 * u);
    assert(0 <= n <= 255) by (nonlinear_arith)
        requires
            2 * v + u == (2 * u) * n + (2 * v + u) % (2 * u),
            0 <= (2 * v + u) % (2 * u) < 2 * u,
            0 <= v <= 255 * u,
            u > 0,
    ;
    lemma_integer_exact(x.negative(), n as nat);
    lemma_fundamental_div_mod_converse(n * u, u, n, 0);
    if x.negative() {
        assert(v == 0);
        lemma_fundamental_div_mod_converse(u, 2 * u, 0, u);
    }
    lemma_clamped_byte(x, n);
    lemma_mul_is_associative(2, u, n);
    lemma_mul_is_commutative(u, n);
}

/// A whole number of a byte stays when it is held to the bytes.
proof fn lemma_clamped_byte(x: Binary32, n: int)
    requires
        0 <= n <= 255,
        x.round() == integer(x.negative(), n as nat),
        integer(x.negative(), n as nat).finite(),
        integer(x.negative(), n as nat).negative() == x.negative(),
        x.negative() ==> n == 0,
        units(integer(x.negative(), n as nat).magnitude()) == n * unity(),
        (n * unity()) / unity() as int == n,
    ensures
        nearest_byte(x) == n,
{
    lemma_values();
    let r = x.round();
    lemma_mul_inequality(n, 255, unity() as int);
    assert(r.clamp(Binary32(ZERO), Binary32(CHANNEL_MAX)) == r || r.value() == 0);
}

/// A number is at most half away from a whole number that is so in units.
pub proof fn lemma_half_away(n: int, v: int, u: int, x: real)
    requires
        -u <= 2 * (n * u) - 2 * v <= u,
        u > 0,
        x * (u as real) == v as real,
    ensures
        size(n as real - x) <= 1real / 2real,
{
    let (ur, nr) = (u as real, n as real);
    assert((n * u) as real == nr * ur) by (nonlinear_arith)
        requires
            ur == u as real,
            nr == n as real,
    ;
    lemma_distributes(nr, x, ur);
    let d = nr - x;
    lemma_cancelled(d, 1real / 2real, ur);
    lemma_cancelled(-(1real / 2real), d, ur);
}

/// A color with an alpha applied keeps its channels, and its alpha is the byte nearest to the
/// product.
pub proof fn alphas_scale_the_alpha(color: Rgba, alpha: Binary32)
    requires
        fractional(alpha),
    ensures
        ({
            let c = color.with_alpha(alpha);
            &&& c.r == color.r
            &&& c.g == color.g
            &&& c.b == color.b
            &&& size(c.a as int as real - (color.a as int as real) * number(alpha)) <= 1real
                / 2real + 1real / 4096real
        }),
{
    lemma_limit_size();
    lemma_values();
    lemma_small_number(alpha);
    let n = integer(false, color.a as nat);
    lemma_integer_exact(false, color.a as nat);
    lemma_whole_number(n, color.a as int);
    let (y, z) = (color.a as int as real, number(alpha));
    assert(0real <= y && y <= 255real);
    lemma_unit_share(y, z);
    lemma_part(size(y * z));
    lemma_product(n, alpha);
    let x = n.mul(alpha);
    lemma_mul_inequality(0, color.a as int, unity() as int);
    lemma_mul_inequality(color.a as int, 255, unity() as int);
    lemma_scaled_bounds(n, alpha);
    bytes_are_nearest(x);
}

/// A number of a byte scaled by a share of at most all.
proof fn lemma_unit_share(y: real, z: real)
    requires
        0real <= y,
        y <= 255real,
        0real <= z,
        z <= 1real,
    ensures
        0real <= y * z,
        y * z <= 255real,
{
    lemma_shared(y, z);
}

/// A product of a number of a byte with a share does not round past it.
proof fn lemma_scaled_bounds(n: Binary32, alpha: Binary32)
    requires
        n.finite(),
        0 <= n.value() <= 255 * unity(),
        fractional(alpha),
    ensures
        0real <= number(n.mul(alpha)),
        number(n.mul(alpha)) <= 255real,
{
    lemma_values();
    products_commute(n, alpha);
    lemma_mul_order(Binary32(ZERO), alpha, n);
    lemma_mul_order(alpha, Binary32(ONE), n);
    lemma_zero_product(Binary32(ZERO), n);
    lemma_mul_one(n);
    products_commute(Binary32(ONE), n);
    let x = n.mul(alpha);
    lemma_number_order(Binary32(ZERO), x);
    lemma_number_order(x, Binary32(CHANNEL_MAX));
    lemma_whole_number(Binary32(CHANNEL_MAX), 255);
}

/// The bytes of a straight color between zero and one are those of its channels premultiplied
/// by its alpha, and of its alpha, to the nearest.
pub proof fn premultiplied_bytes_are_nearest(o: Seq<Binary32>, i: int)
    requires
        fractional_pixel(o),
        0 <= i < 4,
    ensures
        ({
            let a = number(o[3]);
            let exact = if i < 3 {
                number(o[i]) * a
            } else {
                a
            };
            size(premultiplied_bytes(o)[i] as int as real - 255real * exact) <= 1real / 2real
                + 1real / 4096real
        }),
{
    lemma_limit_size();
    lemma_values();
    lemma_whole_number(Binary32(CHANNEL_MAX), 255);
    assert(fractional(o[i]));
    lemma_small_number(o[3]);
    lemma_small_number(o[i]);
    let k = 1real / 16777216real;
    if i < 3 {
        let (x, y) = (number(o[i]), number(o[3]));
        lemma_product_near(o[i], o[3], x, y, 1real, 1real, 0real, 0real);
        lemma_unit_product(x, y);
        lemma_fractional_product(o[i], o[3]);
        lemma_full_byte(o[i].mul(o[3]), x * y, 5real * k);
    } else {
        lemma_full_byte(o[3], number(o[3]), 0real);
    }
}

/// The byte of a number between zero and one that is near another.
pub proof fn lemma_full_byte(x: Binary32, p: real, d: real)
    requires
        fractional(x),
        size(number(x) - p) <= d,
        d <= 6real / 16777216real,
    ensures
        size(nearest_byte(x.mul(Binary32(CHANNEL_MAX))) as int as real - 255real * p) <= 1real
            / 2real + 1real / 4096real,
{
    lemma_limit_size();
    lemma_values();
    lemma_small_number(x);
    lemma_whole_number(Binary32(CHANNEL_MAX), 255);
    let (c, y) = (number(Binary32(CHANNEL_MAX)), number(x));
    assert(y * c == 255real * y);
    lemma_part(size(y * c));
    lemma_product(x, Binary32(CHANNEL_MAX));
    products_commute(x, Binary32(CHANNEL_MAX));
    lemma_scaled_bounds(Binary32(CHANNEL_MAX), x);
    bytes_are_nearest(x.mul(Binary32(CHANNEL_MAX)));
}

} // verus!
