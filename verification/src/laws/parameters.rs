//! What holds of the parameters of linear gradients, against exact real numbers.
use crate::binary32::Binary32;
use crate::canvas::{linear_parameter, squared_length};
use crate::consts::TRILLIONTH;
use crate::laws::geometry::lemma_two_products;
use crate::laws::inverses::{lemma_bounded_product, lemma_negligible};
use crate::laws::luminosities::lemma_binade;
use crate::laws::saturations::lemma_scaled_part;
use crate::reals::{
    lemma_distributes, lemma_divided_back, lemma_exchanged, lemma_finite_difference,
    lemma_finite_dividend, lemma_finite_factors, lemma_finite_quotient, lemma_finite_terms,
    lemma_number_order, lemma_part, lemma_shared, lemma_size_product, lemma_times, number, part,
    size, speck,
};
use vstd::arithmetic::power2::lemma2_to64_rest;
use vstd::prelude::*;

verus! {

/// The exact distance from one number to another.
pub open spec fn step(from: Binary32, to: Binary32) -> real {
    number(to) - number(from)
}

/// The parameter of a linear gradient at a point is how far along the gradient line the point
/// lies: times the square of the length of the line it is the product of the way to the point
/// with the line. The line is at most `d` long along each axis, and the point at most `q` from
/// its beginning, which is at least one.
pub proof fn linear_parameters_project(
    p0: (Binary32, Binary32),
    p1: (Binary32, Binary32),
    p: (Binary32, Binary32),
    d: real,
    q: real,
)
    requires
        linear_parameter(p0, p1, p).finite(),
        squared_length(p0, p1).finite(),
        !squared_length(p0, p1).less(Binary32(TRILLIONTH)),
        size(step(p0.0, p1.0)) <= d,
        size(step(p0.1, p1.1)) <= d,
        size(step(p0.0, p.0)) <= q,
        size(step(p0.1, p.1)) <= q,
        1real <= q,
    ensures
        ({
            let t = number(linear_parameter(p0, p1, p));
            let (x, y) = (step(p0.0, p1.0), step(p0.1, p1.1));
            let (u, v) = (step(p0.0, p.0), step(p0.1, p.1));
            size(t * (x * x + y * y) - (u * x + v * y)) <= 32real * (part() * (q * d + (d * d)
                * size(t)))
        }),
{
    let (dx, dy) = (p1.0.sub(p0.0), p1.1.sub(p0.1));
    let (ux, uy) = (p.0.sub(p0.0), p.1.sub(p0.1));
    let len = squared_length(p0, p1);
    let num = ux.mul(dx).add(uy.mul(dy));
    lemma_finite_dividend(num, len);
    lemma_finite_terms(ux.mul(dx), uy.mul(dy));
    lemma_finite_factors(ux, dx);
    lemma_finite_factors(uy, dy);
    lemma_step(p0.0, p1.0, d);
    lemma_step(p0.1, p1.1, d);
    lemma_step(p0.0, p.0, q);
    lemma_step(p0.1, p.1, q);
    let (x, y) = (step(p0.0, p1.0), step(p0.1, p1.1));
    let (u, v) = (step(p0.0, p.0), step(p0.1, p.1));
    lemma_near_product(number(dx), number(dx), x, x, d, d);
    lemma_near_product(number(dy), number(dy), y, y, d, d);
    lemma_near_product(number(ux), number(dx), u, x, q, d);
    lemma_near_product(number(uy), number(dy), v, y, q, d);
    let (dd, w, g) = (d * d, q * d, speck());
    lemma_two_products(dx, dx, dy, dy, 2real * dd);
    lemma_two_products(ux, dx, uy, dy, 2real * w);
    lemma_line_length(len, dd, d);
    lemma_times(1real, q, d);
    lemma_small_specks(len, d, w, dd);
    lemma_finite_quotient(num, len);
    let (n, l, t) = (number(num), number(len), number(linear_parameter(p0, p1, p)));
    let h = n / l;
    lemma_divided_back(n, l);
    lemma_part(size(h));
    lemma_distributes(t, h, l);
    lemma_size_product(t - h, l);
    lemma_size_product(h, l);
    lemma_times(size(t - h), size(h) / 16777216real + g, size(l));
    lemma_distributes(size(h) / 16777216real, g, size(l));
    lemma_scaled_part(size(h), size(l));
    assert(size(t * l - n) <= size(n) / 16777216real + g * size(l));
    let (e, k) = (x * x + y * y, u * x + v * y);
    lemma_exchanged(t, e);
    lemma_exchanged(t, l);
    lemma_distributes(l, e, t);
    lemma_size_product(l - e, t);
    lemma_times(size(l - e), 17real * (dd / 16777216real), size(t));
    lemma_scaled_part(dd, size(t));
    let f = dd / 16777216real;
    assert((17real * f) * size(t) == 17real * (f * size(t))) by (nonlinear_arith);
    lemma_part(w + dd * size(t));
    lemma_times(0real, dd, size(t));
    lemma_projected(t * l, t * e, n, k, w / 16777216real, (dd * size(t)) / 16777216real, g
        * size(l), size(n));
}

/// A computed distance along an axis.
proof fn lemma_step(from: Binary32, to: Binary32, d: real)
    requires
        to.sub(from).finite(),
        size(step(from, to)) <= d,
    ensures
        from.finite(),
        to.finite(),
        size(number(to.sub(from)) - step(from, to)) <= d / 16777216real,
{
    lemma_finite_terms(to, from);
    lemma_finite_difference(to, from);
    lemma_part(size(step(from, to)));
}

/// A product of numbers that are near two others.
pub proof fn lemma_near_product(u: real, v: real, a: real, b: real, q: real, d: real)
    requires
        size(u - a) <= q / 16777216real,
        size(v - b) <= d / 16777216real,
        size(a) <= q,
        size(b) <= d,
    ensures
        size(u * v - a * b) <= 3real * ((q * d) / 16777216real),
        size(u * v) <= 2real * (q * d),
        0real <= q * d,
{
    let (e, f) = (u - a, v - b);
    lemma_distributes(u, a, v);
    lemma_exchanged(a, v);
    lemma_exchanged(a, b);
    lemma_distributes(v, b, a);
    assert(u * v - a * b == e * v + f * a);
    lemma_bounded_product(e, v, q / 16777216real, 2real * d);
    lemma_bounded_product(f, a, d / 16777216real, q);
    lemma_scaled_part(q, 2real * d);
    lemma_scaled_part(d, q);
    lemma_exchanged(d, q);
    assert(q * (2real * d) == 2real * (q * d)) by (nonlinear_arith);
    lemma_bounded_product(a, b, q, d);
}

/// A line that is not taken for one of no length.
proof fn lemma_line_length(len: Binary32, dd: real, d: real)
    requires
        len.finite(),
        !len.less(Binary32(TRILLIONTH)),
        size(number(len)) <= 6real * dd + 4real * speck(),
        dd == d * d,
        0real <= d,
    ensures
        number(len) > 0real,
        4194304real * d >= 1real,
{
    lemma2_to64_rest();
    lemma_binade(0x008c_bccc, 86, 63);
    lemma_number_order(len, Binary32(TRILLIONTH));
    lemma_part(0real);
    assert(number(len) >= 9223372real / 9223372036854775808real);
    if 4194304real * d < 1real {
        let m = 1real / 4194304real;
        lemma_times(d, m, d);
        assert(m * d <= m * m);
    }
}

/// What is next to nothing beside a line.
proof fn lemma_small_specks(len: Binary32, d: real, w: real, dd: real)
    requires
        len.finite(),
        4194304real * d >= 1real,
        d <= w,
        dd == d * d,
        size(number(len)) <= 6real * dd + 4real * speck(),
    ensures
        speck() * size(number(len)) <= 8real * (w / 16777216real),
        16real * speck() <= w / 16777216real,
        16real * speck() <= dd / 16777216real,
{
    let (g, l, m) = (speck(), size(number(len)), 1real / 4194304real);
    lemma_part(0real);
    lemma_times(m, d, d);
    assert(m * d >= m * m);
    lemma_negligible(len);
    lemma_part(1real);
    if d <= 1real {
        lemma_shared(d, d);
        lemma_exchanged(g, l);
        lemma_times(l, 7real, g);
    }
}

/// The errors of a projection.
proof fn lemma_projected(
    tl: real,
    te: real,
    n: real,
    k: real,
    w: real,
    dt: real,
    gl: real,
    m: real,
)
    requires
        size(tl - n) <= m / 16777216real + gl,
        size(tl - te) <= 17real * dt,
        size(n - k) <= 17real * w,
        m <= 7real * (w * 16777216real),
        gl <= 8real * w,
        0real <= w,
        0real <= dt,
    ensures
        size(te - k) <= 32real * (w + dt),
{
}

} // verus!
