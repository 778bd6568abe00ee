//! That a radial gradient finds the circles that pass through a point.
use crate::binary32::{unity, Binary32};
use crate::consts::{BILLIONTH, FOUR, TWO, ZERO};
use crate::gradient::{cone_parameters, first_drawn, radius_at};
use crate::laws::circles::{
    circle_gap, circles_within, cone_coefficients, exact_coefficients, lemma_completed_square,
    lemma_discriminant, lemma_divided, lemma_four, lemma_gap_form, lemma_linear_coefficients,
    lemma_near_coefficients, lemma_root, lemma_root_bound, lemma_solved, lemma_spread,
    touching_within,
};
use crate::laws::gradients::radial_parameter_is_the_largest;
use crate::laws::inverses::lemma_bounded_product;
use crate::laws::saturations::lemma_scaled_part;
use crate::order::{lemma_add_value, lemma_values};
use crate::reals::{
    lemma_cancelled, lemma_distributes, lemma_divided_back, lemma_exchanged, lemma_finite_factors,
    lemma_finite_product, lemma_finite_sum, lemma_finite_terms, lemma_limit_size, lemma_negated,
    lemma_number_order, lemma_part, lemma_product, lemma_quotient, lemma_scale, lemma_size_product,
    lemma_sum, lemma_sum_size, lemma_times, lemma_two, number, part, size, speck,
};
use vstd::prelude::*;

verus! {

/// How fast the gap between a point and the circles changes with the parameter.
pub open spec fn gap_slope(
    c0: (Binary32, Binary32),
    r0: Binary32,
    c1: (Binary32, Binary32),
    r1: Binary32,
    p: (Binary32, Binary32),
    t: real,
) -> real {
    let (dcx, dcy) = (number(c1.0.sub(c0.0)), number(c1.1.sub(c0.1)));
    let dr = number(r1.sub(r0));
    let x = number(p.0.sub(c0.0)) - t * dcx;
    let y = number(p.1.sub(c0.1)) - t * dcy;
    let r = number(r0) + t * dr;
    -(2real * (x * dcx + y * dcy + r * dr))
}

/// The exact radius of the circle at a parameter.
pub open spec fn exact_radius(r0: Binary32, r1: Binary32, t: real) -> real {
    number(r0) + t * number(r1.sub(r0))
}

/// Whether a parameter is steady within `e`: the point does not touch the edge of the cone there,
/// and `e` is not less than what rounding can move the parameter by.
pub open spec fn steady_within(
    c0: (Binary32, Binary32),
    r0: Binary32,
    c1: (Binary32, Binary32),
    r1: Binary32,
    p: (Binary32, Binary32),
    d: real,
    q: real,
    t: real,
    e: real,
) -> bool {
    let slope = size(gap_slope(c0, r0, c1, r1, p, t));
    let a = size(number(cone_coefficients(c0, r0, c1, r1, p).0));
    let (w, uu) = (d * q, (d * q) * (d * q));
    &&& 4096real * (part() * uu) <= slope * slope
    &&& part() * (2048real * uu + (128real * w + 32real * ((d * d) * size(t))) * slope) <= 2real
        * ((a * e) * slope)
    &&& 0real <= e
}

/// Whether a parameter is clear of rounding by `e`: it is steady within `e`, and the radius there
/// is not less than what rounding can take from it.
pub open spec fn clear_by(
    c0: (Binary32, Binary32),
    r0: Binary32,
    c1: (Binary32, Binary32),
    r1: Binary32,
    p: (Binary32, Binary32),
    d: real,
    q: real,
    t: real,
    e: real,
) -> bool {
    &&& steady_within(c0, r0, c1, r1, p, d, q, t, e)
    &&& 2real * (d * e) + 2real * (part() * (d * size(t))) + 2real * speck() <= exact_radius(
        r0,
        r1,
        t,
    )
}

/// A circle that passes through a point is found: where the gap at a real parameter is none and
/// the parameter is clear of rounding by `e`, a parameter is computed, and it is not less than
/// that one by more than `e`. So none is computed only where there is no such parameter.
pub proof fn circles_through_a_point_are_found(
    c0: (Binary32, Binary32),
    r0: Binary32,
    c1: (Binary32, Binary32),
    r1: Binary32,
    p: (Binary32, Binary32),
    d: real,
    q: real,
    t: real,
    e: real,
)
    requires
        circles_within(c0, r0, c1, r1, p, d, q),
        d * q <= 4294967296real,
        circle_gap(c0, r0, c1, r1, p, t) == 0real,
        clear_by(c0, r0, c1, r1, p, d, q, t, e),
    ensures
        first_drawn(cone_parameters(c0, r0, c1, r1, p), r0, r1) is Some,
        ({
            let found = first_drawn(cone_parameters(c0, r0, c1, r1, p), r0, r1)->0;
            found.finite() && number(found) >= t - e
        }),
{
    let (a, b, c) = cone_coefficients(c0, r0, c1, r1, p);
    let (t0, t1) = computed_roots(c0, r0, c1, r1, p);
    let all = cone_parameters(c0, r0, c1, r1, p);
    lemma_computed_roots(c0, r0, c1, r1, p, d, q, t, e);
    lemma_near_coefficients(c0, r0, c1, r1, p, d, q);
    let (w, x) = (d * q, number(a));
    let near = if gap_slope(c0, r0, c1, r1, p, t) >= 0real {
        t0
    } else {
        t1
    };
    lemma_finite_terms(b.mul(b), Binary32(FOUR).mul(a).mul(c));
    lemma_finite_factors(b, b);
    let (dr, h) = (
        r1.sub(r0),
        p.0.sub(c0.0).mul(c1.0.sub(c0.0)).add(p.1.sub(c0.1).mul(c1.1.sub(c0.1))),
    );
    lemma_finite_factors(Binary32(TWO).neg(), h.add(r0.mul(dr)));
    lemma_finite_terms(h, r0.mul(dr));
    lemma_finite_factors(r0, dr);
    lemma_growth_in_range(dr, near, size(x), d, w);
    lemma_radius_kept(r0, r1, near, t, d, e);
    reveal_with_fuel(first_drawn, 3);
    assert(all.drop_first() =~= seq![all[1]]);
    lemma_number_order(t0, t1);
    lemma_number_order(t1, t0);
    assert(near == t0 || near == t1);
}

/// The computed roots of the equation of the circles.
spec fn computed_roots(
    c0: (Binary32, Binary32),
    r0: Binary32,
    c1: (Binary32, Binary32),
    r1: Binary32,
    p: (Binary32, Binary32),
) -> (Binary32, Binary32) {
    let (a, b, c) = cone_coefficients(c0, r0, c1, r1, p);
    let root = b.mul(b).sub(Binary32(FOUR).mul(a).mul(c)).sqrt();
    let den = Binary32(TWO).mul(a);
    (b.neg().add(root).div(den), b.neg().sub(root).div(den))
}

/// Where there is an exact root, there are two computed ones, and the one for the sign of the
/// slope is near the exact one.
proof fn lemma_computed_roots(
    c0: (Binary32, Binary32),
    r0: Binary32,
    c1: (Binary32, Binary32),
    r1: Binary32,
    p: (Binary32, Binary32),
    d: real,
    q: real,
    t: real,
    e: real,
)
    requires
        circles_within(c0, r0, c1, r1, p, d, q),
        d * q <= 4294967296real,
        circle_gap(c0, r0, c1, r1, p, t) == 0real,
        steady_within(c0, r0, c1, r1, p, d, q, t, e),
    ensures
        ({
            let all = cone_parameters(c0, r0, c1, r1, p);
            let (t0, t1) = computed_roots(c0, r0, c1, r1, p);
            let slope = gap_slope(c0, r0, c1, r1, p, t);
            let x = size(number(cone_coefficients(c0, r0, c1, r1, p).0));
            &&& t0.finite()
            &&& t1.finite()
            &&& all == seq![t0, t1] || all == seq![t1, t0]
            &&& number(all[1]) <= number(all[0])
            &&& slope != 0real
            &&& slope >= 0real ==> size(number(t0) - t) <= e
            &&& slope < 0real ==> size(number(t1) - t) <= e
            &&& x * size(number(t0)) <= 13real * (d * q)
            &&& x * size(number(t1)) <= 13real * (d * q)
        }),
{
    let (a, b, c) = cone_coefficients(c0, r0, c1, r1, p);
    let disc = b.mul(b).sub(Binary32(FOUR).mul(a).mul(c));
    let (root, den) = (disc.sqrt(), Binary32(TWO).mul(a));
    let (t0, t1) = (b.neg().add(root).div(den), b.neg().sub(root).div(den));
    assert((t0, t1) == computed_roots(c0, r0, c1, r1, p));
    let all = cone_parameters(c0, r0, c1, r1, p);
    lemma_values();
    lemma_limit_size();
    lemma_near_coefficients(c0, r0, c1, r1, p, d, q);
    let (dd, w, qq) = (d * d, d * q, q * q);
    let uu = w * w;
    let (x, y, z) = (number(a), number(b), number(c));
    let (ea, eb, ec) = exact_coefficients(c0, r0, c1, r1, p);
    lemma_discriminant(a, b, c, dd, w, qq, uu);
    lemma_gap_form(c0, r0, c1, r1, p, t);
    lemma_slope_form(c0, r0, c1, r1, p, t);
    let slope = gap_slope(c0, r0, c1, r1, p, t);
    let mu = size(slope);
    lemma_completed_square(ea, eb, ec, t);
    assert(ea * 0real == 0real);
    assert((-slope) * (-slope) == slope * slope) by (nonlinear_arith);
    assert(slope * slope == mu * mu);
    lemma_near_discriminants((x, ea), (y, eb), (z, ec), dd, w, qq, uu);
    lemma_part(uu);
    assert(uu > 0real) by (nonlinear_arith)
        requires
            uu == w * w,
            w > 0real,
    ;
    assert(mu != 0real) by {
        if mu == 0real {
            assert(mu * 0real == 0real);
        }
    }
    // The discriminant is not negative, so that there are roots.
    assert(number(disc) > 0real);
    lemma_number_order(Binary32(ZERO), disc);
    lemma_root(disc);
    let s = number(root);
    lemma_root_bound(s, number(disc), w, uu);
    lemma_root_near(s, mu, uu);
    lemma_finite_factors(Binary32(TWO), a);
    lemma_finite_terms(b.mul(b), Binary32(FOUR).mul(a).mul(c));
    lemma_finite_factors(b, b);
    lemma_negated(b);
    lemma_negated(root);
    lemma_spread(a, d, w);
    lemma_quotient_in_range(a, b.neg(), root, y, s, w);
    lemma_quotient_in_range(a, b.neg(), root.neg(), y, -s, w);
    lemma_part(size(-y + s));
    lemma_part(size(-y - s));
    lemma_solved(a, b.neg().add(root), s - y, w);
    lemma_solved(a, b.neg().sub(root), -s - y, w);
    lemma_part(2048real * uu + (128real * w + 32real * (dd * size(t))) * mu);
    assert(slope == 2real * (ea * t) + eb);
    if slope >= 0real {
        lemma_parameter_near(x, ea, y, eb, s, slope, number(t0), t, (dd, w, uu), e);
    } else {
        lemma_parameter_near(x, ea, y, eb, -s, slope, number(t1), t, (dd, w, uu), e);
    }
    assert(all == seq![t0, t1] || all == seq![t1, t0]);
    lemma_number_order(t0, t1);
    lemma_number_order(t1, t0);
}

/// What is found is near an exact parameter: where the gap at two real parameters is none, as the
/// point enters the circles at the one and leaves them at the other, what is found is near one of
/// them.
pub proof fn circles_that_are_found_are_exact(
    c0: (Binary32, Binary32),
    r0: Binary32,
    c1: (Binary32, Binary32),
    r1: Binary32,
    p: (Binary32, Binary32),
    d: real,
    q: real,
    t: real,
    u: real,
    e: real,
)
    requires
        circles_within(c0, r0, c1, r1, p, d, q),
        d * q <= 4294967296real,
        circle_gap(c0, r0, c1, r1, p, t) == 0real,
        circle_gap(c0, r0, c1, r1, p, u) == 0real,
        gap_slope(c0, r0, c1, r1, p, t) == -gap_slope(c0, r0, c1, r1, p, u),
        steady_within(c0, r0, c1, r1, p, d, q, t, e),
        steady_within(c0, r0, c1, r1, p, d, q, u, e),
    ensures
        match first_drawn(cone_parameters(c0, r0, c1, r1, p), r0, r1) {
            Some(found) => found.finite() && (size(number(found) - t) <= e || size(
                number(found) - u,
            ) <= e),
            None => true,
        },
{
    lemma_computed_roots(c0, r0, c1, r1, p, d, q, t, e);
    lemma_computed_roots(c0, r0, c1, r1, p, d, q, u, e);
    radial_parameter_is_the_largest(c0, r0, c1, r1, p);
}

/// Between concentric circles, the larger of which comes last, the parameter is how far from the
/// first circle to the last the distance of the point from the center is.
pub proof fn concentric_circles_measure_the_distance(
    c0: (Binary32, Binary32),
    r0: Binary32,
    c1: (Binary32, Binary32),
    r1: Binary32,
    p: (Binary32, Binary32),
    d: real,
    q: real,
    distance: real,
    e: real,
)
    requires
        circles_within(c0, r0, c1, r1, p, d, q),
        d * q <= 4294967296real,
        number(c1.0.sub(c0.0)) == 0real,
        number(c1.1.sub(c0.1)) == 0real,
        0real <= number(r0),
        0real < number(r1.sub(r0)),
        0real < distance,
        distance * distance == number(p.0.sub(c0.0)) * number(p.0.sub(c0.0)) + number(
            p.1.sub(c0.1),
        ) * number(p.1.sub(c0.1)),
        ({
            let dr = number(r1.sub(r0));
            &&& clear_by(c0, r0, c1, r1, p, d, q, (distance - number(r0)) / dr, e)
            &&& steady_within(c0, r0, c1, r1, p, d, q, (-distance - number(r0)) / dr, e)
        }),
    ensures
        first_drawn(cone_parameters(c0, r0, c1, r1, p), r0, r1) is Some,
        ({
            let found = first_drawn(cone_parameters(c0, r0, c1, r1, p), r0, r1)->0;
            &&& found.finite()
            &&& size(
                number(found) - (distance - number(r0)) / number(r1.sub(r0)),
            ) <= e
        }),
{
    let (r, dr) = (number(r0), number(r1.sub(r0)));
    let (t, u) = ((distance - r) / dr, (-distance - r) / dr);
    lemma_divided_back(distance - r, dr);
    lemma_divided_back(-distance - r, dr);
    lemma_concentric(c0, r0, c1, r1, p, t, distance);
    lemma_concentric(c0, r0, c1, r1, p, u, -distance);
    assert((-distance) * (-distance) == distance * distance) by (nonlinear_arith);
    lemma_distributes(0real, distance, dr);
    assert(0real - distance == -distance);
    lemma_cancelled(u, t, dr);
    circles_through_a_point_are_found(c0, r0, c1, r1, p, d, q, t, e);
    circles_that_are_found_are_exact(c0, r0, c1, r1, p, d, q, t, u, e);
}

/// The gap and its slope where the centers are the same.
proof fn lemma_concentric(
    c0: (Binary32, Binary32),
    r0: Binary32,
    c1: (Binary32, Binary32),
    r1: Binary32,
    p: (Binary32, Binary32),
    t: real,
    radius: real,
)
    requires
        number(c1.0.sub(c0.0)) == 0real,
        number(c1.1.sub(c0.1)) == 0real,
        t * number(r1.sub(r0)) == radius - number(r0),
    ensures
        circle_gap(c0, r0, c1, r1, p, t) == number(p.0.sub(c0.0)) * number(p.0.sub(c0.0)) + number(
            p.1.sub(c0.1),
        ) * number(p.1.sub(c0.1)) - radius * radius,
        gap_slope(c0, r0, c1, r1, p, t) == -(2real * (radius * number(r1.sub(r0)))),
{
    assert(t * 0real == 0real);
    let (x, y) = (number(p.0.sub(c0.0)), number(p.1.sub(c0.1)));
    assert(x * 0real == 0real);
    assert(y * 0real == 0real);
}

/// The slope by the exact coefficients.
proof fn lemma_slope_form(
    c0: (Binary32, Binary32),
    r0: Binary32,
    c1: (Binary32, Binary32),
    r1: Binary32,
    p: (Binary32, Binary32),
    t: real,
)
    ensures
        ({
            let (a, b, c) = exact_coefficients(c0, r0, c1, r1, p);
            gap_slope(c0, r0, c1, r1, p, t) == 2real * (a * t) + b
        }),
{
    let (dcx, dcy) = (number(c1.0.sub(c0.0)), number(c1.1.sub(c0.1)));
    let (dr, r) = (number(r1.sub(r0)), number(r0));
    let (px, py) = (number(p.0.sub(c0.0)), number(p.1.sub(c0.1)));
    lemma_slope_term(px, dcx, t);
    lemma_slope_term(py, dcy, t);
    lemma_slope_term(r, dr, t);
    let (x, y, z) = (dcx * dcx, dcy * dcy, dr * dr);
    lemma_distributes(x + y, z, t);
    lemma_distributes(x, y, t);
}

/// A term of the slope.
proof fn lemma_slope_term(x: real, y: real, t: real)
    ensures
        (x - t * y) * y == x * y - (y * y) * t,
        (x + t * y) * y == x * y + (y * y) * t,
{
    lemma_distributes(x, t * y, y);
    assert((t * y) * y == (y * y) * t) by (nonlinear_arith);
}

/// The discriminants of near equations are near.
proof fn lemma_near_discriminants(
    a: (real, real),
    b: (real, real),
    c: (real, real),
    dd: real,
    w: real,
    qq: real,
    uu: real,
)
    requires
        size(a.0) <= 4real * dd,
        size(a.1 - a.0) <= 12real * (dd / 16777216real),
        size(b.0) <= 9real * w,
        size(b.1 - b.0) <= 33real * (w / 16777216real),
        size(c.0) <= 4real * qq,
        size(c.1 - c.0) <= 12real * (qq / 16777216real),
        w * w == uu,
        dd * qq == uu,
        0real < w,
        0real < dd,
        0real < qq,
    ensures
        size(
            (b.0 * b.0 - 4real * (a.0 * c.0)) - (b.1 * b.1 - 4real * (a.1 * c.1)),
        ) <= 1100real * (uu / 16777216real),
{
    let (db, sb) = (b.1 - b.0, b.1 + b.0);
    lemma_distributes(b.1, b.0, sb);
    lemma_exchanged(b.1, sb);
    lemma_exchanged(b.0, sb);
    lemma_distributes(b.1, b.0, b.1);
    lemma_distributes(b.1, b.0, b.0);
    lemma_exchanged(b.1, b.0);
    assert(db * sb == b.1 * b.1 - b.0 * b.0);
    lemma_bounded_product(db, sb, 33real * (w / 16777216real), 19real * w);
    assert((33real * (w / 16777216real)) * (19real * w) == 627real * (uu / 16777216real))
        by (nonlinear_arith)
        requires
            uu == w * w,
    ;
    let (da, dc) = (a.1 - a.0, c.1 - c.0);
    lemma_distributes(a.1, a.0, c.1);
    lemma_exchanged(a.0, c.1);
    lemma_exchanged(a.0, c.0);
    lemma_distributes(c.1, c.0, a.0);
    assert(a.1 * c.1 - a.0 * c.0 == da * c.1 + dc * a.0);
    lemma_bounded_product(da, c.1, 12real * (dd / 16777216real), 5real * qq);
    lemma_bounded_product(dc, a.0, 12real * (qq / 16777216real), 4real * dd);
    assert((12real * (dd / 16777216real)) * (5real * qq) == 60real * (uu / 16777216real))
        by (nonlinear_arith)
        requires
            uu == dd * qq,
    ;
    assert((12real * (qq / 16777216real)) * (4real * dd) == 48real * (uu / 16777216real))
        by (nonlinear_arith)
        requires
            uu == dd * qq,
    ;
}

/// Roots of near squares are near.
proof fn lemma_root_near(s: real, mu: real, uu: real)
    requires
        0real <= s,
        0real < mu,
        size(s * s - mu * mu) <= 2000real * (uu / 16777216real),
    ensures
        size(s - mu) * mu <= 2000real * (uu / 16777216real),
{
    let (d, v) = (s - mu, s + mu);
    lemma_distributes(s, mu, v);
    lemma_exchanged(s, v);
    lemma_exchanged(mu, v);
    lemma_distributes(s, mu, s);
    lemma_distributes(s, mu, mu);
    lemma_exchanged(s, mu);
    assert(d * v == s * s - mu * mu);
    lemma_size_product(d, v);
    lemma_exchanged(size(d), mu);
    lemma_exchanged(size(d), v);
    lemma_times(mu, v, size(d));
}

/// The quotient of a root stays in range.
proof fn lemma_quotient_in_range(
    a: Binary32,
    m: Binary32,
    root: Binary32,
    y: real,
    s: real,
    w: real,
)
    requires
        a.finite(),
        m.finite(),
        root.finite(),
        Binary32(TWO).mul(a).finite(),
        number(m) == -y,
        number(root) == s,
        size(y) <= 9real * w,
        size(s) <= 13real * w,
        size(number(a)) * 1073741824real >= 1real,
        0real < w,
        w <= 4294967296real,
    ensures
        m.add(root).finite(),
        size(number(m.add(root)) - (s - y)) <= 22real * (w / 16777216real),
        m.add(root).div(Binary32(TWO).mul(a)).finite(),
{
    lemma_limit_size();
    lemma_four();
    lemma_two();
    lemma_sum_size(-y, s, 9real * w, 13real * w);
    lemma_part(size(-y + s));
    lemma_sum(m, root);
    let (num, den) = (m.add(root), Binary32(TWO).mul(a));
    lemma_finite_product(Binary32(TWO), a);
    let (x, f, k, v) = (number(a), number(Binary32(TWO)), number(num), number(den));
    assert(f * x == 2real * x);
    lemma_part(size(f * x));
    assert(size(v) * 1073741824real >= 1real);
    lemma_divided_back(k, v);
    let h = k / v;
    lemma_size_product(h, v);
    let (i, j) = (size(h), size(v));
    assert(size(k) <= 23real * w);
    lemma_exchanged(i, j);
    lemma_times(1real / 1073741824real, j, i);
    assert((1real / 1073741824real) * i <= 23real * w);
    lemma_quotient(num, den);
}

/// A computed parameter is near the exact one.
proof fn lemma_parameter_near(
    x: real,
    ea: real,
    y: real,
    eb: real,
    s: real,
    slope: real,
    n: real,
    t: real,
    sizes: (real, real, real),
    e: real,
)
    requires
        size(2real * (x * n) - (s - y)) <= 88real * (sizes.1 / 16777216real),
        slope == 2real * (ea * t) + eb,
        size(s - slope) * size(slope) <= 2000real * (sizes.2 / 16777216real),
        size(ea - x) <= 12real * (sizes.0 / 16777216real),
        size(eb - y) <= 33real * (sizes.1 / 16777216real),
        0real <= sizes.0,
        0real < sizes.1,
        0real < size(slope),
        0real < size(x),
        (2048real * sizes.2 + (128real * sizes.1 + 32real * (sizes.0 * size(t))) * size(slope))
            / 16777216real <= 2real * ((size(x) * e) * size(slope)),
        0real <= sizes.2,
    ensures
        size(n - t) <= e,
{
    let (dd, w, uu) = sizes;
    let (mu, g, y0) = (size(slope), ea - x, size(t));
    lemma_distributes(ea, x, t);
    lemma_size_product(g, t);
    lemma_times(size(g), 12real * (dd / 16777216real), y0);
    lemma_scaled_part(dd, y0);
    let part = dd / 16777216real;
    assert((12real * part) * y0 == 12real * (part * y0)) by (nonlinear_arith);
    lemma_exchanged(x, n);
    lemma_exchanged(x, t);
    lemma_distributes(n, t, x);
    let z = n - t;
    let k = 121real * (w / 16777216real) + 24real * ((dd * y0) / 16777216real);
    assert(size(2real * (z * x)) <= k + size(s - slope));
    lemma_size_product(z, x);
    let v = size(z) * size(x);
    lemma_times(2real * v, k + size(s - slope), mu);
    lemma_distributes(k, size(s - slope), mu);
    let l = 128real * w + 32real * (dd * y0);
    lemma_times(0real, dd, y0);
    lemma_times(k, l / 16777216real, mu);
    lemma_scaled_part(l, mu);
    assert((2real * v) * mu == 2real * (v * mu)) by (nonlinear_arith);
    assert(v * mu <= (size(x) * e) * mu);
    lemma_cancelled(v, size(x) * e, mu);
    lemma_exchanged(size(x), e);
    lemma_cancelled(size(z), e, size(x));
}

/// The growth of the radius up to a parameter stays in range.
proof fn lemma_growth_in_range(dr: Binary32, near: Binary32, a: real, d: real, w: real)
    requires
        dr.finite(),
        near.finite(),
        size(number(dr)) <= d,
        a * size(number(near)) <= 13real * w,
        a * 1073741824real >= 1real,
        d <= w,
        0real < w,
        w <= 4294967296real,
    ensures
        dr.mul(near).finite(),
{
    lemma_limit_size();
    let (x, y) = (size(number(dr)), size(number(near)));
    lemma_times(1real / 1073741824real, a, y);
    lemma_size_product(number(dr), number(near));
    let m = 13real * 1073741824real * 4294967296real;
    assert(y <= m);
    lemma_exchanged(x, y);
    lemma_bounded_product(number(dr), number(near), 4294967296real, m);
    lemma_product(dr, near);
}

/// The radius at a parameter near one where it is large enough is not negative.
proof fn lemma_radius_kept(
    r0: Binary32,
    r1: Binary32,
    near: Binary32,
    t: real,
    d: real,
    e: real,
)
    requires
        r0.finite(),
        near.finite(),
        r1.sub(r0).finite(),
        r1.sub(r0).mul(near).finite(),
        size(number(r1.sub(r0))) <= d,
        size(number(near) - t) <= e,
        2real * (d * e) + 2real * (part() * (d * size(t))) + 2real * speck() <= exact_radius(
            r0,
            r1,
            t,
        ),
    ensures
        Binary32(ZERO).at_most(radius_at(r0, r1, near)),
{
    lemma_values();
    let drf = r1.sub(r0);
    let (dr, n, g) = (number(drf), number(near), speck());
    lemma_finite_product(drf, near);
    let f = number(drf.mul(near));
    lemma_part(size(dr * n));
    lemma_part(d * size(t));
    lemma_exchanged(dr, n);
    lemma_distributes(n, t, dr);
    let z = n - t;
    lemma_size_product(z, dr);
    lemma_bounded_product(z, dr, e, d);
    lemma_exchanged(e, d);
    lemma_size_product(t, dr);
    lemma_bounded_product(t, dr, size(t), d);
    lemma_exchanged(size(t), d);
    let de = d * e;
    assert(de >= 0real) by {
        assert(size(z * dr) <= de);
    }
    assert(number(r0) + f >= 0real);
    lemma_sum_sign(r0, drf.mul(near));
}

/// The sum of numbers whose exact sum is not negative is not negative.
proof fn lemma_sum_sign(x: Binary32, y: Binary32)
    requires
        x.finite(),
        y.finite(),
        number(x) + number(y) >= 0real,
    ensures
        Binary32(ZERO).at_most(x.add(y)),
{
    lemma_values();
    lemma_add_value(x, y);
    lemma_scale(x);
    lemma_scale(y);
    let (a, b, u) = (number(x), number(y), unity() as real);
    lemma_distributes(a, b, u);
    lemma_times(0real, a + b, u);
    assert(x.value() + y.value() >= 0);
}

/// Whether a parameter is clear of rounding by `e` where the equation of the circles is linear.
pub open spec fn clear_of_touching_by(
    c0: (Binary32, Binary32),
    r0: Binary32,
    c1: (Binary32, Binary32),
    r1: Binary32,
    p: (Binary32, Binary32),
    d: real,
    q: real,
    t: real,
    e: real,
) -> bool {
    let b = cone_coefficients(c0, r0, c1, r1, p).1;
    &&& !b.abs().less(Binary32(BILLIONTH))
    &&& (t * t) / 268435456real + 64real * (part() * ((d * d) * (t * t) + (d * q) * size(t) + q
        * q)) <= e * size(number(b))
    &&& 2real * (d * e) + 2real * (part() * (d * size(t))) + 2real * speck() <= exact_radius(
        r0,
        r1,
        t,
    )
    &&& 0real <= e
}

/// Where the equation of the circles is linear, the circle that passes through a point is found,
/// and the parameter is near the exact one.
pub proof fn touching_circles_through_a_point_are_found(
    c0: (Binary32, Binary32),
    r0: Binary32,
    c1: (Binary32, Binary32),
    r1: Binary32,
    p: (Binary32, Binary32),
    d: real,
    q: real,
    t: real,
    e: real,
)
    requires
        touching_within(c0, r0, c1, r1, p, d, q),
        q <= 16777216real,
        d <= 65536real,
        circle_gap(c0, r0, c1, r1, p, t) == 0real,
        clear_of_touching_by(c0, r0, c1, r1, p, d, q, t, e),
    ensures
        first_drawn(cone_parameters(c0, r0, c1, r1, p), r0, r1) is Some,
        ({
            let found = first_drawn(cone_parameters(c0, r0, c1, r1, p), r0, r1)->0;
            found.finite() && size(number(found) - t) <= e
        }),
{
    let (a, b, c) = cone_coefficients(c0, r0, c1, r1, p);
    let all = cone_parameters(c0, r0, c1, r1, p);
    lemma_limit_size();
    lemma_linear_coefficients(c0, r0, c1, r1, p, d, q);
    let (dd, w, qq) = (d * d, d * q, q * q);
    let (ea, eb, ec) = exact_coefficients(c0, r0, c1, r1, p);
    lemma_gap_form(c0, r0, c1, r1, p, t);
    let near = c.neg().div(b);
    let (y, z) = (number(b), number(c));
    lemma_negated(c);
    lemma_times(q, 16777216real, q);
    assert(qq <= 281474976710656real);
    lemma_divided_back(-z, y);
    let h = (-z) / y;
    lemma_size_product(h, y);
    lemma_exchanged(size(h), size(y));
    lemma_times(1real / 1073741824real, size(y), size(h));
    assert(size(h) <= 4real * qq * 1073741824real);
    lemma_part(size(h));
    lemma_quotient(c.neg(), b);
    lemma_divided(b, c, qq);
    let n = number(near);
    assert(size(n) <= 9real * qq * 1073741824real);
    lemma_linear_near(ea, (y, eb), (z, ec), n, t, (dd, w, qq), e);
    let (dr, k) = (
        r1.sub(r0),
        p.0.sub(c0.0).mul(c1.0.sub(c0.0)).add(p.1.sub(c0.1).mul(c1.1.sub(c0.1))),
    );
    lemma_finite_factors(Binary32(TWO).neg(), k.add(r0.mul(dr)));
    lemma_finite_terms(k, r0.mul(dr));
    lemma_finite_factors(r0, dr);
    assert(size(n) <= 9real * 281474976710656real * 1073741824real);
    lemma_bounded_product(
        number(dr),
        n,
        65536real,
        9real * 281474976710656real * 1073741824real,
    );
    lemma_product(dr, near);
    lemma_radius_kept(r0, r1, near, t, d, e);
    assert(all == seq![near]);
    reveal_with_fuel(first_drawn, 2);
}

/// The solution of a linear equation is near the exact one.
proof fn lemma_linear_near(
    a: real,
    b: (real, real),
    c: (real, real),
    n: real,
    t: real,
    sizes: (real, real, real),
    e: real,
)
    requires
        a * (t * t) + b.1 * t + c.1 == 0real,
        size(a) <= 1real / 268435456real + 10real * (sizes.0 / 16777216real),
        size(b.0 * n + c.0) <= 8real * (sizes.2 / 16777216real),
        size(b.1 - b.0) <= 33real * (sizes.1 / 16777216real),
        size(c.1 - c.0) <= 12real * (sizes.2 / 16777216real),
        0real <= sizes.0,
        0real < sizes.1,
        1real <= sizes.2,
        (t * t) / 268435456real + 64real * (part() * (sizes.0 * (t * t) + sizes.1 * size(t)
            + sizes.2)) <= e * size(b.0),
        0real < size(b.0),
    ensures
        size(n - t) <= e,
{
    let (dd, w, qq) = sizes;
    let (tt, y) = (t * t, size(t));
    lemma_size_product(t, t);
    assert(tt >= 0real) by (nonlinear_arith)
        requires
            tt == t * t,
    ;
    let (k, f) = (1real / 268435456real, dd / 16777216real);
    lemma_bounded_product(a, tt, k + 10real * f, tt);
    lemma_distributes(k, 10real * f, tt);
    assert((10real * f) * tt == 10real * (f * tt)) by (nonlinear_arith);
    lemma_scaled_part(dd, tt);
    assert(k * tt == tt / 268435456real);
    let g = b.1 - b.0;
    lemma_distributes(b.1, b.0, t);
    let v = w / 16777216real;
    lemma_bounded_product(g, t, 33real * v, y);
    assert((33real * v) * y == 33real * (v * y)) by (nonlinear_arith);
    lemma_scaled_part(w, y);
    lemma_times(0real, dd, tt);
    lemma_times(0real, w, y);
    lemma_part(dd * tt + w * y + qq);
    let z = n - t;
    lemma_exchanged(b.0, n);
    lemma_exchanged(b.0, t);
    lemma_distributes(n, t, b.0);
    lemma_size_product(z, b.0);
    lemma_cancelled(size(z), e, size(b.0));
}

/// A circle that is found has a radius that is not negative, but for rounding.
pub proof fn circles_that_are_found_have_a_radius(
    c0: (Binary32, Binary32),
    r0: Binary32,
    c1: (Binary32, Binary32),
    r1: Binary32,
    p: (Binary32, Binary32),
)
    requires
        first_drawn(cone_parameters(c0, r0, c1, r1, p), r0, r1) is Some,
        radius_at(
            r0,
            r1,
            first_drawn(cone_parameters(c0, r0, c1, r1, p), r0, r1)->0,
        ).finite(),
    ensures
        ({
            let t = number(first_drawn(cone_parameters(c0, r0, c1, r1, p), r0, r1)->0);
            exact_radius(r0, r1, t) >= -(part() * size(t * number(r1.sub(r0))) + speck())
        }),
{
    let found = first_drawn(cone_parameters(c0, r0, c1, r1, p), r0, r1)->0;
    radial_parameter_is_the_largest(c0, r0, c1, r1, p);
    let dr = r1.sub(r0);
    let m = dr.mul(found);
    lemma_finite_terms(r0, m);
    lemma_finite_factors(dr, found);
    lemma_finite_product(dr, found);
    lemma_finite_sum(r0, m);
    lemma_values();
    lemma_number_order(Binary32(ZERO), r0.add(m));
    lemma_exchanged(number(dr), number(found));
    lemma_part(size(number(r0) + number(m)));
}

} // verus!
