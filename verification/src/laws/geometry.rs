//! What holds of points, transforms and the geometry of gradients, against exact real numbers.
use crate::accuracy::{lemma_exact_scaled, lemma_half_and_two, lemma_integer_exact};
use crate::affine::{transform_point, PaintTransform};
use crate::binary32::{integer, nearest_bits, units, unity, Binary32, INFINITE};
use crate::canvas::{coverage, sweep_direction, Canvas};
use crate::consts::HALF;
use crate::laws::inverses::{
    finite_transform, inverses_undo_transforms, invertible_within, lemma_bounded_product, lemma_row,
};
use crate::order::{lemma_add_value, lemma_values, rounded};
use crate::reals::{
    lemma_finite_difference, lemma_finite_factors, lemma_finite_product, lemma_finite_sum,
    lemma_finite_terms, lemma_negated, lemma_part, lemma_rounded_once, lemma_sum_error,
    lemma_sum_size, number, part, size, speck, within,
};
use crate::rounding::{lemma_units_binades, lemma_units_order};
use vstd::arithmetic::div_mod::lemma_fundamental_div_mod;
use vstd::arithmetic::power2::{
    lemma2_to64, lemma_pow2_adds, lemma_pow2_strictly_increases, lemma_pow2_unfold, pow2,
};
use vstd::prelude::*;

verus! {

/// Whether two numbers are the vertical and the horizontal part of the direction from a center to
/// a point, the vertical one turned upside down, each within a part in `2^24` of itself.
pub open spec fn points_from(
    center: (Binary32, Binary32),
    p: (Binary32, Binary32),
    v: Binary32,
    u: Binary32,
) -> bool {
    let (x, y) = (number(p.0) - number(center.0), number(center.1) - number(p.1));
    &&& size(number(u) - x) <= part() * size(x)
    &&& size(number(v) - y) <= part() * size(y)
}

/// The direction that an arc tangent is asked for is the one from the center to the point, turned
/// upside down, on every side of the center.
pub proof fn sweeps_look_from_the_center(center: (Binary32, Binary32), p: (Binary32, Binary32))
    requires
        center.0.finite(),
        center.1.finite(),
        p.0.finite(),
        p.1.finite(),
        sweep_direction(center, p).0.finite(),
        sweep_direction(center, p).1.finite(),
    ensures
        points_from(center, p, sweep_direction(center, p).0, sweep_direction(center, p).1),
{
    let (a, b) = (p.1.sub(center.1), p.0.sub(center.0));
    lemma_finite_difference(p.0, center.0);
    lemma_finite_difference(p.1, center.1);
    lemma_negated(a);
    lemma_part(size(number(p.1) - number(center.1)));
    lemma_part(size(number(center.1) - number(p.1)));
}

/// Points that lie opposite each other about a center are looked at in opposite directions.
pub proof fn opposite_points_have_opposite_directions(
    center: (Binary32, Binary32),
    p: (Binary32, Binary32),
    q: (Binary32, Binary32),
)
    requires
        center.0.finite(),
        center.1.finite(),
        p.0.finite(),
        p.1.finite(),
        q.0.finite(),
        q.1.finite(),
        p.0.value() - center.0.value() == center.0.value() - q.0.value(),
        p.1.value() - center.1.value() == center.1.value() - q.1.value(),
    ensures
        sweep_direction(center, p).0.value() == -sweep_direction(center, q).0.value(),
        sweep_direction(center, p).1.value() == -sweep_direction(center, q).1.value(),
{
    lemma_add_value(p.0, center.0.neg());
    lemma_add_value(p.1, center.1.neg());
    lemma_add_value(q.0, center.0.neg());
    lemma_add_value(q.1, center.1.neg());
}

/// The angle of a covered pixel is what the arc tangent gives for the direction from the center
/// to the point of the paint that the pixel shows.
pub proof fn sweeps_ask_for_the_direction_of_a_pixel<A: Fn(Binary32, Binary32) -> Binary32>(
    canvas: Canvas,
    center: (Binary32, Binary32),
    atan2: A,
    angles: Seq<Binary32>,
    p: int,
)
    requires
        canvas.angled(center, atan2, angles),
        0 <= p < canvas.area(),
        coverage(canvas.clips, p) != 0,
        center.0.finite(),
        center.1.finite(),
        canvas.paint_point(p).0.finite(),
        canvas.paint_point(p).1.finite(),
        sweep_direction(center, canvas.paint_point(p)).0.finite(),
        sweep_direction(center, canvas.paint_point(p)).1.finite(),
    ensures
        exists|v: Binary32, u: Binary32| #[trigger]
            points_from(center, canvas.paint_point(p), v, u) && call_ensures(
                atan2,
                (v, u),
                angles[p],
            ),
{
    let at = canvas.paint_point(p);
    sweeps_look_from_the_center(center, at);
    let (v, u) = sweep_direction(center, at);
    assert(call_ensures(atan2, sweep_direction(center, at), angles[p]));
    assert(points_from(center, at, v, u));
}

/// A transform takes a point to near where its coefficients say, wherever nothing leaves the
/// range of numbers. The coefficients are at most `m`, the offsets `q`, and the coordinates `r`,
/// which is at least one.
pub proof fn transforms_are_affine(
    t: PaintTransform,
    x: Binary32,
    y: Binary32,
    m: real,
    q: real,
    r: real,
)
    requires
        transform_point(&t, x, y).0.finite(),
        transform_point(&t, x, y).1.finite(),
        within(t.xx, m),
        within(t.yx, m),
        within(t.xy, m),
        within(t.yy, m),
        within(t.dx, q),
        within(t.dy, q),
        within(x, r),
        within(y, r),
    ensures
        ({
            let p = transform_point(&t, x, y);
            let slack = 16real * (part() * (m * r + q) + speck());
            &&& size(
                number(p.0) - (number(t.xx) * number(x) + number(t.xy) * number(y) + number(t.dx)),
            ) <= slack
            &&& size(
                number(p.1) - (number(t.yx) * number(x) + number(t.yy) * number(y) + number(t.dy)),
            ) <= slack
        }),
{
    lemma_affine(t.xx, x, t.xy, y, t.dx, m * r, q, m, r);
    lemma_affine(t.yx, x, t.yy, y, t.dy, m * r, q, m, r);
}

/// A row of a transform at a point.
proof fn lemma_affine(
    a: Binary32,
    x: Binary32,
    b: Binary32,
    y: Binary32,
    c: Binary32,
    k: real,
    q: real,
    m: real,
    r: real,
)
    requires
        a.mul(x).add(b.mul(y)).add(c).finite(),
        size(number(a)) <= m,
        size(number(b)) <= m,
        size(number(x)) <= r,
        size(number(y)) <= r,
        size(number(c)) <= q,
        k == m * r,
    ensures
        size(
            number(a.mul(x).add(b.mul(y)).add(c)) - (number(a) * number(x) + number(b) * number(y)
                + number(c)),
        ) <= 16real * (part() * (k + q) + speck()),
{
    lemma_bounded_product(number(a), number(x), m, r);
    lemma_bounded_product(number(b), number(y), m, r);
    lemma_row(a, x, b, y, c, 1real, k, q);
    lemma_part(k + q);
    assert(k + q >= 0real);
}

/// A local transform inside another is the two after each other: every coefficient and offset is
/// near that of the exact composition. The coefficients are at most `m` and the offsets `q`.
pub proof fn nested_transforms_compose(
    inner: PaintTransform,
    outer: PaintTransform,
    m: real,
    q: real,
)
    requires
        finite_transform(inner.then_outer(outer)),
        within(inner.xx, m),
        within(inner.yx, m),
        within(inner.xy, m),
        within(inner.yy, m),
        within(outer.xx, m),
        within(outer.yx, m),
        within(outer.xy, m),
        within(outer.yy, m),
        within(inner.dx, q),
        within(inner.dy, q),
        within(outer.dx, q),
        within(outer.dy, q),
    ensures
        ({
            let t = inner.then_outer(outer);
            let (a, b, c, d) = (
                number(outer.xx),
                number(outer.xy),
                number(outer.yx),
                number(outer.yy),
            );
            let slack = 16real * (part() * (m * m) + speck());
            let offset = 16real * (part() * (m * q + q) + speck());
            &&& size(number(t.xx) - (a * number(inner.xx) + b * number(inner.yx))) <= slack
            &&& size(number(t.xy) - (a * number(inner.xy) + b * number(inner.yy))) <= slack
            &&& size(number(t.yx) - (c * number(inner.xx) + d * number(inner.yx))) <= slack
            &&& size(number(t.yy) - (c * number(inner.xy) + d * number(inner.yy))) <= slack
            &&& size(
                number(t.dx) - (a * number(inner.dx) + b * number(inner.dy) + number(outer.dx)),
            ) <= offset
            &&& size(
                number(t.dy) - (c * number(inner.dx) + d * number(inner.dy) + number(outer.dy)),
            ) <= offset
        }),
{
    lemma_pair(outer.xx, inner.xx, outer.xy, inner.yx, m);
    lemma_pair(outer.xx, inner.xy, outer.xy, inner.yy, m);
    lemma_pair(outer.yx, inner.xx, outer.yy, inner.yx, m);
    lemma_pair(outer.yx, inner.xy, outer.yy, inner.yy, m);
    lemma_affine(outer.xx, inner.dx, outer.xy, inner.dy, outer.dx, m * q, q, m, q);
    lemma_affine(outer.yx, inner.dx, outer.yy, inner.dy, outer.dy, m * q, q, m, q);
}

/// A sum of two products.
proof fn lemma_pair(a: Binary32, x: Binary32, b: Binary32, y: Binary32, m: real)
    requires
        a.mul(x).add(b.mul(y)).finite(),
        size(number(a)) <= m,
        size(number(b)) <= m,
        size(number(x)) <= m,
        size(number(y)) <= m,
    ensures
        size(number(a.mul(x).add(b.mul(y))) - (number(a) * number(x) + number(b) * number(y)))
            <= 16real * (part() * (m * m) + speck()),
{
    let k = m * m;
    lemma_bounded_product(number(a), number(x), m, m);
    lemma_bounded_product(number(b), number(y), m, m);
    lemma_two_products(a, x, b, y, k);
    lemma_part(k);
}

/// A sum of two products in range is near the exact one.
pub proof fn lemma_two_products(a: Binary32, x: Binary32, b: Binary32, y: Binary32, k: real)
    requires
        a.mul(x).add(b.mul(y)).finite(),
        size(number(a) * number(x)) <= k,
        size(number(b) * number(y)) <= k,
    ensures
        size(number(a.mul(x).add(b.mul(y))) - (number(a) * number(x) + number(b) * number(y)))
            <= 5real * (k / 16777216real) + 3real * speck(),
        size(number(a.mul(x).add(b.mul(y)))) <= 3real * k + 4real * speck(),
{
    let (f, h) = (a.mul(x), b.mul(y));
    let (p, q, g) = (number(a) * number(x), number(b) * number(y), speck());
    lemma_finite_terms(f, h);
    lemma_finite_factors(a, x);
    lemma_finite_factors(b, y);
    lemma_finite_product(a, x);
    lemma_finite_product(b, y);
    lemma_finite_sum(f, h);
    lemma_part(size(p));
    lemma_part(size(q));
    lemma_part(size(number(f) + number(h)));
    let d = k / 16777216real + g;
    lemma_sum_error(number(f), number(h), p, q, d, d);
    lemma_sum_size(p, q, k, k);
    lemma_rounded_once(number(f.add(h)), number(f) + number(h), p + q, 2real * d, 2real * k);
}

/// A pixel shows the point of the paint that the current transform takes to the middle of the
/// pixel, up to rounding: half a pixel to the right of its column and below its row. The bounds
/// are those of undoing a transform.
pub proof fn pixels_show_what_lies_under_their_middle(
    canvas: Canvas,
    p: int,
    m: real,
    q: real,
    r: real,
)
    requires
        invertible_within(canvas.transform(), m, q),
        0 <= p < canvas.area(),
        canvas.width <= 0x0040_0000,
        canvas.height <= 0x0040_0000,
        canvas.width as int as real <= r,
        canvas.height as int as real <= r,
        1real <= r,
        ({
            let at = canvas.paint_point(p);
            let back = transform_point(&canvas.transform(), at.0, at.1);
            back.0.finite() && back.1.finite()
        }),
    ensures
        ({
            let (col, row) = (p % canvas.width as int, p / canvas.width as int);
            let at = canvas.paint_point(p);
            let back = transform_point(&canvas.transform(), at.0, at.1);
            let slack = 512real * (part() * (m * (m * (r + q))));
            let determinant = size(number(canvas.transform().determinant()));
            &&& size(number(back.0) - (col as real + 1real / 2real)) * determinant <= slack
            &&& size(number(back.1) - (row as real + 1real / 2real)) * determinant <= slack
        }),
{
    let w = canvas.width as int;
    let (col, row) = (p % w, p / w);
    lemma_place(p, w, canvas.height as int);
    lemma_middle(col as nat);
    lemma_middle(row as nat);
    let x = integer(false, col as nat).add(Binary32(HALF));
    let y = integer(false, row as nat).add(Binary32(HALF));
    inverses_undo_transforms(canvas.transform(), x, y, m, q, r);
}

/// The column and the row of a pixel.
proof fn lemma_place(p: int, w: int, h: int)
    requires
        0 <= p < w * h,
        0 <= w,
    ensures
        0 <= p % w < w,
        0 <= p / w < h,
{
    assert(w > 0) by (nonlinear_arith)
        requires
            0 <= p < w * h,
            0 <= w,
    ;
    lemma_fundamental_div_mod(p, w);
    let (x, y) = (p % w, p / w);
    assert(0 <= y < h) by (nonlinear_arith)
        requires
            p == w * y + x,
            0 <= x < w,
            0 <= p < w * h,
    ;
}

/// The middle of a pixel.
proof fn lemma_middle(n: nat)
    requires
        n < 0x0040_0000,
    ensures
        ({
            let x = integer(false, n).add(Binary32(HALF));
            &&& x.finite()
            &&& number(x) == n as int as real + 1real / 2real
        }),
{
    lemma_values();
    lemma_half_and_two();
    lemma_integer_exact(false, n);
    lemma_add_value(integer(false, n), Binary32(HALF));
    let (h, u) = (Binary32(HALF).value(), unity() as int);
    let x = integer(false, n).add(Binary32(HALF));
    // Twice the middle is a whole number of few bits, and so is the middle of halves.
    let k: nat = (2 * n + 1) as nat;
    assert(n * u + h == k * h) by (nonlinear_arith)
        requires
            2 * h == u,
            k == 2 * n + 1,
    ;
    lemma_halves(k);
    assert(x.value() == k * h);
    lemma_half_number(x, k as int);
    assert(k as int as real == 2real * (n as int as real) + 1real);
}

/// A number of halves of few bits rounds to itself.
proof fn lemma_halves(k: nat)
    requires
        k < 0x0100_0000,
    ensures
        rounded(k * Binary32(HALF).value() as nat, 1) == k * Binary32(HALF).value(),
        k * Binary32(HALF).value() < units(INFINITE as nat),
{
    lemma_values();
    lemma_half_and_two();
    lemma2_to64();
    lemma_pow2_unfold(149);
    lemma_exact_scaled(k, 148);
    assert(Binary32(HALF).value() == pow2(148));
    lemma_units_binades(0x0080_0000, 254);
    lemma_pow2_adds(23, 254);
    lemma_pow2_adds(24, 148);
    lemma_pow2_strictly_increases(172, 277);
    let p = pow2(148) as int;
    assert(k * p < 0x0100_0000 * p) by (nonlinear_arith)
        requires
            k < 0x0100_0000,
            p > 0,
    ;
    lemma_units_order(nearest_bits(k * pow2(148), 1), INFINITE as nat);
}

/// A number of halves.
proof fn lemma_half_number(x: Binary32, k: int)
    requires
        !x.nan(),
        x.value() == k * Binary32(HALF).value(),
        0 <= k,
        x.value() < units(INFINITE as nat),
    ensures
        x.finite(),
        number(x) == (k as real) / 2real,
{
    lemma_values();
    lemma_half_and_two();
    assert(units(0) == 0);
    lemma_units_order(x.magnitude(), INFINITE as nat);
    lemma_units_order(INFINITE as nat, x.magnitude());
    let (h, u) = (Binary32(HALF).value(), unity() as int);
    assert(k * h >= 0) by (nonlinear_arith)
        requires
            k >= 0,
            2 * h == u,
            u > 0,
    ;
    let (kr, ur, v) = (k as real, u as real, x.value() as real);
    assert(2 * (k * h) == k * u) by (nonlinear_arith)
        requires
            2 * h == u,
    ;
    assert((k * u) as real == kr * ur) by (nonlinear_arith)
        requires
            kr == k as real,
            ur == u as real,
    ;
    assert(v / ur == kr / 2real) by (nonlinear_arith)
        requires
            2real * v == kr * ur,
            ur > 0real,
    ;
}

/// A local transform that is pushed onto a canvas applies before the one that was current: its
/// coefficients are those of the local ones taken by the current ones.
pub proof fn pushed_transforms_apply_first(
    canvas: Canvas,
    local: PaintTransform,
    m: real,
    q: real,
)
    requires
        finite_transform(canvas.transformed(local).transform()),
        within(local.xx, m),
        within(local.yx, m),
        within(local.xy, m),
        within(local.yy, m),
        within(canvas.transform().xx, m),
        within(canvas.transform().yx, m),
        within(canvas.transform().xy, m),
        within(canvas.transform().yy, m),
        within(local.dx, q),
        within(local.dy, q),
        within(canvas.transform().dx, q),
        within(canvas.transform().dy, q),
    ensures
        ({
            let (t, outer) = (canvas.transformed(local).transform(), canvas.transform());
            let (a, b, c, d) = (
                number(outer.xx),
                number(outer.xy),
                number(outer.yx),
                number(outer.yy),
            );
            let slack = 16real * (part() * (m * m) + speck());
            let offset = 16real * (part() * (m * q + q) + speck());
            &&& size(number(t.xx) - (a * number(local.xx) + b * number(local.yx))) <= slack
            &&& size(number(t.xy) - (a * number(local.xy) + b * number(local.yy))) <= slack
            &&& size(number(t.yx) - (c * number(local.xx) + d * number(local.yx))) <= slack
            &&& size(number(t.yy) - (c * number(local.xy) + d * number(local.yy))) <= slack
            &&& size(
                number(t.dx) - (a * number(local.dx) + b * number(local.dy) + number(outer.dx)),
            ) <= offset
            &&& size(
                number(t.dy) - (c * number(local.dx) + d * number(local.dy) + number(outer.dy)),
            ) <= offset
        }),
{
    nested_transforms_compose(local, canvas.transform(), m, q);
    assert(canvas.transformed(local).transform() == local.then_outer(canvas.transform()));
}

} // verus!
