//! What holds of the circles of a radial gradient.
use crate::accuracy::lemma_half_and_two;
use crate::binary32::{nearest_bits, units, unity, whole_root, Binary32, INFINITE};
use crate::consts::{BILLIONTH, FOUR, TWO, ZERO};
use crate::gradient::cone_parameters;
use crate::laws::arithmetic::{lemma_root_finite, lemma_root_size};
use crate::laws::inverses::lemma_negligible;
use crate::laws::luminosities::lemma_guard;
use crate::laws::sweeps::lemma_billionth;
use crate::order::{lemma_values, rounded};
use crate::reals::{
    lemma_absolute_number, lemma_finite_difference, lemma_finite_dividend, lemma_finite_factors,
    lemma_finite_product, lemma_finite_quotient, lemma_finite_sum, lemma_finite_terms,
    lemma_negated, lemma_number_order, lemma_part, lemma_rounded_error, lemma_rounded_once,
    lemma_scale, lemma_size_product, lemma_sum_error, lemma_sum_size, lemma_two, number, part, size,
    speck,
};
use crate::rounding::{lemma_root_exists, lemma_units_binades, lemma_units_order};
use vstd::arithmetic::power2::{lemma2_to64, lemma_pow2_adds, lemma_pow2_unfold};
use vstd::prelude::*;

verus! {

/// The coefficients of the equation of the circles, as they are computed.
pub open spec fn cone_coefficients(
    c0: (Binary32, Binary32),
    r0: Binary32,
    c1: (Binary32, Binary32),
    r1: Binary32,
    p: (Binary32, Binary32),
) -> (Binary32, Binary32, Binary32) {
    let (dcx, dcy) = (c1.0.sub(c0.0), c1.1.sub(c0.1));
    let dr = r1.sub(r0);
    let (px, py) = (p.0.sub(c0.0), p.1.sub(c0.1));
    (
        dcx.mul(dcx).add(dcy.mul(dcy)).sub(dr.mul(dr)),
        Binary32(TWO).neg().mul(px.mul(dcx).add(py.mul(dcy)).add(r0.mul(dr))),
        px.mul(px).add(py.mul(py)).sub(r0.mul(r0)),
    )
}

/// By how much the square of the distance of a point from the center of the circle at a
/// parameter exceeds the square of its radius.
pub open spec fn circle_gap(
    c0: (Binary32, Binary32),
    r0: Binary32,
    c1: (Binary32, Binary32),
    r1: Binary32,
    p: (Binary32, Binary32),
    t: real,
) -> real {
    let (dcx, dcy) = (number(c1.0.sub(c0.0)), number(c1.1.sub(c0.1)));
    let dr = number(r1.sub(r0));
    let x = number(p.0.sub(c0.0)) - t * dcx;
    let y = number(p.1.sub(c0.1)) - t * dcy;
    let r = number(r0) + t * dr;
    x * x + y * y - r * r
}

/// Whether the equation of the circles is quadratic and its solution leaves the range of numbers
/// nowhere, the circles differ by at most `d` in their centers along each axis and in their
/// radii, and the point is at most `q` from the first center along each axis, which is at least
/// one and not less than the first radius.
pub open spec fn circles_within(
    c0: (Binary32, Binary32),
    r0: Binary32,
    c1: (Binary32, Binary32),
    r1: Binary32,
    p: (Binary32, Binary32),
    d: real,
    q: real,
) -> bool {
    let (a, b, c) = cone_coefficients(c0, r0, c1, r1, p);
    &&& !a.abs().less(Binary32(BILLIONTH))
    &&& Binary32(TWO).mul(a).finite()
    &&& b.mul(b).sub(Binary32(FOUR).mul(a).mul(c)).finite()
    &&& size(number(c1.0.sub(c0.0))) <= d
    &&& size(number(c1.1.sub(c0.1))) <= d
    &&& size(number(r1.sub(r0))) <= d
    &&& size(number(p.0.sub(c0.0))) <= q
    &&& size(number(p.1.sub(c0.1))) <= q
    &&& size(number(r0)) <= q
    &&& 1real <= q
}

/// The bound on how far a point lies from the circle at a parameter, counted in squares of
/// distances, times the leading coefficient: 2048 parts in `2^24`.
pub open spec fn circle_slack(d: real, q: real, t: real) -> real {
    2048real * (part() * ((d * q) * (d * q) + (d * d) * ((d * q) * size(t))))
}

/// A point lies on the circle at every parameter that is computed for it, but for rounding:
/// where the equation is quadratic and nothing leaves the range of numbers.
pub proof fn points_lie_on_their_circles(
    c0: (Binary32, Binary32),
    r0: Binary32,
    c1: (Binary32, Binary32),
    r1: Binary32,
    p: (Binary32, Binary32),
    t: Binary32,
    d: real,
    q: real,
)
    requires
        circles_within(c0, r0, c1, r1, p, d, q),
        cone_parameters(c0, r0, c1, r1, p).contains(t),
        t.finite(),
    ensures
        size(circle_gap(c0, r0, c1, r1, p, number(t))) * size(
            number(cone_coefficients(c0, r0, c1, r1, p).0),
        ) <= circle_slack(d, q, number(t)),
{
    let (a, b, c) = cone_coefficients(c0, r0, c1, r1, p);
    let disc = b.mul(b).sub(Binary32(FOUR).mul(a).mul(c));
    let (root, den) = (disc.sqrt(), Binary32(TWO).mul(a));
    let (t0, t1) = (b.neg().add(root).div(den), b.neg().sub(root).div(den));
    let all = cone_parameters(c0, r0, c1, r1, p);
    lemma_values();
    assert(all == seq![t0, t1] || all == seq![t1, t0] || disc.less(Binary32(ZERO)));
    assert(t == t0 || t == t1);
    assert(disc.value() >= 0);
    lemma_near_coefficients(c0, r0, c1, r1, p, d, q);
    let (dd, w, qq) = (d * d, d * q, q * q);
    let uu = w * w;
    let (x, y, z) = (number(a), number(b), number(c));
    lemma_discriminant(a, b, c, dd, w, qq, uu);
    lemma_root(disc);
    let s = number(root);
    lemma_root_bound(s, number(disc), w, uu);
    lemma_finite_factors(Binary32(TWO), a);
    lemma_finite_terms(b.mul(b), Binary32(FOUR).mul(a).mul(c));
    lemma_finite_factors(b, b);
    lemma_negated(b);
    lemma_spread(a, d, w);
    let v: real = if t == t0 {
        lemma_finite_dividend(b.neg().add(root), den);
        lemma_finite_sum(b.neg(), root);
        lemma_part(size(-y + s));
        lemma_solved(a, b.neg().add(root), s - y, w);
        s
    } else {
        lemma_finite_dividend(b.neg().sub(root), den);
        lemma_finite_difference(b.neg(), root);
        lemma_part(size(-y - s));
        lemma_solved(a, b.neg().sub(root), -s - y, w);
        assert((-s) * (-s) == s * s) by (nonlinear_arith);
        -s
    };
    let n = number(t);
    assert(size(s * s - (y * y - 4real * (x * z))) <= 823real * (uu / 16777216real));
    lemma_residual(x, y, z, n, v, w, uu);
    let (ea, eb, ec) = exact_coefficients(c0, r0, c1, r1, p);
    lemma_exact_residual((x, ea), (y, eb), (z, ec), n, dd, w, qq, uu);
    lemma_gap_form(c0, r0, c1, r1, p, n);
}

/// Whether the equation of the circles is linear, its solution leaves the range of numbers
/// nowhere, and the circles and the point are within the bounds.
pub open spec fn touching_within(
    c0: (Binary32, Binary32),
    r0: Binary32,
    c1: (Binary32, Binary32),
    r1: Binary32,
    p: (Binary32, Binary32),
    d: real,
    q: real,
) -> bool {
    let (a, b, c) = cone_coefficients(c0, r0, c1, r1, p);
    &&& a.abs().less(Binary32(BILLIONTH))
    &&& a.finite()
    &&& b.finite()
    &&& c.finite()
    &&& size(number(c1.0.sub(c0.0))) <= d
    &&& size(number(c1.1.sub(c0.1))) <= d
    &&& size(number(r1.sub(r0))) <= d
    &&& size(number(p.0.sub(c0.0))) <= q
    &&& size(number(p.1.sub(c0.1))) <= q
    &&& size(number(r0)) <= q
    &&& 1real <= q
}

/// Where the leading coefficient counts as none, so that the equation is solved as a linear one,
/// a point lies on the circle at the parameter but for rounding and for what was left out.
pub proof fn points_lie_on_touching_circles(
    c0: (Binary32, Binary32),
    r0: Binary32,
    c1: (Binary32, Binary32),
    r1: Binary32,
    p: (Binary32, Binary32),
    t: Binary32,
    d: real,
    q: real,
)
    requires
        touching_within(c0, r0, c1, r1, p, d, q),
        cone_parameters(c0, r0, c1, r1, p).contains(t),
        t.finite(),
    ensures
        size(circle_gap(c0, r0, c1, r1, p, number(t))) <= (number(t) * number(t)) / 268435456real
            + 64real * (part() * ((d * d) * (number(t) * number(t)) + (d * q) * size(number(t)) + q
            * q)),
{
    let (a, b, c) = cone_coefficients(c0, r0, c1, r1, p);
    assert(!b.abs().less(Binary32(BILLIONTH)));
    assert(t == c.neg().div(b));
    let (dd, w, qq) = (d * d, d * q, q * q);
    lemma_linear_coefficients(c0, r0, c1, r1, p, d, q);
    lemma_divided(b, c, qq);
    let (ea, eb, ec) = exact_coefficients(c0, r0, c1, r1, p);
    let n = number(t);
    lemma_gap_form(c0, r0, c1, r1, p, n);
    lemma_linear_residual(ea, (number(b), eb), (number(c), ec), n, dd, w, qq);
}

/// The computed coefficients of a linear equation are near the exact ones.
pub proof fn lemma_linear_coefficients(
    c0: (Binary32, Binary32),
    r0: Binary32,
    c1: (Binary32, Binary32),
    r1: Binary32,
    p: (Binary32, Binary32),
    d: real,
    q: real,
)
    requires
        touching_within(c0, r0, c1, r1, p, d, q),
        !cone_coefficients(c0, r0, c1, r1, p).1.abs().less(Binary32(BILLIONTH)),
    ensures
        ({
            let (a, b, c) = cone_coefficients(c0, r0, c1, r1, p);
            let (ea, eb, ec) = exact_coefficients(c0, r0, c1, r1, p);
            let (dd, w, qq) = (d * d, d * q, q * q);
            &&& size(ea) <= 1real / 268435456real + 10real * (dd / 16777216real)
            &&& size(number(b)) * 1073741824real >= 1real
            &&& size(eb - number(b)) <= 33real * (w / 16777216real)
            &&& size(number(c)) <= 4real * qq
            &&& size(ec - number(c)) <= 12real * (qq / 16777216real)
            &&& 0real <= dd
            &&& 0real < w
            &&& 1real <= qq
        }),
{
    let (a, b, c) = cone_coefficients(c0, r0, c1, r1, p);
    let (dcx, dcy) = (c1.0.sub(c0.0), c1.1.sub(c0.1));
    let (dr, g) = (r1.sub(r0), speck());
    let (px, py) = (p.0.sub(c0.0), p.1.sub(c0.1));
    let h = px.mul(dcx).add(py.mul(dcy)).add(r0.mul(dr));
    lemma_values();
    lemma_finite_factors(Binary32(TWO).neg(), h);
    lemma_part(0real);
    let (dd, w, qq) = (d * d, d * q, q * q);
    let (x, y, z) = (number(dcx), number(dcy), number(dr));
    let (e, f, r) = (number(px), number(py), number(r0));
    lemma_bounded_product(x, x, d, d);
    lemma_bounded_product(y, y, d, d);
    lemma_bounded_product(z, z, d, d);
    lemma_bounded_product(e, x, q, d);
    lemma_bounded_product(f, y, q, d);
    lemma_bounded_product(r, z, q, d);
    assert(q * d == d * q) by (nonlinear_arith);
    lemma_bounded_product(e, e, q, q);
    lemma_bounded_product(f, f, q, q);
    lemma_bounded_product(r, r, q, q);
    lemma_form_less((dcx, dcx), (dcy, dcy), (dr, dr), dd);
    lemma_form((px, dcx), (py, dcy), (r0, dr), w);
    lemma_form_less((px, px), (py, py), (r0, r0), qq);
    lemma_guard(a);
    lemma_billionth();
    lemma_absolute_number(b);
    lemma_number_order(Binary32(BILLIONTH), b.abs());
    lemma_number_order(b.abs(), Binary32(BILLIONTH));
    assert(size(number(b)) * 1073741824real >= 1real);
    lemma_broad(h, w);
    assert(qq >= 1real) by (nonlinear_arith)
        requires
            qq == q * q,
            1real <= q,
    ;
    lemma_settled(number(h), e * x, f * y, r * z, w, g);
    lemma_settled(number(c), e * e, f * f, -(r * r), qq, g);
    lemma_middle(h, w, e * x + f * y + r * z);
}

/// A middle coefficient that is not next to nothing is of circles that are not so.
pub proof fn lemma_broad(h: Binary32, w: real)
    requires
        Binary32(TWO).neg().mul(h).finite(),
        size(number(Binary32(TWO).neg().mul(h))) * 1073741824real >= 1real,
        size(number(h)) <= 4real * w + 8real * speck(),
    ensures
        8real * speck() <= w / 16777216real,
        0real < w,
{
    lemma_four();
    lemma_two();
    lemma_negated(Binary32(TWO));
    let m = Binary32(TWO).neg();
    lemma_finite_factors(m, h);
    lemma_finite_product(m, h);
    let (f, x) = (number(m), number(h));
    assert(f * x == -(2real * x)) by (nonlinear_arith)
        requires
            f == -2real,
    ;
    lemma_part(size(f * x));
}

/// The solution of a linear equation.
pub proof fn lemma_divided(b: Binary32, c: Binary32, qq: real)
    requires
        b.finite(),
        c.finite(),
        c.neg().div(b).finite(),
        size(number(b)) * 1073741824real >= 1real,
        size(number(c)) <= 4real * qq,
        1real <= qq,
    ensures
        size(number(b) * number(c.neg().div(b)) + number(c)) <= 8real * (qq / 16777216real),
{
    lemma_negated(c);
    lemma_finite_quotient(c.neg(), b);
    lemma_negligible(b);
    let (m, k, t) = (number(b), -number(c), number(c.neg().div(b)));
    let h = k / m;
    let (e, g) = (part(), speck());
    assert(h * m == k) by (nonlinear_arith)
        requires
            h == k / m,
            m != 0real,
    ;
    lemma_size_product(h, m);
    lemma_size_product(t - h, m);
    assert((t - h) * m == m * t - h * m) by (nonlinear_arith);
    let (i, j) = (size(t - h), size(m));
    assert(i * j <= e * (size(h) * j) + g * j) by (nonlinear_arith)
        requires
            i <= e * size(h) + g,
            j >= 0real,
    ;
    lemma_part(size(k));
}

/// What the solution of the linear equation leaves of the quadratic one.
proof fn lemma_linear_residual(
    a: real,
    b: (real, real),
    c: (real, real),
    t: real,
    dd: real,
    w: real,
    qq: real,
)
    requires
        size(a) <= 1real / 268435456real + 10real * (dd / 16777216real),
        size(b.0 * t + c.0) <= 8real * (qq / 16777216real),
        size(b.1 - b.0) <= 33real * (w / 16777216real),
        size(c.1 - c.0) <= 12real * (qq / 16777216real),
        0real <= dd,
        0real < w,
        1real <= qq,
    ensures
        size(a * (t * t) + b.1 * t + c.1) <= (t * t) / 268435456real + 64real * (part() * (dd * (t
            * t) + w * size(t) + qq)),
{
    let (tt, y, db) = (t * t, size(t), b.1 - b.0);
    assert(tt >= 0real) by (nonlinear_arith)
        requires
            tt == t * t,
    ;
    let k = 1real / 268435456real + 10real * (dd / 16777216real);
    lemma_bounded_product(a, tt, k, tt);
    assert(k * tt == tt / 268435456real + 10real * ((dd * tt) / 16777216real)) by (nonlinear_arith)
        requires
            k == 1real / 268435456real + 10real * (dd / 16777216real),
    ;
    lemma_bounded_product(db, t, 33real * (w / 16777216real), y);
    assert((33real * (w / 16777216real)) * y == 33real * ((w * y) / 16777216real))
        by (nonlinear_arith);
    assert(b.1 * t == b.0 * t + db * t) by (nonlinear_arith)
        requires
            db == b.1 - b.0,
    ;
    let (f, h) = (dd * tt, w * y);
    assert(f >= 0real) by (nonlinear_arith)
        requires
            f == dd * tt,
            dd >= 0real,
            tt >= 0real,
    ;
    assert(h >= 0real) by (nonlinear_arith)
        requires
            h == w * y,
            w > 0real,
            y >= 0real,
    ;
    lemma_part(f + h + qq);
}

/// The square of a number that is near one whose square is near another.
proof fn lemma_near_square(r: real, n: real, x: real)
    requires
        0real < n,
        size(r - n) <= n / 16777216real,
        size(n * n - x) <= (n * n) / 1073741824real,
    ensures
        size(r * r - x) <= 3real * (x / 16777216real),
{
    let (d, s) = (r - n, r + n);
    assert(r * r - n * n == d * s) by (nonlinear_arith)
        requires
            d == r - n,
            s == r + n,
    ;
    let m = n * n;
    assert(d * s <= (n / 16777216real) * (3real * n) && -(d * s) <= (n / 16777216real) * (3real
        * n)) by (nonlinear_arith)
        requires
            d <= n / 16777216real,
            -d <= n / 16777216real,
            0real <= s,
            s <= 3real * n,
            0real < n,
    ;
    let w = 2real * n + n / 16777216real;
    assert(d * s <= (n / 16777216real) * w && -(d * s) <= (n / 16777216real) * w)
        by (nonlinear_arith)
        requires
            d <= n / 16777216real,
            -d <= n / 16777216real,
            0real <= s,
            s <= w,
            0real < n,
    ;
    assert((n / 16777216real) * w == 2real * (m / 16777216real) + (m / 16777216real)
        / 16777216real) by (nonlinear_arith)
        requires
            m == n * n,
            w == 2real * n + n / 16777216real,
    ;
    assert(m > 0real) by (nonlinear_arith)
        requires
            m == n * n,
            n > 0real,
    ;
}

/// The square of a square root is near the number.
pub proof fn lemma_root(x: Binary32)
    requires
        x.finite(),
        x.value() >= 0,
    ensures
        x.sqrt().finite(),
        number(x.sqrt()) >= 0real,
        size(number(x.sqrt()) * number(x.sqrt()) - number(x)) <= 3real * (number(x) / 16777216real),
{
    reveal(Binary32::spec_sqrt);
    lemma_values();
    lemma_scale(x);
    lemma_scale(x.sqrt());
    assert(units(0) == 0);
    lemma_units_order(0, x.magnitude());
    let ur = unity() as real;
    if x.value() == 0 {
        assert(x.zero());
        let z = number(x);
        assert(z == 0real) by (nonlinear_arith)
            requires
                z * ur == 0real,
                ur > 0real,
        ;
        assert(z * z == 0real) by (nonlinear_arith)
            requires
                z == 0real,
        ;
    } else {
        assert(!x.zero() && !x.negative());
        let square = units(x.magnitude()) * unity();
        let root = whole_root(square);
        lemma_root_exists(square);
        lemma_root_size(x);
        let (n, d): (nat, nat) = if root * root == square {
            (root, 1)
        } else {
            (2 * root + 1, 2)
        };
        lemma_pow2_unfold(214);
        lemma_root_finite(n, d);
        let bits = nearest_bits(n, d);
        lemma_units_order(bits, INFINITE as nat);
        lemma_rounded_error(n, d);
        let r = x.sqrt().value();
        assert(r == rounded(n, d));
        let (nr, rr, sr) = (n as int as real, (r * d) as real, (square * d * d) as int as real);
        assert(size(rr - nr) <= nr / 16777216real);
        lemma_root_gap(root, square);
        assert(size(nr * nr - sr) <= (nr * nr) / 1073741824real) by {
            assert((n * n) as int as real == nr * nr) by (nonlinear_arith)
                requires
                    nr == n as int as real,
            ;
        }
        lemma_near_square(rr, nr, sr);
        lemma_scaled_root(number(x.sqrt()), number(x), r, units(x.magnitude()) as int, d as int);
    }
}

/// How far the square of twice a whole root and one is from four times the number.
proof fn lemma_root_gap(root: nat, square: nat)
    requires
        root * root <= square,
        square < (root + 1) * (root + 1),
        0x1_0000_0000 <= root,
    ensures
        ({
            let n = 2 * root + 1;
            &&& ((n * n) - (square * 2 * 2)) * 0x4000_0000 <= n * n
            &&& ((square * 2 * 2) - (n * n)) * 0x4000_0000 <= n * n
        }),
{
    let r = root as int;
    let n = 2 * r + 1;
    assert(n * n == 4 * (r * r) + 4 * r + 1) by (nonlinear_arith)
        requires
            n == 2 * r + 1,
    ;
    assert((r + 1) * (r + 1) == r * r + 2 * r + 1) by (nonlinear_arith);
    assert((4 * r + 3) * 0x4000_0000 <= 4 * (r * r)) by (nonlinear_arith)
        requires
            r >= 0x1_0000_0000,
    ;
}

/// A square root and its number, out of units.
proof fn lemma_scaled_root(a: real, b: real, r: int, v: int, d: int)
    requires
        a * (unity() as real) == r as real,
        b * (unity() as real) == v as real,
        d == 1 || d == 2,
        r >= 0,
        size(
            (r * d) as real * (r * d) as real - (v * unity() * d * d) as real,
        ) <= 3real * ((v * unity() * d * d) as real / 16777216real),
    ensures
        a >= 0real,
        size(a * a - b) <= 3real * (b / 16777216real),
{
    lemma_values();
    let (u, ui) = (unity() as real, unity() as int);
    let (rr, vr, dr) = (r as real, v as real, d as real);
    assert((r * d) as real == rr * dr) by (nonlinear_arith)
        requires
            rr == r as real,
            dr == d as real,
    ;
    let k = v * ui;
    assert(k as real == vr * u) by (nonlinear_arith)
        requires
            k == v * ui,
            vr == v as real,
            u == ui as real,
    ;
    let kr = k as real;
    assert((k * d * d) as real == kr * dr * dr) by (nonlinear_arith)
        requires
            kr == k as real,
            dr == d as real,
    ;
    let w = u * u;
    assert(rr * rr == (a * a) * w) by (nonlinear_arith)
        requires
            a * u == rr,
            w == u * u,
    ;
    assert(kr == b * w) by (nonlinear_arith)
        requires
            b * u == vr,
            kr == vr * u,
            w == u * u,
    ;
    assert(w > 0real) by (nonlinear_arith)
        requires
            w == u * u,
            u > 0real,
    ;
    let f = rr * rr;
    assert((rr * dr) * (rr * dr) == f * (dr * dr)) by (nonlinear_arith)
        requires
            f == rr * rr,
    ;
    assert(kr * dr * dr == kr * (dr * dr)) by (nonlinear_arith);
    let e = dr * dr;
    assert(e == 1real || e == 4real) by (nonlinear_arith)
        requires
            e == dr * dr,
            dr == 1real || dr == 2real,
    ;
    let (fe, ke) = (f * e, kr * e);
    assert(e == 1real ==> fe == f && ke == kr) by (nonlinear_arith)
        requires
            fe == f * e,
            ke == kr * e,
    ;
    assert(e == 4real ==> fe == 4real * f && ke == 4real * kr) by (nonlinear_arith)
        requires
            fe == f * e,
            ke == kr * e,
    ;
    assert(size(f - kr) <= 3real * (kr / 16777216real));
    let g = a * a;
    assert(g - b <= 3real * (b / 16777216real) && b - g <= 3real * (b / 16777216real))
        by (nonlinear_arith)
        requires
            f == g * w,
            kr == b * w,
            f - kr <= 3real * (kr / 16777216real),
            kr - f <= 3real * (kr / 16777216real),
            w > 0real,
    ;
    assert(a >= 0real) by (nonlinear_arith)
        requires
            a * u == rr,
            rr >= 0real,
            u > 0real,
    ;
}

/// Three rounded products together.
proof fn lemma_form_errors(
    z: real,
    u: real,
    f: (real, real),
    h: (real, real),
    w: (real, real),
    k: real,
    g: real,
)
    requires
        size(f.1) <= k,
        size(h.1) <= k,
        size(w.1) <= k,
        size(f.0 - f.1) <= size(f.1) / 16777216real + g,
        size(h.0 - h.1) <= size(h.1) / 16777216real + g,
        size(w.0 - w.1) <= size(w.1) / 16777216real + g,
        size(u - (f.0 + h.0)) <= size(f.0 + h.0) / 16777216real,
        size(z - (u + w.0)) <= size(u + w.0) / 16777216real,
        0real < g,
    ensures
        size(z - (f.1 + h.1 + w.1)) <= 10real * (k / 16777216real) + 5real * g,
        size(z) <= 4real * k + 8real * g,
{
    let e = k / 16777216real;
    let (d, m) = (e + g, 2real * k);
    lemma_sum_error(f.0, h.0, f.1, h.1, d, d);
    lemma_sum_size(f.1, h.1, k, k);
    lemma_rounded_once(u, f.0 + h.0, f.1 + h.1, 2real * d, m);
    let v = 2real * d + (m + 2real * d) / 16777216real;
    lemma_sum_error(u, w.0, f.1 + h.1, w.1, v, d);
    lemma_sum_size(f.1 + h.1, w.1, m, k);
    lemma_rounded_once(z, u + w.0, f.1 + h.1 + w.1, v + d, m + k);
}

/// A sum of three products in range.
pub proof fn lemma_form(
    a: (Binary32, Binary32),
    b: (Binary32, Binary32),
    c: (Binary32, Binary32),
    k: real,
)
    requires
        a.0.mul(a.1).add(b.0.mul(b.1)).add(c.0.mul(c.1)).finite(),
        size(number(a.0) * number(a.1)) <= k,
        size(number(b.0) * number(b.1)) <= k,
        size(number(c.0) * number(c.1)) <= k,
    ensures
        ({
            let z = number(a.0.mul(a.1).add(b.0.mul(b.1)).add(c.0.mul(c.1)));
            let exact = number(a.0) * number(a.1) + number(b.0) * number(b.1) + number(c.0)
                * number(c.1);
            &&& size(z - exact) <= 10real * (k / 16777216real) + 5real * speck()
            &&& size(z) <= 4real * k + 8real * speck()
        }),
{
    let (f, h, w) = (a.0.mul(a.1), b.0.mul(b.1), c.0.mul(c.1));
    lemma_finite_terms(f.add(h), w);
    lemma_finite_terms(f, h);
    lemma_finite_factors(a.0, a.1);
    lemma_finite_factors(b.0, b.1);
    lemma_finite_factors(c.0, c.1);
    lemma_finite_product(a.0, a.1);
    lemma_finite_product(b.0, b.1);
    lemma_finite_product(c.0, c.1);
    lemma_finite_sum(f, h);
    lemma_finite_sum(f.add(h), w);
    let (x, y, v) = (
        number(a.0) * number(a.1),
        number(b.0) * number(b.1),
        number(c.0) * number(c.1),
    );
    lemma_part(size(x));
    lemma_part(size(y));
    lemma_part(size(v));
    lemma_part(size(number(f) + number(h)));
    lemma_part(size(number(f.add(h)) + number(w)));
    lemma_form_errors(
        number(f.add(h).add(w)),
        number(f.add(h)),
        (number(f), x),
        (number(h), y),
        (number(w), v),
        k,
        speck(),
    );
}

/// Two products less a third, in range.
pub proof fn lemma_form_less(
    a: (Binary32, Binary32),
    b: (Binary32, Binary32),
    c: (Binary32, Binary32),
    k: real,
)
    requires
        a.0.mul(a.1).add(b.0.mul(b.1)).sub(c.0.mul(c.1)).finite(),
        size(number(a.0) * number(a.1)) <= k,
        size(number(b.0) * number(b.1)) <= k,
        size(number(c.0) * number(c.1)) <= k,
    ensures
        ({
            let z = number(a.0.mul(a.1).add(b.0.mul(b.1)).sub(c.0.mul(c.1)));
            let exact = number(a.0) * number(a.1) + number(b.0) * number(b.1) - number(c.0)
                * number(c.1);
            &&& size(z - exact) <= 10real * (k / 16777216real) + 5real * speck()
            &&& size(z) <= 4real * k + 8real * speck()
        }),
{
    let (f, h, w) = (a.0.mul(a.1), b.0.mul(b.1), c.0.mul(c.1));
    lemma_finite_terms(f.add(h), w);
    lemma_finite_terms(f, h);
    lemma_finite_factors(a.0, a.1);
    lemma_finite_factors(b.0, b.1);
    lemma_finite_factors(c.0, c.1);
    lemma_finite_product(a.0, a.1);
    lemma_finite_product(b.0, b.1);
    lemma_finite_product(c.0, c.1);
    lemma_finite_sum(f, h);
    lemma_finite_difference(f.add(h), w);
    let (x, y, v) = (
        number(a.0) * number(a.1),
        number(b.0) * number(b.1),
        number(c.0) * number(c.1),
    );
    lemma_part(size(x));
    lemma_part(size(y));
    lemma_part(size(v));
    lemma_part(size(number(f) + number(h)));
    lemma_part(size(number(f.add(h)) - number(w)));
    lemma_form_errors(
        number(f.add(h).sub(w)),
        number(f.add(h)),
        (number(f), x),
        (number(h), y),
        (-number(w), -v),
        k,
        speck(),
    );
}

/// A product of bounded numbers.
proof fn lemma_bounded_product(a: real, b: real, k: real, l: real)
    requires
        size(a) <= k,
        size(b) <= l,
    ensures
        size(a * b) <= k * l,
{
    lemma_size_product(a, b);
    let (m, n) = (size(a), size(b));
    assert(m * n <= k * l) by (nonlinear_arith)
        requires
            0real <= m,
            m <= k,
            0real <= n,
            n <= l,
    ;
}

/// Four, as a real number.
pub proof fn lemma_four()
    ensures
        number(Binary32(FOUR)) == 4real,
        Binary32(FOUR).finite(),
        Binary32(TWO).finite(),
{
    lemma_values();
    lemma_half_and_two();
    lemma_scale(Binary32(FOUR));
    lemma2_to64();
    lemma_units_binades(0x0080_0000, 128);
    lemma_pow2_adds(23, 128);
    lemma_pow2_adds(2, 149);
    let (a, u) = (number(Binary32(FOUR)), unity() as real);
    assert(Binary32(FOUR).value() == 4 * unity());
    assert(a == 4real) by (nonlinear_arith)
        requires
            a * u == 4real * u,
            u > 0real,
    ;
}

/// The exact coefficients of the equation of the circles.
pub open spec fn exact_coefficients(
    c0: (Binary32, Binary32),
    r0: Binary32,
    c1: (Binary32, Binary32),
    r1: Binary32,
    p: (Binary32, Binary32),
) -> (real, real, real) {
    let (dcx, dcy) = (number(c1.0.sub(c0.0)), number(c1.1.sub(c0.1)));
    let (dr, r) = (number(r1.sub(r0)), number(r0));
    let (px, py) = (number(p.0.sub(c0.0)), number(p.1.sub(c0.1)));
    (
        dcx * dcx + dcy * dcy - dr * dr,
        -(2real * (px * dcx + py * dcy + r * dr)),
        px * px + py * py - r * r,
    )
}

/// A square of a difference.
proof fn lemma_expanded_square(x: real, y: real, t: real)
    ensures
        (x - t * y) * (x - t * y) == x * x - 2real * (t * (x * y)) + (t * t) * (y * y),
        (x + t * y) * (x + t * y) == x * x + 2real * (t * (x * y)) + (t * t) * (y * y),
{
    let w = t * y;
    assert((x - w) * (x - w) == x * x - 2real * (x * w) + w * w) by (nonlinear_arith);
    assert((x + w) * (x + w) == x * x + 2real * (x * w) + w * w) by (nonlinear_arith);
    assert(x * (t * y) == t * (x * y)) by (nonlinear_arith);
    assert((t * y) * (t * y) == (t * t) * (y * y)) by (nonlinear_arith);
}

/// A product with a sum of three.
proof fn lemma_times_three(k: real, a: real, b: real, c: real)
    ensures
        k * (a + b + c) == k * a + k * b + k * c,
        k * (a + b - c) == k * a + k * b - k * c,
{
    assert(k * (a + b + c) == k * a + k * b + k * c) by (nonlinear_arith);
    assert(k * (a + b - c) == k * a + k * b - k * c) by (nonlinear_arith);
}

/// The gap is the quadratic form of the exact coefficients.
pub proof fn lemma_gap_form(
    c0: (Binary32, Binary32),
    r0: Binary32,
    c1: (Binary32, Binary32),
    r1: Binary32,
    p: (Binary32, Binary32),
    t: real,
)
    ensures
        ({
            let (a, b, c) = exact_coefficients(c0, r0, c1, r1, p);
            circle_gap(c0, r0, c1, r1, p, t) == a * (t * t) + b * t + c
        }),
{
    let (dcx, dcy) = (number(c1.0.sub(c0.0)), number(c1.1.sub(c0.1)));
    let (dr, r) = (number(r1.sub(r0)), number(r0));
    let (px, py) = (number(p.0.sub(c0.0)), number(p.1.sub(c0.1)));
    lemma_expanded_square(px, dcx, t);
    lemma_expanded_square(py, dcy, t);
    lemma_expanded_square(r, dr, t);
    let (x, y, z) = (dcx * dcx, dcy * dcy, dr * dr);
    let (f, g, h) = (px * dcx, py * dcy, r * dr);
    lemma_times_three(t * t, x, y, z);
    lemma_times_three(t, f, g, h);
    let (a, s, tt) = (x + y - z, f + g + h, t * t);
    assert(a * tt == tt * a) by (nonlinear_arith);
    assert((-(2real * s)) * t == -(2real * (t * s))) by (nonlinear_arith);
}

/// Three products together, where what is next to nothing is so beside them.
pub proof fn lemma_settled(z: real, x: real, y: real, v: real, k: real, g: real)
    requires
        size(x) <= k,
        size(y) <= k,
        size(v) <= k,
        size(z - (x + y + v)) <= 10real * (k / 16777216real) + 5real * g,
        8real * g <= k / 16777216real,
    ensures
        size(z - (x + y + v)) <= 12real * (k / 16777216real),
        size(z) <= 4real * k,
{
    lemma_sum_size(x, y, k, k);
    lemma_sum_size(x + y, v, 2real * k, k);
}

/// The sizes that the equation of the circles is counted in: of the squares of the differences
/// of the circles, of the squares of the distances of the point, and of their products.
pub open spec fn counted(dd: real, w: real, qq: real, uu: real) -> bool {
    let g = speck();
    &&& 8real * g <= dd / 16777216real
    &&& 8real * g <= w / 16777216real
    &&& 8real * g <= qq / 16777216real
    &&& 8real * g <= uu / 16777216real
    &&& dd * qq == uu
    &&& w * w == uu
    &&& 0real < w
    &&& 0real < dd
    &&& 0real < qq
}

/// Sizes that are not next to nothing.
proof fn lemma_counted(d: real, q: real)
    requires
        0real <= d,
        (d * d) * 8589934592real >= 1real,
        1real <= q,
    ensures
        counted(d * d, d * q, q * q, (d * q) * (d * q)),
        d <= d * q,
        d * 131072real >= 1real,
{
    lemma_part(0real);
    let (dd, w, qq) = (d * d, d * q, q * q);
    let uu = w * w;
    assert(d * 131072real >= 1real) by (nonlinear_arith)
        requires
            (d * d) * 8589934592real >= 1real,
            0real <= d,
    ;
    assert(d <= w) by (nonlinear_arith)
        requires
            w == d * q,
            1real <= q,
            0real <= d,
    ;
    assert(qq >= 1real) by (nonlinear_arith)
        requires
            qq == q * q,
            1real <= q,
    ;
    assert(dd * qq == uu) by (nonlinear_arith)
        requires
            dd == d * d,
            qq == q * q,
            w == d * q,
            uu == w * w,
    ;
    assert(uu >= dd) by (nonlinear_arith)
        requires
            uu == dd * qq,
            qq >= 1real,
            dd >= 0real,
    ;
}

/// The middle coefficient, by half of it.
pub proof fn lemma_middle(h: Binary32, w: real, exact: real)
    requires
        Binary32(TWO).neg().mul(h).finite(),
        size(number(h) - exact) <= 12real * (w / 16777216real),
        size(number(h)) <= 4real * w,
        8real * speck() <= w / 16777216real,
    ensures
        size(number(Binary32(TWO).neg().mul(h)) + 2real * exact) <= 33real * (w / 16777216real),
        size(number(Binary32(TWO).neg().mul(h))) <= 9real * w,
{
    lemma_four();
    lemma_two();
    lemma_negated(Binary32(TWO));
    let m = Binary32(TWO).neg();
    lemma_finite_factors(m, h);
    lemma_finite_product(m, h);
    let (f, x) = (number(m), number(h));
    assert(f * x == -(2real * x)) by (nonlinear_arith)
        requires
            f == -2real,
    ;
    lemma_part(size(f * x));
}

/// The discriminant, by the coefficients.
pub proof fn lemma_discriminant(
    a: Binary32,
    b: Binary32,
    c: Binary32,
    dd: real,
    w: real,
    qq: real,
    uu: real,
)
    requires
        b.mul(b).sub(Binary32(FOUR).mul(a).mul(c)).finite(),
        counted(dd, w, qq, uu),
        size(number(a)) <= 4real * dd,
        size(number(b)) <= 9real * w,
        size(number(c)) <= 4real * qq,
    ensures
        ({
            let disc = number(b.mul(b).sub(Binary32(FOUR).mul(a).mul(c)));
            let exact = number(b) * number(b) - 4real * (number(a) * number(c));
            &&& size(disc - exact) <= 370real * (uu / 16777216real)
            &&& size(disc) <= 151real * uu
        }),
{
    lemma_four();
    lemma_part(0real);
    let (b2, a4) = (b.mul(b), Binary32(FOUR).mul(a));
    let ac = a4.mul(c);
    lemma_finite_terms(b2, ac);
    lemma_finite_factors(b, b);
    lemma_finite_factors(a4, c);
    lemma_finite_factors(Binary32(FOUR), a);
    lemma_finite_product(b, b);
    lemma_finite_product(Binary32(FOUR), a);
    lemma_finite_product(a4, c);
    lemma_finite_difference(b2, ac);
    let (x, y, z, f) = (number(a), number(b), number(c), number(Binary32(FOUR)));
    assert(f * x == 4real * x) by (nonlinear_arith)
        requires
            f == 4real,
    ;
    lemma_part(size(f * x));
    lemma_part(size(y * y));
    let n = number(a4);
    lemma_part(size(n * z));
    lemma_part(size(number(b2) - number(ac)));
    lemma_bounded_product(y, y, 9real * w, 9real * w);
    assert((9real * w) * (9real * w) == 81real * uu) by (nonlinear_arith)
        requires
            uu == w * w,
    ;
    assert(size(n - 4real * x) <= 17real * (dd / 16777216real));
    assert(size(n) <= 17real * dd);
    lemma_bounded_product(n, z, 17real * dd, 4real * qq);
    lemma_bounded_product(n - 4real * x, z, 17real * (dd / 16777216real), 4real * qq);
    assert((17real * dd) * (4real * qq) == 68real * uu) by (nonlinear_arith)
        requires
            uu == dd * qq,
    ;
    assert((17real * (dd / 16777216real)) * (4real * qq) == 68real * (uu / 16777216real))
        by (nonlinear_arith)
        requires
            uu == dd * qq,
    ;
    assert((n - 4real * x) * z == n * z - 4real * (x * z)) by (nonlinear_arith);
    lemma_discriminant_errors(
        number(b2.sub(ac)),
        (number(b2), y * y),
        (number(ac), n * z, 4real * (x * z)),
        uu,
        speck(),
    );
}

/// The errors of the discriminant.
proof fn lemma_discriminant_errors(
    disc: real,
    b: (real, real),
    c: (real, real, real),
    uu: real,
    g: real,
)
    requires
        size(b.1) <= 81real * uu,
        size(b.0 - b.1) <= size(b.1) / 16777216real + g,
        size(c.1) <= 68real * uu,
        size(c.0 - c.1) <= size(c.1) / 16777216real + g,
        size(c.1 - c.2) <= 68real * (uu / 16777216real),
        size(disc - (b.0 - c.0)) <= size(b.0 - c.0) / 16777216real,
        8real * g <= uu / 16777216real,
        0real < g,
    ensures
        size(disc - (b.1 - c.2)) <= 370real * (uu / 16777216real),
        size(disc) <= 151real * uu,
{
    let e = uu / 16777216real;
    assert(size(b.0 - b.1) <= 82real * e);
    assert(size(c.0 - c.1) <= 69real * e);
    assert(size(c.0 - c.2) <= 137real * e);
    lemma_sum_error(b.0, -c.0, b.1, -c.2, 82real * e, 137real * e);
    assert(size(c.2) <= 69real * uu);
    lemma_sum_size(b.1, -c.2, 81real * uu, 69real * uu);
    lemma_rounded_once(disc, b.0 - c.0, b.1 - c.2, 219real * e, 150real * uu);
}

/// A square root that is not large.
pub proof fn lemma_root_bound(s: real, x: real, w: real, uu: real)
    requires
        0real <= s,
        0real < w,
        uu == w * w,
        size(s * s - x) <= 3real * (x / 16777216real),
        size(x) <= 151real * uu,
    ensures
        s <= 13real * w,
        size(s * s - x) <= 453real * (uu / 16777216real),
{
    assert(s * s <= 169real * uu);
    assert(s <= 13real * w) by (nonlinear_arith)
        requires
            s * s <= 169real * uu,
            uu == w * w,
            0real <= s,
            0real < w,
    ;
}

/// A parameter is near the quotient that it is computed as.
pub proof fn lemma_solved(a: Binary32, num: Binary32, n: real, w: real)
    requires
        a.finite(),
        num.finite(),
        Binary32(TWO).mul(a).finite(),
        num.div(Binary32(TWO).mul(a)).finite(),
        size(number(a)) * 1073741824real >= 1real,
        size(number(num) - n) <= 22real * (w / 16777216real),
        size(n) <= 22real * w,
        speck() * size(number(Binary32(TWO).mul(a))) <= 4real * (w / 16777216real),
        0real < w,
    ensures
        ({
            let t = number(num.div(Binary32(TWO).mul(a)));
            &&& size(2real * (number(a) * t) - n) <= 88real * (w / 16777216real)
            &&& size(number(a)) * size(t) <= 13real * w
        }),
{
    lemma_four();
    lemma_two();
    let den = Binary32(TWO).mul(a);
    let (x, f, m, k) = (number(a), number(Binary32(TWO)), number(den), number(num));
    lemma_finite_product(Binary32(TWO), a);
    assert(f * x == 2real * x) by (nonlinear_arith)
        requires
            f == 2real,
    ;
    lemma_part(size(f * x));
    assert(size(m - 2real * x) <= 3real * (size(x) / 16777216real));
    assert(m != 0real);
    lemma_finite_quotient(num, den);
    let (t, h) = (number(num.div(den)), k / m);
    let (e, g) = (part(), speck());
    assert(h * m == k) by (nonlinear_arith)
        requires
            h == k / m,
            m != 0real,
    ;
    lemma_size_product(h, m);
    lemma_size_product(t - h, m);
    assert((t - h) * m == t * m - h * m) by (nonlinear_arith);
    let (i, j) = (size(t - h), size(m));
    assert(i * j <= e * (size(h) * j) + g * j) by (nonlinear_arith)
        requires
            i <= e * size(h) + g,
            j >= 0real,
    ;
    lemma_part(size(k));
    assert(size(k) <= 23real * w);
    assert(size(t * m - k) <= 27real * (w / 16777216real));
    lemma_size_product(t, m);
    let (y, z) = (size(t), size(x));
    assert(100real * j >= 199real * z);
    assert(100real * (y * j) >= 199real * (y * z)) by (nonlinear_arith)
        requires
            100real * j >= 199real * z,
            y >= 0real,
    ;
    assert(y * z == z * y) by (nonlinear_arith);
    assert(z * y <= 13real * w);
    lemma_size_product(t, m - 2real * x);
    let l = size(m - 2real * x);
    assert(y * l <= 3real * ((y * z) / 16777216real)) by (nonlinear_arith)
        requires
            l <= 3real * (z / 16777216real),
            y >= 0real,
    ;
    assert(t * (m - 2real * x) == t * m - 2real * (x * t)) by (nonlinear_arith);
    lemma_solved_errors(t * m, k, n, 2real * (x * t), w / 16777216real);
}

/// The errors of a parameter, counted back.
proof fn lemma_solved_errors(tm: real, k: real, n: real, xt: real, e: real)
    requires
        size(tm - k) <= 27real * e,
        size(k - n) <= 22real * e,
        size(tm - xt) <= 39real * e,
    ensures
        size(xt - n) <= 88real * e,
{
}

/// A root of a quadratic equation by its discriminant.
pub proof fn lemma_completed_square(a: real, b: real, c: real, t: real)
    ensures
        4real * (a * (a * (t * t) + b * t + c)) == (2real * (a * t) + b) * (2real * (a * t) + b)
            - (b * b - 4real * (a * c)),
{
    let w = a * t;
    let (f, g) = (a * (t * t), b * t);
    assert(a * (f + g + c) == a * f + a * g + a * c) by (nonlinear_arith);
    assert(a * (a * (t * t)) == (a * t) * (a * t)) by (nonlinear_arith);
    assert(a * (b * t) == (a * t) * b) by (nonlinear_arith);
    assert((2real * w + b) * (2real * w + b) == 4real * (w * w) + 4real * (w * b) + b * b)
        by (nonlinear_arith);
}

/// What a computed root leaves of the equation.
proof fn lemma_residual(a: real, b: real, c: real, t: real, s: real, w: real, uu: real)
    requires
        size(2real * (a * t) - (s - b)) <= 88real * (w / 16777216real),
        size(s) <= 13real * w,
        size(s * s - (b * b - 4real * (a * c))) <= 823real * (uu / 16777216real),
        uu == w * w,
        0real < w,
    ensures
        size(a * (a * (t * t) + b * t + c)) <= 800real * (uu / 16777216real),
{
    lemma_completed_square(a, b, c, t);
    let v = 2real * (a * t) + b;
    let d = v - s;
    assert(v * v - s * s == d * (d + 2real * s)) by (nonlinear_arith)
        requires
            d == v - s,
    ;
    lemma_bounded_product(d, d + 2real * s, 88real * (w / 16777216real), 27real * w);
    assert((88real * (w / 16777216real)) * (27real * w) == 2376real * (uu / 16777216real))
        by (nonlinear_arith)
        requires
            uu == w * w,
    ;
    lemma_residual_errors(
        4real * (a * (a * (t * t) + b * t + c)),
        v * v,
        s * s,
        b * b - 4real * (a * c),
        uu / 16777216real,
    );
}

/// The errors of what a computed root leaves.
proof fn lemma_residual_errors(r: real, v: real, s: real, x: real, e: real)
    requires
        r == v - x,
        size(v - s) <= 2376real * e,
        size(s - x) <= 823real * e,
    ensures
        size(r) <= 3200real * e,
{
}

/// What a computed root leaves of the equation with the exact coefficients.
proof fn lemma_exact_residual(
    a: (real, real),
    b: (real, real),
    c: (real, real),
    t: real,
    dd: real,
    w: real,
    qq: real,
    uu: real,
)
    requires
        size(a.0) <= 4real * dd,
        size(a.1 - a.0) <= 12real * (dd / 16777216real),
        size(b.1 - b.0) <= 33real * (w / 16777216real),
        size(c.1 - c.0) <= 12real * (qq / 16777216real),
        size(a.0) * size(t) <= 13real * w,
        size(a.0 * (a.0 * (t * t) + b.0 * t + c.0)) <= 800real * (uu / 16777216real),
        w * w == uu,
        dd * qq == uu,
        0real < w,
        0real < dd,
        0real < qq,
    ensures
        size(a.1 * (t * t) + b.1 * t + c.1) * size(a.0) <= 2048real * (part() * (uu + dd * (w
            * size(t)))),
{
    let (da, db, dc) = (a.1 - a.0, b.1 - b.0, c.1 - c.0);
    let (x, y, tt) = (a.0, size(t), t * t);
    let (exact, near) = (a.1 * tt + b.1 * t + c.1, a.0 * tt + b.0 * t + c.0);
    assert(a.1 * tt == a.0 * tt + da * tt) by (nonlinear_arith)
        requires
            da == a.1 - a.0,
    ;
    assert(b.1 * t == b.0 * t + db * t) by (nonlinear_arith)
        requires
            db == b.1 - b.0,
    ;
    let (f, h) = (da * tt, db * t);
    assert(exact == near + f + h + dc);
    lemma_size_product(exact, x);
    lemma_size_product(x, near);
    assert(exact * x == x * near + x * f + x * h + x * dc) by (nonlinear_arith)
        requires
            exact == near + f + h + dc,
    ;
    let z = x * t;
    lemma_size_product(x, t);
    // The square of the parameter.
    assert(x * (da * (t * t)) == (da * t) * (x * t)) by (nonlinear_arith);
    lemma_bounded_product(da, t, 12real * (dd / 16777216real), y);
    lemma_bounded_product(da * t, z, (12real * (dd / 16777216real)) * y, 13real * w);
    let wy = w * y;
    let ddy = dd * y;
    assert((12real * (dd / 16777216real)) * y == 12real * (ddy / 16777216real)) by (nonlinear_arith)
        requires
            ddy == dd * y,
    ;
    assert((12real * (ddy / 16777216real)) * (13real * w) == 156real * ((dd * wy) / 16777216real))
        by (nonlinear_arith)
        requires
            ddy == dd * y,
            wy == w * y,
    ;
    // The parameter itself.
    assert(x * (db * t) == db * (x * t)) by (nonlinear_arith);
    lemma_bounded_product(db, z, 33real * (w / 16777216real), 13real * w);
    assert((33real * (w / 16777216real)) * (13real * w) == 429real * (uu / 16777216real))
        by (nonlinear_arith)
        requires
            uu == w * w,
    ;
    // What is left without it.
    lemma_bounded_product(x, dc, 4real * dd, 12real * (qq / 16777216real));
    assert((4real * dd) * (12real * (qq / 16777216real)) == 48real * (uu / 16777216real))
        by (nonlinear_arith)
        requires
            uu == dd * qq,
    ;
    let k = dd * wy;
    assert(k >= 0real) by (nonlinear_arith)
        requires
            k == dd * (w * y),
            0real < dd,
            0real < w,
            0real <= y,
    ;
    assert(uu > 0real) by (nonlinear_arith)
        requires
            uu == w * w,
            0real < w,
    ;
    lemma_part(uu + k);
    lemma_all_residuals(exact * x, x * near, x * f, x * h, x * dc, uu / 16777216real, k
        / 16777216real);
}

/// All residuals together.
proof fn lemma_all_residuals(
    r: real,
    n: real,
    f: real,
    h: real,
    c: real,
    u: real,
    k: real,
)
    requires
        r == n + f + h + c,
        size(n) <= 800real * u,
        size(f) <= 156real * k,
        size(h) <= 429real * u,
        size(c) <= 48real * u,
        0real <= u,
        0real <= k,
    ensures
        size(r) <= 2048real * (u + k),
{
}

/// The computed coefficients are near the exact ones.
pub proof fn lemma_near_coefficients(
    c0: (Binary32, Binary32),
    r0: Binary32,
    c1: (Binary32, Binary32),
    r1: Binary32,
    p: (Binary32, Binary32),
    d: real,
    q: real,
)
    requires
        circles_within(c0, r0, c1, r1, p, d, q),
    ensures
        ({
            let (a, b, c) = cone_coefficients(c0, r0, c1, r1, p);
            let (ea, eb, ec) = exact_coefficients(c0, r0, c1, r1, p);
            let (dd, w, qq) = (d * d, d * q, q * q);
            &&& counted(dd, w, qq, w * w)
            &&& size(number(a)) * 1073741824real >= 1real
            &&& size(number(a)) <= 4real * dd
            &&& size(ea - number(a)) <= 12real * (dd / 16777216real)
            &&& size(number(b)) <= 9real * w
            &&& size(eb - number(b)) <= 33real * (w / 16777216real)
            &&& size(number(c)) <= 4real * qq
            &&& size(ec - number(c)) <= 12real * (qq / 16777216real)
            &&& d <= w
            &&& 0real < d
        }),
{
    let (a, b, c) = cone_coefficients(c0, r0, c1, r1, p);
    let (dcx, dcy) = (c1.0.sub(c0.0), c1.1.sub(c0.1));
    let (dr, g) = (r1.sub(r0), speck());
    let (px, py) = (p.0.sub(c0.0), p.1.sub(c0.1));
    let h = px.mul(dcx).add(py.mul(dcy)).add(r0.mul(dr));
    let four = Binary32(FOUR).mul(a);
    lemma_finite_terms(b.mul(b), four.mul(c));
    lemma_finite_factors(b, b);
    lemma_finite_factors(four, c);
    lemma_finite_factors(Binary32(FOUR), a);
    lemma_finite_factors(Binary32(TWO).neg(), h);
    lemma_part(0real);
    let (dd, w, qq) = (d * d, d * q, q * q);
    let (x, y, z) = (number(dcx), number(dcy), number(dr));
    let (e, f, r) = (number(px), number(py), number(r0));
    lemma_bounded_product(x, x, d, d);
    lemma_bounded_product(y, y, d, d);
    lemma_bounded_product(z, z, d, d);
    lemma_bounded_product(e, x, q, d);
    lemma_bounded_product(f, y, q, d);
    lemma_bounded_product(r, z, q, d);
    assert(q * d == d * q) by (nonlinear_arith);
    lemma_bounded_product(e, e, q, q);
    lemma_bounded_product(f, f, q, q);
    lemma_bounded_product(r, r, q, q);
    lemma_form_less((dcx, dcx), (dcy, dcy), (dr, dr), dd);
    lemma_form((px, dcx), (py, dcy), (r0, dr), w);
    lemma_form_less((px, px), (py, py), (r0, r0), qq);
    lemma_billionth();
    lemma_absolute_number(a);
    lemma_number_order(Binary32(BILLIONTH), a.abs());
    lemma_number_order(a.abs(), Binary32(BILLIONTH));
    assert(size(number(a)) * 1073741824real >= 1real);
    lemma_counted(d, q);
    lemma_settled(number(a), x * x, y * y, -(z * z), dd, g);
    lemma_settled(number(h), e * x, f * y, r * z, w, g);
    lemma_settled(number(c), e * e, f * f, -(r * r), qq, g);
    lemma_middle(h, w, e * x + f * y + r * z);
}

/// What is next to nothing, times twice a coefficient.
pub proof fn lemma_spread(a: Binary32, d: real, w: real)
    requires
        Binary32(TWO).mul(a).finite(),
        size(number(a)) <= 4real * (d * d),
        8real * speck() <= w / 16777216real,
        8real * speck() <= (d * d) / 16777216real,
        0real < d,
        d <= w,
    ensures
        speck() * size(number(Binary32(TWO).mul(a))) <= 4real * (w / 16777216real),
{
    let den = Binary32(TWO).mul(a);
    lemma_negligible(den);
    if d < 1real {
        lemma_four();
        lemma_two();
        lemma_finite_factors(Binary32(TWO), a);
        lemma_finite_product(Binary32(TWO), a);
        let (f, x, g, s) = (number(Binary32(TWO)), number(a), speck(), size(number(den)));
        assert(f * x == 2real * x) by (nonlinear_arith)
            requires
                f == 2real,
        ;
        lemma_part(size(f * x));
        let dd = d * d;
        assert(dd <= d) by (nonlinear_arith)
            requires
                dd == d * d,
                0real < d,
                d < 1real,
        ;
        assert(s <= 9real * w);
        assert(g * s <= (1real / 1267650600228229401496703205376real) * (9real * w))
            by (nonlinear_arith)
            requires
                0real < g,
                g <= 1real / 1267650600228229401496703205376real,
                0real <= s,
                s <= 9real * w,
        ;
    }
}

} // verus!
