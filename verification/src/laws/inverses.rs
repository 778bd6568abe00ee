//! What inverting a transform undoes.
use crate::affine::{transform_point, PaintTransform};
use crate::binary32::{unity, Binary32};
use crate::consts::{ONE, TRILLIONTH};
use crate::order::lemma_values;
use crate::reals::{
    lemma_absolute_number, lemma_finite_difference, lemma_finite_factors, lemma_finite_product,
    lemma_finite_sum, lemma_finite_terms, lemma_limit_size, lemma_negated, lemma_number_order,
    lemma_part, lemma_quotient, lemma_range, lemma_size_product, number, part, size, speck, within,
};
use crate::rounding::lemma_units_binades;
use vstd::arithmetic::power2::{lemma2_to64, lemma2_to64_rest, lemma_pow2_adds, pow2};
use vstd::prelude::*;

verus! {

/// Whether the coefficients and the offsets of a transform are finite.
pub open spec fn finite_transform(t: PaintTransform) -> bool {
    &&& t.xx.finite()
    &&& t.yx.finite()
    &&& t.xy.finite()
    &&& t.yy.finite()
    &&& t.dx.finite()
    &&& t.dy.finite()
}

/// Whether a transform has an inverse in range, its coefficients are not larger than `m`, and
/// its offsets not larger than `q`.
pub open spec fn invertible_within(t: PaintTransform, m: real, q: real) -> bool {
    &&& !t.singular()
    &&& t.determinant().finite()
    &&& finite_transform(t.inverse())
    &&& within(t.xx, m)
    &&& within(t.yx, m)
    &&& within(t.xy, m)
    &&& within(t.yy, m)
    &&& within(t.dx, q)
    &&& within(t.dy, q)
}

/// Whether a point is so near another that their distance along each axis, times the determinant
/// of a transform, is at most 512 parts in `2^24` of a length.
pub open spec fn near_point(
    t: PaintTransform,
    p: (Binary32, Binary32),
    q: (Binary32, Binary32),
    length: real,
) -> bool {
    let determinant = size(number(t.determinant()));
    &&& size(number(p.0) - number(q.0)) * determinant <= 512real * (part() * length)
    &&& size(number(p.1) - number(q.1)) * determinant <= 512real * (part() * length)
}

/// The inverse of a transform takes what the transform makes of a point to near the point, and
/// the transform takes what its inverse makes of a point to near the point, wherever no step
/// leaves the range of numbers. The coordinates of the point are at most `r`, which is at least
/// one. How near depends on how much the transform and its inverse stretch together: on the
/// squares of the coefficients over the determinant.
pub proof fn inverses_undo_transforms(
    t: PaintTransform,
    x: Binary32,
    y: Binary32,
    m: real,
    q: real,
    r: real,
)
    requires
        invertible_within(t, m, q),
        within(x, r),
        within(y, r),
        1real <= r,
    ensures
        ({
            let moved = transform_point(&t, x, y);
            let back = transform_point(&t.inverse(), moved.0, moved.1);
            back.0.finite() && back.1.finite() ==> near_point(t, back, (x, y), m * (m * r + q))
        }),
        ({
            let moved = transform_point(&t.inverse(), x, y);
            let back = transform_point(&t, moved.0, moved.1);
            back.0.finite() && back.1.finite() ==> near_point(
                t,
                back,
                (x, y),
                m * (m * (r + q)),
            )
        }),
{
    lemma_determinant(t, m, q);
    let (f, g) = (m * r + q, r + q);
    lemma_bounds(number(t.determinant()), m, q, r);
    let moved = transform_point(&t, x, y);
    let back = transform_point(&t.inverse(), moved.0, moved.1);
    if back.0.finite() && back.1.finite() {
        lemma_inverse(t, m, q, m * f);
        lemma_undone(t, x, y, m, q, r);
    }
    let moved = transform_point(&t.inverse(), x, y);
    let back = transform_point(&t, moved.0, moved.1);
    if back.0.finite() && back.1.finite() {
        lemma_inverse(t, m, q, m * g);
        lemma_restored(t, x, y, m, q, r);
    }
}

/// The smallest determinant of a transform with an inverse is not smaller than `2^-40`.
proof fn lemma_trillionth()
    ensures
        Binary32(TRILLIONTH).finite(),
        number(Binary32(TRILLIONTH)) * 1099511627776real >= 1real,
{
    lemma_values();
    lemma2_to64();
    lemma2_to64_rest();
    lemma_units_binades(0x008c_bccc, 86);
    lemma_pow2_adds(40, 86);
    lemma_pow2_adds(23, 126);
    let (v, u) = (Binary32(TRILLIONTH).value(), unity() as int);
    let p = pow2(86) as int;
    assert(v == 0x008c_bccc * p);
    assert(u == 0x0080_0000 * (0x100_0000_0000 * p));
    assert((v * 0x100_0000_0000) as real == v as real * 1099511627776real);
    assert((v as real / u as real) * 1099511627776real >= 1real) by (nonlinear_arith)
        requires
            v as real * 1099511627776real >= u as real,
            u as real > 0real,
    ;
}

/// The difference of two products in range is near the exact one.
pub proof fn lemma_crossed(a: Binary32, b: Binary32, c: Binary32, d: Binary32, k: real)
    requires
        a.mul(b).sub(c.mul(d)).finite(),
        size(number(a) * number(b)) <= k,
        size(number(c) * number(d)) <= k,
    ensures
        size(
            number(a.mul(b).sub(c.mul(d))) - (number(a) * number(b) - number(c) * number(d)),
        ) <= 5real * (k / 16777216real) + 3real * speck(),
        size(number(a.mul(b).sub(c.mul(d)))) <= 3real * k + 4real * speck(),
{
    let (p, q) = (number(a) * number(b), number(c) * number(d));
    let (f, h) = (number(a.mul(b)), number(c.mul(d)));
    lemma_finite_terms(a.mul(b), c.mul(d));
    lemma_finite_factors(a, b);
    lemma_finite_factors(c, d);
    lemma_finite_product(a, b);
    lemma_finite_product(c, d);
    lemma_part(size(p));
    lemma_part(size(q));
    lemma_part(size(f - h));
    lemma_finite_difference(a.mul(b), c.mul(d));
    lemma_crossed_errors(number(a.mul(b).sub(c.mul(d))), f, h, p, q, k, speck());
}

/// The errors of a difference of products.
proof fn lemma_crossed_errors(z: real, f: real, h: real, p: real, q: real, k: real, g: real)
    requires
        size(p) <= k,
        size(q) <= k,
        size(f - p) <= size(p) / 16777216real + g,
        size(h - q) <= size(q) / 16777216real + g,
        size(z - (f - h)) <= size(f - h) / 16777216real,
        0real < g,
    ensures
        size(z - (p - q)) <= 5real * (k / 16777216real) + 3real * g,
        size(z) <= 3real * k + 4real * g,
{
    assert(size((f - h) - (p - q)) <= 2real * (k / 16777216real) + 2real * g);
    assert(size(f - h) <= 2real * k + 2real * (k / 16777216real) + 2real * g);
}

/// A row of a transform at a point is near the exact one, both counted in parts of a scale.
pub proof fn lemma_row(
    a: Binary32,
    x: Binary32,
    b: Binary32,
    y: Binary32,
    c: Binary32,
    s: real,
    k: real,
    l: real,
)
    requires
        a.mul(x).add(b.mul(y)).add(c).finite(),
        0real < s,
        size(number(a) * number(x)) * s <= k,
        size(number(b) * number(y)) * s <= k,
        size(number(c)) * s <= l,
    ensures
        ({
            let z = a.mul(x).add(b.mul(y)).add(c);
            size(number(z) - (number(a) * number(x) + number(b) * number(y) + number(c))) * s
                <= 8real * (part() * (k + l) + speck() * s)
        }),
{
    let (p, q) = (k / s, l / s);
    let (ax, by, cc) = (number(a) * number(x), number(b) * number(y), number(c));
    lemma_share(k, s);
    lemma_share(l, s);
    lemma_divided(size(ax), k, s);
    lemma_divided(size(by), k, s);
    lemma_divided(size(cc), l, s);
    lemma_finite_terms(a.mul(x).add(b.mul(y)), c);
    lemma_finite_terms(a.mul(x), b.mul(y));
    lemma_finite_factors(a, x);
    lemma_finite_factors(b, y);
    lemma_finite_product(a, x);
    lemma_finite_product(b, y);
    let (f, h) = (number(a.mul(x)), number(b.mul(y)));
    let (e, g) = (part(), speck());
    lemma_part(size(ax));
    lemma_part(size(by));
    lemma_two_terms(f, h, ax, by, p, g);
    lemma_finite_sum(a.mul(x), b.mul(y));
    lemma_part(size(f + h));
    let u = number(a.mul(x).add(b.mul(y)));
    lemma_rounded_sum(u, f + h, ax + by, p, g);
    lemma_finite_sum(a.mul(x).add(b.mul(y)), c);
    lemma_part(size(u + cc));
    lemma_part(p + q);
    let d = size(number(a.mul(x).add(b.mul(y)).add(c)) - (ax + by + cc));
    lemma_last_sum(number(a.mul(x).add(b.mul(y)).add(c)), u, ax + by, cc, p, q, g);
    assert(d * s <= 8real * (e * (k + l) + g * s)) by (nonlinear_arith)
        requires
            d <= 8real * (e * (p + q) + g),
            p * s == k,
            q * s == l,
            s > 0real,
    ;
}

/// Two rounded terms.
proof fn lemma_two_terms(f: real, h: real, x: real, y: real, p: real, g: real)
    requires
        size(x) <= p,
        size(y) <= p,
        size(f - x) <= size(x) / 16777216real + g,
        size(h - y) <= size(y) / 16777216real + g,
    ensures
        size(f + h - (x + y)) <= p / 8388608real + 2real * g,
        size(x + y) <= 2real * p,
{
}

/// Their rounded sum.
proof fn lemma_rounded_sum(u: real, f: real, x: real, p: real, g: real)
    requires
        size(f - x) <= p / 8388608real + 2real * g,
        size(x) <= 2real * p,
        size(u - f) <= size(f) / 16777216real,
        0real < g,
    ensures
        size(u - x) <= 5real * (p / 16777216real) + 3real * g,
{
}

/// The rounded sum of all three.
proof fn lemma_last_sum(z: real, u: real, x: real, c: real, p: real, q: real, g: real)
    requires
        size(u - x) <= 5real * (p / 16777216real) + 3real * g,
        size(x) <= 2real * p,
        size(c) <= q,
        size(z - (u + c)) <= size(u + c) / 16777216real,
        0real < g,
    ensures
        size(z - (x + c)) <= 8real * ((p + q) / 16777216real + g),
{
}

/// What a share of something is.
proof fn lemma_share(k: real, s: real)
    requires
        0real < s,
    ensures
        (k / s) * s == k,
{
    let q = k / s;
    assert(q * s == k) by (nonlinear_arith)
        requires
            q == k / s,
            s > 0real,
    ;
}

/// What is not more than something in all is not more than its share.
proof fn lemma_divided(x: real, k: real, s: real)
    requires
        x * s <= k,
        s > 0real,
    ensures
        x <= k / s,
{
    let q = k / s;
    assert(x <= q) by (nonlinear_arith)
        requires
            x * s <= k,
            q == k / s,
            s > 0real,
    ;
}

/// What rounding may do to results that are next to nothing, times a number in range.
pub proof fn lemma_negligible(x: Binary32)
    requires
        x.finite(),
    ensures
        speck() * size(number(x)) <= 4real * part(),
{
    lemma_range(x);
    lemma_values();
    lemma_part(0real);
    lemma_pow2_adds(128, 21);
    lemma2_to64();
    let (g, s, u, p) = (speck(), size(number(x)), unity() as real, pow2(128) as int as real);
    assert(u == p * 2097152real);
    assert(g == 1real / (2real * u));
    assert(g * u == 1real / 2real) by (nonlinear_arith)
        requires
            g == 1real / (2real * u),
            u > 0real,
    ;
    assert(g * p == 1real / 4194304real) by (nonlinear_arith)
        requires
            g * u == 1real / 2real,
            u == p * 2097152real,
    ;
    assert(g * s <= g * p) by (nonlinear_arith)
        requires
            s <= p,
            0real < g,
    ;
}

/// The reciprocal of a determinant.
proof fn lemma_reciprocal(d: Binary32)
    requires
        d.finite(),
        size(number(d)) * 1099511627776real >= 1real,
    ensures
        Binary32(ONE).div(d).finite(),
        size(number(Binary32(ONE).div(d)) * number(d) - 1real) <= 5real * part(),
{
    lemma_limit_size();
    lemma_number_order(Binary32(ONE), d);
    lemma_values();
    let (n, s) = (number(d), size(number(d)));
    let q = 1real / n;
    assert(q * n == 1real) by (nonlinear_arith)
        requires
            q == 1real / n,
            n != 0real,
    ;
    lemma_size_product(q, n);
    assert(size(q) <= 1099511627776real) by (nonlinear_arith)
        requires
            size(q) * s == 1real,
            s * 1099511627776real >= 1real,
            size(q) >= 0real,
    ;
    lemma_quotient(Binary32(ONE), d);
    let w = number(Binary32(ONE).div(d));
    let (e, g) = (part(), speck());
    lemma_size_product(w - q, n);
    lemma_difference_times(w, q, n);
    assert(size(w - q) * s <= e * (size(q) * s) + g * s) by (nonlinear_arith)
        requires
            size(w - q) <= e * size(q) + g,
            s >= 0real,
    ;
    lemma_negligible(d);
}

/// What a coefficient of an inverse is, in parts of the determinant.
proof fn lemma_coefficient(v: Binary32, w: Binary32, n: real, k: real)
    requires
        within(v, k),
        w.finite(),
        v.mul(w).finite(),
        size(number(w) * n - 1real) <= 5real * part(),
        speck() * size(n) <= 4real * (part() * k),
    ensures
        shared(v.mul(w), n, number(v), 11real * (part() * k), 2real * k),
{
    let (a, b, s) = (number(v), number(w), size(n));
    let (e, g) = (part(), speck());
    lemma_size_product(b, n);
    lemma_size_product(a, b);
    lemma_finite_product(v, w);
    let f = number(v.mul(w));
    lemma_size_product(f - a * b, n);
    lemma_difference_times(f, a * b, n);
    lemma_triple(a, b, n);
    assert(size(a) * (size(b) * s) <= 2real * k) by (nonlinear_arith)
        requires
            0real <= size(a),
            size(a) <= k,
            0real <= size(b) * s,
            size(b) * s <= 2real,
    ;
    assert(size(f - a * b) * s <= e * (size(a) * (size(b) * s)) + g * s) by (nonlinear_arith)
        requires
            size(f - a * b) <= e * (size(a) * size(b)) + g,
            s >= 0real,
    ;
    lemma_part(size(a) * (size(b) * s));
    lemma_part(k);
    lemma_size_product(a, b * n - 1real);
    lemma_difference_times(b * n, 1real, a);
    assert(size(a) * size(b * n - 1real) <= k * (5real * e)) by (nonlinear_arith)
        requires
            0real <= size(a),
            size(a) <= k,
            0real <= size(b * n - 1real),
            size(b * n - 1real) <= 5real * e,
    ;
    assert(k * (5real * e) == 5real * (e * k)) by (nonlinear_arith);
    lemma_size_product(f, n);
    lemma_near_size(f * n, a, 11real * (e * k), k);
}

/// The size of a number that is near another.
proof fn lemma_near_size(x: real, y: real, d: real, k: real)
    requires
        size(x - y) <= d,
        size(y) <= k,
        d <= k,
    ensures
        size(x) <= 2real * k,
{
}

/// Whether a number, in parts of `n`, is near another and not large.
spec fn shared(f: Binary32, n: real, p: real, error: real, cap: real) -> bool {
    &&& f.finite()
    &&& size(number(f) * n - p) <= error
    &&& size(number(f)) * size(n) <= cap
}

/// Whether a determinant is one of coefficients that are not larger than `m`, and what is next
/// to nothing is so beside it too.
spec fn in_range(n: real, m: real) -> bool {
    &&& size(n) * 1099511627776real >= 1real
    &&& size(n) <= 3real * (m * m)
    &&& speck() * size(n) <= 4real * part()
    &&& 0real <= m
}

/// Whether errors are counted in a length beside which what is next to nothing is so.
spec fn counted(n: real, k: real) -> bool {
    &&& speck() * size(n) <= 4real * (part() * k)
    &&& 8real * speck() <= part() * k
    &&& 0real < k
}

/// The lengths that errors are counted in.
proof fn lemma_bounds(n: real, m: real, q: real, r: real)
    requires
        in_range(n, m),
        0real <= q,
        1real <= r,
    ensures
        counted(n, m),
        counted(n, m * (m * r + q)),
        counted(n, m * (r + q)),
        counted(n, m * (m * (r + q))),
        8real * speck() <= part() * (m * r + q),
        0real <= m * r,
        m * r <= m * r + q,
        m * (m * r) <= m * (m * r + q),
        m * q <= m * (m * r + q),
        m * q <= m * (r + q),
        m * r <= m * (r + q),
{
    assert(m * 2097152real >= 1real) by (nonlinear_arith)
        requires
            m * m * 3real * 1099511627776real >= 1real,
            m >= 0real,
    ;
    assert(m <= m * r) by (nonlinear_arith)
        requires
            m >= 0real,
            1real <= r,
    ;
    let (f, h) = (m * r + q, r + q);
    lemma_counted(n, m, m);
    lemma_larger(m, r, h);
    lemma_larger(m, q, h);
    lemma_larger(m, m * r, f);
    lemma_larger(m, q, f);
    lemma_larger(m, 1real, h);
    lemma_larger(m, m, f);
    lemma_larger(m, m, m * h);
    lemma_counted(n, m, m * f);
    lemma_counted(n, m, m * h);
    lemma_counted(n, m, m * (m * h));
    lemma_part(f);
}

/// A product with the larger of two.
proof fn lemma_larger(m: real, a: real, b: real)
    requires
        0real <= m,
        a <= b,
    ensures
        m * a <= m * b,
{
    assert(m * a <= m * b) by (nonlinear_arith)
        requires
            0real <= m,
            a <= b,
    ;
}

/// A length that is at least a coefficient, or at least its square.
proof fn lemma_counted(n: real, m: real, k: real)
    requires
        in_range(n, m),
        m * 2097152real >= 1real,
        k >= m || k >= m * m,
    ensures
        counted(n, k),
{
    let (s, g) = (size(n), speck());
    lemma_part(k);
    assert(m * m * 4398046511104real >= 1real) by (nonlinear_arith)
        requires
            m * 2097152real >= 1real,
    ;
    if m >= 1real {
        assert(m * m >= 1real) by (nonlinear_arith)
            requires
                m >= 1real,
        ;
    } else {
        assert(m * m <= m) by (nonlinear_arith)
            requires
                0real <= m,
                m <= 1real,
        ;
        assert(g * s <= (3real * (m * m)) * (1real / 1267650600228229401496703205376real))
            by (nonlinear_arith)
            requires
                0real < g,
                g <= 1real / 1267650600228229401496703205376real,
                0real <= s,
                s <= 3real * (m * m),
        ;
    }
}

/// A product of bounded numbers.
pub proof fn lemma_bounded_product(a: real, b: real, k: real, l: real)
    requires
        size(a) <= k,
        size(b) <= l,
    ensures
        size(a * b) <= k * l,
{
    lemma_size_product(a, b);
    assert(size(a) * size(b) <= k * l) by (nonlinear_arith)
        requires
            0real <= size(a),
            size(a) <= k,
            0real <= size(b),
            size(b) <= l,
    ;
}

/// A product in parts of a scale.
proof fn lemma_shared_product(a: real, b: real, s: real, k: real, l: real)
    requires
        size(a) * s <= k,
        size(b) <= l,
        0real <= s,
    ensures
        size(a * b) * s <= k * l,
        size(b * a) * s <= k * l,
{
    lemma_size_product(a, b);
    lemma_exchanged(a, b);
    let c = size(a) * s;
    assert(c >= 0real) by (nonlinear_arith)
        requires
            c == size(a) * s,
            size(a) >= 0real,
            s >= 0real,
    ;
    assert((size(a) * size(b)) * s <= k * l) by (nonlinear_arith)
        requires
            c == size(a) * s,
            0real <= c,
            c <= k,
            0real <= size(b),
            size(b) <= l,
    ;
}

/// A row and its error, in parts of a scale.
proof fn lemma_scaled_row(w: real, a: real, x: real, b: real, y: real, c: real, n: real)
    ensures
        (w - (a * x + b * y + c)) * n == w * n - ((a * n) * x + (b * n) * y + c * n),
        (w - (a * x + b * y + c)) * n == w * n - (a * (x * n) + b * (y * n) + c * n),
{
    let (f, g) = (a * x, b * y);
    assert((w - (f + g + c)) * n == w * n - f * n - g * n - c * n) by (nonlinear_arith);
    assert((a * x) * n == (a * n) * x && (a * n) * x == a * (x * n)) by (nonlinear_arith);
    assert((b * y) * n == (b * n) * y && (b * n) * y == b * (y * n)) by (nonlinear_arith);
}

/// The factors of a product, exchanged.
proof fn lemma_exchanged(a: real, b: real)
    ensures
        a * b == b * a,
{
    assert(a * b == b * a) by (nonlinear_arith);
}

/// A product with a difference.
proof fn lemma_difference_times(a: real, b: real, x: real)
    ensures
        (a - b) * x == a * x - b * x,
        x * (a - b) == x * a - x * b,
{
    assert((a - b) * x == a * x - b * x) by (nonlinear_arith);
    assert(x * (a - b) == x * a - x * b) by (nonlinear_arith);
}

/// A product of three.
proof fn lemma_triple(k: real, a: real, x: real)
    ensures
        k * (a * x) == (k * a) * x,
{
    assert(k * (a * x) == (k * a) * x) by (nonlinear_arith);
}

/// The error of a row in parts of a determinant, in a length.
proof fn lemma_scaled_error(d: real, n: real, j: real, l: real)
    requires
        d * size(n) <= 8real * (part() * (j * l) + speck() * size(n)),
        counted(n, l),
    ensures
        d * size(n) <= 8real * (j * (part() * l)) + 32real * (part() * l),
{
    let e = part();
    assert(e * (j * l) == j * (e * l)) by (nonlinear_arith);
}

/// A product of two numbers that are near others.
proof fn lemma_near_product(a: real, p: real, x: real, y: real, m: real, f: real, e: real)
    requires
        size(a - p) <= 11real * (e * m),
        size(p) <= m,
        size(x) <= 4real * f,
        size(x - y) <= 17real * (e * f),
    ensures
        size(a * x - p * y) <= 61real * (e * (m * f)),
{
    lemma_bounded_product(a - p, x, 11real * (e * m), 4real * f);
    lemma_bounded_product(p, x - y, m, 17real * (e * f));
    lemma_difference_times(a, p, x);
    lemma_difference_times(x, y, p);
    assert((11real * (e * m)) * (4real * f) == 44real * (e * (m * f))) by (nonlinear_arith);
    assert(m * (17real * (e * f)) == 17real * (e * (m * f))) by (nonlinear_arith);
}

/// A transformed coordinate.
pub proof fn lemma_moved(
    a: Binary32,
    x: Binary32,
    b: Binary32,
    y: Binary32,
    c: Binary32,
    m: real,
    r: real,
    f: real,
)
    requires
        a.mul(x).add(b.mul(y)).add(c).finite(),
        size(number(a)) <= m,
        size(number(b)) <= m,
        size(number(x)) <= r,
        size(number(y)) <= r,
        size(number(c)) <= f,
        m * r <= f,
        8real * speck() <= part() * f,
    ensures
        ({
            let z = a.mul(x).add(b.mul(y)).add(c);
            &&& size(number(z)) <= 4real * f
            &&& size(number(z) - (number(a) * number(x) + number(b) * number(y) + number(c)))
                <= 17real * (part() * f)
        }),
{
    lemma_bounded_product(number(a), number(x), m, r);
    lemma_bounded_product(number(b), number(y), m, r);
    lemma_row(a, x, b, y, c, 1real, f, f);
    lemma_part(f + f);
    lemma_part(f);
    let z = number(a.mul(x).add(b.mul(y)).add(c));
    lemma_moved_size(z, number(a) * number(x), number(b) * number(y), number(c), f);
}

/// The size of a transformed coordinate.
proof fn lemma_moved_size(z: real, a: real, b: real, c: real, f: real)
    requires
        size(a) <= f,
        size(b) <= f,
        size(c) <= f,
        size(z - (a + b + c)) <= 17real * (f / 16777216real),
    ensures
        size(z) <= 4real * f,
{
}

/// A row of an inverse at a transformed point.
proof fn lemma_undone_row(
    a: Binary32,
    x: Binary32,
    b: Binary32,
    y: Binary32,
    c: Binary32,
    n: real,
    p: (real, real, real),
    xe: real,
    ye: real,
    delta: real,
    z: real,
    m: real,
    f: real,
)
    requires
        a.mul(x).add(b.mul(y)).add(c).finite(),
        0real < size(n),
        shared(a, n, p.0, 11real * (part() * m), 2real * m),
        shared(b, n, p.1, 11real * (part() * m), 2real * m),
        shared(c, n, p.2, 41real * (part() * (m * f)), 6real * (m * f)),
        size(p.0) <= m,
        size(p.1) <= m,
        size(number(x)) <= 4real * f,
        size(number(y)) <= 4real * f,
        size(number(x) - xe) <= 17real * (part() * f),
        size(number(y) - ye) <= 17real * (part() * f),
        p.0 * xe + p.1 * ye + p.2 == delta * z,
        size((delta - n) * z) <= 8real * (part() * (m * f)),
        counted(n, m * f),
    ensures
        size(number(a.mul(x).add(b.mul(y)).add(c)) - z) * size(n) <= 512real * (part() * (m * f)),
{
    let (u, s, e) = (m * f, size(n), part());
    lemma_shared_product(number(a), number(x), s, 2real * m, 4real * f);
    lemma_shared_product(number(b), number(y), s, 2real * m, 4real * f);
    assert((2real * m) * (4real * f) == 8real * (m * f)) by (nonlinear_arith);
    lemma_row(a, x, b, y, c, s, 8real * u, 6real * u);
    let w = a.mul(x).add(b.mul(y)).add(c);
    let (ax, by, cc) = (number(a) * number(x), number(b) * number(y), number(c));
    let d = number(w) - (ax + by + cc);
    lemma_scaled_error(size(d), n, 14real, u);
    lemma_near_product(number(a) * n, p.0, number(x), xe, m, f, e);
    lemma_near_product(number(b) * n, p.1, number(y), ye, m, f, e);
    lemma_part(u);
    lemma_size_product(d, n);
    lemma_size_product(number(w) - z, n);
    lemma_scaled_row(number(w), number(a), number(x), number(b), number(y), number(c), n);
    let (fa, fb, fc) = (number(a) * n * number(x), number(b) * n * number(y), number(c) * n);
    lemma_difference_times(number(w), z, n);
    lemma_difference_times(delta, n, z);
    lemma_exchanged(z, n);
    lemma_all(
        number(w) * n,
        z * n,
        (fa, p.0 * xe),
        (fb, p.1 * ye),
        (fc, p.2),
        delta * z,
        e * u,
    );
}

/// All errors together.
proof fn lemma_all(
    w: real,
    z: real,
    a: (real, real),
    b: (real, real),
    c: (real, real),
    exact: real,
    e: real,
)
    requires
        size(w - (a.0 + b.0 + c.0)) <= 144real * e,
        size(a.0 - a.1) <= 159real * e,
        size(b.0 - b.1) <= 159real * e,
        size(c.0 - c.1) <= 41real * e,
        a.1 + b.1 + c.1 == exact,
        size(exact - z) <= 8real * e,
    ensures
        size(w - z) <= 512real * e,
{
}

/// A row of an inverse at a point.
proof fn lemma_inverse_row(
    a: Binary32,
    x: Binary32,
    b: Binary32,
    y: Binary32,
    c: Binary32,
    n: real,
    p: (real, real, real),
    m: real,
    r: real,
    k: real,
)
    requires
        a.mul(x).add(b.mul(y)).add(c).finite(),
        0real < size(n),
        shared(a, n, p.0, 11real * (part() * m), 2real * m),
        shared(b, n, p.1, 11real * (part() * m), 2real * m),
        shared(c, n, p.2, 41real * (part() * k), 6real * k),
        size(p.0) <= m,
        size(p.1) <= m,
        size(p.2) <= 2real * k,
        size(number(x)) <= r,
        size(number(y)) <= r,
        m * r <= k,
        counted(n, k),
    ensures
        shared(
            a.mul(x).add(b.mul(y)).add(c),
            n,
            p.0 * number(x) + p.1 * number(y) + p.2,
            159real * (part() * k),
            5real * k,
        ),
{
    let (s, e) = (size(n), part());
    lemma_shared_product(number(a), number(x), s, 2real * m, r);
    lemma_shared_product(number(b), number(y), s, 2real * m, r);
    assert((2real * m) * r == 2real * (m * r)) by (nonlinear_arith);
    lemma_row(a, x, b, y, c, s, 2real * k, 6real * k);
    let w = a.mul(x).add(b.mul(y)).add(c);
    let (ax, by, cc) = (number(a) * number(x), number(b) * number(y), number(c));
    let d = number(w) - (ax + by + cc);
    lemma_scaled_error(size(d), n, 8real, k);
    lemma_bounded_product(number(a) * n - p.0, number(x), 11real * (e * m), r);
    lemma_bounded_product(number(b) * n - p.1, number(y), 11real * (e * m), r);
    assert((11real * (e * m)) * r == 11real * (e * (m * r))) by (nonlinear_arith);
    lemma_bounded_product(p.0, number(x), m, r);
    lemma_bounded_product(p.1, number(y), m, r);
    lemma_part(k);
    lemma_part(m * r);
    lemma_size_product(d, n);
    lemma_size_product(number(w), n);
    lemma_scaled_row(number(w), number(a), number(x), number(b), number(y), number(c), n);
    let (fa, fb, fc) = (number(a) * n * number(x), number(b) * n * number(y), number(c) * n);
    lemma_difference_times(number(a) * n, p.0, number(x));
    lemma_difference_times(number(b) * n, p.1, number(y));
    lemma_three_errors(
        number(w) * n,
        (fa, p.0 * number(x)),
        (fb, p.1 * number(y)),
        (fc, p.2),
        k,
        e * k,
    );
}

/// The errors of a row, and its size.
proof fn lemma_three_errors(
    w: real,
    a: (real, real),
    b: (real, real),
    c: (real, real),
    k: real,
    e: real,
)
    requires
        size(w - (a.0 + b.0 + c.0)) <= 96real * e,
        size(a.0 - a.1) <= 11real * e,
        size(b.0 - b.1) <= 11real * e,
        size(c.0 - c.1) <= 41real * e,
        size(a.1) <= k,
        size(b.1) <= k,
        size(c.1) <= 2real * k,
        e == k / 16777216real,
    ensures
        size(w - (a.1 + b.1 + c.1)) <= 159real * e,
        size(w) <= 5real * k,
{
}

/// A row of a transform at what its inverse gives.
proof fn lemma_restored_row(
    a: Binary32,
    x: Binary32,
    b: Binary32,
    y: Binary32,
    c: Binary32,
    n: real,
    xe: real,
    ye: real,
    delta: real,
    z: real,
    m: real,
    k: real,
)
    requires
        a.mul(x).add(b.mul(y)).add(c).finite(),
        0real < size(n),
        size(number(a)) <= m,
        size(number(b)) <= m,
        size(number(c)) * size(n) <= 3real * (m * k),
        shared(x, n, xe, 159real * (part() * k), 5real * k),
        shared(y, n, ye, 159real * (part() * k), 5real * k),
        number(a) * xe + number(b) * ye == delta * (z - number(c)),
        size((delta - n) * (z - number(c))) <= 8real * (part() * (m * k)),
        counted(n, m * k),
    ensures
        size(number(a.mul(x).add(b.mul(y)).add(c)) - z) * size(n) <= 512real * (part() * (m * k)),
{
    let (u, s, e) = (m * k, size(n), part());
    lemma_shared_product(number(x), number(a), s, 5real * k, m);
    lemma_shared_product(number(y), number(b), s, 5real * k, m);
    assert((5real * k) * m == 5real * (m * k)) by (nonlinear_arith);
    lemma_row(a, x, b, y, c, s, 5real * u, 3real * u);
    let w = a.mul(x).add(b.mul(y)).add(c);
    let (ax, by, cc) = (number(a) * number(x), number(b) * number(y), number(c));
    let d = number(w) - (ax + by + cc);
    lemma_scaled_error(size(d), n, 8real, u);
    lemma_bounded_product(number(a), number(x) * n - xe, m, 159real * (e * k));
    lemma_bounded_product(number(b), number(y) * n - ye, m, 159real * (e * k));
    assert(m * (159real * (e * k)) == 159real * (e * (m * k))) by (nonlinear_arith);
    lemma_part(u);
    lemma_size_product(d, n);
    lemma_size_product(number(w) - z, n);
    lemma_scaled_row(number(w), number(a), number(x), number(b), number(y), number(c), n);
    let (fa, fb, fc) = (number(a) * (number(x) * n), number(b) * (number(y) * n), number(c) * n);
    lemma_difference_times(number(x) * n, xe, number(a));
    lemma_difference_times(number(y) * n, ye, number(b));
    lemma_difference_times(number(w), z, n);
    lemma_difference_times(delta, n, z - cc);
    lemma_difference_times(z, cc, n);
    lemma_exchanged(z - cc, n);
    lemma_all(
        number(w) * n,
        z * n,
        (fa, number(a) * xe),
        (fb, number(b) * ye),
        (fc, fc),
        delta * (z - cc) + fc,
        e * u,
    );
}

/// The exact determinant of a transform.
spec fn exact_determinant(t: PaintTransform) -> real {
    number(t.xx) * number(t.yy) - number(t.xy) * number(t.yx)
}

/// Whether a computed determinant is near the exact one and in range.
spec fn determinant_near(t: PaintTransform, m: real) -> bool {
    &&& in_range(number(t.determinant()), m)
    &&& size(exact_determinant(t) - number(t.determinant())) <= 8real * (part() * (m * m))
}

/// The rows of an inverse, in parts of the exact determinant.
spec fn exact_rows(t: PaintTransform) -> ((real, real, real), (real, real, real)) {
    (
        (
            number(t.yy),
            -number(t.xy),
            number(t.xy) * number(t.dy) - number(t.yy) * number(t.dx),
        ),
        (
            -number(t.yx),
            number(t.xx),
            number(t.yx) * number(t.dx) - number(t.xx) * number(t.dy),
        ),
    )
}

/// Whether an inverse is near the exact one, its offsets as counted in a length.
spec fn inverse_near(t: PaintTransform, m: real, k: real) -> bool {
    let (n, e) = (number(t.determinant()), part());
    let (i, o) = (t.inverse(), exact_rows(t));
    &&& shared(i.xx, n, o.0.0, 11real * (e * m), 2real * m)
    &&& shared(i.xy, n, o.0.1, 11real * (e * m), 2real * m)
    &&& shared(i.yx, n, o.1.0, 11real * (e * m), 2real * m)
    &&& shared(i.yy, n, o.1.1, 11real * (e * m), 2real * m)
    &&& shared(i.dx, n, o.0.2, 41real * (e * k), 6real * k)
    &&& shared(i.dy, n, o.1.2, 41real * (e * k), 6real * k)
    &&& size(o.0.2) <= 2real * k
    &&& size(o.1.2) <= 2real * k
}

/// The determinant of a transform that can be inverted.
proof fn lemma_determinant(t: PaintTransform, m: real, q: real)
    requires
        invertible_within(t, m, q),
    ensures
        determinant_near(t, m),
{
    lemma_bounded_product(number(t.xx), number(t.yy), m, m);
    lemma_bounded_product(number(t.xy), number(t.yx), m, m);
    lemma_crossed(t.xx, t.yy, t.xy, t.yx, m * m);
    lemma_part(m * m);
    lemma_trillionth();
    lemma_absolute_number(t.determinant());
    lemma_number_order(Binary32(TRILLIONTH), t.determinant().abs());
    lemma_negligible(t.determinant());
}

/// An offset of an inverse.
proof fn lemma_offset(
    a: Binary32,
    b: Binary32,
    c: Binary32,
    d: Binary32,
    w: Binary32,
    n: real,
    m: real,
    q: real,
    k: real,
)
    requires
        within(a, m),
        within(b, q),
        within(c, m),
        within(d, q),
        w.finite(),
        a.mul(b).sub(c.mul(d)).mul(w).finite(),
        size(number(w) * n - 1real) <= 5real * part(),
        m * q <= k,
        counted(n, k),
    ensures
        shared(
            a.mul(b).sub(c.mul(d)).mul(w),
            n,
            number(a) * number(b) - number(c) * number(d),
            41real * (part() * k),
            6real * k,
        ),
        size(number(a) * number(b) - number(c) * number(d)) <= 2real * k,
{
    lemma_bounded_product(number(a), number(b), m, q);
    lemma_bounded_product(number(c), number(d), m, q);
    let v = a.mul(b).sub(c.mul(d));
    lemma_finite_factors(v, w);
    lemma_crossed(a, b, c, d, k);
    lemma_part(k);
    lemma_part(3real * k);
    lemma_coefficient(v, w, n, 3real * k);
}

/// The inverse of a transform.
proof fn lemma_inverse(t: PaintTransform, m: real, q: real, k: real)
    requires
        invertible_within(t, m, q),
        determinant_near(t, m),
        m * q <= k,
        counted(number(t.determinant()), m),
        counted(number(t.determinant()), k),
    ensures
        inverse_near(t, m, k),
{
    let d = t.determinant();
    let (n, w) = (number(d), Binary32(ONE).div(d));
    lemma_reciprocal(d);
    lemma_negated(t.xy);
    lemma_negated(t.yx);
    lemma_coefficient(t.yy, w, n, m);
    lemma_coefficient(t.xx, w, n, m);
    lemma_coefficient(t.xy.neg(), w, n, m);
    lemma_coefficient(t.yx.neg(), w, n, m);
    lemma_offset(t.xy, t.dy, t.yy, t.dx, w, n, m, q, k);
    lemma_offset(t.yx, t.dx, t.xx, t.dy, w, n, m, q, k);
}

/// Products and signs.
proof fn lemma_signs(a: real, b: real)
    ensures
        a * b == b * a,
        (-a) * b == -(a * b),
        a * (-b) == -(a * b),
{
    assert(a * b == b * a) by (nonlinear_arith);
    assert((-a) * b == -(a * b)) by (nonlinear_arith);
    assert(a * (-b) == -(a * b)) by (nonlinear_arith);
}

/// A product with a row.
proof fn lemma_expanded(k: real, a: real, x: real, b: real, y: real, c: real)
    ensures
        k * (a * x + b * y + c) == (k * a) * x + (k * b) * y + k * c,
{
    let (f, g) = (a * x, b * y);
    assert(k * (f + g + c) == k * f + k * g + k * c) by (nonlinear_arith);
    lemma_triple(k, a, x);
    lemma_triple(k, b, y);
}

/// A row of the adjugate of a transform undoes it up to the determinant.
proof fn lemma_adjugate_after(
    a: real,
    b: real,
    c: real,
    d: real,
    dx: real,
    dy: real,
    x: real,
    y: real,
)
    ensures
        d * (a * x + b * y + dx) + (-b) * (c * x + d * y + dy) + (b * dy - d * dx) == (a * d - b
            * c) * x,
        (-c) * (a * x + b * y + dx) + a * (c * x + d * y + dy) + (c * dx - a * dy) == (a * d - b
            * c) * y,
{
    lemma_expanded(d, a, x, b, y, dx);
    lemma_expanded(-b, c, x, d, y, dy);
    lemma_expanded(-c, a, x, b, y, dx);
    lemma_expanded(a, c, x, d, y, dy);
    lemma_signs(d, a);
    lemma_signs(d, b);
    lemma_signs(b, c);
    lemma_signs(b, d);
    lemma_signs(b, dy);
    lemma_signs(c, a);
    lemma_signs(c, b);
    lemma_signs(c, dx);
    lemma_signs(b * c, x);
    lemma_signs(b * d, y);
    lemma_signs(c * a, x);
    lemma_signs(c * b, y);
    lemma_difference_times(a * d, b * c, x);
    lemma_difference_times(a * d, b * c, y);
}

/// A row of a transform undoes its adjugate up to the determinant.
proof fn lemma_adjugate_before(
    a: real,
    b: real,
    c: real,
    d: real,
    dx: real,
    dy: real,
    x: real,
    y: real,
)
    ensures
        ({
            let (u, v) = (b * dy - d * dx, c * dx - a * dy);
            let (gx, gy) = (d * x + (-b) * y + u, (-c) * x + a * y + v);
            &&& a * gx + b * gy == (a * d - b * c) * (x - dx)
            &&& c * gx + d * gy == (a * d - b * c) * (y - dy)
        }),
{
    let (u, v) = (b * dy - d * dx, c * dx - a * dy);
    let (p, q) = (a * d, b * c);
    lemma_expanded(a, d, x, -b, y, u);
    lemma_expanded(b, -c, x, a, y, v);
    lemma_expanded(c, d, x, -b, y, u);
    lemma_expanded(d, -c, x, a, y, v);
    lemma_difference_times(b * dy, d * dx, a);
    lemma_difference_times(c * dx, a * dy, b);
    lemma_difference_times(b * dy, d * dx, c);
    lemma_difference_times(c * dx, a * dy, d);
    lemma_triple(a, b, dy);
    lemma_triple(a, d, dx);
    lemma_triple(b, c, dx);
    lemma_triple(b, a, dy);
    lemma_triple(c, b, dy);
    lemma_triple(c, d, dx);
    lemma_triple(d, c, dx);
    lemma_triple(d, a, dy);
    lemma_signs(a, b);
    lemma_signs(b, c);
    lemma_signs(c, b);
    lemma_signs(d, c);
    lemma_signs(d, a);
    lemma_signs(a * b, y);
    lemma_signs(b * c, x);
    lemma_signs(c * b, y);
    lemma_signs(d * c, x);
    lemma_difference_times(p, q, x - dx);
    lemma_difference_times(p, q, y - dy);
    lemma_difference_times(x, dx, p);
    lemma_difference_times(x, dx, q);
    lemma_difference_times(y, dy, p);
    lemma_difference_times(y, dy, q);
}

/// The inverse after the transform.
proof fn lemma_undone(
    t: PaintTransform,
    x: Binary32,
    y: Binary32,
    m: real,
    q: real,
    r: real,
)
    requires
        invertible_within(t, m, q),
        within(x, r),
        within(y, r),
        1real <= r,
        determinant_near(t, m),
        inverse_near(t, m, m * (m * r + q)),
        ({
            let moved = transform_point(&t, x, y);
            let back = transform_point(&t.inverse(), moved.0, moved.1);
            back.0.finite() && back.1.finite()
        }),
    ensures
        ({
            let moved = transform_point(&t, x, y);
            let back = transform_point(&t.inverse(), moved.0, moved.1);
            near_point(t, back, (x, y), m * (m * r + q))
        }),
{
    let (xx, yx, xy, yy) = (number(t.xx), number(t.yx), number(t.xy), number(t.yy));
    let (dx, dy, px, py) = (number(t.dx), number(t.dy), number(x), number(y));
    let (i, o, n) = (t.inverse(), exact_rows(t), number(t.determinant()));
    let moved = transform_point(&t, x, y);
    let f = m * r + q;
    lemma_bounds(n, m, q, r);
    lemma_finite_terms(i.xx.mul(moved.0).add(i.xy.mul(moved.1)), i.dx);
    lemma_finite_terms(i.xx.mul(moved.0), i.xy.mul(moved.1));
    lemma_finite_factors(i.xx, moved.0);
    lemma_finite_factors(i.xy, moved.1);
    let (fx, fy) = (xx * px + xy * py + dx, yx * px + yy * py + dy);
    lemma_moved(t.xx, x, t.xy, y, t.dx, m, r, f);
    lemma_moved(t.yx, x, t.yy, y, t.dy, m, r, f);
    lemma_adjugate_after(xx, xy, yx, yy, dx, dy, px, py);
    let delta = exact_determinant(t);
    lemma_slip(delta - n, px, m, r, m * f);
    lemma_slip(delta - n, py, m, r, m * f);
    lemma_undone_row(i.xx, moved.0, i.xy, moved.1, i.dx, n, o.0, fx, fy, delta, px, m, f);
    lemma_undone_row(i.yx, moved.0, i.yy, moved.1, i.dy, n, o.1, fx, fy, delta, py, m, f);
}

/// The error of the determinant at a coordinate.
proof fn lemma_slip(d: real, x: real, m: real, r: real, k: real)
    requires
        size(d) <= 8real * (part() * (m * m)),
        size(x) <= r,
        m * (m * r) <= k,
    ensures
        size(d * x) <= 8real * (part() * k),
{
    let e = part();
    lemma_bounded_product(d, x, 8real * (e * (m * m)), r);
    lemma_triple(m, m, r);
    let h = m * m;
    assert((8real * (e * h)) * r == 8real * (e * (h * r))) by (nonlinear_arith);
    lemma_part(h * r);
    lemma_part(k);
}

/// The transform after the inverse.
proof fn lemma_restored(
    t: PaintTransform,
    x: Binary32,
    y: Binary32,
    m: real,
    q: real,
    r: real,
)
    requires
        invertible_within(t, m, q),
        within(x, r),
        within(y, r),
        1real <= r,
        determinant_near(t, m),
        inverse_near(t, m, m * (r + q)),
        ({
            let moved = transform_point(&t.inverse(), x, y);
            let back = transform_point(&t, moved.0, moved.1);
            back.0.finite() && back.1.finite()
        }),
    ensures
        ({
            let moved = transform_point(&t.inverse(), x, y);
            let back = transform_point(&t, moved.0, moved.1);
            near_point(t, back, (x, y), m * (m * (r + q)))
        }),
{
    let (xx, yx, xy, yy) = (number(t.xx), number(t.yx), number(t.xy), number(t.yy));
    let (dx, dy, px, py) = (number(t.dx), number(t.dy), number(x), number(y));
    let (i, o, n) = (t.inverse(), exact_rows(t), number(t.determinant()));
    let moved = transform_point(&i, x, y);
    let k = m * (r + q);
    lemma_bounds(n, m, q, r);
    lemma_finite_terms(t.xx.mul(moved.0).add(t.xy.mul(moved.1)), t.dx);
    lemma_finite_terms(t.xx.mul(moved.0), t.xy.mul(moved.1));
    lemma_finite_factors(t.xx, moved.0);
    lemma_finite_factors(t.xy, moved.1);
    let fx = o.0.0 * px + o.0.1 * py + o.0.2;
    let fy = o.1.0 * px + o.1.1 * py + o.1.2;
    lemma_inverse_row(i.xx, x, i.xy, y, i.dx, n, o.0, m, r, k);
    lemma_inverse_row(i.yx, x, i.yy, y, i.dy, n, o.1, m, r, k);
    lemma_adjugate_before(xx, xy, yx, yy, dx, dy, px, py);
    let delta = exact_determinant(t);
    lemma_slip(delta - n, px - dx, m, r + q, m * k);
    lemma_slip(delta - n, py - dy, m, r + q, m * k);
    lemma_still(dx, n, m, q, r);
    lemma_still(dy, n, m, q, r);
    lemma_restored_row(t.xx, moved.0, t.xy, moved.1, t.dx, n, fx, fy, delta, px, m, k);
    lemma_restored_row(t.yx, moved.0, t.yy, moved.1, t.dy, n, fx, fy, delta, py, m, k);
}

/// An offset in parts of a determinant.
proof fn lemma_still(d: real, n: real, m: real, q: real, r: real)
    requires
        size(d) <= q,
        in_range(n, m),
        1real <= r,
    ensures
        size(d) * size(n) <= 3real * (m * (m * (r + q))),
{
    lemma_size_product(d, n);
    lemma_bounded_product(d, n, q, 3real * (m * m));
    let h = m * m;
    assert(q * (3real * h) == 3real * (h * q)) by (nonlinear_arith);
    assert(h >= 0real) by (nonlinear_arith)
        requires
            h == m * m,
    ;
    lemma_larger(h, q, r + q);
    lemma_triple(m, m, r + q);
}

} // verus!
