//! What holds of the canvases of glyphs.
use crate::accuracy::{
    lemma_ceil_value, lemma_exact_scaled, lemma_floor_value, lemma_half_and_two,
    lemma_integer_exact,
};
use crate::binary32::{absolute, integer, units, unity, Binary32};
use crate::consts::{LARGEST_SIDE, ONE, TWO, ZERO};
use crate::frame::{
    fits, frame_of, glyph_box, lemma_side, padded, pixels_per_unit, whole_box, FaceMetrics,
};
use crate::order::{
    lemma_add_value, lemma_finite_terms, lemma_rounded_exact, lemma_rounded_order, lemma_same_size,
    lemma_values, rounded,
};
use crate::path::BoundingBox;
use crate::reals::{
    lemma_ceil_number, lemma_finite_dividend, lemma_finite_factors, lemma_finite_quotient,
    lemma_floor_number, lemma_limit_size, lemma_negated, lemma_number_order, lemma_part,
    lemma_product, lemma_quotient, lemma_size_product, lemma_whole_number, number, part, size,
    speck,
};
use crate::rounding::{lemma_units_binades, lemma_units_order};
use vstd::arithmetic::div_mod::{lemma_fundamental_div_mod, lemma_fundamental_div_mod_converse};
use vstd::arithmetic::power2::{lemma2_to64, lemma_pow2_adds};
use vstd::prelude::*;

verus! {

/// A canvas has the size of the box of its glyph in whole pixels, and a pixel to spare at
/// either end. The box lies inside that margin, unless it is so far from the origin that
/// pixels can no longer be told apart.
pub proof fn frames_hold_their_glyphs(
    metrics: FaceMetrics,
    font_size: Binary32,
    clip_box: Option<BoundingBox>,
)
    requires
        frame_of(metrics, font_size, clip_box) is Some,
    ensures
        ({
            let frame = frame_of(metrics, font_size, clip_box)->0;
            let b = whole_box(glyph_box(metrics, font_size, clip_box));
            let (t, pixel, far) = (frame.base_transform, unity() as int, 0x0100_0000 * unity());
            &&& frame.width * pixel == b.x_max.value() - b.x_min.value() + 2 * pixel
            &&& frame.height * pixel == b.y_max.value() - b.y_min.value() + 2 * pixel
            &&& -far < b.x_min.value() <= far ==> {
                &&& b.x_min.value() + t.dx.value() == pixel
                &&& b.x_max.value() + t.dx.value() == (frame.width - 1) * pixel
            }
            &&& -far <= b.y_max.value() < far ==> {
                &&& t.dy.value() - b.y_max.value() == pixel
                &&& t.dy.value() - b.y_min.value() == (frame.height - 1) * pixel
            }
        }),
{
    lemma_values();
    let given = glyph_box(metrics, font_size, clip_box);
    let b = whole_box(given);
    let u = unity() as int;
    lemma_side_exact(given.x_min, given.x_max);
    lemma_side_exact(given.y_min, given.y_max);
    let w = padded(b.x_min, b.x_max).truncated(0, u32::MAX as int);
    let h = padded(b.y_min, b.y_max).truncated(0, u32::MAX as int);
    assert((w - 1) * u == w * u - u) by (nonlinear_arith);
    assert((h - 1) * u == h * u - u) by (nonlinear_arith);
    let far: int = 0x0100_0000 * u;
    if -far < b.x_min.value() <= far {
        let v = b.x_min.value();
        let k = v / u;
        lemma_fundamental_div_mod(v, u);
        assert(-v == (-k) * u + 0) by (nonlinear_arith)
            requires
                v == u * k,
        ;
        lemma_fundamental_div_mod_converse(-v, u, -k, 0);
        lemma_next_exact(b.x_min.neg());
    }
    if -far <= b.y_max.value() < far {
        lemma_next_exact(b.y_max);
    }
}

/// An integer of twenty-four bits, with its sign, and the next one.
proof fn lemma_next_exact(x: Binary32)
    requires
        x.finite(),
        x.value() % unity() as int == 0,
        -(0x0100_0000 * unity()) <= x.value() < 0x0100_0000 * unity(),
    ensures
        x.add(Binary32(ONE)).value() == x.value() + unity(),
{
    lemma_values();
    lemma_add_value(x, Binary32(ONE));
    let u = unity() as int;
    let k = x.value() / u;
    lemma_fundamental_div_mod(x.value(), u);
    assert(x.value() == k * u) by (nonlinear_arith)
        requires
            x.value() == u * k + 0,
    ;
    assert(-0x0100_0000 <= k < 0x0100_0000) by (nonlinear_arith)
        requires
            -(0x0100_0000 * u) <= k * u < 0x0100_0000 * u,
            u > 0,
    ;
    let n = absolute(k + 1);
    assert(x.value() + u == (k + 1) * u) by (nonlinear_arith)
        requires
            x.value() == k * u,
    ;
    assert(absolute((k + 1) * u) == n * u) by (nonlinear_arith)
        requires
            n == absolute(k + 1),
            u > 0,
    ;
    assert((k + 1) * u < 0 <==> k + 1 < 0) by (nonlinear_arith)
        requires
            u > 0,
    ;
    lemma_small_whole(n);
}

/// Up to the precision of the format a whole number rounds to itself.
proof fn lemma_small_whole(n: nat)
    requires
        n <= 0x0100_0000,
    ensures
        rounded(n * unity(), 1) == n * unity(),
{
    if n < 0x0100_0000 {
        lemma_integer_exact(false, n);
        lemma_rounded_exact(integer(false, n));
    } else {
        lemma2_to64();
        lemma_exact_scaled(1, 173);
        lemma_pow2_adds(24, 149);
        let x = Binary32(0x4b80_0000);
        lemma_units_binades(0x0080_0000, 150);
        lemma_pow2_adds(23, 150);
        lemma_rounded_exact(x);
    }
}

/// The side of a canvas from the ends of the box: whole, and two pixels longer.
proof fn lemma_side_exact(low: Binary32, high: Binary32)
    requires
        !high.ceil().at_most(low.floor()),
        fits(padded(low.floor(), high.ceil())),
    ensures
        low.floor().finite(),
        high.ceil().finite(),
        low.floor().value() % unity() as int == 0,
        high.ceil().value() % unity() as int == 0,
        padded(low.floor(), high.ceil()).truncated(0, u32::MAX as int) * unity()
            == high.ceil().value() - low.floor().value() + 2 * unity(),
{
    lemma_values();
    lemma_half_and_two();
    let (a, b) = (low.floor(), high.ceil());
    lemma_finite_terms(b.sub(a), Binary32(TWO));
    lemma_finite_terms(b, a.neg());
    lemma_unfloored(low);
    lemma_unceiled(high);
    let u = unity() as int;
    let (p, q) = (low.value() / u, (-high.value()) / u);
    assert(-(q * u) == (-q) * u) by (nonlinear_arith);
    assert(a.value() == p * u && b.value() == (-q) * u);
    lemma_fundamental_div_mod_converse(p * u, u, p, 0);
    lemma_fundamental_div_mod_converse((-q) * u, u, -q, 0);
    // The sides differ by a whole number of pixels, which is not rounded.
    let k = -q - p;
    assert((-q) * u - p * u == k * u) by (nonlinear_arith)
        requires
            k == -q - p,
    ;
    assert(k > 0) by (nonlinear_arith)
        requires
            k * u > 0,
            u > 0,
    ;
    lemma_add_value(b, a.neg());
    let side = padded(a, b);
    lemma_add_value(b.sub(a), Binary32(TWO));
    lemma_large_side(k as nat, b.sub(a), side);
    lemma_small_whole(k as nat);
    assert(b.sub(a).value() == k * u);
    assert(k * u + 2 * u == (k + 2) * u) by (nonlinear_arith);
    lemma_small_whole((k + 2) as nat);
    assert(side.value() == (k + 2) * u);
    assert(units(0) == 0);
    assert(!side.negative());
    lemma_fundamental_div_mod_converse((k + 2) * u, u, k + 2, 0);
}

/// A side that fits is not past the precision of the format.
proof fn lemma_large_side(k: nat, difference: Binary32, side: Binary32)
    requires
        fits(side),
        difference.finite(),
        difference.value() == rounded(k * unity(), 1),
        side == difference.add(Binary32(TWO)),
    ensures
        k <= 8190,
{
    lemma_values();
    lemma_half_and_two();
    lemma_add_value(difference, Binary32(TWO));
    let most = Binary32(LARGEST_SIDE);
    lemma2_to64();
    lemma_units_binades(0x0080_0000, 139);
    lemma_pow2_adds(23, 139);
    lemma_pow2_adds(13, 149);
    assert(most.value() == 8192 * unity());
    if k > 8190 {
        assert(8191 * unity() <= k * unity()) by (nonlinear_arith)
            requires
                k >= 8191,
        ;
        lemma_rounded_order(8191 * unity(), 1, k * unity(), 1);
        lemma_small_whole(8191);
        let n = (difference.value() + 2 * unity()) as nat;
        lemma_rounded_order(8193 * unity(), 1, n, 1);
        lemma_small_whole(8193);
    }
}

/// What has a finite floor is finite.
proof fn lemma_unfloored(x: Binary32)
    requires
        x.floor().finite(),
    ensures
        x.finite(),
        x.floor().value() == (x.value() / unity() as int) * unity(),
{
    reveal(Binary32::spec_floor);
    lemma_floor_value(x);
}

/// What has a finite ceiling is finite.
proof fn lemma_unceiled(x: Binary32)
    requires
        x.ceil().finite(),
    ensures
        x.finite(),
        x.ceil().value() == -(((-x.value()) / unity() as int) * unity()),
{
    reveal(Binary32::spec_ceil);
    lemma_ceil_value(x);
}

/// The base transform of a canvas takes as many font units as make up an em to as many pixels as
/// the font is large, to the right along the one axis and downwards along the other, and turns
/// nothing aside.
pub proof fn frames_scale_the_em_to_the_size(
    metrics: FaceMetrics,
    font_size: Binary32,
    clip_box: Option<BoundingBox>,
)
    requires
        frame_of(metrics, font_size, clip_box) is Some,
    ensures
        ({
            let t = frame_of(metrics, font_size, clip_box)->0.base_transform;
            let (em, s) = (metrics.units_per_em as int as real, number(font_size));
            let slack = part() * size(s) + em * speck();
            &&& font_size.finite()
            &&& em > 0real
            &&& t.xx.finite()
            &&& t.yy.finite()
            &&& size(number(t.xx) * em - s) <= slack
            &&& size(number(t.yy) * em + s) <= slack
            &&& number(t.xy) == 0real
            &&& number(t.yx) == 0real
        }),
{
    let frame = frame_of(metrics, font_size, clip_box)->0;
    let b = glyph_box(metrics, font_size, clip_box);
    lemma_values();
    lemma_number_order(Binary32(ZERO), Binary32(ZERO));
    lemma_side_exact(b.x_min, b.x_max);
    lemma_side_exact(b.y_min, b.y_max);
    lemma_unfloored(b.y_min);
    let scale = pixels_per_unit(metrics, font_size);
    let u = integer(false, metrics.units_per_em as nat);
    match clip_box {
        Some(c) => {
            lemma_finite_factors(c.y_min, scale);
        },
        None => {
            lemma_finite_factors(metrics.descent, scale);
        },
    }
    lemma_finite_dividend(font_size, u);
    lemma_integer_exact(false, metrics.units_per_em as nat);
    lemma_whole_number(u, metrics.units_per_em as int);
    lemma_finite_quotient(font_size, u);
    lemma_negated(scale);
    lemma_scaled_back(number(scale), number(font_size), number(u));
    let (x, em) = (number(scale), number(u));
    assert((-x) * em == -(x * em)) by (nonlinear_arith);
}

/// A quotient, multiplied back.
proof fn lemma_scaled_back(c: real, s: real, u: real)
    requires
        size(c - s / u) <= part() * size(s / u) + speck(),
        u > 0real,
    ensures
        size(c * u - s) <= part() * size(s) + u * speck(),
{
    let (q, e, g) = (s / u, part(), speck());
    assert(q * u == s) by (nonlinear_arith)
        requires
            q == s / u,
            u > 0real,
    ;
    lemma_size_product(q, u);
    lemma_size_product(c - q, u);
    assert((c - q) * u == c * u - q * u) by (nonlinear_arith);
    let (d, h) = (size(c - q), size(q));
    assert(d * u <= e * (h * u) + u * g) by (nonlinear_arith)
        requires
            d <= e * h + g,
            u > 0real,
    ;
}

/// The box of a glyph in pixels, exactly: its clip box in font units, or an em wide and as high
/// as the font, scaled by the size over the units of an em. In the order left, bottom, right,
/// top.
pub open spec fn exact_box(
    metrics: FaceMetrics,
    font_size: Binary32,
    clip_box: Option<BoundingBox>,
) -> (real, real, real, real) {
    let s = number(font_size);
    let em = metrics.units_per_em as int as real;
    match clip_box {
        Some(b) => (
            number(b.x_min) * s / em,
            number(b.y_min) * s / em,
            number(b.x_max) * s / em,
            number(b.y_max) * s / em,
        ),
        None => (0real, number(metrics.descent) * s / em, s, number(metrics.ascent) * s / em),
    }
}

/// Whether a font and a size are such as occur: everything is finite, not beyond `2^60`, and the
/// box is not farther than `2^22` pixels from the origin.
pub open spec fn moderate(
    metrics: FaceMetrics,
    font_size: Binary32,
    clip_box: Option<BoundingBox>,
) -> bool {
    let (x_min, y_min, x_max, y_max) = exact_box(metrics, font_size, clip_box);
    &&& metrics.units_per_em > 0
    &&& reasonable(font_size)
    &&& match clip_box {
        Some(b) => reasonable(b.x_min) && reasonable(b.y_min) && reasonable(b.x_max) && reasonable(
            b.y_max,
        ),
        None => reasonable(metrics.ascent) && reasonable(metrics.descent),
    }
    &&& size(x_min) <= 4194304real
    &&& size(y_min) <= 4194304real
    &&& size(x_max) <= 4194304real
    &&& size(y_max) <= 4194304real
}

/// Whether a number is finite and not beyond `2^60`.
pub open spec fn reasonable(x: Binary32) -> bool {
    x.finite() && size(number(x)) <= 1152921504606846976real
}

/// How far a side of a box may be off: four parts in `2^24`, and a millionth of a pixel.
pub open spec fn box_slack(side: real) -> real {
    4real * (size(side) / 16777216real) + 1real / 1048576real
}

/// Two whole numbers that the sides of a box lie between, each less than a pixel away but for
/// rounding.
pub open spec fn enclose(low: real, high: real, side_low: real, side_high: real) -> bool {
    &&& low <= side_low + box_slack(side_low)
    &&& side_low - 1real - box_slack(side_low) < low
    &&& side_high - box_slack(side_high) <= high
    &&& high < side_high + 1real + box_slack(side_high)
}

/// Without its margin of a pixel on every side, a canvas is the exact box of the glyph grown to
/// whole pixels, and the base transform puts the origin of the glyph where it belongs: as far
/// inside the canvas as the box reaches to the left of it and above it, and the margin.
pub proof fn frames_enclose_the_exact_box(
    metrics: FaceMetrics,
    font_size: Binary32,
    clip_box: Option<BoundingBox>,
)
    requires
        frame_of(metrics, font_size, clip_box) is Some,
        moderate(metrics, font_size, clip_box),
    ensures
        ({
            let frame = frame_of(metrics, font_size, clip_box)->0;
            let (x_min, y_min, x_max, y_max) = exact_box(metrics, font_size, clip_box);
            let (left, top) = (frame.x_min as int as real, frame.y_max as int as real);
            let (width, height) = (frame.width as int as real, frame.height as int as real);
            &&& enclose(left, left + width - 2real, x_min, x_max)
            &&& enclose(top - (height - 2real), top, y_min, y_max)
            &&& number(frame.base_transform.dx) == 1real - left
            &&& number(frame.base_transform.dy) == top + 1real
        }),
{
    let frame = frame_of(metrics, font_size, clip_box)->0;
    let g = glyph_box(metrics, font_size, clip_box);
    let b = whole_box(g);
    lemma_values();
    lemma_near_box(metrics, font_size, clip_box);
    frames_hold_their_glyphs(metrics, font_size, clip_box);
    lemma_floor_number(g.x_min);
    lemma_floor_number(g.y_min);
    lemma_ceil_number(g.x_max);
    lemma_ceil_number(g.y_max);
    let u = unity() as int;
    let (i, j) = (g.x_min.value() / u, g.y_min.value() / u);
    let (k, l) = (-((-g.x_max.value()) / u), -((-g.y_max.value()) / u));
    let far: int = 0x0100_0000 * u;
    lemma_near_origin(i);
    lemma_near_origin(l);
    lemma_counts(frame.width as int, k - i + 2, u);
    lemma_counts(frame.height as int, l - j + 2, u);
    assert(k * u - i * u + 2 * u == (k - i + 2) * u) by (nonlinear_arith);
    assert(l * u - j * u + 2 * u == (l - j + 2) * u) by (nonlinear_arith);
    assert(frame.width == k - i + 2 && frame.height == l - j + 2);
    lemma_told(b.x_min, i);
    lemma_told(b.y_max, l);
    let (dx, dy) = (frame.base_transform.dx, frame.base_transform.dy);
    assert(u - i * u == (1 - i) * u && l * u + u == (l + 1) * u) by (nonlinear_arith);
    lemma_whole_number(dx, 1 - i);
    lemma_whole_number(dy, l + 1);
    assert((1 - i) as real == 1real - i as real);
    assert((l + 1) as real == l as real + 1real);
    assert((k - i + 2) as real == k as real - i as real + 2real);
    assert((l - j + 2) as real == l as real - j as real + 2real);
}

/// A whole number not far from the origin, in units.
proof fn lemma_near_origin(k: int)
    requires
        -4194310real <= k as real,
        k as real <= 4194310real,
    ensures
        -(0x0100_0000 * unity()) < k * unity() < 0x0100_0000 * unity(),
{
    lemma_values();
    assert(-4194310 <= k <= 4194310);
    let u = unity() as int;
    assert(-(0x0100_0000 * u) < k * u < 0x0100_0000 * u) by (nonlinear_arith)
        requires
            -4194310 <= k <= 4194310,
            u > 0,
    ;
}

/// Counts of one number of units are one.
proof fn lemma_counts(a: int, b: int, u: int)
    requires
        u > 0,
    ensures
        a * u == b * u ==> a == b,
{
    if a * u == b * u {
        assert(a == b) by (nonlinear_arith)
            requires
                a * u == b * u,
                u > 0,
        ;
    }
}

/// The integer of a whole number.
proof fn lemma_told(x: Binary32, k: int)
    requires
        x.finite(),
        x.value() == k * unity(),
        -4194310 <= k <= 4194310,
    ensures
        x.truncated(i32::MIN as int, i32::MAX as int) == k,
{
    lemma_values();
    assert(units(0) == 0);
    lemma_units_order(0, x.magnitude());
    let u = unity() as int;
    let n = units(x.magnitude()) as int;
    if x.negative() {
        assert(n == (-k) * u) by (nonlinear_arith)
            requires
                -n == k * u,
        ;
        lemma_fundamental_div_mod_converse(n, u, -k, 0);
    } else {
        lemma_fundamental_div_mod_converse(n, u, k, 0);
    }
}

/// The sides of the box that is computed are near the exact ones.
proof fn lemma_near_box(
    metrics: FaceMetrics,
    font_size: Binary32,
    clip_box: Option<BoundingBox>,
)
    requires
        moderate(metrics, font_size, clip_box),
    ensures
        ({
            let g = glyph_box(metrics, font_size, clip_box);
            let (x_min, y_min, x_max, y_max) = exact_box(metrics, font_size, clip_box);
            &&& near_side(g.x_min, x_min)
            &&& near_side(g.y_min, y_min)
            &&& near_side(g.x_max, x_max)
            &&& near_side(g.y_max, y_max)
        }),
{
    lemma_values();
    lemma_number_order(Binary32(ZERO), Binary32(ZERO));
    match clip_box {
        Some(b) => {
            lemma_near_side(metrics, font_size, b.x_min);
            lemma_near_side(metrics, font_size, b.y_min);
            lemma_near_side(metrics, font_size, b.x_max);
            lemma_near_side(metrics, font_size, b.y_max);
        },
        None => {
            lemma_near_side(metrics, font_size, metrics.descent);
            lemma_near_side(metrics, font_size, metrics.ascent);
        },
    }
}

/// Whether a side is near the exact one.
spec fn near_side(x: Binary32, exact: real) -> bool {
    &&& x.finite()
    &&& size(number(x) - exact) <= box_slack(exact)
}

/// A side that is scaled from font units.
proof fn lemma_near_side(metrics: FaceMetrics, font_size: Binary32, b: Binary32)
    requires
        metrics.units_per_em > 0,
        reasonable(font_size),
        reasonable(b),
        size(number(b) * number(font_size) / (metrics.units_per_em as int as real)) <= 4194304real,
    ensures
        near_side(
            b.mul(pixels_per_unit(metrics, font_size)),
            number(b) * number(font_size) / (metrics.units_per_em as int as real),
        ),
{
    lemma_limit_size();
    let n = metrics.units_per_em as nat;
    let u = integer(false, n);
    lemma_integer_exact(false, n);
    lemma_whole_number(u, n as int);
    let (s, em, x) = (number(font_size), number(u), number(b));
    let q = s / em;
    assert(q * em == s) by (nonlinear_arith)
        requires
            q == s / em,
            em >= 1real,
    ;
    assert(size(q) <= size(s)) by {
        lemma_size_product(q, em);
        let h = size(q);
        assert(h <= h * em) by (nonlinear_arith)
            requires
                h >= 0real,
                em >= 1real,
        ;
    }
    lemma_quotient(font_size, u);
    let scale = pixels_per_unit(metrics, font_size);
    let c = number(scale);
    lemma_part(size(q));
    let w = x * s / em;
    assert(w == x * q) by (nonlinear_arith)
        requires
            w == x * s / em,
            q * em == s,
            em >= 1real,
    ;
    lemma_size_product(x, q);
    lemma_size_product(x, c);
    lemma_size_product(x, c - q);
    assert(x * (c - q) == x * c - x * q) by (nonlinear_arith);
    let (h, k, g) = (size(x), size(q), speck());
    let d = size(c - q);
    assert(h * d <= (h * k) / 16777216real + h * g) by (nonlinear_arith)
        requires
            d <= k / 16777216real + g,
            h >= 0real,
    ;
    assert(h * g <= 1real / 4194304real) by (nonlinear_arith)
        requires
            0real <= h,
            h <= 1152921504606846976real,
            0real < g,
            g <= 1real / 1267650600228229401496703205376real,
    ;
    lemma_product(b, scale);
    lemma_part(size(x * c));
}

/// A glyph has a canvas wherever its exact box is clearly not empty and clearly not too large;
/// and it has none without units of an em, or where the box is clearly empty or too large.
pub proof fn boxes_that_fit_have_a_frame(
    metrics: FaceMetrics,
    font_size: Binary32,
    clip_box: Option<BoundingBox>,
)
    ensures
        metrics.units_per_em == 0 ==> frame_of(metrics, font_size, clip_box) is None,
        moderate(metrics, font_size, clip_box) ==> {
            let (x_min, y_min, x_max, y_max) = exact_box(metrics, font_size, clip_box);
            let (dx, dy) = (
                box_slack(x_min) + box_slack(x_max),
                box_slack(y_min) + box_slack(y_max),
            );
            let wide = x_max - x_min > dx && x_max - x_min + dx <= 8188real;
            let high = y_max - y_min > dy && y_max - y_min + dy <= 8188real;
            &&& wide && high ==> frame_of(metrics, font_size, clip_box) is Some
            &&& x_max - x_min - dx > 8190real || y_max - y_min - dy > 8190real ==> frame_of(
                metrics,
                font_size,
                clip_box,
            ) is None
            &&& x_max - x_min + dx < -2real || y_max - y_min + dy < -2real ==> frame_of(
                metrics,
                font_size,
                clip_box,
            ) is None
        },
{
    if moderate(metrics, font_size, clip_box) {
        let g = glyph_box(metrics, font_size, clip_box);
        let (x_min, y_min, x_max, y_max) = exact_box(metrics, font_size, clip_box);
        lemma_near_box(metrics, font_size, clip_box);
        if frame_of(metrics, font_size, clip_box) is Some {
            frames_enclose_the_exact_box(metrics, font_size, clip_box);
        }
        lemma_order_of_sides(g.x_min, g.x_max);
        lemma_order_of_sides(g.y_min, g.y_max);
    }
}

/// When a side fits, by its ends.
proof fn lemma_order_of_sides(low: Binary32, high: Binary32)
    requires
        low.finite(),
        high.finite(),
        size(number(low)) <= 4194308real,
        size(number(high)) <= 4194308real,
    ensures
        number(low) < number(high) && number(high) - number(low) <= 8188real
            ==> !high.ceil().at_most(low.floor()) && fits(padded(low.floor(), high.ceil())),
        number(high) < number(low) - 2real ==> high.ceil().at_most(low.floor()),
        !high.ceil().at_most(low.floor()) && fits(padded(low.floor(), high.ceil()))
            ==> number(high) - number(low) <= 8190real,
{
    lemma_values();
    lemma_floor_number(low);
    lemma_ceil_number(high);
    let u = unity() as int;
    let (i, k) = (low.value() / u, -((-high.value()) / u));
    let (a, b) = (low.floor(), high.ceil());
    lemma_number_order(a, b);
    lemma_number_order(b, a);
    assert((k - i) as real == k as real - i as real);
    if number(low) < number(high) && number(high) - number(low) <= 8188real {
        assert(0 < k - i <= 8190);
        lemma_half_and_two();
        lemma_add_value(b, a.neg());
        assert(k * u - i * u == (k - i) * u) by (nonlinear_arith);
        lemma_small_whole((k - i) as nat);
        lemma_same_whole(b.sub(a), k - i);
        lemma_add_value(b.sub(a), Binary32(TWO));
        assert((k - i) * u + 2 * u == (k - i + 2) * u) by (nonlinear_arith);
        lemma_small_whole((k - i + 2) as nat);
        lemma_same_whole(b.sub(a).add(Binary32(TWO)), k - i + 2);
        lemma2_to64();
        lemma_units_binades(0x0080_0000, 139);
        lemma_pow2_adds(23, 139);
        lemma_pow2_adds(13, 149);
        assert(Binary32(LARGEST_SIDE).value() == 8192 * unity());
        assert(unity() <= (k - i + 2) * u <= 8192 * u) by (nonlinear_arith)
            requires
                0 < k - i <= 8190,
                u > 0,
                u == unity(),
        ;
    }
    if !b.at_most(a) && fits(padded(a, b)) {
        lemma_side_exact(low, high);
        lemma_side(padded(a, b));
        let w = padded(a, b).truncated(0, u32::MAX as int);
        assert(k * u - i * u + 2 * u == (k - i + 2) * u) by (nonlinear_arith);
        lemma_counts(w, k - i + 2, u);
    }
}

/// A number of a small whole value is finite.
proof fn lemma_same_whole(x: Binary32, k: int)
    requires
        !x.nan(),
        0 <= k <= 0x4000,
        x.value() == k * unity(),
    ensures
        x.finite(),
{
    lemma_integer_exact(false, k as nat);
    lemma_same_size(x, integer(false, k as nat));
}

} // verus!
