//! What compositing does to the bytes of premultiplied pixels.
use crate::binary32::Binary32;
use crate::blend::CompositeMode;
use crate::bounds::fractional;
use crate::canvas::{coverage, Canvas};
use crate::color::{over_channel, premultiplied_pixel};
use crate::composite::{
    composited, composited_bytes, lemma_fraction, pixel, premultiplied, straight_of,
};
use crate::consts::{ONE, ZERO};
use crate::gradient::fraction;
use crate::laws::blends::{at_most_one, lemma_unit_product};
use crate::laws::bytes::premultiplied_bytes_are_nearest;
use crate::laws::colors::{products_of_fractions_are_nearest, what_lies_below_shines_through};
use crate::laws::compositing::{compositing_stays_in_range, straight_colors_are_fractions};
use crate::laws::gradients::lemma_no_alpha;
use crate::laws::operators::{
    fractional_pixel, fractions_kept, lemma_operator_below_one, operators_keep_their_fractions,
    sums_add_what_is_premultiplied,
};
use crate::laws::stops::{byte_part, fractions_are_parts_of_the_whole};
use crate::order::lemma_values;
use crate::reals::{
    lemma_distributes, lemma_divided_back, lemma_exchanged, lemma_finite_quotient,
    lemma_number_order, lemma_part, lemma_shared, lemma_small_number, number, size,
};
use vstd::prelude::*;

verus! {

/// A byte of a pixel as a part of the whole.
pub open spec fn pixel_part(px: Seq<u8>, k: int) -> real {
    byte_part(px[k])
}

/// An operator keeps its fractions of the bytes of two premultiplied pixels: every byte that comes
/// out is the nearest to what is kept of the source and of the backdrop together, but for a
/// sixty-fourth.
pub proof fn operators_composite_bytes(s: Seq<u8>, d: Seq<u8>, mode: CompositeMode, k: int)
    requires
        s.len() == 4,
        d.len() == 4,
        premultiplied_pixel(s),
        premultiplied_pixel(d),
        fractions_kept(mode, pixel_part(s, 3), pixel_part(d, 3)) is Some,
        0 <= k < 4,
    ensures
        ({
            let (fa, fb) = fractions_kept(mode, pixel_part(s, 3), pixel_part(d, 3))->0;
            size(
                composited_bytes(s, d, mode)[k] as int as real - 255real * (fa * pixel_part(s, k)
                    + fb * pixel_part(d, k)),
            ) <= 1real / 2real + 1real / 64real
        }),
{
    let (fa, fb) = fractions_kept(mode, pixel_part(s, 3), pixel_part(d, 3))->0;
    if mode == CompositeMode::SrcOver {
        lemma_over_bytes(s, d, k);
    } else {
        lemma_operator_bytes(s, d, mode, k);
    }
}

/// The usual operator on bytes.
proof fn lemma_over_bytes(s: Seq<u8>, d: Seq<u8>, k: int)
    requires
        s.len() == 4,
        d.len() == 4,
        premultiplied_pixel(s),
        premultiplied_pixel(d),
        0 <= k < 4,
    ensures
        size(
            composited_bytes(s, d, CompositeMode::SrcOver)[k] as int as real - 255real * (1real
                * pixel_part(s, k) + (1real - pixel_part(s, 3)) * pixel_part(d, k)),
        ) <= 1real / 2real + 1real / 64real,
{
    let out = over_channel(s[k], s[3], d[k]);
    assert(s[k] <= s[3] && d[k] <= d[3]);
    what_lies_below_shines_through(s[k], s[3], d[k], d[3]);
    if s[3] == 0 {
        assert((255 - 0) * d[k] == 255 * d[k]);
        assert(out == d[k]);
    }
    assert(composited_bytes(s, d, CompositeMode::SrcOver)[k] == out);
    let (c, a, b) = (s[k] as int, s[3] as int, d[k] as int);
    let n = (255 - a) * b;
    let (cr, ar, br, nr) = (c as real, a as real, b as real, n as real);
    assert(nr == (255real - ar) * br) by (nonlinear_arith)
        requires
            nr == n as real,
            n == (255 - a) * b,
            ar == a as real,
            br == b as real,
    ;
    let (i, j) = (ar / 255real, br / 255real);
    lemma_distributes(1real, i, j);
    lemma_distributes(255real, ar, br);
    let m = i * j;
    assert(ar * br == 65025real * m) by (nonlinear_arith)
        requires
            ar == 255real * i,
            br == 255real * j,
            m == i * j,
    ;
    let o = out as int;
    assert(-128 <= 255 * o - (255 * c + n) <= 128);
    assert(-128real <= 255real * (o as real) - (255real * cr + nr));
    assert(255real * (o as real) - (255real * cr + nr) <= 128real);
}

/// The straight color of a premultiplied pixel, premultiplied again.
proof fn lemma_straight_color(px: Seq<u8>)
    requires
        px.len() == 4,
        premultiplied_pixel(px),
    ensures
        ({
            let o = straight_of(px);
            &&& fractional_pixel(o)
            &&& size(number(o[3]) - pixel_part(px, 3)) <= 2real / 16777216real
            &&& size(number(o[3]) * number(o[0]) - pixel_part(px, 0)) <= 8real / 16777216real
            &&& size(number(o[3]) * number(o[1]) - pixel_part(px, 1)) <= 8real / 16777216real
            &&& size(number(o[3]) * number(o[2]) - pixel_part(px, 2)) <= 8real / 16777216real
        }),
{
    lemma_values();
    lemma_number_order(Binary32(ZERO), Binary32(ONE));
    straight_colors_are_fractions(px);
    let o = straight_of(px);
    lemma_part(2real);
    fractions_are_parts_of_the_whole(px[3]);
    let a = fraction(px[3]);
    if a.at_most(Binary32(ZERO)) {
        lemma_no_alpha(px[3]);
        assert(0real * 0real == 0real);
        assert(0real / 255real == 0real);
    } else {
        lemma_number_order(Binary32(ZERO), a);
        lemma_fraction(px[3], px[3]);
        assert(fractional(o[0]) && fractional(o[1]) && fractional(o[2]));
        lemma_straight_part(px[0], px[3]);
        lemma_straight_part(px[1], px[3]);
        lemma_straight_part(px[2], px[3]);
    }
}

/// A straight channel premultiplied again.
proof fn lemma_straight_part(c: u8, a: u8)
    requires
        0real < number(fraction(a)),
        fractional(fraction(a)),
        fractional(fraction(c).div(fraction(a))),
    ensures
        size(number(fraction(a)) * number(fraction(c).div(fraction(a))) - byte_part(c)) <= 8real
            / 16777216real,
{
    lemma_part(2real);
    fractions_are_parts_of_the_whole(c);
    lemma_small_number(fraction(a));
    let (x, y) = (fraction(c), fraction(a));
    let (u, v, q) = (number(x), number(y), number(x.div(y)));
    lemma_finite_quotient(x, y);
    let h = u / v;
    lemma_divided_back(u, v);
    lemma_part(size(h));
    lemma_small_number(x.div(y));
    let e = q - h;
    lemma_distributes(q, h, v);
    lemma_exchanged(q, v);
    assert(size(h) <= 2real);
    lemma_shared(e, v);
}

/// An operator on bytes by way of straight colors.
proof fn lemma_operator_bytes(s: Seq<u8>, d: Seq<u8>, mode: CompositeMode, k: int)
    requires
        s.len() == 4,
        d.len() == 4,
        premultiplied_pixel(s),
        premultiplied_pixel(d),
        mode != CompositeMode::SrcOver,
        fractions_kept(mode, pixel_part(s, 3), pixel_part(d, 3)) is Some,
        0 <= k < 4,
    ensures
        ({
            let (fa, fb) = fractions_kept(mode, pixel_part(s, 3), pixel_part(d, 3))->0;
            size(
                composited_bytes(s, d, mode)[k] as int as real - 255real * (fa * pixel_part(s, k)
                    + fb * pixel_part(d, k)),
            ) <= 1real / 2real + 1real / 64real
        }),
{
    let (src, dst) = (straight_of(s), straight_of(d));
    lemma_straight_color(s);
    lemma_straight_color(d);
    let (fa, fb) = fractions_kept(mode, pixel_part(s, 3), pixel_part(d, 3))->0;
    let (a, b) = (number(src[3]), number(dst[3]));
    let (ga, gb) = fractions_kept(mode, a, b)->0;
    lemma_small_number(src[3]);
    lemma_small_number(dst[3]);
    fractions_are_parts_of_the_whole(s[3]);
    fractions_are_parts_of_the_whole(d[3]);
    assert(s[k] <= s[3] && d[k] <= d[3]);
    fractions_are_parts_of_the_whole(s[k]);
    fractions_are_parts_of_the_whole(d[k]);
    let r = composited(src, dst, mode);
    lemma_composited_fractions(src, dst, mode);
    lemma_part(256real);
    let i: int = if k < 3 {
        k
    } else {
        0
    };
    operators_keep_their_fractions(src, dst, mode, i);
    lemma_operator_below_one(mode, a, b);
    premultiplied_bytes_are_nearest(r, k);
    let (p, q) = (pixel_part(s, k), pixel_part(d, k));
    let alpha = a * ga + b * gb;
    lemma_unit_product(a, ga);
    lemma_unit_product(b, gb);
    lemma_small_number(r[3]);
    assert(fractional(r[i]) && fractional(src[i]) && fractional(dst[i]));
    lemma_small_number(r[i]);
    lemma_small_number(src[i]);
    lemma_small_number(dst[i]);
    let out = composited_bytes(s, d, mode)[k] as int as real;
    if k < 3 {
        let (u, v) = (number(src[k]), number(dst[k]));
        lemma_kept(a, ga, u, fa, p);
        lemma_kept(b, gb, v, fb, q);
        let c = (a * ga) * u + (b * gb) * v;
        lemma_unit_product(a * ga, u);
        lemma_unit_product(b * gb, v);
        lemma_shared_alpha(number(r[k]), number(r[3]), alpha);
        lemma_out(out, number(r[k]) * number(r[3]), c, fa * p + fb * q);
    } else {
        lemma_kept_alpha(a, ga, fa, p);
        lemma_kept_alpha(b, gb, fb, q);
        lemma_out(out, number(r[3]), alpha, fa * p + fb * q);
    }
}

/// A composited pixel lies between zero and one.
proof fn lemma_composited_fractions(src: Seq<Binary32>, dst: Seq<Binary32>, mode: CompositeMode)
    requires
        fractional_pixel(src),
        fractional_pixel(dst),
    ensures
        fractional_pixel(composited(src, dst, mode)),
{
    assert forall|i: int| 0 <= i < 4 implies fractional(#[trigger] src[i]) by {}
    assert forall|i: int| 0 <= i < 4 implies fractional(#[trigger] dst[i]) by {}
    compositing_stays_in_range(src, dst, mode);
}

/// What is kept of a channel.
proof fn lemma_kept(a: real, g: real, u: real, f: real, p: real)
    requires
        size(a * u - p) <= 8real / 16777216real,
        size(g - f) <= 2real / 16777216real,
        0real <= g,
        g <= 1real,
        0real <= p,
        p <= 1real,
    ensures
        size((a * g) * u - f * p) <= 10real / 16777216real,
{
    let w = a * u;
    assert((a * g) * u == (a * u) * g) by (nonlinear_arith);
    lemma_distributes(w, p, g);
    lemma_shared(w - p, g);
    lemma_exchanged(p, g);
    lemma_distributes(g, f, p);
    lemma_shared(g - f, p);
}

/// What is kept of an alpha.
proof fn lemma_kept_alpha(a: real, g: real, f: real, p: real)
    requires
        size(a - p) <= 2real / 16777216real,
        size(g - f) <= 2real / 16777216real,
        0real <= g,
        g <= 1real,
        0real <= p,
        p <= 1real,
    ensures
        size(a * g - f * p) <= 10real / 16777216real,
{
    lemma_distributes(a, p, g);
    lemma_shared(a - p, g);
    lemma_exchanged(p, g);
    lemma_distributes(g, f, p);
    lemma_shared(g - f, p);
}

/// A channel times an alpha that is near another.
proof fn lemma_shared_alpha(r: real, w: real, alpha: real)
    requires
        0real <= r,
        r <= 1real,
        size(w - alpha) <= 256real / 16777216real,
    ensures
        size(r * w - r * alpha) <= 256real / 16777216real,
{
    lemma_distributes(w, alpha, r);
    lemma_exchanged(w, r);
    lemma_exchanged(alpha, r);
    lemma_shared(w - alpha, r);
}

/// A byte that comes out.
proof fn lemma_out(out: real, x: real, c: real, exact: real)
    requires
        size(out - 255real * x) <= 1real / 2real + 1real / 4096real,
        size(x - c) <= 512real / 16777216real,
        size(c - exact) <= 24real / 16777216real,
    ensures
        size(out - 255real * exact) <= 1real / 2real + 1real / 64real,
{
}

/// Adding two premultiplied pixels adds their bytes and holds them to the largest, but for half a
/// step and a sixty-fourth.
pub proof fn sums_composite_bytes(s: Seq<u8>, d: Seq<u8>, k: int)
    requires
        s.len() == 4,
        d.len() == 4,
        premultiplied_pixel(s),
        premultiplied_pixel(d),
        0 <= k < 4,
    ensures
        size(
            composited_bytes(s, d, CompositeMode::Plus)[k] as int as real - 255real * at_most_one(
                pixel_part(s, k) + pixel_part(d, k),
            ),
        ) <= 1real / 2real + 1real / 64real,
{
    let mode = CompositeMode::Plus;
    let (src, dst) = (straight_of(s), straight_of(d));
    lemma_straight_color(s);
    lemma_straight_color(d);
    let (a, b) = (number(src[3]), number(dst[3]));
    lemma_small_number(src[3]);
    lemma_small_number(dst[3]);
    assert(s[k] <= s[3] && d[k] <= d[3]);
    let r = composited(src, dst, mode);
    lemma_composited_fractions(src, dst, mode);
    lemma_part(256real);
    let i: int = if k < 3 {
        k
    } else {
        0
    };
    sums_add_what_is_premultiplied(src, dst, i);
    premultiplied_bytes_are_nearest(r, k);
    let (p, q) = (pixel_part(s, k), pixel_part(d, k));
    lemma_small_number(r[3]);
    assert(fractional(r[i]));
    lemma_small_number(r[i]);
    let out = composited_bytes(s, d, mode)[k] as int as real;
    if k < 3 {
        let c = at_most_one(a * number(src[k]) + b * number(dst[k]));
        lemma_shared_alpha(number(r[k]), number(r[3]), at_most_one(a + b));
        lemma_out(out, number(r[k]) * number(r[3]), c, at_most_one(p + q));
    } else {
        lemma_out(out, number(r[3]), at_most_one(a + b), at_most_one(p + q));
    }
}

/// A further clip multiplies the coverage of a pixel, to the nearest byte.
pub proof fn clips_multiply(clips: Seq<Seq<u8>>, mask: Seq<u8>, p: int)
    ensures
        -128 <= 255 * coverage(clips.push(mask), p) - coverage(clips, p) * mask[p] <= 128,
        coverage(Seq::empty(), p) == 255,
{
    assert(clips.push(mask).drop_last() =~= clips);
    products_of_fractions_are_nearest(coverage(clips, p), mask[p]);
}

/// A layer is composited onto its backdrop pixel by pixel: by an operator every byte is the
/// nearest to what is kept of the layer and of the backdrop together, but for a sixty-fourth.
pub proof fn layers_composite_onto_their_backdrop(canvas: Canvas, p: int, k: int)
    requires
        canvas.wf(),
        canvas.layers.len() > 0,
        0 <= p < canvas.area(),
        0 <= k < 4,
        ({
            let (backdrop, mode) = canvas.layers.last();
            let (s, d) = (pixel(canvas.pixels, p), pixel(backdrop, p));
            fractions_kept(mode, pixel_part(s, 3), pixel_part(d, 3)) is Some
        }),
    ensures
        ({
            let (backdrop, mode) = canvas.layers.last();
            let (s, d) = (pixel(canvas.pixels, p), pixel(backdrop, p));
            let (fa, fb) = fractions_kept(mode, pixel_part(s, 3), pixel_part(d, 3))->0;
            size(
                pixel(canvas.merged().pixels, p)[k] as int as real - 255real * (fa * pixel_part(
                    s,
                    k,
                ) + fb * pixel_part(d, k)),
            ) <= 1real / 2real + 1real / 64real
        }),
{
    let (backdrop, mode) = canvas.layers.last();
    let (s, d) = (pixel(canvas.pixels, p), pixel(backdrop, p));
    assert(canvas.layers[canvas.layers.len() - 1].0.len() == canvas.area() * 4);
    assert(premultiplied(backdrop));
    assert(premultiplied_pixel(s) && premultiplied_pixel(d));
    operators_composite_bytes(s, d, mode, k);
    assert((4 * p + k) / 4 == p && (4 * p + k) % 4 == k);
}

} // verus!
