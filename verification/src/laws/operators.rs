//! What compositing computes, against exact real numbers.
use crate::binary32::{unity, Binary32};
use crate::blend::{blended_color, clamp01, CompositeMode};
use crate::bounds::{all_fractional, fractional};
use crate::composite::{composited, kept_fractions, straight_pixel};
use crate::consts::{ONE, ZERO};
use crate::laws::blends::{
    at_most_one, colors_blend_by_their_formulas, lemma_blend_range, lemma_complements,
    lemma_product_near, lemma_rest, lemma_sum_near, lemma_unit_product, separable,
};
use crate::laws::gradients::lemma_clamped_number;
use crate::laws::luminosities::{blends_keep_the_light, light_kept};
use crate::order::{
    lemma_div_order, lemma_div_self, lemma_same_size, lemma_values, lemma_zero_quotient,
};
use crate::reals::{
    lemma_cancelled, lemma_distributes, lemma_divided_back, lemma_exchanged, lemma_limit_size,
    lemma_number_order, lemma_part, lemma_quotient, lemma_shared, lemma_size_product,
    lemma_small_number, lemma_times, number, part, size,
};
use vstd::prelude::*;

verus! {

/// The fractions of the source and of the backdrop that an operator keeps, by their alphas.
pub open spec fn fractions_kept(mode: CompositeMode, s: real, b: real) -> Option<(real, real)> {
    match mode {
        CompositeMode::SrcOver => Some((1real, 1real - s)),
        CompositeMode::DestOver => Some((1real - b, 1real)),
        CompositeMode::SrcIn => Some((b, 0real)),
        CompositeMode::DestIn => Some((0real, s)),
        CompositeMode::SrcOut => Some((1real - b, 0real)),
        CompositeMode::DestOut => Some((0real, 1real - s)),
        CompositeMode::SrcAtop => Some((b, 1real - s)),
        CompositeMode::DestAtop => Some((1real - b, s)),
        CompositeMode::Xor => Some((1real - b, 1real - s)),
        _ => None,
    }
}

/// Whether all four channels of a pixel lie between zero and one.
pub open spec fn fractional_pixel(px: Seq<Binary32>) -> bool {
    px.len() == 4 && fractional(px[0]) && fractional(px[1]) && fractional(px[2]) && fractional(
        px[3],
    )
}

/// Whether a pixel has an alpha, and a channel of it, premultiplied by that alpha, has a value,
/// both held to one, but for 256 parts in `2^24` and an error of the channel.
pub open spec fn composed_of(
    r: Seq<Binary32>,
    i: int,
    alpha: real,
    channel: real,
    e: real,
) -> bool {
    &&& r[i].finite()
    &&& r[3].finite()
    &&& size(number(r[3]) - at_most_one(alpha)) <= 256real * part()
    &&& size(number(r[i]) * at_most_one(alpha) - at_most_one(channel)) <= 256real * part() + e
}

/// An operator puts together the fractions of the source and of the backdrop that it keeps: the
/// alphas, and the channels premultiplied by them.
pub proof fn operators_keep_their_fractions(
    src: Seq<Binary32>,
    dst: Seq<Binary32>,
    mode: CompositeMode,
    i: int,
)
    requires
        fractional_pixel(src),
        fractional_pixel(dst),
        fractions_kept(mode, number(src[3]), number(dst[3])) is Some,
        0 <= i < 3,
    ensures
        ({
            let (s, b) = (number(src[3]), number(dst[3]));
            let (fa, fb) = fractions_kept(mode, s, b)->0;
            composed_of(
                composited(src, dst, mode),
                i,
                s * fa + b * fb,
                (s * fa) * number(src[i]) + (b * fb) * number(dst[i]),
                0real,
            )
        }),
{
    let (s, b) = (number(src[3]), number(dst[3]));
    let (fa, fb) = fractions_kept(mode, s, b)->0;
    let (x, y) = kept_fractions(mode, src[3], dst[3])->0;
    lemma_values();
    lemma_small_number(src[3]);
    lemma_small_number(dst[3]);
    assert(fractional(src[i]) && fractional(dst[i]));
    lemma_small_number(src[i]);
    lemma_small_number(dst[i]);
    lemma_rest(src[3]);
    lemma_rest(dst[3]);
    lemma_number_order(Binary32(ZERO), Binary32(ONE));
    lemma_part(256real);
    let k = 1real / 16777216real;
    lemma_product_near(src[3], x, s, fa, 1real, 1real, 0real, 2real * k);
    lemma_product_near(dst[3], y, b, fb, 1real, 1real, 0real, 2real * k);
    let (m, n) = (src[3].mul(x), dst[3].mul(y));
    let (p, q) = (s * fa, b * fb);
    let (u, v) = (number(src[i]), number(dst[i]));
    lemma_unit_product(s, fa);
    lemma_unit_product(b, fb);
    lemma_product_near(m, src[i], p, u, 1real, 1real, 7real * k, 0real);
    lemma_product_near(n, dst[i], q, v, 1real, 1real, 7real * k, 0real);
    lemma_unit_product(p, u);
    lemma_unit_product(q, v);
    lemma_times(u, 1real, p);
    lemma_times(v, 1real, q);
    lemma_exchanged(u, p);
    lemma_exchanged(v, q);
    lemma_sum_near(m, n, p, q, 2real, 7real * k, 7real * k);
    lemma_sum_near(
        m.mul(src[i]),
        n.mul(dst[i]),
        p * u,
        q * v,
        2real,
        12real * k,
        12real * k,
    );
    let (alpha, channel) = (m.add(n), m.mul(src[i]).add(n.mul(dst[i])));
    lemma_straightened(channel, alpha, p * u + q * v, p + q, 0real);
    let r = composited(src, dst, mode);
    let channels = |j: int| src[3].mul(x).mul(src[j]).add(dst[3].mul(y).mul(dst[j]));
    assert(r == straight_pixel(channels, alpha));
    assert(channels(i) == channel);
    lemma_operator_below_one(mode, s, b);
    assert(at_most_one(p + q) == p + q);
    assert(0real * (p + q) == 0real);
    assert(size(number(r[3]) - (p + q)) <= 256real * part());
}

/// What an operator keeps together is at most one.
pub proof fn lemma_operator_below_one(mode: CompositeMode, s: real, b: real)
    requires
        fractions_kept(mode, s, b) is Some,
        0real <= s,
        s <= 1real,
        0real <= b,
        b <= 1real,
    ensures
        ({
            let (fa, fb) = fractions_kept(mode, s, b)->0;
            s * fa + b * fb <= 1real
        }),
{
    let (c, d) = (1real - s, 1real - b);
    lemma_unit_product(c, d);
    lemma_complements(s, b);
    lemma_unit_product(s, b);
    lemma_exchanged(s, b);
    lemma_exchanged(s, d);
    lemma_exchanged(b, c);
    lemma_distributes(1real, b, s);
    lemma_distributes(1real, s, b);
    lemma_unit_product(s, d);
    lemma_unit_product(b, c);
}

/// A channel with its alpha taken out, and the alpha, both held to one.
proof fn lemma_straightened(channel: Binary32, alpha: Binary32, c: real, a: real, e: real)
    requires
        0real <= e,
        e <= 1real / 1024real,
        channel.finite(),
        alpha.finite(),
        size(number(channel) - c) <= 64real / 16777216real,
        size(number(alpha) - a) <= 64real / 16777216real,
        -e <= c,
        c <= a + e,
        0real <= a,
        a <= 1real,
    ensures
        alpha.at_most(Binary32(ZERO)) ==> a <= 64real / 16777216real,
        !alpha.at_most(Binary32(ZERO)) ==> ({
            let (z, w) = (clamp01(channel.div(alpha)), clamp01(alpha));
            &&& z.finite()
            &&& w.finite()
            &&& size(number(w) - a) <= 256real / 16777216real
            &&& size(number(z) * a - c) <= 256real / 16777216real + e
        }),
{
    lemma_values();
    lemma_number_order(alpha, Binary32(ZERO));
    lemma_number_order(Binary32(ZERO), alpha);
    if !alpha.at_most(Binary32(ZERO)) {
        lemma_clamped_number(alpha);
        let (x, y) = (number(channel), number(alpha));
        let z = clamp01(channel.div(alpha));
        lemma_held_share(channel, alpha, e);
        let n = number(z);
        lemma_distributes(y, a, n);
        lemma_exchanged(y, n);
        lemma_exchanged(a, n);
        lemma_shared(y - a, n);
    }
}

/// A quotient held between zero and one, times the divisor.
pub proof fn lemma_held_share(x: Binary32, y: Binary32, e: real)
    requires
        0real <= e,
        x.finite(),
        y.finite(),
        0real < number(y),
        number(y) <= 2real,
        -(64real / 16777216real) - e <= number(x),
        number(x) <= number(y) + 128real / 16777216real + e,
    ensures
        clamp01(x.div(y)).finite(),
        0real <= number(clamp01(x.div(y))),
        number(clamp01(x.div(y))) <= 1real,
        size(number(clamp01(x.div(y))) * number(y) - number(x)) <= 128real / 16777216real + e,
{
    lemma_limit_size();
    lemma_values();
    lemma_number_order(Binary32(ZERO), y);
    lemma_number_order(x, Binary32(ZERO));
    lemma_number_order(Binary32(ZERO), x);
    lemma_number_order(x, y);
    lemma_number_order(y, x);
    let (q, z) = (x.div(y), clamp01(x.div(y)));
    let (u, v) = (number(x), number(y));
    if x.value() <= 0 {
        lemma_div_order(x, Binary32(ZERO), y);
        lemma_zero_quotient(Binary32(ZERO), y);
        assert(z.value() == 0);
        lemma_same_size(z, Binary32(ZERO));
        lemma_number_order(z, Binary32(ZERO));
        lemma_number_order(Binary32(ZERO), z);
        assert(0real * v == 0real);
    } else if y.value() <= x.value() {
        lemma_div_order(y, x, y);
        lemma_div_self(y);
        assert(z.value() == unity());
        lemma_same_size(z, Binary32(ONE));
        lemma_number_order(z, Binary32(ONE));
        lemma_number_order(Binary32(ONE), z);
        assert(1real * v == v);
    } else {
        let h = u / v;
        lemma_divided_back(u, v);
        lemma_cancelled(0real, h, v);
        lemma_cancelled(h, 1real, v);
        lemma_part(size(h));
        lemma_quotient(x, y);
        lemma_clamped_number(q);
        let f = number(z) - h;
        assert(size(f) <= 2real / 16777216real);
        lemma_distributes(number(z), h, v);
        lemma_size_product(f, v);
        lemma_times(size(f), 2real / 16777216real, v);
    }
}

/// The sum of a source and a backdrop adds the alphas, and the channels premultiplied by them,
/// each held to one.
pub proof fn sums_add_what_is_premultiplied(src: Seq<Binary32>, dst: Seq<Binary32>, i: int)
    requires
        fractional_pixel(src),
        fractional_pixel(dst),
        0 <= i < 3,
    ensures
        ({
            let (s, b) = (number(src[3]), number(dst[3]));
            composed_of(
                composited(src, dst, CompositeMode::Plus),
                i,
                s + b,
                s * number(src[i]) + b * number(dst[i]),
                0real,
            )
        }),
{
    let (s, b) = (number(src[3]), number(dst[3]));
    lemma_values();
    lemma_small_number(src[3]);
    lemma_small_number(dst[3]);
    assert(fractional(src[i]) && fractional(dst[i]));
    lemma_small_number(src[i]);
    lemma_small_number(dst[i]);
    lemma_number_order(Binary32(ZERO), Binary32(ONE));
    lemma_part(256real);
    let k = 1real / 16777216real;
    let (u, v) = (number(src[i]), number(dst[i]));
    lemma_product_near(src[3], src[i], s, u, 1real, 1real, 0real, 0real);
    lemma_product_near(dst[3], dst[i], b, v, 1real, 1real, 0real, 0real);
    lemma_unit_product(s, u);
    lemma_unit_product(b, v);
    let (m, n) = (src[3].mul(src[i]), dst[3].mul(dst[i]));
    lemma_sum_near(m, n, s * u, b * v, 2real, 5real * k, 5real * k);
    lemma_sum_near(src[3], dst[3], s, b, 2real, 0real, 0real);
    lemma_clamped_number(m.add(n));
    lemma_clamped_number(src[3].add(dst[3]));
    let (alpha, channel) = (clamp01(src[3].add(dst[3])), clamp01(m.add(n)));
    lemma_straightened(channel, alpha, at_most_one(s * u + b * v), at_most_one(s + b), 0real);
    let channels = |j: int| clamp01(src[3].mul(src[j]).add(dst[3].mul(dst[j])));
    let r = composited(src, dst, CompositeMode::Plus);
    assert(r == straight_pixel(channels, alpha));
    assert(channels(i) == channel);
    assert(0real * at_most_one(s + b) == 0real);
    assert(size(number(r[3]) - at_most_one(s + b)) <= 256real * part());
}

/// A blend mixes the source color with the blended color by the alpha of the backdrop, and puts
/// that over the backdrop.
pub proof fn blends_lie_over_their_backdrop(
    src: Seq<Binary32>,
    dst: Seq<Binary32>,
    mode: CompositeMode,
    i: int,
)
    requires
        fractional_pixel(src),
        fractional_pixel(dst),
        separable(mode) || light_kept(dst, src, mode) is Some,
        0 <= i < 3,
    ensures
        ({
            let (s, b) = (number(src[3]), number(dst[3]));
            let mixed = (1real - b) * number(src[i]) + b * number(
                blended_color(dst.take(3), src.take(3), mode)[i],
            );
            composed_of(
                composited(src, dst, mode),
                i,
                s + b * (1real - s),
                s * mixed + (b * (1real - s)) * number(dst[i]),
                1real / 512real,
            )
        }),
{
    let (s, b) = (number(src[3]), number(dst[3]));
    let bc = blended_color(dst.take(3), src.take(3), mode);
    lemma_values();
    lemma_small_number(src[3]);
    lemma_small_number(dst[3]);
    assert(fractional(src[i]) && fractional(dst[i]));
    lemma_small_number(src[i]);
    lemma_small_number(dst[i]);
    lemma_blended_range(dst.take(3), src.take(3), mode, i);
    lemma_rest(src[3]);
    lemma_rest(dst[3]);
    lemma_number_order(Binary32(ZERO), Binary32(ONE));
    lemma_part(256real);
    let k = 1real / 16777216real;
    let (c, d) = (1real - s, 1real - b);
    let (o, j) = (Binary32(ONE).sub(src[3]), Binary32(ONE).sub(dst[3]));
    let (u, v, w) = (number(src[i]), number(dst[i]), number(bc[i]));
    lemma_product_near(j, src[i], d, u, 1real, 1real, 2real * k, 0real);
    lemma_product_near(dst[3], bc[i], b, w, 1real, 2real, 0real, 0real);
    lemma_unit_product(d, u);
    let h = 1real / 2048real;
    lemma_times(-h, w, b);
    lemma_times(w, 1real + h, b);
    lemma_exchanged(b, w);
    lemma_distributes(1real, h, b);
    lemma_distributes(0real, h, b);
    assert(h * b == b / 2048real);
    assert(0real - h == -h);
    let mixed = d * u + b * w;
    let (f, g) = (j.mul(src[i]), dst[3].mul(bc[i]));
    lemma_sum_near(f, g, d * u, b * w, 3real, 7real * k, 7real * k);
    lemma_product_near(src[3], f.add(g), s, mixed, 1real, 2real, 0real, 18real * k);
    lemma_times(-h, mixed, s);
    lemma_times(mixed, 1real + h, s);
    lemma_exchanged(s, mixed);
    lemma_distributes(1real, h, s);
    lemma_distributes(0real, h, s);
    assert(h * s == s / 2048real);
    assert(0real - h == -h);
    lemma_product_near(dst[3], o, b, c, 1real, 1real, 0real, 2real * k);
    lemma_unit_product(b, c);
    lemma_product_near(dst[3].mul(o), dst[i], b * c, v, 1real, 1real, 7real * k, 0real);
    lemma_unit_product(b * c, v);
    let (m, n) = (src[3].mul(f.add(g)), dst[3].mul(o).mul(dst[i]));
    lemma_sum_near(m, n, s * mixed, (b * c) * v, 3real, 25real * k, 12real * k);
    lemma_sum_near(src[3], dst[3].mul(o), s, b * c, 2real, 0real, 7real * k);
    lemma_unit_product(c, d);
    lemma_complements(s, b);
    lemma_distributes(1real, s, b);
    lemma_exchanged(b, c);
    lemma_exchanged(s, b);
    let (alpha, channel) = (src[3].add(dst[3].mul(o)), m.add(n));
    lemma_straightened(channel, alpha, s * mixed + (b * c) * v, s + b * c, 1real / 1024real);
    let channels = |h: int|
        src[3].mul(Binary32(ONE).sub(dst[3]).mul(src[h]).add(dst[3].mul(bc[h]))).add(
            dst[3].mul(o).mul(dst[h]),
        );
    let r = composited(src, dst, mode);
    assert(r == straight_pixel(channels, alpha));
    assert(channels(i) == channel);
    assert(0real * at_most_one(s + b * c) == 0real);
    assert(size(number(r[3]) - at_most_one(s + b * c)) <= 256real * part());
}

/// A blended color lies between zero and one, but for rounding.
proof fn lemma_blended_range(cb: Seq<Binary32>, cs: Seq<Binary32>, mode: CompositeMode, i: int)
    requires
        cb.len() == 3,
        cs.len() == 3,
        all_fractional(cb),
        all_fractional(cs),
        separable(mode) || light_kept(cb, cs, mode) is Some,
        0 <= i < 3,
    ensures
        blended_color(cb, cs, mode)[i].finite(),
        -(1real / 2048real) <= number(blended_color(cb, cs, mode)[i]),
        number(blended_color(cb, cs, mode)[i]) <= 1real + 1real / 2048real,
{
    if separable(mode) {
        colors_blend_by_their_formulas(cb, cs, mode, i);
        assert(fractional(cb[i]) && fractional(cs[i]));
        lemma_small_number(cb[i]);
        lemma_small_number(cs[i]);
        lemma_part(64real);
        lemma_blend_range(
            number(blended_color(cb, cs, mode)[i]),
            number(cb[i]),
            number(cs[i]),
            mode,
            64real * part(),
        );
    } else {
        blends_keep_the_light(cb, cs, mode);
    }
}

} // verus!
