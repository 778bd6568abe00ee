//! What holds of compositing and blending.
use crate::accuracy::{
    lemma_byte_near, lemma_difference_within, lemma_half_and_two, lemma_integer_exact,
    lemma_unscaled_channel, lemma_unscaled_twice, lemma_whole_channel,
};
use crate::binary32::{absolute, integer, units, unity, Binary32};
use crate::blend::{
    b_hardlight, b_multiply, b_overlay, b_screen, blended_color, channel_blend, clamp01, clipped,
    greatest, least, saturation, with_saturation, CompositeMode,
};
use crate::bounds::{
    all_fractional, bounded, fractional, lemma_add_bounded, lemma_blended_color, lemma_complement,
    lemma_fractional, lemma_fractional_product, lemma_mul_bounded,
};
use crate::color::{lemma_opaque_over, premultiplied_pixel};
use crate::composite::{
    composited, composited_buffer, composited_bytes, kept_fractions, lemma_clamp01, lemma_fraction,
    lemma_straight_of, nothing, pixel, plus, porter_duff, premultiplied, premultiplied_bytes,
    straight_of, straight_pixel,
};
use crate::consts::{CHANNEL_MAX, ONE, TWO, ZERO};
use crate::gradient::{fraction, nearest_byte};
use crate::laws::gradients::lemma_no_alpha;
use crate::order::{
    lemma_add_value, lemma_div_value, lemma_finite_between, lemma_mul_one, lemma_mul_value,
    lemma_plus_nothing, lemma_rounded_exact, lemma_rounded_zero, lemma_same_number, lemma_same_size,
    lemma_values, lemma_zero_product, products_commute, sums_commute,
};
use crate::reals::{
    lemma_finite_factors, lemma_limit_size, lemma_number_order, lemma_positive_number,
    lemma_product, lemma_quotient, lemma_small_number, lemma_speck, number, part, size, speck,
};
use crate::rounding::{lemma_nearest_exact, lemma_nearest_scaled};
use vstd::prelude::*;

verus! {

/// The straight color of a premultiplied pixel gives the pixel back.
pub proof fn straight_colors_return(px: Seq<u8>)
    requires
        px.len() == 4,
        premultiplied_pixel(px),
    ensures
        premultiplied_bytes(straight_of(px)) == px,
{
    let a = fraction(px[3]);
    let o = straight_of(px);
    lemma_values();
    if a.at_most(Binary32(ZERO)) {
        lemma_no_alpha(px[3]);
        lemma_zero_product(Binary32(ZERO), Binary32(ZERO));
        assert forall|i: int| 0 <= i < 4 implies #[trigger] premultiplied_bytes(o)[i] == px[i] by {
            lemma_zero_bytes();
        }
    } else {
        lemma_whole_channel(px[3]);
        if px[3] == 0 {
            lemma_zero_alpha();
        }
        assert forall|i: int| 0 <= i < 4 implies #[trigger] premultiplied_bytes(o)[i] == px[i] by {
            if i < 3 {
                assert(px[i] <= px[3]);
                lemma_unscaled_channel(px[i], px[3]);
            }
        }
    }
    assert(premultiplied_bytes(o) =~= px);
}

proof fn lemma_zero_alpha()
    ensures
        fraction(0).at_most(Binary32(ZERO)),
{
    lemma_values();
    lemma_fraction(0, 0);
    lemma_integer_exact(false, 0);
    lemma_div_value(integer(false, 0), Binary32(CHANNEL_MAX));
    assert(0 * unity() == 0) by (nonlinear_arith);
    lemma_rounded_zero(255 * unity());
}

proof fn lemma_zero_bytes()
    ensures
        nearest_byte(Binary32(ZERO).mul(Binary32(ZERO)).mul(Binary32(CHANNEL_MAX))) == 0,
        nearest_byte(Binary32(ZERO).mul(Binary32(CHANNEL_MAX))) == 0,
{
    lemma_values();
    lemma_zero_product(Binary32(ZERO), Binary32(ZERO));
    lemma_zero_product(Binary32(ZERO), Binary32(CHANNEL_MAX));
    let zero = Binary32(ZERO).mul(Binary32(ZERO));
    lemma_mul_value(zero, Binary32(CHANNEL_MAX));
    assert(0 * (255 * unity()) == 0) by (nonlinear_arith);
    lemma_rounded_zero(unity());
    lemma_same_size(zero.mul(Binary32(CHANNEL_MAX)), Binary32(ZERO));
    assert((0 * unity()) * 1 == 0) by (nonlinear_arith);
    lemma_byte_near(zero.mul(Binary32(CHANNEL_MAX)), 0, 0, 1, 1);
    lemma_byte_near(Binary32(ZERO).mul(Binary32(CHANNEL_MAX)), 0, 0, 1, 1);
}

/// Compositing by source alone gives the source, by backdrop alone the backdrop, and by
/// neither nothing.
pub proof fn one_sided_modes(src: Seq<u8>, backdrop: Seq<u8>)
    requires
        src.len() % 4 == 0,
        backdrop.len() == src.len(),
        premultiplied(src),
        premultiplied(backdrop),
    ensures
        composited_buffer(src, backdrop, CompositeMode::Src) == src,
        composited_buffer(src, backdrop, CompositeMode::Dest) == backdrop,
        composited_buffer(src, backdrop, CompositeMode::Clear) == Seq::new(
            src.len(),
            |i: int| 0u8,
        ),
{
    assert forall|i: int| 0 <= i < src.len() implies {
        &&& #[trigger] composited_buffer(src, backdrop, CompositeMode::Src)[i] == src[i]
        &&& composited_buffer(src, backdrop, CompositeMode::Dest)[i] == backdrop[i]
        &&& composited_buffer(src, backdrop, CompositeMode::Clear)[i] == 0
    } by {
        let p = i / 4;
        straight_colors_return(pixel(src, p));
        straight_colors_return(pixel(backdrop, p));
        lemma_zero_bytes();
    }
    assert(composited_buffer(src, backdrop, CompositeMode::Src) =~= src);
    assert forall|i: int| 0 <= i < src.len() implies #[trigger] composited_buffer(
        src,
        backdrop,
        CompositeMode::Dest,
    )[i] == backdrop[i] by {
        assert(composited_buffer(src, backdrop, CompositeMode::Src)[i] == src[i]);
    }
    assert(composited_buffer(src, backdrop, CompositeMode::Dest) =~= backdrop);
    assert forall|i: int| 0 <= i < src.len() implies #[trigger] composited_buffer(
        src,
        backdrop,
        CompositeMode::Clear,
    )[i] == 0 by {
        assert(composited_buffer(src, backdrop, CompositeMode::Src)[i] == src[i]);
    }
    assert(composited_buffer(src, backdrop, CompositeMode::Clear) =~= Seq::new(
        src.len(),
        |i: int| 0u8,
    ));
}

/// In the usual mode the backdrop shows where the source is fully transparent, and is
/// hidden where it is opaque. A backdrop of nothing leaves the source.
pub proof fn source_over_backdrop(s: Seq<u8>, d: Seq<u8>)
    requires
        s.len() == 4,
        d.len() == 4,
    ensures
        s[3] == 0 ==> composited_bytes(s, d, CompositeMode::SrcOver) == d,
        s[3] == 255 ==> composited_bytes(s, d, CompositeMode::SrcOver) == s,
        d == seq![0u8, 0, 0, 0] && premultiplied_pixel(s) ==> composited_bytes(
            s,
            d,
            CompositeMode::SrcOver,
        ) == s,
{
    if d == seq![0u8, 0, 0, 0] && premultiplied_pixel(s) {
        assert forall|i: int| 0 <= i < 4 implies #[trigger] composited_bytes(
            s,
            d,
            CompositeMode::SrcOver,
        )[i] == s[i] by {
            assert((255 - s[3]) * d[i] == 0) by (nonlinear_arith)
                requires
                    d[i] == 0,
            ;
        }
        assert(composited_bytes(s, d, CompositeMode::SrcOver) =~= s);
    }
    if s[3] == 255 {
        assert forall|i: int| 0 <= i < 4 implies #[trigger] composited_bytes(
            s,
            d,
            CompositeMode::SrcOver,
        )[i] == s[i] by {
            lemma_opaque_over(s[i], d[i]);
        }
        assert(composited_bytes(s, d, CompositeMode::SrcOver) =~= s);
    }
}

/// The mode that does with source and backdrop exchanged what a mode does.
pub open spec fn exchanged(mode: CompositeMode) -> Option<CompositeMode> {
    match mode {
        CompositeMode::Clear => Some(CompositeMode::Clear),
        CompositeMode::Src => Some(CompositeMode::Dest),
        CompositeMode::Dest => Some(CompositeMode::Src),
        CompositeMode::SrcOver => Some(CompositeMode::DestOver),
        CompositeMode::DestOver => Some(CompositeMode::SrcOver),
        CompositeMode::SrcIn => Some(CompositeMode::DestIn),
        CompositeMode::DestIn => Some(CompositeMode::SrcIn),
        CompositeMode::SrcOut => Some(CompositeMode::DestOut),
        CompositeMode::DestOut => Some(CompositeMode::SrcOut),
        CompositeMode::SrcAtop => Some(CompositeMode::DestAtop),
        CompositeMode::DestAtop => Some(CompositeMode::SrcAtop),
        CompositeMode::Xor => Some(CompositeMode::Xor),
        CompositeMode::Plus => Some(CompositeMode::Plus),
        _ => None,
    }
}

/// The Porter-Duff operators come in pairs that exchange the roles of source and backdrop.
pub proof fn operators_come_in_pairs(
    src: Seq<Binary32>,
    dst: Seq<Binary32>,
    mode: CompositeMode,
)
    requires
        exchanged(mode) is Some,
    ensures
        composited(src, dst, mode) == composited(dst, src, exchanged(mode)->0),
{
    let other = exchanged(mode)->0;
    match mode {
        CompositeMode::Clear | CompositeMode::Src | CompositeMode::Dest => {},
        CompositeMode::Plus => {
            sums_commute(src[3], dst[3]);
            assert forall|i: int| 0 <= i < 3 implies src[3].mul(src[i]).add(dst[3].mul(dst[i]))
                == #[trigger] dst[3].mul(dst[i]).add(src[3].mul(src[i])) by {
                sums_commute(src[3].mul(src[i]), dst[3].mul(dst[i]));
            }
            assert(plus(src, dst) =~= plus(dst, src));
        },
        _ => {
            let (fa, fb) = kept_fractions(mode, src[3], dst[3])->0;
            let (ga, gb) = kept_fractions(other, dst[3], src[3])->0;
            assert(ga == fb && gb == fa);
            sums_commute(src[3].mul(fa), dst[3].mul(fb));
            assert forall|i: int| 0 <= i < 3 implies src[3].mul(fa).mul(src[i]).add(
                dst[3].mul(fb).mul(dst[i]),
            ) == #[trigger] dst[3].mul(fb).mul(dst[i]).add(src[3].mul(fa).mul(src[i])) by {
                sums_commute(src[3].mul(fa).mul(src[i]), dst[3].mul(fb).mul(dst[i]));
            }
            assert(porter_duff(src, dst, (fa, fb)) =~= porter_duff(dst, src, (ga, gb)));
        },
    }
}

/// Whether two are the same number, or neither is a number.
pub open spec fn alike(x: Binary32, y: Binary32) -> bool {
    x.equals(y) || x.nan() && y.nan()
}

/// Some blends do not tell source and backdrop apart, and overlaying is lighting hard with
/// the two exchanged. Exclusion does so wherever twice a channel is in range.
pub proof fn blends_commute(cb: Binary32, cs: Binary32)
    ensures
        b_multiply(cb, cs) == b_multiply(cs, cb),
        b_screen(cb, cs) == b_screen(cs, cb),
        b_overlay(cb, cs) == b_hardlight(cs, cb),
        ({
            let (one, other) = (
                channel_blend(cb, cs, CompositeMode::Darken)->0,
                channel_blend(cs, cb, CompositeMode::Darken)->0,
            );
            alike(one, other)
        }),
        ({
            let (one, other) = (
                channel_blend(cb, cs, CompositeMode::Lighten)->0,
                channel_blend(cs, cb, CompositeMode::Lighten)->0,
            );
            alike(one, other)
        }),
        ({
            let (one, other) = (
                channel_blend(cb, cs, CompositeMode::Difference)->0,
                channel_blend(cs, cb, CompositeMode::Difference)->0,
            );
            alike(one, other)
        }),
        Binary32(TWO).mul(cb).finite() && Binary32(TWO).mul(cs).finite() ==> channel_blend(
            cb,
            cs,
            CompositeMode::Exclusion,
        ) == channel_blend(cs, cb, CompositeMode::Exclusion),
{
    products_commute(cb, cs);
    sums_commute(cb, cs);
    lemma_differences_alike(cb, cs);
    if Binary32(TWO).mul(cb).finite() && Binary32(TWO).mul(cs).finite() {
        lemma_doubled(cb);
        lemma_doubled(cs);
        reveal(Binary32::spec_mul);
        let (m, n) = (units(cb.magnitude()), units(cs.magnitude()));
        assert((2 * m) * n == (2 * n) * m) by (nonlinear_arith);
    }
}

/// A difference and its opposite are of one size.
proof fn lemma_differences_alike(x: Binary32, y: Binary32)
    ensures
        alike(x.sub(y).abs(), y.sub(x).abs()),
{
    if x.finite() && y.finite() {
        lemma_add_value(x, y.neg());
        lemma_add_value(y, x.neg());
        assert(absolute(x.value() - y.value()) == absolute(y.value() - x.value()));
    } else {
        reveal(Binary32::spec_add);
    }
}

/// Twice a number.
proof fn lemma_doubled(x: Binary32)
    requires
        Binary32(TWO).mul(x).finite(),
    ensures
        x.finite(),
        units(Binary32(TWO).mul(x).magnitude()) == 2 * units(x.magnitude()),
        Binary32(TWO).mul(x).negative() == x.negative(),
{
    reveal(Binary32::spec_mul);
    lemma_values();
    lemma_half_and_two();
    lemma_finite_factors(Binary32(TWO), x);
    let (m, u) = (x.magnitude(), unity());
    let bits: nat = if m < 0x0080_0000 {
        2 * m
    } else {
        m + 0x0080_0000
    };
    assert(units(bits) == 2 * units(m));
    lemma_nearest_exact(bits);
    lemma_nearest_scaled(2 * units(m), 1, u);
    assert((2 * u) * units(m) == (2 * units(m)) * u) by (nonlinear_arith);
}

/// A color in range is not clipped.
pub proof fn colors_in_range_are_not_clipped(c: Seq<Binary32>)
    requires
        c.len() == 3,
        all_fractional(c),
    ensures
        clipped(c) == c,
{
    lemma_values();
    assert(!least(c).less(Binary32(ZERO)));
    assert(!Binary32(ONE).less(greatest(c)));
}

/// A gray has no saturation, and stretched to any saturation it is black.
pub proof fn grays_have_no_saturation(v: Binary32, s: Binary32)
    requires
        v.finite(),
    ensures
        saturation(seq![v, v, v]).equals(Binary32(ZERO)),
        with_saturation(seq![v, v, v], s) == seq![Binary32(ZERO), Binary32(ZERO), Binary32(ZERO)],
{
    lemma_values();
    let c = seq![v, v, v];
    lemma_difference_within(v, v, Binary32(ZERO));
    assert(with_saturation(c, s) =~= seq![Binary32(ZERO), Binary32(ZERO), Binary32(ZERO)]);
}

/// The straight channels of a premultiplied pixel lie between zero and one.
pub proof fn straight_colors_are_fractions(px: Seq<u8>)
    requires
        px.len() == 4,
        premultiplied_pixel(px),
    ensures
        straight_of(px).len() == 4,
        forall|i: int| 0 <= i < 4 ==> fractional(#[trigger] straight_of(px)[i]),
{
    lemma_values();
    lemma_straight_of(px);
    let a = fraction(px[3]);
    lemma_fraction(px[3], px[3]);
    if !a.at_most(Binary32(ZERO)) {
        assert forall|i: int| 0 <= i < 4 implies fractional(#[trigger] straight_of(px)[i]) by {
            if i < 3 {
                let x = straight_of(px)[i];
                lemma_fraction(px[i], px[3]);
                lemma_div_value(fraction(px[i]), a);
                lemma_finite_between(Binary32(ZERO), x, Binary32(ONE));
            }
        }
    }
}

/// A pixel put together from numbers lies between zero and one.
proof fn lemma_fractional_pixel(channels: spec_fn(int) -> Binary32, alpha: Binary32)
    requires
        alpha.finite(),
        forall|i: int| 0 <= i < 3 ==> (#[trigger] channels(i)).finite(),
    ensures
        straight_pixel(channels, alpha).len() == 4,
        forall|i: int| 0 <= i < 4 ==> fractional(#[trigger] straight_pixel(channels, alpha)[i]),
{
    lemma_values();
    lemma_clamp01(alpha);
    assert forall|i: int| 0 <= i < 4 implies fractional(
        #[trigger] straight_pixel(channels, alpha)[i],
    ) by {
        if i < 3 && !alpha.at_most(Binary32(ZERO)) {
            lemma_div_value(channels(i), alpha);
            lemma_clamp01(channels(i).div(alpha));
        }
    }
}

/// Compositing straight colors between zero and one gives one, in every mode: no step of it
/// leaves the numbers.
pub proof fn compositing_stays_in_range(
    src: Seq<Binary32>,
    dst: Seq<Binary32>,
    mode: CompositeMode,
)
    requires
        src.len() == 4,
        dst.len() == 4,
        forall|i: int| 0 <= i < 4 ==> fractional(#[trigger] src[i]),
        forall|i: int| 0 <= i < 4 ==> fractional(#[trigger] dst[i]),
    ensures
        composited(src, dst, mode).len() == 4,
        forall|i: int| 0 <= i < 4 ==> fractional(#[trigger] composited(src, dst, mode)[i]),
{
    lemma_values();
    lemma_complement(src[3]);
    lemma_complement(dst[3]);
    match mode {
        CompositeMode::Clear | CompositeMode::Src | CompositeMode::Dest => {},
        CompositeMode::Plus => {
            let channels = |i: int| clamp01(src[3].mul(src[i]).add(dst[3].mul(dst[i])));
            let alpha = clamp01(src[3].add(dst[3]));
            assert forall|i: int| 0 <= i < 3 implies (#[trigger] channels(i)).finite() by {
                lemma_fractional_product(src[3], src[i]);
                lemma_fractional_product(dst[3], dst[i]);
                lemma_add_value(src[3].mul(src[i]), dst[3].mul(dst[i]));
                lemma_clamp01(src[3].mul(src[i]).add(dst[3].mul(dst[i])));
            }
            lemma_add_value(src[3], dst[3]);
            lemma_clamp01(src[3].add(dst[3]));
            lemma_fractional_pixel(channels, alpha);
        },
        _ => {
            match kept_fractions(mode, src[3], dst[3]) {
                Some((fa, fb)) => {
                    let channels = |i: int|
                        src[3].mul(fa).mul(src[i]).add(dst[3].mul(fb).mul(dst[i]));
                    lemma_fractional_product(src[3], fa);
                    lemma_fractional_product(dst[3], fb);
                    lemma_fractional_sum(src[3].mul(fa), dst[3].mul(fb));
                    assert forall|i: int| 0 <= i < 3 implies (#[trigger] channels(i)).finite() by {
                        lemma_fractional_product(src[3].mul(fa), src[i]);
                        lemma_fractional_product(dst[3].mul(fb), dst[i]);
                        lemma_fractional_sum(
                            src[3].mul(fa).mul(src[i]),
                            dst[3].mul(fb).mul(dst[i]),
                        );
                    }
                    lemma_fractional_pixel(channels, src[3].mul(fa).add(dst[3].mul(fb)));
                },
                None => {
                    let bc = blended_color(dst.take(3), src.take(3), mode);
                    let outside = Binary32(ONE).sub(src[3]);
                    let channels = |i: int|
                        src[3].mul(
                            Binary32(ONE).sub(dst[3]).mul(src[i]).add(dst[3].mul(bc[i])),
                        ).add(dst[3].mul(outside).mul(dst[i]));
                    lemma_blended_color(dst.take(3), src.take(3), mode);
                    lemma_fractional_product(dst[3], outside);
                    lemma_fractional_sum(src[3], dst[3].mul(outside));
                    assert forall|i: int| 0 <= i < 3 implies (#[trigger] channels(i)).finite() by {
                        assert(bounded(bc[i], 90));
                        lemma_mixed(src[3], dst[3], src[i], dst[i], bc[i]);
                    }
                    lemma_fractional_pixel(channels, src[3].add(dst[3].mul(outside)));
                },
            }
        },
    }
}

/// A sum of numbers between zero and one is finite.
proof fn lemma_fractional_sum(x: Binary32, y: Binary32)
    requires
        fractional(x),
        fractional(y),
    ensures
        x.add(y).finite(),
{
    lemma_fractional(x, 0);
    lemma_fractional(y, 0);
    lemma_add_bounded(x, 0, y, 0, 1);
}

/// A channel of a blend is finite.
proof fn lemma_mixed(s: Binary32, d: Binary32, cs: Binary32, cb: Binary32, bc: Binary32)
    requires
        fractional(s),
        fractional(d),
        fractional(cs),
        fractional(cb),
        bounded(bc, 90),
    ensures
        Binary32(ONE).sub(d).mul(cs).add(d.mul(bc)).finite(),
        s.mul(Binary32(ONE).sub(d).mul(cs).add(d.mul(bc))).finite(),
        s.mul(Binary32(ONE).sub(d).mul(cs).add(d.mul(bc))).add(
            d.mul(Binary32(ONE).sub(s)).mul(cb),
        ).finite(),
{
    lemma_complement(s);
    lemma_complement(d);
    let (x, y) = (Binary32(ONE).sub(d).mul(cs), d.mul(bc));
    lemma_fractional_product(Binary32(ONE).sub(d), cs);
    lemma_fractional(x, 0);
    lemma_fractional(d, 0);
    lemma_fractional(s, 0);
    lemma_mul_bounded(d, 0, bc, 90);
    lemma_add_bounded(x, 0, y, 90, 91);
    lemma_mul_bounded(s, 0, x.add(y), 91);
    lemma_fractional_product(d, Binary32(ONE).sub(s));
    lemma_fractional_product(d.mul(Binary32(ONE).sub(s)), cb);
    let z = d.mul(Binary32(ONE).sub(s)).mul(cb);
    lemma_fractional(z, 0);
    lemma_add_bounded(s.mul(x.add(y)), 91, z, 0, 92);
}

/// Whether a mode keeps the backdrop where there is no source.
pub open spec fn keeps_backdrop(mode: CompositeMode) -> bool {
    match mode {
        CompositeMode::Clear => false,
        CompositeMode::Src => false,
        CompositeMode::SrcIn => false,
        CompositeMode::DestIn => false,
        CompositeMode::SrcOut => false,
        CompositeMode::DestAtop => false,
        _ => true,
    }
}

/// Whether a mode keeps the source where there is no backdrop.
pub open spec fn keeps_source(mode: CompositeMode) -> bool {
    match mode {
        CompositeMode::Clear => false,
        CompositeMode::Dest => false,
        CompositeMode::SrcIn => false,
        CompositeMode::DestIn => false,
        CompositeMode::DestOut => false,
        CompositeMode::SrcAtop => false,
        _ => true,
    }
}

/// A pixel of which only one side is there comes out as that side.
proof fn lemma_one_side(px: Seq<u8>, channels: spec_fn(int) -> Binary32, alpha: Binary32)
    requires
        px.len() == 4,
        premultiplied_pixel(px),
        alpha.finite(),
        alpha.value() == straight_of(px)[3].value(),
        forall|i: int| 0 <= i < 3 ==> (#[trigger] channels(i)).finite(),
        forall|i: int|
            0 <= i < 3 ==> (#[trigger] channels(i)).value() == straight_of(px)[3].mul(
                straight_of(px)[i],
            ).value(),
    ensures
        premultiplied_bytes(straight_pixel(channels, alpha)) == px,
{
    lemma_values();
    let a = fraction(px[3]);
    let o = straight_pixel(channels, alpha);
    lemma_fraction(px[3], px[3]);
    if a.at_most(Binary32(ZERO)) {
        lemma_no_alpha(px[3]);
        lemma_zero_bytes();
        assert forall|i: int| 0 <= i < 4 implies #[trigger] premultiplied_bytes(o)[i] == px[i] by {}
    } else {
        if px[3] == 0 {
            lemma_zero_alpha();
        }
        lemma_same_number(alpha, a);
        lemma_whole_channel(px[3]);
        assert(clamp01(alpha) == a);
        assert forall|i: int| 0 <= i < 4 implies #[trigger] premultiplied_bytes(o)[i] == px[i] by {
            if i < 3 {
                assert(px[i] <= px[3]);
                lemma_unscaled_twice(
                    px[i],
                    px[3],
                    channels(i),
                    channels(i).div(a).clamp(Binary32(ZERO), Binary32(ONE)),
                );
            }
        }
    }
    assert(premultiplied_bytes(o) =~= px);
}

/// One less nothing is one.
proof fn lemma_whole()
    ensures
        Binary32(ONE).sub(Binary32(ZERO)) == Binary32(ONE),
{
    lemma_values();
    lemma_difference_within(Binary32(ONE), Binary32(ZERO), Binary32(ONE));
    lemma_same_number(Binary32(ONE).sub(Binary32(ZERO)), Binary32(ONE));
}

/// A number behind nothing is the number.
proof fn lemma_behind_nothing(zero: Binary32, x: Binary32)
    requires
        x.finite(),
        zero.finite(),
        zero.value() == 0,
    ensures
        zero.add(x).finite(),
        zero.add(x).value() == x.value(),
{
    sums_commute(zero, x);
    lemma_plus_nothing(x, zero);
}

/// A product with nothing twice over is nothing.
proof fn lemma_nothing_twice(x: Binary32, y: Binary32)
    requires
        x.finite(),
        y.finite(),
    ensures
        Binary32(ZERO).mul(x).finite(),
        Binary32(ZERO).mul(x).value() == 0,
        Binary32(ZERO).mul(x).mul(y).finite(),
        Binary32(ZERO).mul(x).mul(y).value() == 0,
{
    lemma_values();
    lemma_zero_product(Binary32(ZERO), x);
    lemma_zero_product(Binary32(ZERO).mul(x), y);
}

/// Where there is no source, the modes that keep the backdrop there give the backdrop,
/// exactly.
pub proof fn nothing_over_a_backdrop(d: Seq<u8>, mode: CompositeMode)
    requires
        d.len() == 4,
        premultiplied_pixel(d),
        keeps_backdrop(mode),
    ensures
        composited_bytes(seq![0u8, 0, 0, 0], d, mode) == d,
{
    lemma_values();
    let s = seq![0u8, 0, 0, 0];
    if mode == CompositeMode::SrcOver {
        assert(composited_bytes(s, d, mode) =~= d);
    } else if mode == CompositeMode::Dest {
        straight_colors_return(d);
    } else {
        lemma_zero_alpha();
        lemma_whole();
        straight_colors_are_fractions(d);
        let (src, dst) = (straight_of(s), straight_of(d));
        assert(src =~= nothing());
        let a = dst[3];
        lemma_complement(a);
        lemma_mul_one(a);
        if mode == CompositeMode::Plus {
            let channels = |i: int| clamp01(src[3].mul(src[i]).add(dst[3].mul(dst[i])));
            lemma_behind_nothing(src[3], a);
            lemma_clamp01(src[3].add(a));
            assert forall|i: int| 0 <= i < 3 implies (#[trigger] channels(i)).finite()
                && channels(i).value() == a.mul(dst[i]).value() by {
                lemma_fractional_product(a, dst[i]);
                lemma_nothing_twice(src[i], src[i]);
                lemma_behind_nothing(src[3].mul(src[i]), a.mul(dst[i]));
                lemma_clamp01(src[3].mul(src[i]).add(dst[3].mul(dst[i])));
            }
            lemma_one_side(d, channels, clamp01(src[3].add(dst[3])));
        } else {
            match kept_fractions(mode, src[3], a) {
                Some((fa, fb)) => {
                    assert(fb == Binary32(ONE) && fractional(fa));
                    let channels = |i: int|
                        src[3].mul(fa).mul(src[i]).add(dst[3].mul(fb).mul(dst[i]));
                    lemma_nothing_twice(fa, fa);
                    lemma_behind_nothing(src[3].mul(fa), a);
                    assert forall|i: int| 0 <= i < 3 implies (#[trigger] channels(i)).finite()
                        && channels(i).value() == a.mul(dst[i]).value() by {
                        lemma_fractional_product(a, dst[i]);
                        lemma_nothing_twice(fa, src[i]);
                        lemma_behind_nothing(src[3].mul(fa).mul(src[i]), a.mul(dst[i]));
                    }
                    lemma_one_side(d, channels, src[3].mul(fa).add(dst[3].mul(fb)));
                },
                None => {
                    let bc = blended_color(dst.take(3), src.take(3), mode);
                    let outside = Binary32(ONE).sub(src[3]);
                    let channels = |i: int|
                        src[3].mul(
                            Binary32(ONE).sub(dst[3]).mul(src[i]).add(dst[3].mul(bc[i])),
                        ).add(dst[3].mul(outside).mul(dst[i]));
                    lemma_blended_color(dst.take(3), src.take(3), mode);
                    lemma_behind_nothing(src[3], a);
                    assert forall|i: int| 0 <= i < 3 implies (#[trigger] channels(i)).finite()
                        && channels(i).value() == a.mul(dst[i]).value() by {
                        let mixed = Binary32(ONE).sub(dst[3]).mul(src[i]).add(dst[3].mul(bc[i]));
                        assert(bounded(bc[i], 90));
                        lemma_mixed(src[3], a, src[i], dst[i], bc[i]);
                        lemma_fractional_product(a, dst[i]);
                        lemma_zero_product(src[3], mixed);
                        lemma_behind_nothing(src[3].mul(mixed), a.mul(dst[i]));
                    }
                    lemma_one_side(d, channels, src[3].add(dst[3].mul(outside)));
                },
            }
        }
    }
}

/// Where there is no backdrop, the modes that keep the source there give the source,
/// exactly.
pub proof fn a_source_over_nothing(s: Seq<u8>, mode: CompositeMode)
    requires
        s.len() == 4,
        premultiplied_pixel(s),
        keeps_source(mode),
    ensures
        composited_bytes(s, seq![0u8, 0, 0, 0], mode) == s,
{
    lemma_values();
    let d = seq![0u8, 0, 0, 0];
    if mode == CompositeMode::SrcOver {
        source_over_backdrop(s, d);
    } else if mode == CompositeMode::Src {
        straight_colors_return(s);
    } else {
        lemma_zero_alpha();
        lemma_whole();
        straight_colors_are_fractions(s);
        let (src, dst) = (straight_of(s), straight_of(d));
        assert(dst =~= nothing());
        if exchanged(mode) is Some {
            let other = exchanged(mode)->0;
            operators_come_in_pairs(src, dst, mode);
            nothing_over_a_backdrop(s, other);
            if other == CompositeMode::SrcOver {
                lemma_destination_over(s);
            }
        } else {
            let a = src[3];
            lemma_complement(a);
            lemma_mul_one(a);
            let bc = blended_color(dst.take(3), src.take(3), mode);
            let outside = Binary32(ONE).sub(src[3]);
            let channels = |i: int|
                src[3].mul(
                    Binary32(ONE).sub(dst[3]).mul(src[i]).add(dst[3].mul(bc[i])),
                ).add(dst[3].mul(outside).mul(dst[i]));
            lemma_blended_color(dst.take(3), src.take(3), mode);
            lemma_nothing_twice(outside, outside);
            lemma_plus_nothing(a, dst[3].mul(outside));
            assert forall|i: int| 0 <= i < 3 implies (#[trigger] channels(i)).finite()
                && channels(i).value() == a.mul(src[i]).value() by {
                let mixed = Binary32(ONE).sub(dst[3]).mul(src[i]).add(dst[3].mul(bc[i]));
                assert(bounded(bc[i], 90));
                lemma_mixed(a, dst[3], src[i], dst[i], bc[i]);
                lemma_mul_one(src[i]);
                lemma_zero_product(dst[3], bc[i]);
                lemma_plus_nothing(src[i], dst[3].mul(bc[i]));
                lemma_mul_value(a, mixed);
                lemma_mul_value(a, src[i]);
                lemma_fractional_product(a, src[i]);
                lemma_nothing_twice(outside, dst[i]);
                lemma_plus_nothing(a.mul(mixed), dst[3].mul(outside).mul(dst[i]));
            }
            lemma_one_side(s, channels, src[3].add(dst[3].mul(outside)));
        }
    }
}

/// The straight colors of nothing under a source, where the source goes behind.
proof fn lemma_destination_over(s: Seq<u8>)
    requires
        s.len() == 4,
        premultiplied_pixel(s),
    ensures
        premultiplied_bytes(
            composited(
                straight_of(seq![0u8, 0, 0, 0]),
                straight_of(s),
                CompositeMode::SrcOver,
            ),
        ) == s,
{
    lemma_values();
    lemma_zero_alpha();
    lemma_whole();
    straight_colors_are_fractions(s);
    let (src, dst) = (straight_of(seq![0u8, 0, 0, 0]), straight_of(s));
    assert(src =~= nothing());
    let (a, fa) = (dst[3], Binary32(ONE));
    lemma_mul_one(a);
    let channels = |i: int|
        src[3].mul(fa).mul(src[i]).add(
            dst[3].mul(Binary32(ONE).sub(src[3])).mul(dst[i]),
        );
    lemma_nothing_twice(fa, fa);
    lemma_behind_nothing(src[3].mul(fa), a);
    assert forall|i: int| 0 <= i < 3 implies (#[trigger] channels(i)).finite()
        && channels(i).value() == a.mul(dst[i]).value() by {
        lemma_fractional_product(a, dst[i]);
        lemma_nothing_twice(fa, src[i]);
        lemma_behind_nothing(src[3].mul(fa).mul(src[i]), a.mul(dst[i]));
    }
    lemma_one_side(
        s,
        channels,
        src[3].mul(fa).add(dst[3].mul(Binary32(ONE).sub(src[3]))),
    );
    assert(composited(src, dst, CompositeMode::SrcOver) =~= straight_pixel(
        channels,
        src[3].mul(fa).add(dst[3].mul(Binary32(ONE).sub(src[3]))),
    ));
}

/// Blending two opaque colors gives their blend, held between zero and one, and an opaque
/// color.
pub proof fn opaque_colors_blend(src: Seq<Binary32>, dst: Seq<Binary32>, mode: CompositeMode)
    requires
        src.len() == 4,
        dst.len() == 4,
        forall|i: int| 0 <= i < 4 ==> fractional(#[trigger] src[i]),
        forall|i: int| 0 <= i < 4 ==> fractional(#[trigger] dst[i]),
        src[3] == Binary32(ONE),
        dst[3] == Binary32(ONE),
        exchanged(mode) is None,
    ensures
        composited(src, dst, mode)[3] == Binary32(ONE),
        forall|i: int|
            0 <= i < 3 ==> (#[trigger] composited(src, dst, mode)[i]).equals(
                clamp01(blended_color(dst.take(3), src.take(3), mode)[i]),
            ),
{
    lemma_values();
    let one = Binary32(ONE);
    let none = one.sub(one);
    let bc = blended_color(dst.take(3), src.take(3), mode);
    lemma_blended_color(dst.take(3), src.take(3), mode);
    lemma_difference_within(one, one, Binary32(ZERO));
    lemma_mul_one(none);
    lemma_plus_nothing(one, none);
    lemma_same_number(one.add(none), one);
    let o = composited(src, dst, mode);
    assert(kept_fractions(mode, src[3], dst[3]) is None);
    assert forall|i: int| 0 <= i < 3 implies (#[trigger] o[i]).equals(clamp01(bc[i])) by {
        assert(bounded(bc[i], 90));
        let mixed = none.mul(src[i]).add(one.mul(bc[i]));
        lemma_zero_product(none, src[i]);
        lemma_mul_one(bc[i]);
        lemma_behind_nothing(none.mul(src[i]), bc[i]);
        lemma_mul_one(mixed);
        lemma_zero_product(none, dst[i]);
        lemma_plus_nothing(mixed, none.mul(dst[i]));
        let channel = mixed.add(none.mul(dst[i]));
        lemma_over_one(channel);
        lemma_clamp01(channel.div(one));
        lemma_clamp01(bc[i]);
        assert(o[i] == clamp01(channel.div(one)));
    }
}

/// A number over one is the number.
proof fn lemma_over_one(x: Binary32)
    requires
        x.finite(),
    ensures
        !x.div(Binary32(ONE)).nan(),
        x.div(Binary32(ONE)).value() == x.value(),
{
    lemma_values();
    lemma_div_value(x, Binary32(ONE));
    let m = absolute(x.value());
    lemma_nearest_scaled(m, 1, unity());
    lemma_rounded_exact(x);
}

/// A color that is put into an alpha and taken out again comes back up to rounding, the
/// less exactly the smaller the alpha is.
proof fn lemma_color_returns(c: Binary32, a: Binary32, channel: Binary32, alpha: Binary32)
    requires
        fractional(c),
        fractional(a),
        a.value() > 0,
        channel.finite(),
        alpha.finite(),
        channel.value() == a.mul(c).value(),
        alpha.value() == a.value(),
    ensures
        size(number(clamp01(channel.div(alpha))) - number(c)) <= 4real * part() + 4real * speck()
            / number(a),
        clamp01(alpha).equals(a),
        !alpha.at_most(Binary32(ZERO)),
{
    lemma_values();
    lemma_same_number(alpha, a);
    lemma_clamp01(alpha);
    lemma_small_number(c);
    lemma_small_number(a);
    lemma_positive_number(a);
    lemma_limit_size();
    let (x, y, e, g) = (number(c), number(a), part(), speck());
    assert(0real <= y * x && y * x <= 1real) by (nonlinear_arith)
        requires
            0real <= x,
            x <= 1real,
            0real <= y,
            y <= 1real,
    ;
    lemma_product(a, c);
    let m = number(channel);
    let h = g / y;
    assert(h * y == g) by (nonlinear_arith)
        requires
            h == g / y,
            y > 0real,
    ;
    lemma_speck(a);
    let t = m / y;
    assert(t * y == m) by (nonlinear_arith)
        requires
            t == m / y,
            y > 0real,
    ;
    // The product over the alpha, before rounding.
    assert(size(t - x) <= e * x + h) by (nonlinear_arith)
        requires
            t * y == m,
            h * y == g,
            m - y * x <= e * (y * x) + g,
            y * x - m <= e * (y * x) + g,
            size(t - x) == t - x || size(t - x) == x - t,
            y > 0real,
    ;
    assert(size(t) <= 2real);
    lemma_quotient(channel, alpha);
    let q = number(channel.div(alpha));
    assert(g <= h) by (nonlinear_arith)
        requires
            h * y == g,
            y <= 1real,
            y > 0real,
            g > 0real,
    ;
    assert(e * x <= e && e * size(t) <= 2real * e) by (nonlinear_arith)
        requires
            0real <= x,
            x <= 1real,
            size(t) <= 2real,
            e > 0real,
    ;
    assert(size(q - x) <= 3real * e + 2real * h);
    assert(4real * g / y == 4real * h) by (nonlinear_arith)
        requires
            h == g / y,
            y > 0real,
    ;
    lemma_held_number(channel.div(alpha), c);
}

/// Holding a number between zero and one brings it no further from one that lies there.
proof fn lemma_held_number(q: Binary32, c: Binary32)
    requires
        q.finite(),
        fractional(c),
    ensures
        size(number(clamp01(q)) - number(c)) <= size(number(q) - number(c)),
{
    lemma_values();
    lemma_clamp01(q);
    lemma_number_order(q, Binary32(ZERO));
    lemma_number_order(Binary32(ZERO), q);
    lemma_number_order(Binary32(ONE), q);
    lemma_number_order(q, Binary32(ONE));
    lemma_number_order(Binary32(ZERO), c);
    lemma_number_order(c, Binary32(ONE));
}

/// Where one of the sides is not there, a blend gives the color of the other, up to
/// rounding, and its alpha.
pub proof fn blends_with_one_side(src: Seq<Binary32>, dst: Seq<Binary32>, mode: CompositeMode)
    requires
        src.len() == 4,
        dst.len() == 4,
        forall|i: int| 0 <= i < 4 ==> fractional(#[trigger] src[i]),
        forall|i: int| 0 <= i < 4 ==> fractional(#[trigger] dst[i]),
        exchanged(mode) is None,
    ensures
        dst[3].value() == 0 && src[3].value() > 0 ==> {
            &&& composited(src, dst, mode)[3].equals(src[3])
            &&& forall|i: int|
                0 <= i < 3 ==> size(
                    number(#[trigger] composited(src, dst, mode)[i]) - number(src[i]),
                ) <= 4real * part() + 4real * speck() / number(src[3])
        },
        src[3].value() == 0 && dst[3].value() > 0 ==> {
            &&& composited(src, dst, mode)[3].equals(dst[3])
            &&& forall|i: int|
                0 <= i < 3 ==> size(
                    number(#[trigger] composited(src, dst, mode)[i]) - number(dst[i]),
                ) <= 4real * part() + 4real * speck() / number(dst[3])
        },
{
    lemma_values();
    lemma_whole();
    let bc = blended_color(dst.take(3), src.take(3), mode);
    lemma_blended_color(dst.take(3), src.take(3), mode);
    let outside = Binary32(ONE).sub(src[3]);
    let o = composited(src, dst, mode);
    let alpha = src[3].add(dst[3].mul(outside));
    assert(kept_fractions(mode, src[3], dst[3]) is None);
    lemma_complement(src[3]);
    if dst[3].value() == 0 && src[3].value() > 0 {
        let a = src[3];
        lemma_zero_product(dst[3], outside);
        lemma_all_but_nothing(dst[3]);
        lemma_plus_nothing(a, dst[3].mul(outside));
        lemma_fractional_product(a, a);
        lemma_color_returns(a, a, a.mul(a), alpha);
        assert forall|i: int| 0 <= i < 3 implies size(number(#[trigger] o[i]) - number(src[i]))
            <= 4real * part() + 4real * speck() / number(a) by {
            let mixed = Binary32(ONE).sub(dst[3]).mul(src[i]).add(dst[3].mul(bc[i]));
            assert(bounded(bc[i], 90));
            lemma_mixed(a, dst[3], src[i], dst[i], bc[i]);
            lemma_mul_one(src[i]);
            lemma_zero_product(dst[3], bc[i]);
            lemma_plus_nothing(src[i], dst[3].mul(bc[i]));
            lemma_mul_value(a, mixed);
            lemma_mul_value(a, src[i]);
            lemma_fractional_product(a, src[i]);
            lemma_zero_product(dst[3].mul(outside), dst[i]);
            let channel = a.mul(mixed).add(dst[3].mul(outside).mul(dst[i]));
            lemma_plus_nothing(a.mul(mixed), dst[3].mul(outside).mul(dst[i]));
            lemma_color_returns(src[i], a, channel, alpha);
            assert(o[i] == clamp01(channel.div(alpha)));
        }
    }
    if src[3].value() == 0 && dst[3].value() > 0 {
        let a = dst[3];
        lemma_all_but_nothing(src[3]);
        lemma_mul_one(a);
        lemma_behind_nothing(src[3], a);
        lemma_fractional_product(a, a);
        lemma_color_returns(a, a, a.mul(a), alpha);
        assert forall|i: int| 0 <= i < 3 implies size(number(#[trigger] o[i]) - number(dst[i]))
            <= 4real * part() + 4real * speck() / number(a) by {
            let mixed = Binary32(ONE).sub(dst[3]).mul(src[i]).add(dst[3].mul(bc[i]));
            assert(bounded(bc[i], 90));
            lemma_mixed(src[3], a, src[i], dst[i], bc[i]);
            lemma_fractional_product(a, dst[i]);
            lemma_zero_product(src[3], mixed);
            let channel = src[3].mul(mixed).add(dst[3].mul(outside).mul(dst[i]));
            lemma_behind_nothing(src[3].mul(mixed), a.mul(dst[i]));
            lemma_color_returns(dst[i], a, channel, alpha);
            assert(o[i] == clamp01(channel.div(alpha)));
        }
    }
}

/// One less nothing is one.
proof fn lemma_all_but_nothing(zero: Binary32)
    requires
        zero.finite(),
        zero.value() == 0,
    ensures
        Binary32(ONE).sub(zero) == Binary32(ONE),
{
    lemma_values();
    lemma_difference_within(Binary32(ONE), zero, Binary32(ONE));
    lemma_same_number(Binary32(ONE).sub(zero), Binary32(ONE));
}

} // verus!
