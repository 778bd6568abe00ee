//! Compositing pixels and buffers by a composite mode.
use crate::binary32::{absolute, integer, units, unity, Binary32, INFINITE};
use crate::blend::{blend_color, blended_color, clamp01, CompositeMode};
use crate::color::{lemma_over_channel, over, over_channel, premultiplied_pixel};
use crate::consts::{CHANNEL_MAX, ONE, ZERO};
use crate::gradient::{fraction, nearest_byte};
use crate::order::{
    lemma_div_order, lemma_div_self, lemma_div_value, lemma_finite_between, lemma_mul_one,
    lemma_mul_order, lemma_mul_value, lemma_nearest_byte_order, lemma_rounded_exact,
    lemma_rounded_order, lemma_rounded_zero, lemma_values, lemma_zero_product,
};
use crate::rounding::lemma_units_order;
use vstd::prelude::*;

verus! {

/// The fractions of source and backdrop that a Porter-Duff operator keeps, by the
/// alphas of the two.
pub open spec fn kept_fractions(mode: CompositeMode, source: Binary32, backdrop: Binary32) -> Option<
    (Binary32, Binary32),
> {
    let none = Binary32(ZERO);
    let all = Binary32(ONE);
    let outside_source = Binary32(ONE).sub(source);
    let outside_backdrop = Binary32(ONE).sub(backdrop);
    match mode {
        CompositeMode::SrcOver => Some((all, outside_source)),
        CompositeMode::DestOver => Some((outside_backdrop, all)),
        CompositeMode::SrcIn => Some((backdrop, none)),
        CompositeMode::DestIn => Some((none, source)),
        CompositeMode::SrcOut => Some((outside_backdrop, none)),
        CompositeMode::DestOut => Some((none, outside_source)),
        CompositeMode::SrcAtop => Some((backdrop, outside_source)),
        CompositeMode::DestAtop => Some((outside_backdrop, source)),
        CompositeMode::Xor => Some((outside_backdrop, outside_source)),
        _ => None,
    }
}

/// Looks up the fractions that a Porter-Duff operator keeps.
fn porter_duff_fractions(mode: CompositeMode, source: Binary32, backdrop: Binary32) -> (r: Option<
    (Binary32, Binary32),
>)
    ensures
        r == kept_fractions(mode, source, backdrop),
{
    let none = Binary32(ZERO);
    let all = Binary32(ONE);
    let outside_source = Binary32(ONE).sub(source);
    let outside_backdrop = Binary32(ONE).sub(backdrop);
    match mode {
        CompositeMode::SrcOver => Some((all, outside_source)),
        CompositeMode::DestOver => Some((outside_backdrop, all)),
        CompositeMode::SrcIn => Some((backdrop, none)),
        CompositeMode::DestIn => Some((none, source)),
        CompositeMode::SrcOut => Some((outside_backdrop, none)),
        CompositeMode::DestOut => Some((none, outside_source)),
        CompositeMode::SrcAtop => Some((backdrop, outside_source)),
        CompositeMode::DestAtop => Some((outside_backdrop, source)),
        CompositeMode::Xor => Some((outside_backdrop, outside_source)),
        _ => None,
    }
}

/// A pixel of which nothing is left.
pub open spec fn nothing() -> Seq<Binary32> {
    Seq::new(4, |i: int| Binary32(ZERO))
}

/// A straight pixel of an alpha, from channels that are given premultiplied. Where
/// the alpha is not positive nothing is left.
pub open spec fn straight_pixel(channels: spec_fn(int) -> Binary32, alpha: Binary32) -> Seq<
    Binary32,
> {
    if alpha.at_most(Binary32(ZERO)) {
        nothing()
    } else {
        Seq::new(
            4,
            |i: int|
                if i < 3 {
                    clamp01(channels(i).div(alpha))
                } else {
                    clamp01(alpha)
                },
        )
    }
}

/// Source and backdrop, each by the fraction of it that is kept.
pub open spec fn porter_duff(
    src: Seq<Binary32>,
    dst: Seq<Binary32>,
    fractions: (Binary32, Binary32),
) -> Seq<Binary32> {
    let (fa, fb) = fractions;
    straight_pixel(
        |i: int| src[3].mul(fa).mul(src[i]).add(dst[3].mul(fb).mul(dst[i])),
        src[3].mul(fa).add(dst[3].mul(fb)),
    )
}

/// The sum of source and backdrop, held to full coverage.
pub open spec fn plus(src: Seq<Binary32>, dst: Seq<Binary32>) -> Seq<Binary32> {
    straight_pixel(
        |i: int| clamp01(src[3].mul(src[i]).add(dst[3].mul(dst[i]))),
        clamp01(src[3].add(dst[3])),
    )
}

/// A blend: the source color is mixed with the blend of source and backdrop by the
/// coverage of the backdrop, and then put over the backdrop.
pub open spec fn blend(src: Seq<Binary32>, dst: Seq<Binary32>, mode: CompositeMode) -> Seq<
    Binary32,
> {
    let bc = blended_color(dst.take(3), src.take(3), mode);
    let outside = Binary32(ONE).sub(src[3]);
    straight_pixel(
        |i: int|
            src[3].mul(
                Binary32(ONE).sub(dst[3]).mul(src[i]).add(dst[3].mul(bc[i])),
            ).add(dst[3].mul(outside).mul(dst[i])),
        src[3].add(dst[3].mul(outside)),
    )
}

/// A straight source pixel composited onto a straight backdrop pixel.
pub open spec fn composited(src: Seq<Binary32>, dst: Seq<Binary32>, mode: CompositeMode) -> Seq<
    Binary32,
> {
    match mode {
        CompositeMode::Clear => nothing(),
        CompositeMode::Src => src,
        CompositeMode::Dest => dst,
        CompositeMode::Plus => plus(src, dst),
        _ => match kept_fractions(mode, src[3], dst[3]) {
            Some(fractions) => porter_duff(src, dst, fractions),
            None => blend(src, dst, mode),
        },
    }
}

/// Composites a straight pixel onto a straight pixel.
pub fn composite_pixel(src: [Binary32; 4], dst: [Binary32; 4], mode: CompositeMode) -> (r: [Binary32;
    4])
    ensures
        r@ == composited(src@, dst@, mode),
{
    let zero = [Binary32(ZERO), Binary32(ZERO), Binary32(ZERO), Binary32(ZERO)];
    assert(zero@ =~= nothing());
    let s = src[3];
    let b = dst[3];
    match mode {
        CompositeMode::Clear => zero,
        CompositeMode::Src => src,
        CompositeMode::Dest => dst,
        CompositeMode::Plus => {
            let alpha = clamp01(s.add(b));
            if alpha.at_most(Binary32(ZERO)) {
                return zero;
            }
            let o = [
                clamp01(clamp01(s.mul(src[0]).add(b.mul(dst[0]))).div(alpha)),
                clamp01(clamp01(s.mul(src[1]).add(b.mul(dst[1]))).div(alpha)),
                clamp01(clamp01(s.mul(src[2]).add(b.mul(dst[2]))).div(alpha)),
                alpha,
            ];
            assert(o@ =~= plus(src@, dst@));
            o
        },
        _ => match porter_duff_fractions(mode, s, b) {
            Some((fa, fb)) => {
                let alpha = s.mul(fa).add(b.mul(fb));
                if alpha.at_most(Binary32(ZERO)) {
                    return zero;
                }
                let o = [
                    clamp01(s.mul(fa).mul(src[0]).add(b.mul(fb).mul(dst[0])).div(alpha)),
                    clamp01(s.mul(fa).mul(src[1]).add(b.mul(fb).mul(dst[1])).div(alpha)),
                    clamp01(s.mul(fa).mul(src[2]).add(b.mul(fb).mul(dst[2])).div(alpha)),
                    clamp01(alpha),
                ];
                assert(o@ =~= porter_duff(src@, dst@, (fa, fb)));
                o
            },
            None => {
                let cb = [dst[0], dst[1], dst[2]];
                let cs = [src[0], src[1], src[2]];
                assert(cb@ =~= dst@.take(3));
                assert(cs@ =~= src@.take(3));
                let bc = blend_color(cb, cs, mode);
                let inside = Binary32(ONE).sub(b);
                let outside = Binary32(ONE).sub(s);
                let alpha = s.add(b.mul(outside));
                if alpha.at_most(Binary32(ZERO)) {
                    return zero;
                }
                let mixed = [
                    inside.mul(src[0]).add(b.mul(bc[0])),
                    inside.mul(src[1]).add(b.mul(bc[1])),
                    inside.mul(src[2]).add(b.mul(bc[2])),
                ];
                let o = [
                    clamp01(s.mul(mixed[0]).add(b.mul(outside).mul(dst[0])).div(alpha)),
                    clamp01(s.mul(mixed[1]).add(b.mul(outside).mul(dst[1])).div(alpha)),
                    clamp01(s.mul(mixed[2]).add(b.mul(outside).mul(dst[2])).div(alpha)),
                    clamp01(alpha),
                ];
                assert(o@ =~= blend(src@, dst@, mode));
                o
            },
        },
    }
}

/// A pixel of a buffer.
pub open spec fn pixel(s: Seq<u8>, p: int) -> Seq<u8> {
    s.subrange(4 * p, 4 * p + 4)
}

/// The straight color of a premultiplied pixel.
pub open spec fn straight_of(px: Seq<u8>) -> Seq<Binary32> {
    let a = fraction(px[3]);
    if a.at_most(Binary32(ZERO)) {
        nothing()
    } else {
        Seq::new(
            4,
            |i: int|
                if i < 3 {
                    fraction(px[i]).div(a)
                } else {
                    a
                },
        )
    }
}

/// The premultiplied bytes of a straight color.
pub open spec fn premultiplied_bytes(o: Seq<Binary32>) -> Seq<u8> {
    Seq::new(
        4,
        |i: int|
            if i < 3 {
                nearest_byte(o[i].mul(o[3]).mul(Binary32(CHANNEL_MAX)))
            } else {
                nearest_byte(o[3].mul(Binary32(CHANNEL_MAX)))
            },
    )
}

/// A premultiplied source pixel composited onto a premultiplied backdrop pixel. The
/// usual mode works on the bytes, the others on straight colors.
pub open spec fn composited_bytes(s: Seq<u8>, d: Seq<u8>, mode: CompositeMode) -> Seq<u8> {
    if mode == CompositeMode::SrcOver {
        if s[3] == 0 {
            d
        } else {
            Seq::new(4, |i: int| over_channel(s[i], s[3], d[i]))
        }
    } else {
        premultiplied_bytes(composited(straight_of(s), straight_of(d), mode))
    }
}

/// A source buffer composited onto a backdrop buffer, pixel by pixel.
pub open spec fn composited_buffer(
    src: Seq<u8>,
    backdrop: Seq<u8>,
    mode: CompositeMode,
) -> Seq<u8> {
    Seq::new(
        src.len(),
        |i: int|
            composited_bytes(pixel(src, i / 4), pixel(backdrop, i / 4), mode)[i % 4],
    )
}

/// Whether the backdrop has every pixel that compositing reads. An opaque source
/// pixel hides its backdrop in the usual mode.
pub open spec fn backs(backdrop: Seq<u8>, src: Seq<u8>, mode: CompositeMode) -> bool {
    forall|p: int|
        0 <= p < src.len() / 4 && (mode != CompositeMode::SrcOver || #[trigger] pixel(src, p)[3]
            != 255) ==> 4 * p + 4 <= backdrop.len()
}

/// Reads the straight color of a pixel.
fn to_straight(buffer: &[u8], i: usize) -> (r: [Binary32; 4])
    requires
        i + 4 <= buffer.len(),
    ensures
        r@ == straight_of(buffer@.subrange(i as int, i + 4)),
{
    let ghost px = buffer@.subrange(i as int, i + 4);
    let a = fraction(buffer[i + 3]);
    if a.at_most(Binary32(ZERO)) {
        let r = [Binary32(ZERO), Binary32(ZERO), Binary32(ZERO), Binary32(ZERO)];
        assert(r@ =~= straight_of(px));
        r
    } else {
        let r = [
            fraction(buffer[i]).div(a),
            fraction(buffer[i + 1]).div(a),
            fraction(buffer[i + 2]).div(a),
            a,
        ];
        assert(r@ =~= straight_of(px));
        r
    }
}

/// Composites one pixel of a buffer in place.
fn composite_at(src: &mut [u8], backdrop: &[u8], p: usize, mode: CompositeMode)
    requires
        4 * p + 4 <= old(src)@.len(),
        mode != CompositeMode::SrcOver || pixel(old(src)@, p as int)[3] != 255 ==> 4 * p + 4
            <= backdrop@.len(),
    ensures
        final(src)@.len() == old(src)@.len(),
        pixel(final(src)@, p as int) == composited_bytes(
            pixel(old(src)@, p as int),
            pixel(backdrop@, p as int),
            mode,
        ),
        forall|j: int|
            0 <= j < old(src)@.len() && j / 4 != p ==> final(src)@[j] == old(src)@[j],
{
    let i: usize = 4 * p;
    let ghost s = pixel(src@, p as int);
    let ghost d = pixel(backdrop@, p as int);
    let ghost whole = composited_bytes(s, d, mode);
    assert(s[0] == src@[i as int] && s[1] == src@[i + 1] && s[2] == src@[i + 2] && s[3] == src@[i
        + 3]);
    if mode == CompositeMode::SrcOver {
        let a: u8 = src[i + 3];
        if a == 0 {
            src[i] = backdrop[i];
            src[i + 1] = backdrop[i + 1];
            src[i + 2] = backdrop[i + 2];
            src[i + 3] = backdrop[i + 3];
        } else if a < 255 {
            let s0: u8 = src[i];
            let s1: u8 = src[i + 1];
            let s2: u8 = src[i + 2];
            src[i] = over(s0, a, backdrop[i]);
            src[i + 1] = over(s1, a, backdrop[i + 1]);
            src[i + 2] = over(s2, a, backdrop[i + 2]);
            src[i + 3] = over(a, a, backdrop[i + 3]);
        } else {
            assert forall|k: int| 0 <= k < 4 implies #[trigger] whole[k] == s[k] by {
                assert((255 - 255) * d[k] == 0) by (nonlinear_arith);
            }
        }
    } else {
        let o = composite_pixel(to_straight(src, i), to_straight(backdrop, i), mode);
        let a = o[3];
        src[i] = nearest_byte(o[0].mul(a).mul(Binary32(CHANNEL_MAX)));
        src[i + 1] = nearest_byte(o[1].mul(a).mul(Binary32(CHANNEL_MAX)));
        src[i + 2] = nearest_byte(o[2].mul(a).mul(Binary32(CHANNEL_MAX)));
        src[i + 3] = nearest_byte(a.mul(Binary32(CHANNEL_MAX)));
    }
    assert(pixel(src@, p as int) =~= whole);
}

/// Composites a premultiplied source buffer onto a premultiplied backdrop buffer,
/// leaving the result in the source.
pub fn composite_buffers(src: &mut [u8], backdrop: &[u8], mode: CompositeMode)
    requires
        old(src)@.len() % 4 == 0,
        backs(backdrop@, old(src)@, mode),
    ensures
        final(src)@ == composited_buffer(old(src)@, backdrop@, mode),
{
    let pixels: usize = src.len() / 4;
    let ghost whole = composited_buffer(old(src)@, backdrop@, mode);
    let mut p: usize = 0;
    while p < pixels
        invariant
            p <= pixels,
            pixels == src@.len() / 4,
            src@.len() == old(src)@.len(),
            src@.len() <= usize::MAX,
            backs(backdrop@, old(src)@, mode),
            whole == composited_buffer(old(src)@, backdrop@, mode),
            forall|j: int| 0 <= j < 4 * p ==> #[trigger] src@[j] == whole[j],
            forall|j: int| 4 * p <= j < src@.len() ==> #[trigger] src@[j] == old(src)@[j],
        decreases pixels - p,
    {
        let ghost before = src@;
        let ghost alpha = pixel(old(src)@, p as int)[3];
        assert(pixel(before, p as int) =~= pixel(old(src)@, p as int));
        composite_at(src, backdrop, p, mode);
        proof {
            let px = pixel(src@, p as int);
            assert forall|j: int| 0 <= j < 4 * p + 4 implies #[trigger] src@[j] == whole[j] by {
                if j >= 4 * p {
                    assert(j / 4 == p);
                    assert(src@[j] == px[j - 4 * p]);
                    assert(j % 4 == j - 4 * p);
                } else {
                    assert(src@[j] == before[j]);
                }
            }
            assert forall|j: int| 4 * p + 4 <= j < src@.len() implies #[trigger] src@[j] == old(
                src,
            )@[j] by {
                assert(src@[j] == before[j]);
            }
        }
        p = p + 1;
    }
    assert(src@ =~= whole);
}

/// Whether every pixel of a buffer is premultiplied.
pub open spec fn premultiplied(s: Seq<u8>) -> bool {
    forall|p: int| 0 <= p < s.len() / 4 ==> premultiplied_pixel(#[trigger] pixel(s, p))
}

/// Whether a channel is not above one. What is not a number is not above anything.
pub open spec fn within_one(x: Binary32) -> bool {
    x.nan() || x.at_most(Binary32(ONE))
}

/// A number held between zero and one lies there, if it is a number.
pub proof fn lemma_clamp01(x: Binary32)
    ensures
        x.nan() ==> clamp01(x).nan(),
        !x.nan() ==> Binary32(ZERO).at_most(clamp01(x)) && clamp01(x).at_most(Binary32(ONE))
            && clamp01(x).finite(),
{
    lemma_values();
    if !x.nan() {
        lemma_finite_between(Binary32(ZERO), clamp01(x), Binary32(ONE));
    }
}

/// The fraction of a channel lies between zero and one, and a larger channel does not
/// have a smaller one.
pub proof fn lemma_fraction(c: u8, d: u8)
    requires
        c <= d,
    ensures
        fraction(c).finite(),
        fraction(d).finite(),
        0 <= fraction(c).value() <= fraction(d).value() <= unity(),
{
    lemma_values();
    let n = Binary32(CHANNEL_MAX);
    let (x, y, z) = (
        integer(false, 0),
        integer(false, c as nat),
        integer(false, d as nat),
    );
    assert(0 * unity() <= c * unity() <= d * unity() <= 255 * unity()) by (nonlinear_arith)
        requires
            0 <= c <= d <= 255,
    ;
    lemma_rounded_order(0 * unity(), 1, (c * unity()) as nat, 1);
    lemma_rounded_order((c * unity()) as nat, 1, (d * unity()) as nat, 1);
    lemma_rounded_order((d * unity()) as nat, 1, 255 * unity(), 1);
    lemma_rounded_exact(n);
    assert(0 * unity() == 0) by (nonlinear_arith);
    lemma_rounded_zero(1);
    assert(units(0) == 0);
    assert(z.at_most(n) && y.at_most(z) && Binary32(ZERO).at_most(y));
    lemma_finite_between(Binary32(ZERO), y, n);
    lemma_finite_between(Binary32(ZERO), z, n);
    lemma_div_order(Binary32(ZERO), y, n);
    lemma_div_order(y, z, n);
    lemma_div_order(z, n, n);
    lemma_div_self(n);
    lemma_div_value(Binary32(ZERO), n);
    assert(absolute(0) * unity() == 0) by (nonlinear_arith)
        requires
            absolute(0) == 0,
    ;
    lemma_rounded_zero(absolute(n.value()));
    lemma_finite_between(Binary32(ZERO), fraction(c), Binary32(ONE));
    lemma_finite_between(Binary32(ZERO), fraction(d), Binary32(ONE));
}

/// The straight channels of a premultiplied pixel are not above one, and its alpha lies
/// between zero and one.
pub proof fn lemma_straight_of(px: Seq<u8>)
    requires
        px.len() == 4,
        premultiplied_pixel(px),
    ensures
        forall|i: int| 0 <= i < 3 ==> within_one(#[trigger] straight_of(px)[i]),
        straight_of(px)[3].finite(),
        0 <= straight_of(px)[3].value() <= unity(),
{
    lemma_values();
    let a = fraction(px[3]);
    lemma_fraction(px[3], px[3]);
    if !a.at_most(Binary32(ZERO)) {
        assert forall|i: int| 0 <= i < 3 implies within_one(#[trigger] straight_of(px)[i]) by {
            lemma_fraction(px[i], px[3]);
            lemma_div_order(fraction(px[i]), a, a);
            lemma_div_self(a);
        }
    }
}

/// The bytes of a straight color whose channels are not above one are premultiplied.
pub proof fn lemma_premultiplied_bytes(o: Seq<Binary32>)
    requires
        o.len() == 4,
        forall|i: int| 0 <= i < 3 ==> within_one(#[trigger] o[i]),
        o[3].nan() || o[3].finite() && 0 <= o[3].value() <= unity(),
    ensures
        premultiplied_pixel(premultiplied_bytes(o)),
{
    assert forall|i: int| 0 <= i < 3 implies #[trigger] premultiplied_bytes(o)[i]
        <= premultiplied_bytes(o)[3] by {
        lemma_scaled_byte(o[i], o[3]);
    }
    let bytes = premultiplied_bytes(o);
    assert(bytes[0] <= bytes[3] && bytes[1] <= bytes[3] && bytes[2] <= bytes[3]);
}

/// A channel that is not above one does not come out above its alpha.
proof fn lemma_scaled_byte(x: Binary32, a: Binary32)
    requires
        within_one(x),
        a.nan() || a.finite() && 0 <= a.value() <= unity(),
    ensures
        nearest_byte(x.mul(a).mul(Binary32(CHANNEL_MAX))) <= nearest_byte(
            a.mul(Binary32(CHANNEL_MAX)),
        ),
{
    lemma_values();
    let n = Binary32(CHANNEL_MAX);
    let (scaled, alpha) = (x.mul(a), a.mul(n));
    if x.nan() || a.nan() {
        reveal(Binary32::spec_mul);
        assert(scaled.mul(n).nan());
    } else if x.finite() {
        lemma_mul_one(a);
        lemma_mul_order(x, Binary32(ONE), a);
        if scaled.finite() {
            lemma_mul_order(scaled, a, n);
        } else {
            lemma_units_order(ONE as nat, INFINITE as nat);
            assert(scaled.value() <= unity());
            assert(scaled.negative());
            lemma_endless(scaled, a);
        }
    } else {
        lemma_units_order(ONE as nat, INFINITE as nat);
        assert(x.negative());
        lemma_endless_product(x, a);
        if !scaled.nan() {
            lemma_endless(scaled, a);
        } else {
            reveal(Binary32::spec_mul);
        }
    }
    lemma_nearest_byte_order(scaled.mul(n), alpha);
}

/// What is endlessly negative times a number that is not negative is so too, or no number.
proof fn lemma_endless_product(x: Binary32, a: Binary32)
    requires
        x.infinite(),
        x.negative(),
        a.finite(),
        a.value() >= 0,
    ensures
        x.mul(a).nan() || x.mul(a).infinite() && x.mul(a).negative(),
{
    reveal(Binary32::spec_mul);
    assert(units(0) == 0);
    lemma_units_order(0, a.magnitude());
    assert(a.negative() ==> a.zero());
}

/// What is endlessly negative stays so when it is scaled, and is not above a number.
proof fn lemma_endless(x: Binary32, a: Binary32)
    requires
        x.infinite(),
        x.negative(),
        a.finite(),
        0 <= a.value() <= unity(),
    ensures
        x.mul(Binary32(CHANNEL_MAX)).at_most(a.mul(Binary32(CHANNEL_MAX))),
{
    let n = Binary32(CHANNEL_MAX);
    reveal(Binary32::spec_mul);
    lemma_values();
    assert(units(0) == 0);
    lemma_units_order(0, INFINITE as nat);
    assert(x.mul(n) == x);
    lemma_mul_value(a, n);
    lemma_mul_order(Binary32(ZERO), a, n);
    lemma_zero_product(Binary32(ZERO), n);
}

/// Compositing a premultiplied pixel onto a premultiplied pixel gives one, in every mode.
pub proof fn lemma_composited_pixel(s: Seq<u8>, d: Seq<u8>, mode: CompositeMode)
    requires
        s.len() == 4,
        d.len() == 4,
        premultiplied_pixel(s),
        premultiplied_pixel(d),
    ensures
        premultiplied_pixel(composited_bytes(s, d, mode)),
        composited_bytes(s, d, mode).len() == 4,
{
    if mode == CompositeMode::SrcOver {
        lemma_over_channel(s[0], s[3], d[0], d[3]);
        lemma_over_channel(s[1], s[3], d[1], d[3]);
        lemma_over_channel(s[2], s[3], d[2], d[3]);
    } else {
        let (src, dst) = (straight_of(s), straight_of(d));
        let o = composited(src, dst, mode);
        lemma_values();
        lemma_straight_of(s);
        lemma_straight_of(d);
        if mode != CompositeMode::Src && mode != CompositeMode::Dest {
            lemma_composited_range(src, dst, mode);
        }
        assert(forall|i: int| 0 <= i < 3 ==> within_one(#[trigger] o[i]));
        lemma_premultiplied_bytes(o);
    }
}

/// What a mode that looks at both pixels gives lies between zero and one, as far as it is
/// a number.
proof fn lemma_composited_range(src: Seq<Binary32>, dst: Seq<Binary32>, mode: CompositeMode)
    requires
        mode != CompositeMode::Src,
        mode != CompositeMode::Dest,
    ensures
        composited(src, dst, mode).len() == 4,
        forall|i: int| 0 <= i < 3 ==> within_one(#[trigger] composited(src, dst, mode)[i]),
        composited(src, dst, mode)[3].nan() || composited(src, dst, mode)[3].finite() && 0
            <= composited(src, dst, mode)[3].value() <= unity(),
{
    lemma_values();
    let o = composited(src, dst, mode);
    match mode {
        CompositeMode::Clear => {},
        CompositeMode::Plus => {
            lemma_straight_pixel(
                |i: int| clamp01(src[3].mul(src[i]).add(dst[3].mul(dst[i]))),
                clamp01(src[3].add(dst[3])),
            );
        },
        _ => {
            match kept_fractions(mode, src[3], dst[3]) {
                Some((fa, fb)) => {
                    lemma_straight_pixel(
                        |i: int| src[3].mul(fa).mul(src[i]).add(dst[3].mul(fb).mul(dst[i])),
                        src[3].mul(fa).add(dst[3].mul(fb)),
                    );
                },
                None => {
                    let bc = blended_color(dst.take(3), src.take(3), mode);
                    let outside = Binary32(ONE).sub(src[3]);
                    lemma_straight_pixel(
                        |i: int|
                            src[3].mul(
                                Binary32(ONE).sub(dst[3]).mul(src[i]).add(dst[3].mul(bc[i])),
                            ).add(dst[3].mul(outside).mul(dst[i])),
                        src[3].add(dst[3].mul(outside)),
                    );
                },
            }
        },
    }
}

/// A pixel put together from premultiplied channels lies between zero and one, as far as
/// it is a number.
pub proof fn lemma_straight_pixel(channels: spec_fn(int) -> Binary32, alpha: Binary32)
    ensures
        straight_pixel(channels, alpha).len() == 4,
        forall|i: int| 0 <= i < 3 ==> within_one(#[trigger] straight_pixel(channels, alpha)[i]),
        straight_pixel(channels, alpha)[3].nan() || straight_pixel(channels, alpha)[3].finite()
            && 0 <= straight_pixel(channels, alpha)[3].value() <= unity(),
{
    lemma_values();
    lemma_clamp01(alpha);
    assert forall|i: int| 0 <= i < 3 implies within_one(
        #[trigger] straight_pixel(channels, alpha)[i],
    ) by {
        lemma_clamp01(channels(i).div(alpha));
    }
}

/// Compositing a premultiplied buffer onto a premultiplied buffer gives one, in every mode.
pub proof fn lemma_composited_premultiplied(
    src: Seq<u8>,
    backdrop: Seq<u8>,
    mode: CompositeMode,
)
    requires
        src.len() % 4 == 0,
        backdrop.len() == src.len(),
        premultiplied(src),
        premultiplied(backdrop),
    ensures
        premultiplied(composited_buffer(src, backdrop, mode)),
{
    let whole = composited_buffer(src, backdrop, mode);
    assert forall|p: int| 0 <= p < whole.len() / 4 implies premultiplied_pixel(
        #[trigger] pixel(whole, p),
    ) by {
        let px = composited_bytes(pixel(src, p), pixel(backdrop, p), mode);
        lemma_composited_pixel(pixel(src, p), pixel(backdrop, p), mode);
        assert forall|k: int| 0 <= k < 4 implies #[trigger] pixel(whole, p)[k] == px[k] by {
            assert((4 * p + k) / 4 == p && (4 * p + k) % 4 == k);
        }
        assert(pixel(whole, p) =~= px);
    }
}

} // verus!
