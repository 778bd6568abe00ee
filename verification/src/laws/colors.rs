//! What holds of colors and of putting them over each other.
use crate::color::{
    lemma_opaque_over, lemma_over_channel, mul_u8, over_channel, over_pixel, straight_channel,
    straight_pixels,
};
use crate::composite::pixel;
use vstd::arithmetic::div_mod::{lemma_fundamental_div_mod, lemma_fundamental_div_mod_converse};
use vstd::prelude::*;

verus! {

/// A full fraction changes nothing, and none leaves nothing; the order of the factors does
/// not matter, and a larger factor does not give a smaller product.
pub proof fn fractions_multiply(a: u8, b: u8, c: u8)
    ensures
        mul_u8(a, 255) == a,
        mul_u8(a, 0) == 0,
        mul_u8(a, b) == mul_u8(b, a),
        b <= c ==> mul_u8(a, b) <= mul_u8(a, c),
{
    assert(a * b == b * a) by (nonlinear_arith);
    assert(a * 0 == 0) by (nonlinear_arith);
    if b <= c {
        assert(0 <= a * b <= a * c <= 255 * 255) by (nonlinear_arith)
            requires
                0 <= a <= 255,
                0 <= b <= c <= 255,
        ;
    }
}

/// An opaque pixel put over another replaces it.
pub proof fn opaque_replaces(dst: Seq<u8>, r: u8, g: u8, b: u8)
    requires
        dst.len() == 4,
    ensures
        over_pixel(dst, r, g, b, 255) == seq![r, g, b, 255u8],
{
    lemma_opaque_over(r, dst[0]);
    lemma_opaque_over(g, dst[1]);
    lemma_opaque_over(b, dst[2]);
    lemma_opaque_over(255, dst[3]);
    assert(over_pixel(dst, r, g, b, 255) =~= seq![r, g, b, 255u8]);
}

/// Putting a pixel over another does not lower the alpha of either.
pub proof fn over_keeps_alpha(a: u8, d: u8)
    ensures
        over_channel(a, a, d) >= a,
        over_channel(a, a, d) >= d,
{
    lemma_over_channel(a, a, d, d);
    let n: int = 255 - a;
    assert(n * d == 255 * d - a * d) by (nonlinear_arith)
        requires
            n == 255 - a,
    ;
    assert(0 <= n * d) by (nonlinear_arith)
        requires
            n >= 0,
            d >= 0,
    ;
    assert(255 * a + n * d >= 255 * d) by (nonlinear_arith)
        requires
            n == 255 - a,
            0 <= a,
            0 <= d <= 255,
    ;
}

/// Taking a premultiplied channel out of its alpha never passes the largest value, and
/// putting it back gives the channel again. The one channel that does not come back is 127
/// of 254.
pub proof fn straight_channel_returns(c: u8, a: u8)
    requires
        0 < a,
        c <= a,
    ensures
        straight_channel(c, a) == (c * 255 + a / 2) / (a as int),
        !(c == 127 && a == 254) ==> mul_u8(straight_channel(c, a), a) == c,
{
    let (n, d) = (c * 255 + a / 2, a as int);
    let s = n / d;
    lemma_fundamental_div_mod(n, d);
    assert(s <= 255) by (nonlinear_arith)
        requires
            n == d * s + n % d,
            0 <= n % d,
            n <= d * 255 + d / 2,
            0 <= d / 2 < d,
    ;
    assert(s >= 0) by (nonlinear_arith)
        requires
            n == d * s + n % d,
            n % d < d,
            n >= 0,
            d > 0,
    ;
    let e = s * a;
    assert(d * s == e) by (nonlinear_arith)
        requires
            d == a,
            e == s * a,
    ;
    // Back in its alpha the channel is off by less than half a step.
    assert(e == c * 255 + a / 2 - n % d);
    if a == 255 {
        lemma_fundamental_div_mod_converse(n, 255, c as int, 127);
    } else if a == 254 {
        if n % d == 0 {
            assert(c == 127) by {
                assert(c * 255 + 127 == 254 * s);
                assert((c + 127) == 254 * (s - c));
            }
        }
    }
}

/// A fully transparent pixel becomes nothing, an opaque one stays as it is, and no pixel
/// changes its alpha.
pub proof fn straight_pixels_ends(pixels: Seq<u8>, p: int)
    requires
        0 <= p < pixels.len() / 4,
    ensures
        straight_pixels(pixels).len() == pixels.len(),
        pixel(straight_pixels(pixels), p)[3] == pixel(pixels, p)[3],
        pixel(pixels, p)[3] == 0 ==> pixel(straight_pixels(pixels), p) == seq![0u8, 0, 0, 0],
        pixel(pixels, p)[3] == 255 ==> pixel(straight_pixels(pixels), p) == pixel(pixels, p),
{
    let (before, after) = (pixel(pixels, p), pixel(straight_pixels(pixels), p));
    assert forall|k: int| 0 <= k < 4 implies #[trigger] after[k] == if k == 3 {
        before[3]
    } else {
        straight_channel(before[k], before[3])
    } by {
        assert((4 * p + k) / 4 == p && (4 * p + k) % 4 == k);
    }
    if before[3] == 0 {
        assert(after =~= seq![0u8, 0, 0, 0]);
    }
    if before[3] == 255 {
        assert(after =~= before);
    }
}

/// A product of two bytes as fractions is the byte nearest to the exact one: it is at most half a
/// step away.
pub proof fn products_of_fractions_are_nearest(a: u8, b: u8)
    ensures
        -128 <= 255 * mul_u8(a, b) - a * b <= 128,
{
    let n = a * b;
    assert(0 <= n <= 255 * 255) by (nonlinear_arith)
        requires
            n == a * b,
            0 <= a <= 255,
            0 <= b <= 255,
    ;
}

/// A premultiplied channel over another is the sum of it and of what shines through its alpha of
/// the other, to the nearest byte.
pub proof fn what_lies_below_shines_through(c: u8, a: u8, d: u8, e: u8)
    requires
        c <= a,
        d <= e,
    ensures
        -128 <= 255 * over_channel(c, a, d) - (255 * c + (255 - a) * d) <= 128,
{
    lemma_over_channel(c, a, d, e);
    let n = (255 - a) * d;
    assert(0 <= n <= 255 * 255) by (nonlinear_arith)
        requires
            n == (255 - a) * d,
            0 <= a <= 255,
            0 <= d <= 255,
    ;
}

/// A straight channel is the byte nearest to the quotient of the premultiplied one and its alpha:
/// times the alpha it is at most half of the alpha away.
pub proof fn straight_channels_are_nearest(c: u8, a: u8)
    requires
        0 < a,
        c <= a,
    ensures
        2 * (straight_channel(c, a) * a - 255 * c) <= a,
        2 * (255 * c - straight_channel(c, a) * a) <= a,
{
    straight_channel_returns(c, a);
    let (n, d) = (c * 255 + a / 2, a as int);
    let q = n / d;
    lemma_fundamental_div_mod(n, d);
    assert(d * q == q * a) by (nonlinear_arith)
        requires
            d == a,
    ;
}

/// Every channel of a straight pixel comes from the same channel of the premultiplied one.
pub proof fn straight_pixels_take_out_the_alpha(pixels: Seq<u8>, p: int, k: int)
    requires
        0 <= p < pixels.len() / 4,
        0 <= k < 3,
        pixel(pixels, p)[k] <= pixel(pixels, p)[3],
        0 < pixel(pixels, p)[3],
    ensures
        ({
            let (before, after) = (pixel(pixels, p), pixel(straight_pixels(pixels), p));
            &&& after[3] == before[3]
            &&& 2 * (after[k] * before[3] - 255 * before[k]) <= before[3]
            &&& 2 * (255 * before[k] - after[k] * before[3]) <= before[3]
        }),
{
    let before = pixel(pixels, p);
    straight_pixels_ends(pixels, p);
    straight_channels_are_nearest(before[k], before[3]);
    assert((4 * p + k) / 4 == p && (4 * p + k) % 4 == k);
}

} // verus!
