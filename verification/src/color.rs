//! Colors with eight bits to a channel, and their compositing.
use vstd::prelude::*;

verus! {

/// A text color.
#[derive(Copy, Clone, Debug, PartialEq, Eq, Structural)]
pub struct Color {
    pub r: u8,
    pub g: u8,
    pub b: u8,
    pub a: u8,
}

impl Color {
    /// An opaque color.
    pub fn rgb(r: u8, g: u8, b: u8) -> (c: Color)
        ensures
            c == (Color { r, g, b, a: 255 }),
    {
        Color { r, g, b, a: 255 }
    }
}

/// A straight (non-premultiplied) sRGB color.
#[derive(Copy, Clone, Debug, PartialEq, Eq, Structural)]
pub struct Rgba {
    pub r: u8,
    pub g: u8,
    pub b: u8,
    pub a: u8,
}

impl Rgba {
    pub open spec fn spec_black() -> Rgba {
        Rgba { r: 0, g: 0, b: 0, a: 255 }
    }

    pub open spec fn spec_transparent() -> Rgba {
        Rgba { r: 0, g: 0, b: 0, a: 0 }
    }

    /// Opaque black.
    #[verifier::when_used_as_spec(spec_black)]
    pub fn black() -> (c: Rgba)
        ensures
            c == Rgba::spec_black(),
    {
        Rgba { r: 0, g: 0, b: 0, a: 255 }
    }

    /// No color at all.
    #[verifier::when_used_as_spec(spec_transparent)]
    pub fn transparent() -> (c: Rgba)
        ensures
            c == Rgba::spec_transparent(),
    {
        Rgba { r: 0, g: 0, b: 0, a: 0 }
    }

    /// The channels of a text color.
    pub fn from_color(c: Color) -> (r: Rgba)
        ensures
            r == (Rgba { r: c.r, g: c.g, b: c.b, a: c.a }),
    {
        Rgba { r: c.r, g: c.g, b: c.b, a: c.a }
    }
}

pub open spec fn spec_mul_u8(a: u8, b: u8) -> u8 {
    ((a * b + 128) / 255) as u8
}

/// Multiplies two bytes as fractions of 255.
#[verifier::when_used_as_spec(spec_mul_u8)]
pub fn mul_u8(a: u8, b: u8) -> (r: u8)
    ensures
        r == spec_mul_u8(a, b),
        r == (a * b + 128) / 255,
{
    assert(a * b <= 255 * 255) by (nonlinear_arith)
        requires
            a <= 255,
            b <= 255,
    ;
    ((a as u16 * b as u16 + 128) / 255) as u8
}

/// The low byte of a sum.
fn low_byte(v: u16) -> (r: u8)
    ensures
        r == v % 256,
{
    assert(v as u8 == v % 256) by (bit_vector);
    v as u8
}

/// A premultiplied channel `c` of alpha `a` over the channel `d`.
pub open spec fn over_channel(c: u8, a: u8, d: u8) -> u8 {
    ((c + ((255 - a) * d + 128) / 255) % 256) as u8
}

/// A premultiplied pixel over a premultiplied pixel. Where there is nothing of
/// the one the other stays.
pub open spec fn over_pixel(dst: Seq<u8>, r: u8, g: u8, b: u8, a: u8) -> Seq<u8> {
    if a == 0 {
        dst
    } else {
        dst.update(0, over_channel(r, a, dst[0])).update(1, over_channel(g, a, dst[1])).update(
            2,
            over_channel(b, a, dst[2]),
        ).update(3, over_channel(a, a, dst[3]))
    }
}

/// Whether a pixel can be premultiplied: no channel is above the alpha.
pub open spec fn premultiplied_pixel(px: Seq<u8>) -> bool {
    px[0] <= px[3] && px[1] <= px[3] && px[2] <= px[3]
}

/// Of an opaque channel over another nothing of the other is left.
pub proof fn lemma_opaque_over(c: u8, d: u8)
    ensures
        over_channel(c, 255, d) == c,
{
    assert((255 - 255) * d == 0) by (nonlinear_arith);
}

/// A channel that is at most its alpha, over a channel that is at most its own, is at
/// most the alpha that comes out; and the sum fits a byte.
pub proof fn lemma_over_channel(c: u8, a: u8, d: u8, e: u8)
    requires
        c <= a,
        d <= e,
    ensures
        over_channel(c, a, d) == c + ((255 - a) * d + 128) / 255,
        over_channel(c, a, d) <= over_channel(a, a, e),
{
    let n: int = 255 - a;
    assert(0 <= n * d <= n * e <= n * 255) by (nonlinear_arith)
        requires
            0 <= n,
            0 <= d <= e <= 255,
    ;
}

/// A premultiplied pixel over a premultiplied pixel is premultiplied.
pub proof fn lemma_over_premultiplied(dst: Seq<u8>, r: u8, g: u8, b: u8, a: u8)
    requires
        dst.len() >= 4,
        premultiplied_pixel(dst),
        r <= a,
        g <= a,
        b <= a,
    ensures
        premultiplied_pixel(over_pixel(dst, r, g, b, a)),
{
    lemma_over_channel(r, a, dst[0], dst[3]);
    lemma_over_channel(g, a, dst[1], dst[3]);
    lemma_over_channel(b, a, dst[2], dst[3]);
}

/// A product of fractions is at most either factor.
pub proof fn lemma_mul_u8_bounds(a: u8, b: u8)
    ensures
        mul_u8(a, b) <= a,
        mul_u8(a, b) <= b,
{
    assert(a * b <= a * 255 && a * b <= 255 * b) by (nonlinear_arith)
        requires
            0 <= a <= 255,
            0 <= b <= 255,
    ;
}

/// Puts a premultiplied channel over another.
pub(crate) fn over(c: u8, a: u8, d: u8) -> (r: u8)
    ensures
        r == over_channel(c, a, d),
{
    let inverse: u16 = 255 - a as u16;
    assert(0 <= inverse * d <= 255 * 255) by (nonlinear_arith)
        requires
            inverse <= 255,
            d <= 255,
    ;
    low_byte(c as u16 + (inverse * d as u16 + 128) / 255)
}

/// Composites a premultiplied pixel over a premultiplied destination.
pub fn src_over(dst: &mut [u8], r: u8, g: u8, b: u8, a: u8)
    requires
        a != 0 ==> old(dst)@.len() >= 4,
    ensures
        final(dst)@ == over_pixel(old(dst)@, r, g, b, a),
{
    if a == 0 {
        return;
    }
    if a == 255 {
        proof {
            lemma_opaque_over(r, dst[0]);
            lemma_opaque_over(g, dst[1]);
            lemma_opaque_over(b, dst[2]);
            lemma_opaque_over(a, dst[3]);
        }
        dst[0] = r;
        dst[1] = g;
        dst[2] = b;
        dst[3] = 255;
        return;
    }
    let d0: u8 = dst[0];
    let d1: u8 = dst[1];
    let d2: u8 = dst[2];
    let d3: u8 = dst[3];
    dst[0] = over(r, a, d0);
    dst[1] = over(g, a, d1);
    dst[2] = over(b, a, d2);
    dst[3] = over(a, a, d3);
}

/// The straight channel of a premultiplied channel `c` of alpha `a`.
pub open spec fn straight_channel(c: u8, a: u8) -> u8 {
    if a == 0 {
        0
    } else if (c * 255 + a / 2) / (a as int) < 255 {
        ((c * 255 + a / 2) / (a as int)) as u8
    } else {
        255
    }
}

/// A buffer of premultiplied pixels with straight ones in their place. The alpha
/// channel stays, and so do bytes that make up no whole pixel.
pub open spec fn straight_pixels(s: Seq<u8>) -> Seq<u8> {
    Seq::new(
        s.len(),
        |i: int|
            if i % 4 == 3 || i >= s.len() / 4 * 4 {
                s[i]
            } else {
                straight_channel(s[i], s[i / 4 * 4 + 3])
            },
    )
}

/// Takes the alpha out of a premultiplied channel.
fn straight(c: u8, a: u8) -> (r: u8)
    ensures
        r == straight_channel(c, a),
{
    if a == 0 {
        return 0;
    }
    let v: u16 = (c as u16 * 255 + a as u16 / 2) / a as u16;
    if v < 255 {
        v as u8
    } else {
        255
    }
}

/// Converts a buffer from premultiplied to straight alpha in place. Pixels that
/// are fully transparent become zero.
pub fn unpremultiply_rgba(buffer: &mut [u8])
    ensures
        final(buffer)@ == straight_pixels(old(buffer)@),
{
    let pixels: usize = buffer.len() / 4;
    let mut p: usize = 0;
    while p < pixels
        invariant
            p <= pixels,
            pixels == buffer@.len() / 4,
            buffer@.len() == old(buffer)@.len(),
            buffer@.len() <= usize::MAX,
            forall|i: int|
                0 <= i < buffer@.len() ==> #[trigger] buffer@[i] == if i < 4 * p {
                    straight_pixels(old(buffer)@)[i]
                } else {
                    old(buffer)@[i]
                },
        decreases pixels - p,
    {
        let i: usize = 4 * p;
        let a: u8 = buffer[i + 3];
        if a != 255 {
            let c0: u8 = buffer[i];
            let c1: u8 = buffer[i + 1];
            let c2: u8 = buffer[i + 2];
            buffer[i] = straight(c0, a);
            buffer[i + 1] = straight(c1, a);
            buffer[i + 2] = straight(c2, a);
        }
        proof {
            let whole = straight_pixels(old(buffer)@);
            assert forall|j: int| i <= j < i + 4 implies #[trigger] buffer@[j] == whole[j] by {
                assert(j / 4 == p);
                let c = old(buffer)@[j];
                assert((c * 255 + 127) / 255 == c);
            }
        }
        p = p + 1;
    }
    assert(buffer@ =~= straight_pixels(old(buffer)@));
}

} // verus!
