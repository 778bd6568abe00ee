//! What holds of the stops of a color line once they are resolved.
use crate::accuracy::lemma_integer_exact;
use crate::binary32::{integer, Binary32};
use crate::color::Rgba;
use crate::consts::CHANNEL_MAX;
use crate::gradient::{base_color, fraction, resolved_stop, ColorStop};
use crate::laws::blends::lemma_product_near;
use crate::laws::inverses::lemma_bounded_product;
use crate::order::lemma_values;
use crate::reals::{
    lemma_limit_size, lemma_part, lemma_quotient, lemma_whole_number, number, part, size,
};
use vstd::prelude::*;

verus! {

/// The part of the whole that a byte is.
pub open spec fn byte_part(c: u8) -> real {
    c as int as real / 255real
}

/// A channel as a fraction is the part of the whole that it is, but for two parts in `2^24`.
pub proof fn fractions_are_parts_of_the_whole(c: u8)
    ensures
        fraction(c).finite(),
        size(number(fraction(c)) - byte_part(c)) <= 2real * part(),
        0real <= byte_part(c),
        byte_part(c) <= 1real,
{
    lemma_limit_size();
    lemma_values();
    lemma_integer_exact(false, c as nat);
    lemma_whole_number(integer(false, c as nat), c as int);
    lemma_whole_number(Binary32(CHANNEL_MAX), 255);
    let h = c as int as real / 255real;
    assert(0 <= c as int <= 255);
    assert(0real <= c as int as real && c as int as real <= 255real);
    lemma_part(size(h));
    lemma_part(2real);
    lemma_quotient(integer(false, c as nat), Binary32(CHANNEL_MAX));
}

/// A resolved stop has the alpha of its color times its own, and the channels of its color
/// premultiplied by that, but for rounding.
pub proof fn stops_are_premultiplied(s: ColorStop, palette: Seq<Rgba>, foreground: Rgba)
    requires
        s.alpha.finite(),
        size(number(s.alpha)) <= 2real,
    ensures
        ({
            let base = base_color(s.palette_index, palette, foreground);
            let r = resolved_stop(s, palette, foreground);
            let a = byte_part(base.a) * number(s.alpha);
            &&& r.offset == s.offset
            &&& r.a.finite() && r.lr.finite() && r.lg.finite() && r.lb.finite()
            &&& size(number(r.a) - a) <= 64real * part()
            &&& size(number(r.lr) - byte_part(base.r) * a) <= 64real * part()
            &&& size(number(r.lg) - byte_part(base.g) * a) <= 64real * part()
            &&& size(number(r.lb) - byte_part(base.b) * a) <= 64real * part()
        }),
{
    let base = base_color(s.palette_index, palette, foreground);
    let x = number(s.alpha);
    let r = resolved_stop(s, palette, foreground);
    let k = 1real / 16777216real;
    lemma_part(2real);
    lemma_part(64real);
    fractions_are_parts_of_the_whole(base.a);
    fractions_are_parts_of_the_whole(base.r);
    fractions_are_parts_of_the_whole(base.g);
    fractions_are_parts_of_the_whole(base.b);
    lemma_product_near(
        fraction(base.a),
        s.alpha,
        byte_part(base.a),
        x,
        1real,
        2real,
        2real * k,
        0real,
    );
    let a = byte_part(base.a) * x;
    lemma_bounded_product(byte_part(base.a), x, 1real, 2real);
    lemma_stop_channel(base.r, r.a, a);
    lemma_stop_channel(base.g, r.a, a);
    lemma_stop_channel(base.b, r.a, a);
}

/// A premultiplied channel of a stop.
proof fn lemma_stop_channel(c: u8, af: Binary32, a: real)
    requires
        af.finite(),
        size(number(af) - a) <= 10real / 16777216real,
        size(a) <= 2real,
    ensures
        fraction(c).mul(af).finite(),
        size(number(fraction(c).mul(af)) - byte_part(c) * a) <= 64real / 16777216real,
{
    let k = 1real / 16777216real;
    lemma_part(2real);
    fractions_are_parts_of_the_whole(c);
    lemma_product_near(fraction(c), af, byte_part(c), a, 1real, 2real, 2real * k, 10real * k);
}

/// The color that an index stands for comes from the palette where it has such an entry, and is
/// the text color at the index of that: no other entry counts, and no other color.
pub proof fn colors_come_from_their_entry(
    index: u16,
    palette: Seq<Rgba>,
    other: Seq<Rgba>,
    foreground: Rgba,
    another: Rgba,
)
    ensures
        index < palette.len() && index < 0xffff ==> base_color(index, palette, foreground)
            == palette[index as int],
        index < palette.len() && index < other.len() && index < 0xffff && palette[index as int]
            == other[index as int] ==> base_color(index, palette, foreground) == base_color(
            index,
            other,
            another,
        ),
        index == 0xffff ==> base_color(index, palette, foreground) == foreground,
        palette.len() <= index && index < 0xffff ==> base_color(index, palette, foreground) == (
        Rgba { r: 0, g: 0, b: 0, a: 255 }),
{
}

} // verus!
