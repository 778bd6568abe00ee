//! What holds of the colors that are sampled from a color line.
use crate::binary32::Binary32;
use crate::consts::{CHANNEL_MAX, ONE, ZERO};
use crate::gradient::{line_at, nearest_byte, sampled, spec_straight_byte, ResolvedStop};
use crate::laws::bytes::bytes_are_nearest;
use crate::laws::lines::{
    colors_between_stops_are_mixed, interpolated, lemma_along, lemma_interpolated, lies_between,
};
use crate::laws::operators::lemma_held_share;
use crate::order::{lemma_mul_order, lemma_nearest_byte_order, lemma_values, lemma_zero_product};
use crate::reals::{
    lemma_distributes, lemma_exchanged, lemma_limit_size, lemma_number_order, lemma_part,
    lemma_product, lemma_shared, lemma_times, lemma_whole_number, limit, number, size,
};
use vstd::prelude::*;

verus! {

/// Whether a stop is premultiplied: no channel is negative or larger than the alpha, which is at
/// most one.
pub open spec fn premultiplied_stop(s: ResolvedStop) -> bool {
    let a = number(s.a);
    &&& 0real <= number(s.lr) && number(s.lr) <= a
    &&& 0real <= number(s.lg) && number(s.lg) <= a
    &&& 0real <= number(s.lb) && number(s.lb) <= a
    &&& a <= 1real
}

/// What the numbers of two stops are mixed to between them.
pub open spec fn mixed(
    low: ResolvedStop,
    c0: Binary32,
    high: ResolvedStop,
    c1: Binary32,
    t: Binary32,
) -> real {
    interpolated(number(low.offset), number(c0), number(high.offset), number(c1), number(t))
}

/// Whether a byte is a channel with its alpha taken out: times the alpha it is as far from 255
/// times the channel as rounding to a byte takes it.
pub open spec fn straightens(byte: u8, channel: real, alpha: real) -> bool {
    size(byte as int as real * alpha - 255real * channel) <= alpha / 2real + 1real / 128real
}

/// A sampled color between two premultiplied stops that lie more than a billionth apart is the
/// color on the straight line between them, to the nearest byte: its alpha, and each channel
/// once it is premultiplied again. The alpha there is not next to nothing.
pub proof fn samples_between_stops_are_mixed(line: Seq<ResolvedStop>, i: int, t: Binary32)
    requires
        lies_between(line, i, t),
        999999000real * (number(line[i + 1].offset) - number(line[i].offset)) >= 1real,
        number(line[i + 1].offset) - number(line[i].offset) <= limit(),
        premultiplied_stop(line[i]),
        premultiplied_stop(line[i + 1]),
        4096real * mixed(line[i], line[i].a, line[i + 1], line[i + 1].a, t) >= 1real,
    ensures
        ({
            let (s, low, high) = (sampled(line, t), line[i], line[i + 1]);
            let a = mixed(low, low.a, high, high.a, t);
            &&& size(s.a as int as real - 255real * a) <= 1real / 2real + 1real / 512real
            &&& straightens(s.r, mixed(low, low.lr, high, high.lr, t), a)
            &&& straightens(s.g, mixed(low, low.lg, high, high.lg, t), a)
            &&& straightens(s.b, mixed(low, low.lb, high, high.lb, t), a)
        }),
{
    lemma_limit_size();
    lemma_values();
    lemma_part(1real);
    colors_between_stops_are_mixed(line, i, t, 1real);
    let (s, low, high) = (line_at(line, t), line[i], line[i + 1]);
    let a = mixed(low, low.a, high, high.a, t);
    lemma_along(low.offset, high.offset, t);
    lemma_held(low, low.lr, high, high.lr, t);
    lemma_held(low, low.lg, high, high.lg, t);
    lemma_held(low, low.lb, high, high.lb, t);
    lemma_number_order(s.a, Binary32(ZERO));
    lemma_straight(s.lr, s.a, mixed(low, low.lr, high, high.lr, t), a);
    lemma_straight(s.lg, s.a, mixed(low, low.lg, high, high.lg, t), a);
    lemma_straight(s.lb, s.a, mixed(low, low.lb, high, high.lb, t), a);
    lemma_byte_of(s.a, a);
}

/// A channel on the straight line is not negative, and not larger than the alpha there.
proof fn lemma_held(
    low: ResolvedStop,
    c0: Binary32,
    high: ResolvedStop,
    c1: Binary32,
    t: Binary32,
)
    requires
        number(low.offset) < number(high.offset),
        ({
            let share = (number(t) - number(low.offset)) / (number(high.offset) - number(
                low.offset,
            ));
            &&& 0real <= share
            &&& share <= 1real
            &&& share * (number(high.offset) - number(low.offset)) == number(t) - number(low.offset)
        }),
        0real <= number(c0),
        number(c0) <= number(low.a),
        number(low.a) <= 1real,
        0real <= number(c1),
        number(c1) <= number(high.a),
        number(high.a) <= 1real,
    ensures
        0real <= mixed(low, c0, high, c1, t),
        mixed(low, c0, high, c1, t) <= mixed(low, low.a, high, high.a, t),
        mixed(low, low.a, high, high.a, t) <= 1real,
{
    let (o0, o1, x) = (number(low.offset), number(high.offset), number(t));
    let share = (x - o0) / (o1 - o0);
    let back = 1real - share;
    let (p, q, r, s) = (number(c0), number(c1), number(low.a), number(high.a));
    lemma_interpolated(o0, p, o1, q, x, share);
    lemma_interpolated(o0, r, o1, s, x, share);
    lemma_times(0real, p, back);
    lemma_times(p, r, back);
    lemma_times(r, 1real, back);
    lemma_times(0real, q, share);
    lemma_times(q, s, share);
    lemma_times(s, 1real, share);
}

/// The byte of a number of about one at most, times 255.
proof fn lemma_byte_of(x: Binary32, p: real)
    requires
        x.finite(),
        0real <= number(x),
        size(number(x) - p) <= 21real / 16777216real,
        p <= 1real,
    ensures
        size(nearest_byte(x.mul(Binary32(CHANNEL_MAX))) as int as real - 255real * p) <= 1real
            / 2real + 1real / 512real,
{
    lemma_limit_size();
    lemma_values();
    lemma_whole_number(Binary32(CHANNEL_MAX), 255);
    let (c, y) = (number(Binary32(CHANNEL_MAX)), number(x));
    assert(y * c == 255real * y);
    lemma_part(size(y * c));
    lemma_product(x, Binary32(CHANNEL_MAX));
    lemma_number_order(x, Binary32(ZERO));
    lemma_mul_order(Binary32(ZERO), x, Binary32(CHANNEL_MAX));
    lemma_zero_product(Binary32(ZERO), Binary32(CHANNEL_MAX));
    let z = x.mul(Binary32(CHANNEL_MAX));
    lemma_number_order(Binary32(ZERO), z);
    if number(z) <= 255real {
        bytes_are_nearest(z);
    } else {
        lemma_number_order(Binary32(CHANNEL_MAX), z);
        bytes_are_nearest(Binary32(CHANNEL_MAX));
        lemma_nearest_byte_order(Binary32(CHANNEL_MAX), z);
        lemma_full(nearest_byte(z), nearest_byte(Binary32(CHANNEL_MAX)));
    }
}

/// A byte that is near the largest and not less than one near it is the largest.
proof fn lemma_full(b: u8, c: u8)
    requires
        c <= b,
        size(c as int as real - 255real) <= 1real / 2real,
    ensures
        b as int as real == 255real,
{
    if c < 255 {
        assert(c as int <= 254);
        assert(c as int as real <= 254real);
    }
}

/// The byte of a premultiplied channel with its alpha taken out.
proof fn lemma_straight(cf: Binary32, af: Binary32, c: real, a: real)
    requires
        cf.finite(),
        af.finite(),
        size(number(cf) - c) <= 21real / 16777216real,
        size(number(af) - a) <= 21real / 16777216real,
        4096real * a >= 1real,
        0real <= c,
        c <= a,
        a <= 1real,
    ensures
        straightens(spec_straight_byte(cf, af), c, a),
{
    let (p, q) = (number(cf), number(af));
    lemma_held_share(cf, af, 0real);
    let y = cf.div(af).clamp(Binary32(ZERO), Binary32(ONE));
    lemma_byte_of(y, number(y));
    let b = spec_straight_byte(cf, af) as int as real;
    lemma_straight_errors(b, number(y), p, q, c, a);
}

/// The errors of a byte whose alpha was taken out.
proof fn lemma_straight_errors(b: real, y: real, p: real, q: real, c: real, a: real)
    requires
        size(b - 255real * y) <= 1real / 2real + 1real / 512real,
        size(y * q - p) <= 128real / 16777216real,
        size(p - c) <= 21real / 16777216real,
        size(q - a) <= 21real / 16777216real,
        0real <= y,
        y <= 1real,
        0real < a,
        a <= 1real,
    ensures
        size(b * a - 255real * c) <= a / 2real + 1real / 128real,
{
    let (e, f) = (b - 255real * y, q - a);
    let k = 1real / 2real + 1real / 512real;
    lemma_distributes(255real * y, e, a);
    lemma_distributes(q, a, y);
    lemma_exchanged(q, y);
    lemma_exchanged(a, y);
    lemma_shared(f, y);
    assert((255real * y) * a == 255real * (y * a)) by (nonlinear_arith);
    lemma_times(e, k, a);
    lemma_times(-k, e, a);
    lemma_distributes(1real / 2real, 1real / 512real, a);
    lemma_distributes(0real, k, a);
    assert(0real - k == -k);
}

} // verus!
