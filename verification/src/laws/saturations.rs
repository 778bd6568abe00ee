//! What blending by hue and by saturation does.
use crate::binary32::Binary32;
use crate::blend::{
    ascending, blended_color, greatest, least, luminosity, saturation, with_luminosity,
    with_saturation, CompositeMode,
};
use crate::bounds::{all_fractional, fractional, lemma_saturation, lemma_with_saturation};
use crate::consts::{ONE, ZERO};
use crate::laws::luminosities::{
    at_an_end, lemma_extremes, lemma_fractional_light, moved_colors_keep_the_chroma, spread_alike,
};
use crate::order::lemma_values;
use crate::reals::{
    lemma_distributes, lemma_divided_back, lemma_exchanged, lemma_finite_quotient, lemma_limit_size,
    lemma_number_order, lemma_part, lemma_product, lemma_shared, lemma_size_product,
    lemma_small_number, lemma_subtraction, lemma_times, number, size, speck,
};
use vstd::prelude::*;

verus! {

/// The largest of three numbers.
pub open spec fn largest(a: real, b: real, c: real) -> real {
    if a >= b && a >= c {
        a
    } else if b >= c {
        b
    } else {
        c
    }
}

/// The smallest of three numbers.
pub open spec fn smallest(a: real, b: real, c: real) -> real {
    if a <= b && a <= c {
        a
    } else if b <= c {
        b
    } else {
        c
    }
}

/// How far the channels of a color lie apart at most.
pub open spec fn spread(c: Seq<Binary32>) -> real {
    largest(number(c[0]), number(c[1]), number(c[2])) - smallest(
        number(c[0]),
        number(c[1]),
        number(c[2]),
    )
}

/// The colors that a blend has its hue from and its saturation from, in the modes that take
/// them from different colors.
pub open spec fn hue_and_saturation(
    cb: Seq<Binary32>,
    cs: Seq<Binary32>,
    mode: CompositeMode,
) -> Option<(Seq<Binary32>, Seq<Binary32>)> {
    match mode {
        CompositeMode::HslHue => Some((cs, cb)),
        CompositeMode::HslSaturation => Some((cb, cs)),
        _ => None,
    }
}

/// Whether the channels of a color lie apart as those of one color do, stretched to the spread of
/// another, and scaled by a factor, but for a thousandth or two.
pub open spec fn stretched_alike(
    r: Seq<Binary32>,
    hue: Seq<Binary32>,
    width: Seq<Binary32>,
    k: real,
) -> bool {
    forall|i: int, j: int|
        0 <= i < 3 && 0 <= j < 3 ==> size(
            (number(#[trigger] r[i]) - number(#[trigger] r[j])) * spread(hue) - ((number(hue[i])
                - number(hue[j])) * spread(width)) * k,
        ) <= 1real / 512real
}

/// By hue a blend has its channels in the order of those of the source and as far apart as those
/// of the backdrop, and by saturation the other way round: the distances are those of the one
/// color stretched to the spread of the other. Only where a channel comes to lie at an end of the
/// range are all distances scaled down alike. A gray gives a gray.
pub proof fn blends_keep_the_hue(cb: Seq<Binary32>, cs: Seq<Binary32>, mode: CompositeMode)
    requires
        cb.len() == 3,
        cs.len() == 3,
        all_fractional(cb),
        all_fractional(cs),
        hue_and_saturation(cb, cs, mode) is Some,
    ensures
        ({
            let r = blended_color(cb, cs, mode);
            let (hue, width) = hue_and_saturation(cb, cs, mode)->0;
            &&& exists|k: real|
                0real <= k && k <= 1real && #[trigger] stretched_alike(r, hue, width, k) && (k
                    == 1real || at_an_end(r))
            &&& spread(hue) == 0real ==> forall|i: int, j: int|
                0 <= i < 3 && 0 <= j < 3 ==> size(
                    number(#[trigger] r[i]) - number(#[trigger] r[j]),
                ) <= 1real / 1024real
        }),
{
    lemma_fractional_light(cb);
    let (hue, width) = hue_and_saturation(cb, cs, mode)->0;
    let s = saturation(width);
    lemma_saturation(width);
    lemma_with_saturation(hue, s);
    let w = with_saturation(hue, s);
    let l = luminosity(cb);
    let r = blended_color(cb, cs, mode);
    assert(r == with_luminosity(w, l));
    moved_colors_keep_the_chroma(w, l);
    let k = choose|k: real|
        0real <= k && k <= 1real && #[trigger] spread_alike(with_luminosity(w, l), w, k) && (k
            == 1real || at_an_end(with_luminosity(w, l)));
    saturations_are_spreads(width);
    lemma_stretched(hue, s, 0);
    lemma_stretched(hue, s, 1);
    lemma_stretched(hue, s, 2);
    lemma_spread_bounds(hue);
    lemma_spread_bounds(width);
    assert forall|i: int, j: int| 0 <= i < 3 && 0 <= j < 3 implies size(
        (number(#[trigger] r[i]) - number(#[trigger] r[j])) * spread(hue) - ((number(hue[i])
            - number(hue[j])) * spread(width)) * k,
    ) <= 1real / 512real by {
        lemma_small_number(hue[i]);
        lemma_small_number(hue[j]);
        lemma_stretched_pair(
            number(r[i]) - number(r[j]),
            (number(w[i]), number(w[j])),
            (number(hue[i]), number(hue[j])),
            low_end(hue),
            spread(hue),
            (number(s), spread(width)),
            k,
        );
    }
    assert(stretched_alike(r, hue, width, k));
    if spread(hue) == 0real {
        assert forall|i: int, j: int| 0 <= i < 3 && 0 <= j < 3 implies size(
            number(#[trigger] r[i]) - number(#[trigger] r[j]),
        ) <= 1real / 1024real by {
            lemma_gray(hue, s);
            assert(number(w[i]) - number(w[j]) == 0real);
            assert(0real * k == 0real);
        }
    }
}

/// The smallest channel.
spec fn low_end(c: Seq<Binary32>) -> real {
    smallest(number(c[0]), number(c[1]), number(c[2]))
}

/// The spread of a color between zero and one is not more than one.
proof fn lemma_spread_bounds(c: Seq<Binary32>)
    requires
        all_fractional(c),
    ensures
        0real <= spread(c),
        spread(c) <= 1real,
{
    lemma_small_number(c[0]);
    lemma_small_number(c[1]);
    lemma_small_number(c[2]);
}

/// The saturation of a color is how far its channels lie apart at most.
pub proof fn saturations_are_spreads(c: Seq<Binary32>)
    requires
        all_fractional(c),
    ensures
        size(number(saturation(c)) - spread(c)) <= 1real / 16777216real,
{
    lemma_limit_size();
    lemma_extremes(c);
    lemma_spread_bounds(c);
    lemma_part(spread(c));
    let (x, n) = (greatest(c), least(c));
    assert(number(x) - number(n) == spread(c));
    lemma_subtraction(x, n);
}

/// The order of the channels of a color.
proof fn lemma_ascending(c: Seq<Binary32>)
    requires
        all_fractional(c),
    ensures
        ({
            let (low, mid, high) = ascending(c);
            &&& 0 <= low < 3 && 0 <= mid < 3 && 0 <= high < 3
            &&& low != mid && mid != high && low != high
            &&& number(c[low]) == low_end(c)
            &&& number(c[high]) - number(c[low]) == spread(c)
            &&& number(c[low]) <= number(c[mid])
            &&& number(c[mid]) <= number(c[high])
            &&& c[low].less(c[high]) <==> spread(c) > 0real
        }),
{
    lemma_values();
    lemma_number_order(c[0], c[1]);
    lemma_number_order(c[1], c[0]);
    lemma_number_order(c[0], c[2]);
    lemma_number_order(c[2], c[0]);
    lemma_number_order(c[1], c[2]);
    lemma_number_order(c[2], c[1]);
}

/// A gray has nothing to stretch.
proof fn lemma_gray(c: Seq<Binary32>, s: Binary32)
    requires
        all_fractional(c),
        spread(c) == 0real,
    ensures
        forall|i: int| 0 <= i < 3 ==> number(#[trigger] with_saturation(c, s)[i]) == 0real,
{
    lemma_ascending(c);
    lemma_number_order(Binary32(ZERO), Binary32(ONE));
}

/// A channel stretched to a saturation is as far above the least one as before, in proportion.
proof fn lemma_stretched(c: Seq<Binary32>, s: Binary32, i: int)
    requires
        all_fractional(c),
        fractional(s),
        0 <= i < 3,
    ensures
        size(
            number(with_saturation(c, s)[i]) * spread(c) - (number(c[i]) - low_end(c)) * number(s),
        ) <= 8real / 16777216real,
{
    lemma_ascending(c);
    lemma_number_order(Binary32(ZERO), Binary32(ONE));
    lemma_with_saturation(c, s);
    lemma_spread_bounds(c);
    let (low, mid, high) = ascending(c);
    let w = with_saturation(c, s);
    let sr = number(s);
    if spread(c) == 0real {
        lemma_gray(c, s);
        assert(number(c[i]) - low_end(c) == 0real);
        assert(0real * sr == 0real);
        assert(number(w[i]) * 0real == 0real);
    } else if i == low {
        assert(0real * spread(c) == 0real);
        assert(0real * sr == 0real);
    } else if i == high {
        lemma_exchanged(sr, spread(c));
    } else {
        assert(i == mid);
        lemma_middle_channel(c[low], c[mid], c[high], s);
    }
}

/// The channel between the others.
proof fn lemma_middle_channel(l: Binary32, m: Binary32, h: Binary32, s: Binary32)
    requires
        fractional(l),
        fractional(m),
        fractional(h),
        fractional(s),
        number(l) <= number(m),
        number(m) <= number(h),
        number(l) < number(h),
        fractional(m.sub(l).mul(s).div(h.sub(l))),
    ensures
        size(
            number(m.sub(l).mul(s).div(h.sub(l))) * (number(h) - number(l)) - (number(m) - number(
                l,
            )) * number(s),
        ) <= 8real / 16777216real,
{
    lemma_limit_size();
    lemma_small_number(l);
    lemma_small_number(m);
    lemma_small_number(h);
    lemma_small_number(s);
    let (d, e, sr) = (number(m) - number(l), number(h) - number(l), number(s));
    lemma_part(size(d));
    lemma_part(size(e));
    lemma_subtraction(m, l);
    lemma_subtraction(h, l);
    let (xf, yf) = (m.sub(l), h.sub(l));
    let (x, y) = (number(xf), number(yf));
    assert(y > 0real);
    assert(0real <= x && x <= 2real);
    lemma_shared(x, sr);
    lemma_part(size(x * sr));
    lemma_product(xf, s);
    let pf = xf.mul(s);
    let p = number(pf);
    let qf = pf.div(yf);
    lemma_small_number(qf);
    lemma_finite_quotient(pf, yf);
    let (q, t) = (number(qf), p / y);
    lemma_divided_back(p, y);
    lemma_part(size(t));
    lemma_size_product(t, y);
    let (f, g) = (q - t, speck());
    lemma_distributes(q, t, y);
    lemma_size_product(f, y);
    lemma_times(size(f), size(t) / 16777216real + g, y);
    lemma_distributes(size(t) / 16777216real, g, y);
    lemma_scaled_part(size(t), y);
    lemma_times(y, 2real, g);
    lemma_exchanged(y, g);
    assert(size(q * y - p) <= size(p) / 16777216real + 2real * g);
    lemma_distributes(y, e, q);
    lemma_exchanged(y, q);
    lemma_exchanged(e, q);
    lemma_shared(y - e, q);
    lemma_distributes(x, d, sr);
    lemma_shared(x - d, sr);
}

/// A part of a number, scaled.
pub proof fn lemma_scaled_part(t: real, y: real)
    ensures
        (t / 16777216real) * y == (t * y) / 16777216real,
{
    let a = t / 16777216real;
    assert(t == a * 16777216real);
    assert((a * 16777216real) * y == (a * y) * 16777216real) by (nonlinear_arith);
}

/// Two channels stretched and then scaled.
proof fn lemma_stretched_pair(
    r: real,
    w: (real, real),
    c: (real, real),
    n: real,
    e: real,
    s: (real, real),
    k: real,
)
    requires
        size(r - (w.0 - w.1) * k) <= 1real / 1024real,
        size(w.0 * e - (c.0 - n) * s.0) <= 8real / 16777216real,
        size(w.1 * e - (c.1 - n) * s.0) <= 8real / 16777216real,
        size(s.0 - s.1) <= 1real / 16777216real,
        0real <= e,
        e <= 1real,
        0real <= k,
        k <= 1real,
        0real <= c.0,
        c.0 <= 1real,
        0real <= c.1,
        c.1 <= 1real,
    ensures
        size(r * e - ((c.0 - c.1) * s.1) * k) <= 1real / 512real,
{
    let (d, f) = (w.0 - w.1, c.0 - c.1);
    lemma_distributes(r, d * k, e);
    lemma_shared(r - d * k, e);
    assert(size(r * e - (d * k) * e) <= 1real / 1024real);
    assert((d * k) * e == (d * e) * k) by (nonlinear_arith);
    lemma_distributes(w.0, w.1, e);
    lemma_distributes(c.0 - n, c.1 - n, s.0);
    assert((c.0 - n) - (c.1 - n) == f);
    assert(size(d * e - f * s.0) <= 16real / 16777216real);
    lemma_exchanged(f, s.0);
    lemma_exchanged(f, s.1);
    lemma_distributes(s.0, s.1, f);
    let h = s.0 - s.1;
    lemma_size_product(h, f);
    lemma_times(size(h), 1real / 16777216real, size(f));
    assert(size(d * e - f * s.1) <= 18real / 16777216real);
    lemma_distributes(d * e, f * s.1, k);
    lemma_shared(d * e - f * s.1, k);
}

} // verus!
