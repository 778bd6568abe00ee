//! What holds of the colors of a color line, against exact real numbers.
use crate::binary32::Binary32;
use crate::consts::{BILLIONTH, ONE, ZERO};
use crate::gradient::{line_at, mix, segment_from, segment_part, ResolvedStop};
use crate::laws::gradients::{ascends, lemma_whole_part, solid_stop};
use crate::laws::luminosities::lemma_binade;
use crate::order::lemma_values;
use crate::reals::{
    lemma_limit_size, lemma_number_order, lemma_part, lemma_product, lemma_quotient,
    lemma_rounded_once, lemma_size_product, lemma_subtraction, lemma_sum, limit, number, part, size,
    speck,
};
use vstd::arithmetic::power2::lemma2_to64_rest;
use vstd::prelude::*;

verus! {

/// What lies between two numbers at two places, on the straight line through them.
#[verifier::opaque]
pub open spec fn interpolated(o0: real, c0: real, o1: real, c1: real, t: real) -> real {
    ((o1 - t) * c0 + (t - o0) * c1) / (o1 - o0)
}

/// Whether a parameter lies strictly between a stop of an ascending line and the next one.
pub open spec fn lies_between(line: Seq<ResolvedStop>, i: int, t: Binary32) -> bool {
    &&& ascends(line)
    &&& 0 <= i < line.len() - 1
    &&& solid_stop(line[i])
    &&& solid_stop(line[i + 1])
    &&& t.finite()
    &&& number(line[i].offset) < number(t)
    &&& number(t) < number(line[i + 1].offset)
}

/// Between two stops that lie more than a billionth apart every channel, and the alpha, lies on
/// the straight line between those of the stops, but for twenty parts in `2^24` of the largest
/// channel `m`.
pub proof fn colors_between_stops_are_mixed(line: Seq<ResolvedStop>, i: int, t: Binary32, m: real)
    requires
        lies_between(line, i, t),
        999999000real * (number(line[i + 1].offset) - number(line[i].offset)) >= 1real,
        number(line[i + 1].offset) - number(line[i].offset) <= limit(),
        size(number(line[i].lr)) <= m,
        size(number(line[i].lg)) <= m,
        size(number(line[i].lb)) <= m,
        size(number(line[i].a)) <= m,
        size(number(line[i + 1].lr)) <= m,
        size(number(line[i + 1].lg)) <= m,
        size(number(line[i + 1].lb)) <= m,
        size(number(line[i + 1].a)) <= m,
        8real * m + 8real <= limit(),
    ensures
        ({
            let (s, low, high) = (line_at(line, t), line[i], line[i + 1]);
            let (o0, o1, x) = (number(low.offset), number(high.offset), number(t));
            let slack = 20real * (part() * m) + 4real * speck();
            &&& solid_stop(s)
            &&& size(
                number(s.lr) - interpolated(o0, number(low.lr), o1, number(high.lr), x),
            ) <= slack
            &&& size(
                number(s.lg) - interpolated(o0, number(low.lg), o1, number(high.lg), x),
            ) <= slack
            &&& size(
                number(s.lb) - interpolated(o0, number(low.lb), o1, number(high.lb), x),
            ) <= slack
            &&& size(
                number(s.a) - interpolated(o0, number(low.a), o1, number(high.a), x),
            ) <= slack
        }),
{
    let (low, high) = (line[i], line[i + 1]);
    lemma_between_segment(line, i, t);
    lemma_along(low.offset, high.offset, t);
    let f = segment_part(low, high, t);
    lemma_mixed(low.lr, high.lr, f, m, low.offset, high.offset, t);
    lemma_mixed(low.lg, high.lg, f, m, low.offset, high.offset, t);
    lemma_mixed(low.lb, high.lb, f, m, low.offset, high.offset, t);
    lemma_mixed(low.a, high.a, f, m, low.offset, high.offset, t);
    lemma_part(m);
}

/// Between two stops that lie less than a billionth apart the color is that of the upper one.
pub proof fn narrow_edges_take_the_upper_stop(line: Seq<ResolvedStop>, i: int, t: Binary32)
    requires
        lies_between(line, i, t),
        1000001000real * (number(line[i + 1].offset) - number(line[i].offset)) <= 1real,
    ensures
        ({
            let (s, high) = (line_at(line, t), line[i + 1]);
            &&& solid_stop(s)
            &&& number(s.lr) == number(high.lr)
            &&& number(s.lg) == number(high.lg)
            &&& number(s.lb) == number(high.lb)
            &&& number(s.a) == number(high.a)
        }),
{
    let (low, high) = (line[i], line[i + 1]);
    lemma_between_segment(line, i, t);
    let (a, b) = (number(low.offset), number(high.offset));
    lemma_limit_size();
    lemma_part(size(b - a));
    lemma_subtraction(high.offset, low.offset);
    let span = high.offset.sub(low.offset);
    lemma_billionth_number();
    lemma_number_order(Binary32(BILLIONTH), span);
    let f = segment_part(low, high, t);
    lemma_values();
    assert(f == Binary32(ONE));
    lemma_whole_part(low.lr, high.lr, f);
    lemma_whole_part(low.lg, high.lg, f);
    lemma_whole_part(low.lb, high.lb, f);
    lemma_whole_part(low.a, high.a, f);
}

/// The distance that counts as none, as a real number.
pub proof fn lemma_billionth_number()
    ensures
        number(Binary32(BILLIONTH)) == 9007199real / 9007199254740992real,
{
    lemma2_to64_rest();
    lemma_binade(0x0089_705f, 96, 53);
}

/// A parameter between two stops lies inside the line, and no other pair of stops holds it.
proof fn lemma_between_segment(line: Seq<ResolvedStop>, i: int, t: Binary32)
    requires
        lies_between(line, i, t),
    ensures
        segment_from(line, t, 0) == (line[i], line[i + 1]),
        !t.at_most(line[0].offset),
        !line.last().offset.at_most(t),
{
    lemma_number_order(line[i].offset, t);
    lemma_number_order(t, line[i + 1].offset);
    if i > 0 {
        assert(line[0].offset.at_most(line[i].offset));
    }
    if i + 1 < line.len() - 1 {
        assert(line[i + 1].offset.at_most(line[line.len() - 1].offset));
    }
    lemma_segment_reached(line, i, t, 0);
}

/// The search for a pair of stops passes those that end before the parameter.
proof fn lemma_segment_reached(line: Seq<ResolvedStop>, i: int, t: Binary32, j: int)
    requires
        ascends(line),
        0 <= j <= i < line.len() - 1,
        line[i].offset.finite(),
        line[i + 1].offset.finite(),
        t.finite(),
        line[i].offset.less(t),
        t.less(line[i + 1].offset),
    ensures
        segment_from(line, t, j) == (line[i], line[i + 1]),
    decreases i - j,
{
    if j < i {
        if j + 1 < i {
            assert(line[j + 1].offset.at_most(line[i].offset));
        }
        assert(!t.at_most(line[j + 1].offset));
        lemma_segment_reached(line, i, t, j + 1);
    }
}

/// How far a parameter is along a segment that is not narrow.
pub proof fn lemma_along(o0: Binary32, o1: Binary32, t: Binary32)
    requires
        o0.finite(),
        o1.finite(),
        t.finite(),
        number(o0) < number(t),
        number(t) < number(o1),
        999999000real * (number(o1) - number(o0)) >= 1real,
        number(o1) - number(o0) <= limit(),
    ensures
        Binary32(BILLIONTH).less(o1.sub(o0)),
        ({
            let f = t.sub(o0).div(o1.sub(o0));
            let share = (number(t) - number(o0)) / (number(o1) - number(o0));
            &&& f.finite()
            &&& 0real <= share
            &&& share <= 1real
            &&& share * (number(o1) - number(o0)) == number(t) - number(o0)
            &&& size(number(f) - share) <= 5real / 16777216real
        }),
{
    lemma_limit_size();
    lemma_values();
    let (a, b, x) = (number(o0), number(o1), number(t));
    let (w, d) = (b - a, x - a);
    lemma_part(size(w));
    lemma_part(size(d));
    lemma_subtraction(o1, o0);
    lemma_subtraction(t, o0);
    let (wf, df) = (o1.sub(o0), t.sub(o0));
    lemma_billionth_number();
    lemma_number_order(Binary32(BILLIONTH), wf);
    lemma_number_order(wf, Binary32(BILLIONTH));
    let (u, v) = (number(wf), number(df));
    let (share, h) = (d / w, v / u);
    assert(u > 0real);
    assert(share * w == d) by (nonlinear_arith)
        requires
            share == d / w,
            w > 0real,
    ;
    assert(0real <= share && share <= 1real) by (nonlinear_arith)
        requires
            share * w == d,
            0real < d,
            d < w,
            w > 0real,
    ;
    assert(h * u == v) by (nonlinear_arith)
        requires
            h == v / u,
            u > 0real,
    ;
    lemma_near_quotient(share, w, d, h, u, v);
    lemma_part(size(h));
    lemma_quotient(df, wf);
    let f = number(df.div(wf));
    lemma_last_share(f, h, share, speck());
}

/// A quotient of numbers that are near two others.
proof fn lemma_near_quotient(share: real, w: real, d: real, h: real, u: real, v: real)
    requires
        share * w == d,
        h * u == v,
        0real <= share,
        share <= 1real,
        0real < w,
        size(u - w) <= w / 16777216real,
        size(v - d) <= d / 16777216real,
        0real <= d,
        d <= w,
    ensures
        size(h - share) <= 3real / 16777216real,
{
    let (e, z) = (h - share, w - u);
    assert(e * u == (v - d) + share * z) by (nonlinear_arith)
        requires
            e == h - share,
            z == w - u,
            h * u == v,
            share * w == d,
    ;
    assert(size(share * z) <= w / 16777216real) by {
        lemma_size_product(share, z);
        let s = size(z);
        assert(share * s <= s) by (nonlinear_arith)
            requires
                share <= 1real,
                0real <= s,
        ;
    }
    assert(size(e * u) <= 2real * (w / 16777216real));
    lemma_size_product(e, u);
    let s = size(e);
    assert(s <= 3real / 16777216real) by (nonlinear_arith)
        requires
            s * u <= 2real * (w / 16777216real),
            3real * u >= 2real * w,
            0real < w,
            0real <= s,
    ;
}

/// The rounding of a share.
proof fn lemma_last_share(f: real, h: real, share: real, g: real)
    requires
        size(f - h) <= size(h) / 16777216real + g,
        size(h - share) <= 3real / 16777216real,
        0real <= share,
        share <= 1real,
        0real < g,
        g <= 1real / 1267650600228229401496703205376real,
    ensures
        size(f - share) <= 5real / 16777216real,
{
}

/// A mix of two channels is near the exact one.
proof fn lemma_mixed(
    low: Binary32,
    high: Binary32,
    f: Binary32,
    m: real,
    o0: Binary32,
    o1: Binary32,
    t: Binary32,
)
    requires
        low.finite(),
        high.finite(),
        f.finite(),
        size(number(low)) <= m,
        size(number(high)) <= m,
        8real * m + 8real <= limit(),
        number(o0) < number(o1),
        ({
            let share = (number(t) - number(o0)) / (number(o1) - number(o0));
            &&& 0real <= share
            &&& share <= 1real
            &&& share * (number(o1) - number(o0)) == number(t) - number(o0)
            &&& size(number(f) - share) <= 5real / 16777216real
        }),
    ensures
        mix(low, high, f).finite(),
        size(
            number(mix(low, high, f)) - interpolated(
                number(o0),
                number(low),
                number(o1),
                number(high),
                number(t),
            ),
        ) <= 20real * (m / 16777216real) + 4real * speck(),
{
    lemma_limit_size();
    lemma_values();
    lemma_number_order(Binary32(ZERO), Binary32(ONE));
    let (a, b, x) = (number(o0), number(o1), number(t));
    let w = b - a;
    let share = (x - a) / w;
    let (p, q, y) = (number(low), number(high), number(f));
    lemma_part(size(1real - y));
    lemma_subtraction(Binary32(ONE), f);
    let rest = Binary32(ONE).sub(f);
    let z = number(rest);
    let back = 1real - share;
    assert(size(z - back) <= 7real / 16777216real);
    lemma_share(p, z, back, m);
    lemma_share(q, y, share, m);
    lemma_part(size(p * z));
    lemma_part(size(q * y));
    lemma_product(low, rest);
    lemma_product(high, f);
    let (i, j) = (low.mul(rest), high.mul(f));
    lemma_mixed_size(number(i), number(j), p * z, q * y, m, speck());
    lemma_part(size(number(i) + number(j)));
    lemma_sum(i, j);
    assert(size(p * back) + size(q * share) <= m) by {
        lemma_size_product(p, back);
        lemma_size_product(q, share);
        let (r, s) = (size(p), size(q));
        assert(r * back + s * share <= m) by (nonlinear_arith)
            requires
                r <= m,
                s <= m,
                back == 1real - share,
                0real <= share,
                share <= 1real,
        ;
    }
    lemma_mixed_errors(
        number(i.add(j)),
        (number(i), p * z, p * back),
        (number(j), q * y, q * share),
        m,
        speck(),
    );
    lemma_interpolated(a, p, b, q, x, share);
}

/// A channel times a share near another.
proof fn lemma_share(p: real, z: real, back: real, m: real)
    requires
        size(p) <= m,
        size(z - back) <= 7real / 16777216real,
        0real <= back,
        back <= 1real,
    ensures
        size(p * z - p * back) <= 7real * (m / 16777216real),
        size(p * z) <= 2real * m,
{
    lemma_size_product(p, z - back);
    lemma_size_product(p, z);
    let (r, s, k) = (size(p), size(z - back), size(z));
    assert(p * (z - back) == p * z - p * back) by (nonlinear_arith);
    assert(r * s <= 7real * (m / 16777216real)) by (nonlinear_arith)
        requires
            0real <= r,
            r <= m,
            0real <= s,
            s <= 7real / 16777216real,
    ;
    assert(r * k <= 2real * m) by (nonlinear_arith)
        requires
            0real <= r,
            r <= m,
            0real <= k,
            k <= 2real,
    ;
}

/// The size of a sum of two rounded products.
proof fn lemma_mixed_size(i: real, j: real, p: real, q: real, m: real, g: real)
    requires
        size(i - p) <= size(p) / 16777216real + g,
        size(j - q) <= size(q) / 16777216real + g,
        size(p) <= 2real * m,
        size(q) <= 2real * m,
        0real < g,
        g <= 1real / 1267650600228229401496703205376real,
        0real <= m,
    ensures
        size(i + j) <= 5real * m + 1real,
{
}

/// The errors of a mix.
proof fn lemma_mixed_errors(
    r: real,
    i: (real, real, real),
    j: (real, real, real),
    m: real,
    g: real,
)
    requires
        size(i.0 - i.1) <= size(i.1) / 16777216real + g,
        size(j.0 - j.1) <= size(j.1) / 16777216real + g,
        size(i.1 - i.2) <= 7real * (m / 16777216real),
        size(j.1 - j.2) <= 7real * (m / 16777216real),
        size(r - (i.0 + j.0)) <= size(i.0 + j.0) / 16777216real,
        size(i.2) + size(j.2) <= m,
        0real < g,
        0real <= m,
    ensures
        size(r - (i.2 + j.2)) <= 20real * (m / 16777216real) + 4real * g,
{
    let d = 16real * (m / 16777216real) + 2real * g;
    assert(size((i.0 + j.0) - (i.2 + j.2)) <= d);
    lemma_rounded_once(r, i.0 + j.0, i.2 + j.2, d, m);
}

/// The straight line by the share of the way.
pub proof fn lemma_interpolated(a: real, p: real, b: real, q: real, x: real, share: real)
    requires
        a < b,
        share * (b - a) == x - a,
    ensures
        interpolated(a, p, b, q, x) == p * (1real - share) + q * share,
{
    reveal(interpolated);
    let w = b - a;
    let v = p * (1real - share) + q * share;
    assert((b - x) * p + (x - a) * q == v * w) by (nonlinear_arith)
        requires
            w == b - a,
            share * w == x - a,
            v == p * (1real - share) + q * share,
    ;
    assert((v * w) / w == v) by (nonlinear_arith)
        requires
            w > 0real,
    ;
}

} // verus!
