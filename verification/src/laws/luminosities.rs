//! What moving a color to a luminosity does.
use crate::accuracy::lemma_difference_within;
use crate::binary32::{units, unity, Binary32};
use crate::blend::{
    blended_color, greatest, least, luminosity, saturation, spec_lowered, spec_raised,
    with_luminosity, with_saturation, CompositeMode,
};
use crate::bounds::{
    all_fractional, fractional, lemma_constants, lemma_fractional_product, lemma_saturation,
    lemma_with_saturation,
};
use crate::consts::{BILLIONTH, BLUE_WEIGHT, GREEN_WEIGHT, ONE, RED_WEIGHT, ZERO};
use crate::laws::compositing::colors_in_range_are_not_clipped;
use crate::order::{lemma_values, products_commute};
use crate::reals::{
    lemma_absolute_number, lemma_distributes, lemma_exchanged, lemma_limit_size, lemma_number_order,
    lemma_part, lemma_product, lemma_quotient, lemma_rounded_once, lemma_rounded_size, lemma_shared,
    lemma_size_product, lemma_small_number, lemma_subtraction, lemma_sum, lemma_sum_error,
    lemma_sum_size, lemma_times, number, size, speck, within,
};
use crate::rounding::{lemma_units_binades, lemma_units_order};
use vstd::arithmetic::power2::{
    lemma2_to64, lemma2_to64_rest, lemma_pow2_adds, lemma_pow2_pos, lemma_pow2_unfold, pow2,
};
use vstd::prelude::*;

verus! {

/// The exact luminosity of exact channels.
pub open spec fn weighed(r: real, g: real, b: real) -> real {
    (40265320real * r + 79188456real * g + 14763950real * b) / 134217728real
}

/// The color that is brought into range, moved by what its luminosity lacks.
pub open spec fn moved(c: Seq<Binary32>, l: Binary32) -> Seq<Binary32> {
    Seq::new(3, |i: int| c[i].add(l.sub(luminosity(c))))
}

/// A color moved to a luminosity has it, and lies in range, but for rounding. Where the move
/// alone leaves it in range, it is only moved.
pub proof fn moved_colors_take_the_luminosity(c: Seq<Binary32>, l: Binary32)
    requires
        c.len() == 3,
        all_fractional(c),
        fractional(l),
    ensures
        forall|i: int|
            0 <= i < 3 ==> {
                let v = #[trigger] with_luminosity(c, l)[i];
                &&& v.finite()
                &&& -(1real / 2048real) <= number(v)
                &&& number(v) <= 1real + 1real / 2048real
            },
        luminosity(with_luminosity(c, l)).finite(),
        size(number(luminosity(with_luminosity(c, l))) - number(l)) <= 1real / 2048real,
        all_fractional(moved(c, l)) ==> with_luminosity(c, l) == moved(c, l),
{
    let m = moved(c, l);
    lemma_moved_color(c, l);
    lemma_small_number(l);
    lemma_without_negatives(m);
    lemma_without_excess(m, without_negatives(m));
    let r = with_luminosity(c, l);
    assert(r =~= without_excess(m, without_negatives(m)));
    assert(in_reach(r[0]) && in_reach(r[1]) && in_reach(r[2]));
    lemma_limit_size();
    lemma_part(1real);
    lemma_lum(r, 2real);
    if all_fractional(m) {
        colors_in_range_are_not_clipped(m);
    }
}

/// The luminosity of a color weighs red by 30, green by 59 and blue by 11 of a hundred parts.
pub proof fn luminosities_weigh_the_channels(c: Seq<Binary32>)
    requires
        all_fractional(c),
    ensures
        luminosity(c).finite(),
        size(
            number(luminosity(c)) - (30real * number(c[0]) + 59real * number(c[1]) + 11real
                * number(c[2])) / 100real,
        ) <= 1real / 1000000real,
{
    lemma_small_number(c[0]);
    lemma_small_number(c[1]);
    lemma_small_number(c[2]);
    lemma_part(1real);
    lemma_lum(c, 1real);
}

/// The color whose luminosity a blend keeps, in the modes that keep one.
pub open spec fn light_kept(
    cb: Seq<Binary32>,
    cs: Seq<Binary32>,
    mode: CompositeMode,
) -> Option<Seq<Binary32>> {
    match mode {
        CompositeMode::HslHue | CompositeMode::HslSaturation | CompositeMode::HslColor => Some(cb),
        CompositeMode::HslLuminosity => Some(cs),
        _ => None,
    }
}

/// By hue, by saturation and by color a blend is as light as the backdrop, and by luminosity as
/// light as the source, but for rounding. It lies in range, but for rounding.
pub proof fn blends_keep_the_light(cb: Seq<Binary32>, cs: Seq<Binary32>, mode: CompositeMode)
    requires
        cb.len() == 3,
        cs.len() == 3,
        all_fractional(cb),
        all_fractional(cs),
        light_kept(cb, cs, mode) is Some,
    ensures
        forall|i: int|
            0 <= i < 3 ==> {
                let v = #[trigger] blended_color(cb, cs, mode)[i];
                &&& v.finite()
                &&& -(1real / 2048real) <= number(v)
                &&& number(v) <= 1real + 1real / 2048real
            },
        luminosity(blended_color(cb, cs, mode)).finite(),
        size(
            number(luminosity(blended_color(cb, cs, mode))) - number(
                luminosity(light_kept(cb, cs, mode)->0),
            ),
        ) <= 1real / 2048real,
{
    lemma_fractional_light(cb);
    lemma_fractional_light(cs);
    lemma_saturation(cb);
    lemma_saturation(cs);
    match mode {
        CompositeMode::HslHue => {
            lemma_with_saturation(cs, saturation(cb));
            moved_colors_take_the_luminosity(with_saturation(cs, saturation(cb)), luminosity(cb));
        },
        CompositeMode::HslSaturation => {
            lemma_with_saturation(cb, saturation(cs));
            moved_colors_take_the_luminosity(with_saturation(cb, saturation(cs)), luminosity(cb));
        },
        CompositeMode::HslColor => {
            moved_colors_take_the_luminosity(cs, luminosity(cb));
        },
        _ => {
            moved_colors_take_the_luminosity(cb, luminosity(cs));
        },
    }
}

/// A channel and its weight together are not more than either.
proof fn lemma_weighed_fraction(k: Binary32, v: Binary32)
    requires
        fractional(k),
        fractional(v),
    ensures
        fractional(k.mul(v)),
        k.mul(v).value() <= k.value(),
{
    lemma_fractional_product(k, v);
    lemma_fractional_product(v, k);
    products_commute(k, v);
}

/// A sum of fractions that is not more than another.
proof fn lemma_sum_within(x: Binary32, y: Binary32, most: Binary32)
    requires
        fractional(x),
        fractional(y),
        most.finite(),
        x.value() + y.value() <= most.value(),
    ensures
        x.add(y).finite(),
        0 <= x.add(y).value(),
        x.add(y).value() <= most.value(),
{
    lemma_difference_within(x, y.neg(), most);
    assert(y.neg().neg() == y);
}

/// The luminosity of a color between zero and one lies there too.
pub proof fn lemma_fractional_light(c: Seq<Binary32>)
    requires
        all_fractional(c),
    ensures
        fractional(luminosity(c)),
{
    lemma_values();
    lemma_constants();
    let (kr, kg, kb) = (Binary32(RED_WEIGHT), Binary32(GREEN_WEIGHT), Binary32(BLUE_WEIGHT));
    lemma_weighed_fraction(kr, c[0]);
    lemma_weighed_fraction(kg, c[1]);
    lemma_weighed_fraction(kb, c[2]);
    let both = Binary32(0x3f63_d70a);
    lemma_units_binades(0x0099_999a, 124);
    lemma_units_binades(0x0097_0a3d, 125);
    lemma_units_binades(0x00e1_47ae, 122);
    lemma_units_binades(0x00e3_d70a, 125);
    lemma_pow2_unfold(123);
    lemma_pow2_unfold(124);
    lemma_pow2_unfold(125);
    lemma2_to64();
    lemma_pow2_adds(122, 27);
    let (p, q, r) = (kr.mul(c[0]), kg.mul(c[1]), kb.mul(c[2]));
    assert(both.value() == kr.value() + kg.value());
    assert(both.value() + kb.value() <= unity());
    lemma_sum_within(p, q, both);
    lemma_sum_within(p.add(q), r, Binary32(ONE));
}

/// A number that is a whole number of the units of its binade.
pub proof fn lemma_binade(m: nat, k: nat, j: nat)
    requires
        0x0080_0000 <= m,
        m < 0x0100_0000,
        k + j == 149,
        k * 0x0080_0000 + m < 0x8000_0000,
    ensures
        number(Binary32((k * 0x0080_0000 + m) as u32)) == m as int as real / pow2(j) as int as real,
{
    lemma_values();
    lemma_units_binades(m, k);
    lemma_pow2_adds(k, j);
    lemma_pow2_pos(k);
    lemma_pow2_pos(j);
    let (a, p, q) = (m as int, pow2(k) as int, pow2(j) as int);
    let (ar, pr, qr) = (a as real, p as real, q as real);
    assert((a * p) as real == ar * pr) by (nonlinear_arith)
        requires
            ar == a as real,
            pr == p as real,
    ;
    assert((p * q) as real == pr * qr) by (nonlinear_arith)
        requires
            pr == p as real,
            qr == q as real,
    ;
    assert((ar * pr) / (pr * qr) == ar / qr) by (nonlinear_arith)
        requires
            pr > 0real,
            qr > 0real,
    ;
}

/// The weights of the channels.
proof fn lemma_weights()
    ensures
        Binary32(RED_WEIGHT).finite(),
        Binary32(GREEN_WEIGHT).finite(),
        Binary32(BLUE_WEIGHT).finite(),
        number(Binary32(RED_WEIGHT)) == 40265320real / 134217728real,
        number(Binary32(GREEN_WEIGHT)) == 79188456real / 134217728real,
        number(Binary32(BLUE_WEIGHT)) == 14763950real / 134217728real,
{
    lemma2_to64();
    lemma_binade(0x0099_999a, 124, 25);
    lemma_binade(0x0097_0a3d, 125, 24);
    lemma_binade(0x00e1_47ae, 122, 27);
    assert(10066330real / 33554432real == 40265320real / 134217728real) by (nonlinear_arith);
    assert(9898557real / 16777216real == 79188456real / 134217728real) by (nonlinear_arith);
}

/// A weighed channel.
proof fn lemma_weighed_channel(k: Binary32, v: Binary32, w: real, b: real)
    requires
        k.finite(),
        v.finite(),
        number(k) == w / 134217728real,
        0real < w,
        w <= 134217728real,
        size(number(v)) <= b,
        b <= 1048576real,
    ensures
        k.mul(v).finite(),
        size(number(k.mul(v)) - w * number(v) / 134217728real) <= (w * b / 134217728real)
            / 16777216real + speck(),
        size(w * number(v) / 134217728real) <= w * b / 134217728real,
        w * b / 134217728real <= b,
        size(number(k.mul(v))) <= 2real * b + 1real,
{
    lemma_limit_size();
    let (a, x) = (number(k), number(v));
    assert(a * x == w * x / 134217728real) by (nonlinear_arith)
        requires
            a == w / 134217728real,
    ;
    assert(w * x <= w * b && -(w * x) <= w * b && w * b <= 134217728real * b) by (nonlinear_arith)
        requires
            0real < w,
            w <= 134217728real,
            x <= b,
            -x <= b,
            0real <= b,
    ;
    lemma_product(k, v);
    lemma_part(size(a * x));
}

/// The computed luminosity is near the exact one.
#[verifier::rlimit(60)]
#[verifier::spinoff_prover]
proof fn lemma_lum(c: Seq<Binary32>, b: real)
    requires
        c[0].finite(),
        c[1].finite(),
        c[2].finite(),
        size(number(c[0])) <= b,
        size(number(c[1])) <= b,
        size(number(c[2])) <= b,
        b <= 1048576real,
    ensures
        luminosity(c).finite(),
        size(number(luminosity(c)) - weighed(number(c[0]), number(c[1]), number(c[2])))
            <= 4real * (b / 16777216real + speck()),
{
    lemma_limit_size();
    lemma_weights();
    let (kr, kg, kb) = (Binary32(RED_WEIGHT), Binary32(GREEN_WEIGHT), Binary32(BLUE_WEIGHT));
    lemma_weighed_channel(kr, c[0], 40265320real, b);
    lemma_weighed_channel(kg, c[1], 79188456real, b);
    lemma_weighed_channel(kb, c[2], 14763950real, b);
    let (p, q, r) = (kr.mul(c[0]), kg.mul(c[1]), kb.mul(c[2]));
    let (x, y, z) = (number(c[0]), number(c[1]), number(c[2]));
    let h = 2real * b + 1real;
    lemma_sum_size(number(p), number(q), h, h);
    lemma_part(size(number(p) + number(q)));
    lemma_sum(p, q);
    lemma_rounded_size(number(p.add(q)), number(p) + number(q));
    lemma_sum_size(number(p.add(q)), number(r), 4real * h, h);
    lemma_part(size(number(p.add(q)) + number(r)));
    lemma_sum(p.add(q), r);
    lemma_weighed_errors(
        (number(p), 40265320real * x / 134217728real),
        (number(q), 79188456real * y / 134217728real),
        (number(r), 14763950real * z / 134217728real),
        number(p.add(q)),
        number(luminosity(c)),
        b,
        speck(),
    );
}

/// The errors of a weighed sum.
proof fn lemma_weighed_errors(
    p: (real, real),
    q: (real, real),
    r: (real, real),
    s: real,
    t: real,
    b: real,
    g: real,
)
    requires
        size(p.0 - p.1) <= (40265320real * b / 134217728real) / 16777216real + g,
        size(q.0 - q.1) <= (79188456real * b / 134217728real) / 16777216real + g,
        size(r.0 - r.1) <= (14763950real * b / 134217728real) / 16777216real + g,
        size(p.1) <= 40265320real * b / 134217728real,
        size(q.1) <= 79188456real * b / 134217728real,
        size(r.1) <= 14763950real * b / 134217728real,
        size(s - (p.0 + q.0)) <= size(p.0 + q.0) / 16777216real,
        size(t - (s + r.0)) <= size(s + r.0) / 16777216real,
        0real < g,
    ensures
        size(t - (p.1 + q.1 + r.1)) <= 4real * (b / 16777216real + g),
{
    let (mp, mq, mr) = (
        40265320real * b / 134217728real,
        79188456real * b / 134217728real,
        14763950real * b / 134217728real,
    );
    let (dp, dq, dr) = (mp / 16777216real + g, mq / 16777216real + g, mr / 16777216real + g);
    let (x, m, d) = (p.1 + q.1, mp + mq, dp + dq);
    lemma_sum_error(p.0, q.0, p.1, q.1, dp, dq);
    lemma_sum_size(p.1, q.1, mp, mq);
    lemma_rounded_once(s, p.0 + q.0, x, d, m);
    let f = d + (m + d) / 16777216real;
    lemma_sum_error(s, r.0, x, r.1, f, dr);
    lemma_sum_size(x, r.1, m, mr);
    lemma_rounded_once(t, s + r.0, x + r.1, f + dr, m + mr);
}

/// Numbers from one on lie at least `2^-23` apart.
proof fn lemma_steps(a: nat, b: nat, j: nat)
    requires
        a < b,
        a >= j * 0x0080_0000 + 0x0080_0000,
    ensures
        units(b) - units(a) >= pow2(j),
    decreases j,
{
    if j == 0 {
        lemma2_to64();
        lemma_units_order(a, b);
    } else {
        let i = (j - 1) as nat;
        assert(j * 0x0080_0000 == i * 0x0080_0000 + 0x0080_0000) by (nonlinear_arith)
            requires
                j == i + 1,
        ;
        lemma_steps((a - 0x0080_0000) as nat, (b - 0x0080_0000) as nat, i);
        lemma_pow2_unfold(j);
    }
}

/// A distance from the luminosity, scaled.
spec fn scaled(v: Binary32, l: Binary32, k: Binary32, w: Binary32) -> Binary32 {
    l.add(v.sub(l).mul(k).div(w))
}

/// What scaling by a rounded distance loses.
proof fn lemma_scaled_distance(t: real, p: real, a: real)
    requires
        size(p - a) <= size(a) / 16777216real,
        size(t * a) <= 8real,
    ensures
        size(t * p - t * a) <= 8real / 16777216real,
        size(t * p) <= 9real,
{
    lemma_size_product(t, p - a);
    lemma_size_product(t, a);
    let (m, n, d) = (size(t), size(a), size(p - a));
    assert(t * (p - a) == t * p - t * a) by (nonlinear_arith);
    assert(m * d <= (m * n) / 16777216real) by (nonlinear_arith)
        requires
            d <= n / 16777216real,
            m >= 0real,
    ;
}

/// What dividing a rounded product loses.
proof fn lemma_divided_product(q: real, p: real, k: real, t: real, w: real, g: real)
    requires
        t * w == k,
        size(q - p * k) <= size(p * k) / 16777216real + g,
        size(w) * 1073741824real >= 1real,
        0real < g,
    ensures
        (q / w) * w == q,
        size(q / w - t * p) <= size(t * p) / 16777216real + g * 1073741824real,
{
    let (h, s) = (q / w, size(w));
    assert(w != 0real);
    assert(h * w == q) by (nonlinear_arith)
        requires
            h == q / w,
            w != 0real,
    ;
    let f = t * p;
    assert(f * w == p * k) by (nonlinear_arith)
        requires
            f == t * p,
            t * w == k,
    ;
    assert((h - f) * w == h * w - f * w) by (nonlinear_arith);
    lemma_size_product(h - f, w);
    lemma_size_product(f, w);
    let (d, m) = (size(h - f), size(f));
    assert(d <= m / 16777216real + g * 1073741824real) by (nonlinear_arith)
        requires
            d * s <= (m * s) / 16777216real + g,
            s * 1073741824real >= 1real,
            g > 0real,
            m >= 0real,
    ;
}

/// An error after another.
proof fn lemma_chained(h: real, f: real, x: real, e: real)
    requires
        size(h - f) <= size(f) / 16777216real + e,
        size(f - x) <= 8real / 16777216real,
        size(f) <= 9real,
        0real < e,
        e <= 1real / 16777216real,
    ensures
        size(h - x) <= 18real / 16777216real,
        size(h) <= 10real,
{
}

/// The error of a quotient after others.
proof fn lemma_quotient_error(z: real, h: real, x: real, g: real)
    requires
        size(z - h) <= size(h) / 16777216real + g,
        size(h - x) <= 18real / 16777216real,
        size(h) <= 10real,
        size(x) <= 8real,
        0real < g,
        g <= 1real / 16777216real,
    ensures
        size(z - x) <= 30real / 16777216real,
        size(z) <= 9real,
{
}

/// A scaled distance is near the exact one.
proof fn lemma_scaled(v: Binary32, l: Binary32, k: Binary32, w: Binary32, t: real)
    requires
        within(v, 8real),
        within(l, 8real),
        within(k, 8real),
        within(w, 32real),
        size(number(w)) * 1073741824real >= 1real,
        t * number(w) == number(k),
        size(t * (number(v) - number(l))) <= 8real,
    ensures
        scaled(v, l, k, w).finite(),
        size(number(scaled(v, l, k, w)) - (number(l) + t * (number(v) - number(l)))) <= 64real
            / 16777216real,
{
    lemma_limit_size();
    let (a, b, c) = (number(l), number(k), number(w));
    let d = number(v) - a;
    lemma_part(size(d));
    lemma_subtraction(v, l);
    let p = v.sub(l);
    lemma_scaled_distance(t, number(p), d);
    lemma_size_product(number(p), b);
    let (i, j) = (size(number(p)), size(b));
    assert(i * j <= 17real * 8real) by (nonlinear_arith)
        requires
            0real <= i,
            i <= 17real,
            0real <= j,
            j <= 8real,
    ;
    lemma_product(p, k);
    let q = p.mul(k);
    lemma_part(size(number(p) * b));
    lemma_divided_product(number(q), number(p), b, t, c, speck());
    let (h, g) = (number(q) / c, speck());
    let (f, e) = (t * number(p), 1073741824real * g);
    let x = t * d;
    lemma_chained(h, f, x, e);
    lemma_quotient(q, w);
    let z = q.div(w);
    lemma_part(size(h));
    lemma_quotient_error(number(z), h, x, g);
    lemma_sum_error(a, number(z), a, x, 0real, 30real / 16777216real);
    lemma_sum_size(a, x, 8real, 8real);
    lemma_sum_size(a, number(z), 8real, 9real);
    lemma_sum(l, z);
    lemma_part(size(a + number(z)));
    lemma_rounded_once(
        number(l.add(z)),
        a + number(z),
        a + x,
        30real / 16777216real,
        16real,
    );
}

/// A moved channel.
proof fn lemma_moved_channel(v: Binary32, d: Binary32, e: real)
    requires
        fractional(v),
        d.finite(),
        size(number(d) - e) <= 7real / 16777216real,
        size(e) <= 1real,
    ensures
        v.add(d).finite(),
        size(number(v.add(d)) - (number(v) + e)) <= 10real / 16777216real,
        size(number(v.add(d))) <= 9real / 4real,
{
    lemma_limit_size();
    lemma_small_number(v);
    lemma_part(size(number(v) + number(d)));
    lemma_sum(v, d);
}

/// The exact luminosity of moved channels.
proof fn lemma_moved_weight(c: (real, real, real), m: (real, real, real), d: real, l: real)
    requires
        size(m.0 - (c.0 + d)) <= 10real / 16777216real,
        size(m.1 - (c.1 + d)) <= 10real / 16777216real,
        size(m.2 - (c.2 + d)) <= 10real / 16777216real,
        size(d) <= 1real,
        d == l - weighed(c.0, c.1, c.2),
    ensures
        size(weighed(m.0, m.1, m.2) - l) <= 11real / 16777216real,
{
}

/// A moved color is bounded, and its luminosity is near the one that it was moved to.
proof fn lemma_moved_color(c: Seq<Binary32>, l: Binary32)
    requires
        c.len() == 3,
        all_fractional(c),
        fractional(l),
    ensures
        within(moved(c, l)[0], 9real / 4real),
        within(moved(c, l)[1], 9real / 4real),
        within(moved(c, l)[2], 9real / 4real),
        luminosity(moved(c, l)).finite(),
        size(number(luminosity(moved(c, l))) - number(l)) <= 24real / 16777216real,
        apart(channels(moved(c, l)), channels(c), 1real, 20real / 16777216real),
{
    lemma_limit_size();
    lemma_small_number(c[0]);
    lemma_small_number(c[1]);
    lemma_small_number(c[2]);
    lemma_small_number(l);
    lemma_lum(c, 1real);
    lemma_part(1real);
    let (x, y, z) = (number(c[0]), number(c[1]), number(c[2]));
    let (d, e) = (l.sub(luminosity(c)), number(l) - weighed(x, y, z));
    assert(size(e) <= 1real);
    lemma_part(size(number(l) - number(luminosity(c))));
    lemma_subtraction(l, luminosity(c));
    assert(size(number(d) - e) <= 7real / 16777216real);
    lemma_moved_channel(c[0], d, e);
    lemma_moved_channel(c[1], d, e);
    lemma_moved_channel(c[2], d, e);
    let m = moved(c, l);
    lemma_moved_weight((x, y, z), (number(m[0]), number(m[1]), number(m[2])), e, number(l));
    lemma_lum(m, 9real / 4real);
}

/// The least and the greatest channel.
pub proof fn lemma_extremes(m: Seq<Binary32>)
    requires
        m[0].finite(),
        m[1].finite(),
        m[2].finite(),
    ensures
        least(m).finite(),
        greatest(m).finite(),
        number(least(m)) <= number(m[0]),
        number(least(m)) <= number(m[1]),
        number(least(m)) <= number(m[2]),
        number(greatest(m)) >= number(m[0]),
        number(greatest(m)) >= number(m[1]),
        number(greatest(m)) >= number(m[2]),
        least(m) == m[0] || least(m) == m[1] || least(m) == m[2],
        greatest(m) == m[0] || greatest(m) == m[1] || greatest(m) == m[2],
{
    lemma_number_order(least(m), m[0]);
    lemma_number_order(least(m), m[1]);
    lemma_number_order(least(m), m[2]);
    lemma_number_order(m[0], greatest(m));
    lemma_number_order(m[1], greatest(m));
    lemma_number_order(m[2], greatest(m));
}

/// How far a channel lies above the least one, by the luminosity.
proof fn lemma_above_least(m: (real, real, real), v: real, l: real, n: real, b: real, g: real)
    requires
        v == m.0 || v == m.1 || v == m.2,
        n <= m.0,
        n <= m.1,
        n <= m.2,
        size(n) <= b,
        size(l - weighed(m.0, m.1, m.2)) <= 4real * (b / 16777216real + g),
        0real < g,
    ensures
        v - n <= 10real * ((l - n) + 5real * (b / 16777216real) + 4real * g),
        -(5real * (b / 16777216real) + 4real * g) <= l - n,
{
}

/// How far a channel lies below the greatest one, by the luminosity.
proof fn lemma_below_greatest(m: (real, real, real), v: real, l: real, x: real, b: real, g: real)
    requires
        v == m.0 || v == m.1 || v == m.2,
        x >= m.0,
        x >= m.1,
        x >= m.2,
        size(x) <= b,
        size(l - weighed(m.0, m.1, m.2)) <= 4real * (b / 16777216real + g),
        0real < g,
    ensures
        x - v <= 10real * ((x - l) + 5real * (b / 16777216real) + 4real * g),
        -(5real * (b / 16777216real) + 4real * g) <= x - l,
{
}

/// How far a channel lies from a luminosity that is next to nothing and negative.
proof fn lemma_dark(m: (real, real, real), v: real, l: real, n: real, b: real, g: real)
    requires
        v == m.0 || v == m.1 || v == m.2,
        n <= m.0,
        n <= m.1,
        n <= m.2,
        size(n) <= b,
        size(m.0) <= b,
        size(m.1) <= b,
        size(m.2) <= b,
        b == size(m.0) || b == size(m.1) || b == size(m.2),
        size(l) <= 24real / 16777216real,
        size(l - weighed(m.0, m.1, m.2)) <= 4real * (b / 16777216real + g),
        size(l - n) * 2147483648real >= 1real,
        0real < g,
        g <= 1real / 1267650600228229401496703205376real,
    ensures
        size(v - l) <= 13real * size(l - n),
{
    lemma_above_least(m, v, l, n, b, g);
    lemma_above_least(m, m.0, l, n, b, g);
    lemma_above_least(m, m.1, l, n, b, g);
    lemma_above_least(m, m.2, l, n, b, g);
    let y = size(l - n);
    let d = 11real * y + 50real * (b / 16777216real) + 40real * g;
    assert(size(m.0 - l) <= d);
    assert(size(m.1 - l) <= d);
    assert(size(m.2 - l) <= d);
    assert(size(v - l) <= d);
    assert(b <= 24real / 16777216real + d);
}

/// What a share of a distance is, of a scale that is near one of the size of the distance.
proof fn lemma_near_share(t: real, w: real, y: real, k: real, a: real, c: real)
    requires
        t * w == k,
        size(w - y) <= size(y) / 16777216real,
        size(a) <= c * size(y),
        0real <= c,
    ensures
        size(t * a) <= c * (101real * size(k) / 100real),
{
    lemma_size_product(t, w);
    lemma_size_product(t, a);
    let (p, q, r, z) = (size(t), size(w), size(y), size(a));
    assert(100real * r <= 101real * q);
    assert(100real * (p * r) <= 101real * (p * q)) by (nonlinear_arith)
        requires
            100real * r <= 101real * q,
            0real <= p,
    ;
    assert(p * z <= p * (c * r)) by (nonlinear_arith)
        requires
            z <= c * r,
            0real <= p,
    ;
    assert(p * (c * r) == c * (p * r)) by (nonlinear_arith);
    let (f, h) = (p * r, p * q);
    assert(c * f <= c * (101real * h / 100real)) by (nonlinear_arith)
        requires
            100real * f <= 101real * h,
            0real <= c,
    ;
}

/// A share of at most all.
proof fn lemma_whole_share(t: real, w: real, y: real, k: real)
    requires
        t * w == k,
        0real < y,
        size(w - y) <= y / 16777216real,
        0real <= k,
        k <= y + y / 16777216real,
    ensures
        0real <= t,
        t <= 1real + 4real / 16777216real,
        t * y <= k + 2real * y / 16777216real,
{
    assert(w > 0real);
    assert(t >= 0real) by (nonlinear_arith)
        requires
            t * w == k,
            k >= 0real,
            w > 0real,
    ;
    let c = 1real + 4real / 16777216real;
    assert(k <= c * w) by (nonlinear_arith)
        requires
            k <= y + y / 16777216real,
            y - w <= y / 16777216real,
            y > 0real,
            c == 1real + 4real / 16777216real,
    ;
    assert(t <= c) by (nonlinear_arith)
        requires
            t * w == k,
            k <= c * w,
            w > 0real,
    ;
    let d = y - w;
    assert(t * y == t * w + t * d) by (nonlinear_arith)
        requires
            d == y - w,
    ;
    assert(t * d <= 2real * y / 16777216real) by (nonlinear_arith)
        requires
            0real <= t,
            t <= 2real,
            d <= y / 16777216real,
            y > 0real,
    ;
}

/// A number times a share of at most all.
proof fn lemma_shared_number(t: real, a: real)
    requires
        0real <= t,
        t <= 1real + 4real / 16777216real,
        size(a) <= 7real,
    ensures
        a >= 0real ==> 0real <= t * a && t * a <= a + 28real / 16777216real,
        a < 0real ==> t * a <= 0real && a - 28real / 16777216real <= t * a,
        size(t * a) <= 2real * size(a),
        size(t * a) <= 8real,
{
    assert(a >= 0real ==> 0real <= t * a && t * a <= a + 4real / 16777216real * a)
        by (nonlinear_arith)
        requires
            0real <= t,
            t <= 1real + 4real / 16777216real,
    ;
    assert(a < 0real ==> t * a <= 0real && a + 4real / 16777216real * a <= t * a)
        by (nonlinear_arith)
        requires
            0real <= t,
            t <= 1real + 4real / 16777216real,
    ;
}

/// A scaled difference keeps the order.
proof fn lemma_scaled_order(t: real, a: real, b: real)
    requires
        0real <= t,
        a <= b,
    ensures
        t * a <= t * b,
{
    assert(t * a <= t * b) by (nonlinear_arith)
        requires
            0real <= t,
            a <= b,
    ;
}

/// The luminosity of a color whose distances from a gray are scaled.
proof fn lemma_scaled_weight(t: real, v: (real, real, real), l: real)
    ensures
        weighed(t * (v.0 - l), t * (v.1 - l), t * (v.2 - l)) == t * (weighed(v.0, v.1, v.2)
            - weighed(l, l, l)),
{
    let (x, y, z) = (v.0 - l, v.1 - l, v.2 - l);
    let (p, q, r) = (40265320real * x, 79188456real * y, 14763950real * z);
    assert(t * ((p + q + r) / 134217728real) == (t * p + t * q + t * r) / 134217728real)
        by (nonlinear_arith);
    assert(t * (40265320real * x) == 40265320real * (t * x)) by (nonlinear_arith);
    assert(t * (79188456real * y) == 79188456real * (t * y)) by (nonlinear_arith);
    assert(t * (14763950real * z) == 14763950real * (t * z)) by (nonlinear_arith);
    assert((p + q + r) / 134217728real == weighed(v.0, v.1, v.2) - weighed(l, l, l));
}

/// A distance that is not taken for none, and one that is.
pub proof fn lemma_guard(y: Binary32)
    requires
        y.finite(),
    ensures
        Binary32(BILLIONTH).less(y.abs()) ==> size(number(y)) * 1073741824real >= 1real,
        !Binary32(BILLIONTH).less(y.abs()) ==> size(number(y)) <= 1real / 536870912real,
{
    lemma2_to64_rest();
    lemma_binade(0x0089_705f, 96, 53);
    lemma_absolute_number(y);
    lemma_number_order(Binary32(BILLIONTH), y.abs());
    lemma_number_order(y.abs(), Binary32(BILLIONTH));
    assert(9007199real / 9007199254740992real <= 1real / 536870912real) by (nonlinear_arith);
    assert((9007199real / 9007199254740992real) * 1073741824real >= 1real) by (nonlinear_arith);
}

/// Whether a channel lies in range but for rounding, or below the greatest one.
spec fn lifted(v: real, x: real) -> bool {
    &&& -(500real / 16777216real) <= v
    &&& v <= 1real + 500real / 16777216real || v <= x + 500real / 16777216real
}

/// A channel raised towards a luminosity that is not negative.
proof fn lemma_raised_light(v: real, l: real, n: real, x: real, w: real, t: real)
    requires
        0real <= l,
        l <= 1real + 24real / 16777216real,
        n < 0real,
        -(9real / 4real) <= n,
        n <= v,
        v <= x,
        x <= 9real / 4real,
        size(w - (l - n)) <= size(l - n) / 16777216real,
        t * w == l,
    ensures
        0real <= t,
        t <= 2real,
        size(t * (v - l)) <= 8real,
        size(t * (v - l)) <= 2real * size(v - l),
        -(10real / 16777216real) <= l + t * (v - l),
        l + t * (v - l) <= 1real + 30real / 16777216real || l + t * (v - l) <= x + 30real
            / 16777216real,
{
    let y = l - n;
    lemma_whole_share(t, w, y, l);
    lemma_shared_number(t, v - l);
    lemma_scaled_order(t, n - l, v - l);
    assert(t * (n - l) == -(t * y)) by (nonlinear_arith)
        requires
            y == l - n,
    ;
}

/// Three numbers and the distances of three others from them.
proof fn lemma_rounded_triple(
    r: (real, real, real),
    a: (real, real, real),
    l: real,
    e: real,
)
    requires
        size(r.0 - (l + a.0)) <= 64real / 16777216real,
        size(r.1 - (l + a.1)) <= 64real / 16777216real,
        size(r.2 - (l + a.2)) <= 64real / 16777216real,
        size(weighed(a.0, a.1, a.2)) <= e,
        size(l) <= 2real,
    ensures
        size(weighed(r.0, r.1, r.2) - l) <= e + 66real / 16777216real,
{
}

/// The exact luminosity of small numbers.
proof fn lemma_small_weight(a: (real, real, real), e: real)
    requires
        size(a.0) <= e,
        size(a.1) <= e,
        size(a.2) <= e,
    ensures
        size(weighed(a.0, a.1, a.2)) <= e,
{
}

/// Whether a color keeps the luminosity that it had, with channels that are lifted.
spec fn lifted_color(low: Seq<Binary32>, m: Seq<Binary32>) -> bool {
    let (l, x) = (number(luminosity(m)), number(greatest(m)));
    &&& forall|i: int|
        0 <= i < 3 ==> {
            &&& within(#[trigger] low[i], 3real)
            &&& lifted(number(low[i]), x)
            &&& 0real <= l ==> size(number(low[i]) - l) <= 2real * size(number(m[i]) - l) + 64real
                / 16777216real
        }
    &&& size(weighed(number(low[0]), number(low[1]), number(low[2])) - l) <= 500real / 16777216real
}

/// Whether a color is one that is brought into range.
spec fn to_clip(m: Seq<Binary32>) -> bool {
    let l = luminosity(m);
    &&& m.len() == 3
    &&& within(m[0], 9real / 4real)
    &&& within(m[1], 9real / 4real)
    &&& within(m[2], 9real / 4real)
    &&& l.finite()
    &&& -(24real / 16777216real) <= number(l)
    &&& number(l) <= 1real + 24real / 16777216real
}

/// A color raised towards a luminosity that is not negative.
proof fn lemma_raised_to_light(m: Seq<Binary32>)
    requires
        to_clip(m),
        number(luminosity(m)) >= 0real,
        number(least(m)) < 0real,
        Binary32(BILLIONTH).less(luminosity(m).sub(least(m)).abs()),
    ensures
        lifted_color(Seq::new(3, |i: int| spec_raised(m[i], luminosity(m), least(m))), m),
        exists|t: real| #[trigger]
            pulled(
                channels(raised_color(m)),
                channels(m),
                number(luminosity(m)),
                t,
            ) && share_of(t, number(luminosity(m)) - number(least(m)), number(luminosity(m))),
{
    lemma_limit_size();
    lemma_extremes(m);
    let (lf, nf) = (luminosity(m), least(m));
    let (l, n, x) = (number(lf), number(nf), number(greatest(m)));
    let low = Seq::new(3, |i: int| spec_raised(m[i], lf, nf));
    let v = (number(m[0]), number(m[1]), number(m[2]));
    lemma_part(size(l - n));
    lemma_subtraction(lf, nf);
    let wf = lf.sub(nf);
    let w = number(wf);
    lemma_guard(wf);
    let t = l / w;
    assert(t * w == l) by (nonlinear_arith)
        requires
            t == l / w,
            w != 0real,
    ;
    lemma_raised_light(v.0, l, n, x, w, t);
    lemma_raised_light(v.1, l, n, x, w, t);
    lemma_raised_light(v.2, l, n, x, w, t);
    lemma_scaled(m[0], lf, lf, wf, t);
    lemma_scaled(m[1], lf, lf, wf, t);
    lemma_scaled(m[2], lf, lf, wf, t);
    assert(low[0] == scaled(m[0], lf, lf, wf));
    assert(low[1] == scaled(m[1], lf, lf, wf));
    assert(low[2] == scaled(m[2], lf, lf, wf));
    let a = (t * (v.0 - l), t * (v.1 - l), t * (v.2 - l));
    let r = (number(low[0]), number(low[1]), number(low[2]));
    lemma_lum(m, 9real / 4real);
    lemma_scaled_weight(t, v, l);
    let d = weighed(v.0, v.1, v.2) - weighed(l, l, l);
    assert(size(d) <= 12real / 16777216real);
    lemma_doubled(t, d);
    lemma_rounded_triple(r, a, l, 24real / 16777216real);
    lemma_lifted_channel(r.0, v.0, l, x, a.0);
    lemma_lifted_channel(r.1, v.1, l, x, a.1);
    lemma_lifted_channel(r.2, v.2, l, x, a.2);
    lemma_whole_share(t, w, l - n, l);
    lemma_end_share(t, w, l - n, l);
    assert(low =~= raised_color(m));
    assert(pulled(channels(raised_color(m)), channels(m), l, t));
}

/// A color brought back from below zero.
spec fn raised_color(m: Seq<Binary32>) -> Seq<Binary32> {
    Seq::new(3, |i: int| spec_raised(m[i], luminosity(m), least(m)))
}

/// A color brought back from above one.
spec fn lowered_color(m: Seq<Binary32>, low: Seq<Binary32>) -> Seq<Binary32> {
    Seq::new(3, |i: int| spec_lowered(low[i], luminosity(m), greatest(m)))
}

/// The channels of a color as real numbers.
spec fn channels(c: Seq<Binary32>) -> (real, real, real) {
    (number(c[0]), number(c[1]), number(c[2]))
}

/// Whether the channels of a color have their distances from a gray scaled, but for rounding.
spec fn pulled(r: (real, real, real), v: (real, real, real), l: real, t: real) -> bool {
    &&& size(r.0 - (l + t * (v.0 - l))) <= 64real / 16777216real
    &&& size(r.1 - (l + t * (v.1 - l))) <= 64real / 16777216real
    &&& size(r.2 - (l + t * (v.2 - l))) <= 64real / 16777216real
}

/// Whether a share is at most all and takes a distance to another, but for rounding.
spec fn share_of(t: real, y: real, k: real) -> bool {
    &&& 0real <= t
    &&& t <= 1real + 4real / 16777216real
    &&& size(t * y - k) <= 16real / 16777216real
}

/// What a share takes a distance to.
proof fn lemma_end_share(t: real, w: real, y: real, k: real)
    requires
        t * w == k,
        size(w - y) <= y / 16777216real,
        0real <= t,
        t <= 2real,
        0real < y,
        y <= 5real,
    ensures
        size(t * y - k) <= 10real / 16777216real,
{
    lemma_exchanged(t, w);
    lemma_exchanged(t, y);
    lemma_distributes(y, w, t);
    let d = y - w;
    lemma_size_product(d, t);
    let s = size(d);
    lemma_exchanged(s, t);
    lemma_times(t, 2real, s);
}

/// A number at most doubled.
proof fn lemma_doubled(t: real, d: real)
    requires
        0real <= t,
        t <= 2real,
    ensures
        size(t * d) <= 2real * size(d),
{
    lemma_size_product(t, d);
    let s = size(d);
    assert(t * s <= 2real * s) by (nonlinear_arith)
        requires
            t <= 2real,
            s >= 0real,
    ;
}

/// A rounded channel after the exact one.
proof fn lemma_lifted_channel(r: real, v: real, l: real, x: real, a: real)
    requires
        size(r - (l + a)) <= 64real / 16777216real,
        size(a) <= 2real * size(v - l),
        -(10real / 16777216real) <= l + a,
        l + a <= 1real + 30real / 16777216real || l + a <= x + 30real / 16777216real,
        x <= 9real / 4real,
    ensures
        lifted(r, x),
        size(r) <= 3real,
        size(r - l) <= 2real * size(v - l) + 64real / 16777216real,
{
}

/// A color raised towards a luminosity that is negative, and next to nothing.
proof fn lemma_raised_to_dark(m: Seq<Binary32>)
    requires
        to_clip(m),
        number(luminosity(m)) < 0real,
        Binary32(BILLIONTH).less(luminosity(m).sub(least(m)).abs()),
    ensures
        lifted_color(Seq::new(3, |i: int| spec_raised(m[i], luminosity(m), least(m))), m),
        all_near(channels(raised_color(m)), number(luminosity(m))),
{
    lemma_limit_size();
    lemma_extremes(m);
    let (lf, nf) = (luminosity(m), least(m));
    let (l, n, x) = (number(lf), number(nf), number(greatest(m)));
    let low = Seq::new(3, |i: int| spec_raised(m[i], lf, nf));
    let v = (number(m[0]), number(m[1]), number(m[2]));
    lemma_part(size(l - n));
    lemma_subtraction(lf, nf);
    let wf = lf.sub(nf);
    let w = number(wf);
    lemma_guard(wf);
    let t = l / w;
    assert(t * w == l) by (nonlinear_arith)
        requires
            t == l / w,
            w != 0real,
    ;
    let b = larger(size(v.0), larger(size(v.1), size(v.2)));
    lemma_lum(m, b);
    lemma_wide(w, l - n);
    lemma_dark(v, v.0, l, n, b, speck());
    lemma_dark(v, v.1, l, n, b, speck());
    lemma_dark(v, v.2, l, n, b, speck());
    lemma_near_share(t, w, l - n, l, v.0 - l, 13real);
    lemma_near_share(t, w, l - n, l, v.1 - l, 13real);
    lemma_near_share(t, w, l - n, l, v.2 - l, 13real);
    lemma_scaled(m[0], lf, lf, wf, t);
    lemma_scaled(m[1], lf, lf, wf, t);
    lemma_scaled(m[2], lf, lf, wf, t);
    assert(low[0] == scaled(m[0], lf, lf, wf));
    assert(low[1] == scaled(m[1], lf, lf, wf));
    assert(low[2] == scaled(m[2], lf, lf, wf));
    let a = (t * (v.0 - l), t * (v.1 - l), t * (v.2 - l));
    let r = (number(low[0]), number(low[1]), number(low[2]));
    let e = 320real / 16777216real;
    lemma_small_weight(a, e);
    lemma_rounded_triple(r, a, l, e);
    lemma_dark_channel(r.0, l, x, a.0);
    lemma_dark_channel(r.1, l, x, a.1);
    lemma_dark_channel(r.2, l, x, a.2);
    assert(low =~= raised_color(m));
}

/// Whether the channels of a color are near a gray.
spec fn all_near(r: (real, real, real), l: real) -> bool {
    &&& size(r.0 - l) <= 4400real / 16777216real
    &&& size(r.1 - l) <= 4400real / 16777216real
    &&& size(r.2 - l) <= 4400real / 16777216real
}

/// The larger of two.
spec fn larger(a: real, b: real) -> real {
    if a < b {
        b
    } else {
        a
    }
}

/// A distance whose rounding is not next to nothing is not so either.
proof fn lemma_wide(w: real, y: real)
    requires
        size(w - y) <= size(y) / 16777216real,
        size(w) * 1073741824real >= 1real,
    ensures
        size(y) * 2147483648real >= 1real,
        w != 0real,
{
}

/// A rounded channel near a luminosity that is next to nothing.
proof fn lemma_dark_channel(r: real, l: real, x: real, a: real)
    requires
        size(r - (l + a)) <= 64real / 16777216real,
        size(a) <= 320real / 16777216real,
        -(24real / 16777216real) <= l,
        l < 0real,
    ensures
        lifted(r, x),
        size(r) <= 3real,
        size(r - l) <= 4400real / 16777216real,
{
}

/// A color without what is below zero.
spec fn without_negatives(m: Seq<Binary32>) -> Seq<Binary32> {
    let (l, n) = (luminosity(m), least(m));
    if n.less(Binary32(ZERO)) && Binary32(BILLIONTH).less(l.sub(n).abs()) {
        Seq::new(3, |i: int| spec_raised(m[i], l, n))
    } else {
        m
    }
}

/// A color without what is below zero keeps its luminosity.
proof fn lemma_without_negatives(m: Seq<Binary32>)
    requires
        to_clip(m),
    ensures
        lifted_color(without_negatives(m), m),
        without_negatives(m).len() == 3,
{
    lemma_limit_size();
    lemma_values();
    lemma_extremes(m);
    let (lf, nf) = (luminosity(m), least(m));
    let (l, n) = (number(lf), number(nf));
    lemma_number_order(nf, Binary32(ZERO));
    lemma_number_order(Binary32(ZERO), nf);
    lemma_part(size(l - n));
    lemma_subtraction(lf, nf);
    lemma_guard(lf.sub(nf));
    if nf.less(Binary32(ZERO)) && Binary32(BILLIONTH).less(lf.sub(nf).abs()) {
        if l >= 0real {
            lemma_raised_to_light(m);
        } else {
            lemma_raised_to_dark(m);
        }
    } else {
        lemma_lum(m, 9real / 4real);
        lemma_near_none(number(lf.sub(nf)), l, n);
        assert(lifted(number(m[0]), number(greatest(m))));
        assert(lifted(number(m[1]), number(greatest(m))));
        assert(lifted(number(m[2]), number(greatest(m))));
    }
}

/// A distance that is taken for none.
proof fn lemma_near_none(w: real, l: real, n: real)
    requires
        size(w - (l - n)) <= size(l - n) / 16777216real,
    ensures
        size(w) <= 1real / 536870912real ==> size(l - n) <= 1real / 16777216real,
{
}

/// Whether a channel lies in range but for rounding.
spec fn in_reach(v: Binary32) -> bool {
    &&& v.finite()
    &&& -(8000real / 16777216real) <= number(v)
    &&& number(v) <= 1real + 8000real / 16777216real
}

/// Whether a color lies in range and has a luminosity, but for rounding.
spec fn settled(r: Seq<Binary32>, l: real) -> bool {
    &&& in_reach(r[0])
    &&& in_reach(r[1])
    &&& in_reach(r[2])
    &&& size(weighed(number(r[0]), number(r[1]), number(r[2])) - l) <= 8000real / 16777216real
}

/// A channel lowered towards a luminosity of at most one.
proof fn lemma_lowered_dim(v: real, l: real, x: real, k: real, w: real, t: real)
    requires
        -(24real / 16777216real) <= l,
        l <= 1real,
        1real < x,
        x <= 9real / 4real,
        size(w - (x - l)) <= size(x - l) / 16777216real,
        size(k - (1real - l)) <= size(1real - l) / 16777216real,
        t * w == k,
        lifted(v, x),
        size(v) <= 3real,
    ensures
        0real <= t,
        t <= 2real,
        size(t * (v - l)) <= 8real,
        -(600real / 16777216real) <= l + t * (v - l),
        l + t * (v - l) <= 1real + 1100real / 16777216real,
{
    let y = x - l;
    lemma_whole_share(t, w, y, k);
    lemma_shared_number(t, v - l);
    let c = 500real / 16777216real;
    lemma_scaled_order(t, v - l, y + c);
    assert(t * (y + c) == t * y + t * c) by (nonlinear_arith);
    lemma_doubled(t, c);
}

/// Two numbers above one that differ lie at least `2^-23` apart.
proof fn lemma_gap(x: Binary32, y: Binary32)
    requires
        x.finite(),
        y.finite(),
        number(x) > 1real,
        number(y) > 1real,
        number(x) != number(y),
    ensures
        size(number(x) - number(y)) >= 2real / 16777216real,
{
    lemma_values();
    lemma_number_order(Binary32(ONE), x);
    lemma_number_order(Binary32(ONE), y);
    lemma_number_order(x, y);
    let (a, b) = (x.magnitude(), y.magnitude());
    lemma_units_order(ONE as nat, a);
    lemma_units_order(a, ONE as nat);
    lemma_units_order(ONE as nat, b);
    lemma_units_order(b, ONE as nat);
    lemma_units_order(a, b);
    lemma_units_order(b, a);
    if a < b {
        lemma_steps(a, b, 126);
    } else {
        lemma_steps(b, a, 126);
    }
    lemma2_to64();
    lemma_pow2_adds(126, 23);
    lemma_pow2_pos(126);
    let (u, v, p) = (x.value() as real, y.value() as real, pow2(126) as int as real);
    let q = unity() as real;
    assert(q == p * 8388608real);
    assert(u - v >= p || v - u >= p);
    lemma_apart(u, v, p, q);
}

/// A distance in parts of a unit.
proof fn lemma_apart(u: real, v: real, p: real, q: real)
    requires
        q == p * 8388608real,
        0real < p,
        u - v >= p || v - u >= p,
    ensures
        size(u / q - v / q) >= 2real / 16777216real,
{
    let (a, b) = (u / q, v / q);
    assert(a * q == u && b * q == v) by (nonlinear_arith)
        requires
            a == u / q,
            b == v / q,
            q > 0real,
    ;
    assert(u - v >= p ==> a - b >= 1real / 8388608real) by (nonlinear_arith)
        requires
            a * q == u,
            b * q == v,
            q == p * 8388608real,
            0real < p,
    ;
    assert(v - u >= p ==> b - a >= 1real / 8388608real) by (nonlinear_arith)
        requires
            a * q == u,
            b * q == v,
            q == p * 8388608real,
            0real < p,
    ;
    assert(2real / 16777216real == 1real / 8388608real) by (nonlinear_arith);
}

/// How far a channel lies from a luminosity that is next to one and above it.
proof fn lemma_bright(m: (real, real, real), v: real, r: real, l: real, x: real, g: real)
    requires
        v == m.0 || v == m.1 || v == m.2,
        x >= m.0,
        x >= m.1,
        x >= m.2,
        size(x) <= 9real / 4real,
        size(l - weighed(m.0, m.1, m.2)) <= 4real * ((9real / 4real) / 16777216real + g),
        size(x - l) >= 2real / 16777216real,
        size(r - l) <= 2real * size(v - l) + 64real / 16777216real,
        0real < g,
        g <= 1real / 1267650600228229401496703205376real,
    ensures
        size(r - l) <= 170real * size(x - l),
{
    lemma_below_greatest(m, v, l, x, 9real / 4real, g);
    let y = size(x - l);
    assert(size(v - l) <= 11real * y + 114real / 16777216real);
}

/// A color lowered towards a luminosity of at most one.
proof fn lemma_lowered_to_dim(m: Seq<Binary32>, low: Seq<Binary32>)
    requires
        to_clip(m),
        lifted_color(low, m),
        number(luminosity(m)) <= 1real,
        number(greatest(m)) > 1real,
        Binary32(BILLIONTH).less(greatest(m).sub(luminosity(m)).abs()),
    ensures
        settled(
            Seq::new(3, |i: int| spec_lowered(low[i], luminosity(m), greatest(m))),
            number(luminosity(m)),
        ),
        exists|t: real| #[trigger]
            pulled(
                channels(lowered_color(m, low)),
                channels(low),
                number(luminosity(m)),
                t,
            ) && share_of(
                t,
                number(greatest(m)) - number(luminosity(m)),
                1real - number(luminosity(m)),
            ),
{
    lemma_limit_size();
    lemma_extremes(m);
    lemma_values();
    let (lf, xf, of) = (luminosity(m), greatest(m), Binary32(ONE));
    let (l, x) = (number(lf), number(xf));
    lemma_number_order(of, lf);
    let res = Seq::new(3, |i: int| spec_lowered(low[i], lf, xf));
    lemma_part(size(x - l));
    lemma_subtraction(xf, lf);
    lemma_part(size(1real - l));
    lemma_subtraction(of, lf);
    let (kf, wf) = (of.sub(lf), xf.sub(lf));
    let (k, w) = (number(kf), number(wf));
    lemma_guard(wf);
    let t = k / w;
    assert(t * w == k) by (nonlinear_arith)
        requires
            t == k / w,
            w != 0real,
    ;
    assert(within(low[0], 3real) && within(low[1], 3real) && within(low[2], 3real));
    let v = (number(low[0]), number(low[1]), number(low[2]));
    lemma_lowered_dim(v.0, l, x, k, w, t);
    lemma_lowered_dim(v.1, l, x, k, w, t);
    lemma_lowered_dim(v.2, l, x, k, w, t);
    lemma_scaled(low[0], lf, kf, wf, t);
    lemma_scaled(low[1], lf, kf, wf, t);
    lemma_scaled(low[2], lf, kf, wf, t);
    assert(res[0] == scaled(low[0], lf, kf, wf));
    assert(res[1] == scaled(low[1], lf, kf, wf));
    assert(res[2] == scaled(low[2], lf, kf, wf));
    let a = (t * (v.0 - l), t * (v.1 - l), t * (v.2 - l));
    let r = (number(res[0]), number(res[1]), number(res[2]));
    lemma_scaled_weight(t, v, l);
    let d = weighed(v.0, v.1, v.2) - weighed(l, l, l);
    assert(size(d) <= 502real / 16777216real);
    lemma_doubled(t, d);
    lemma_rounded_triple(r, a, l, 1004real / 16777216real);
    lemma_dim_channel(r.0, l, a.0);
    lemma_dim_channel(r.1, l, a.1);
    lemma_dim_channel(r.2, l, a.2);
    lemma_whole_share(t, w, x - l, k);
    lemma_end_share(t, w, x - l, k);
    assert(res =~= lowered_color(m, low));
    assert(pulled(channels(lowered_color(m, low)), channels(low), l, t));
}

/// A rounded channel after the exact one.
proof fn lemma_dim_channel(r: real, l: real, a: real)
    requires
        size(r - (l + a)) <= 64real / 16777216real,
        -(600real / 16777216real) <= l + a,
        l + a <= 1real + 1100real / 16777216real,
    ensures
        -(8000real / 16777216real) <= r,
        r <= 1real + 8000real / 16777216real,
{
}

/// A color lowered towards a luminosity that is next to one and above it.
proof fn lemma_lowered_to_bright(m: Seq<Binary32>, low: Seq<Binary32>)
    requires
        to_clip(m),
        lifted_color(low, m),
        number(luminosity(m)) > 1real,
        number(greatest(m)) > 1real,
        Binary32(BILLIONTH).less(greatest(m).sub(luminosity(m)).abs()),
    ensures
        settled(
            Seq::new(3, |i: int| spec_lowered(low[i], luminosity(m), greatest(m))),
            number(luminosity(m)),
        ),
        all_near(channels(lowered_color(m, low)), number(luminosity(m))),
{
    lemma_limit_size();
    lemma_extremes(m);
    lemma_values();
    let (lf, xf, of) = (luminosity(m), greatest(m), Binary32(ONE));
    let (l, x) = (number(lf), number(xf));
    lemma_number_order(of, lf);
    let res = Seq::new(3, |i: int| spec_lowered(low[i], lf, xf));
    lemma_part(size(x - l));
    lemma_subtraction(xf, lf);
    lemma_part(size(1real - l));
    lemma_subtraction(of, lf);
    let (kf, wf) = (of.sub(lf), xf.sub(lf));
    let (k, w) = (number(kf), number(wf));
    lemma_guard(wf);
    lemma_wide(w, x - l);
    lemma_gap(xf, lf);
    let t = k / w;
    assert(t * w == k) by (nonlinear_arith)
        requires
            t == k / w,
            w != 0real,
    ;
    assert(within(low[0], 3real) && within(low[1], 3real) && within(low[2], 3real));
    let v = (number(low[0]), number(low[1]), number(low[2]));
    let o = (number(m[0]), number(m[1]), number(m[2]));
    lemma_lum(m, 9real / 4real);
    lemma_bright(o, o.0, v.0, l, x, speck());
    lemma_bright(o, o.1, v.1, l, x, speck());
    lemma_bright(o, o.2, v.2, l, x, speck());
    assert(size(k) <= 25real / 16777216real);
    lemma_near_share(t, w, x - l, k, v.0 - l, 170real);
    lemma_near_share(t, w, x - l, k, v.1 - l, 170real);
    lemma_near_share(t, w, x - l, k, v.2 - l, 170real);
    lemma_scaled(low[0], lf, kf, wf, t);
    lemma_scaled(low[1], lf, kf, wf, t);
    lemma_scaled(low[2], lf, kf, wf, t);
    assert(res[0] == scaled(low[0], lf, kf, wf));
    assert(res[1] == scaled(low[1], lf, kf, wf));
    assert(res[2] == scaled(low[2], lf, kf, wf));
    let a = (t * (v.0 - l), t * (v.1 - l), t * (v.2 - l));
    let r = (number(res[0]), number(res[1]), number(res[2]));
    let e = 4300real / 16777216real;
    lemma_small_weight(a, e);
    lemma_rounded_triple(r, a, l, e);
    lemma_bright_channel(r.0, l, a.0);
    lemma_bright_channel(r.1, l, a.1);
    lemma_bright_channel(r.2, l, a.2);
    assert(res =~= lowered_color(m, low));
}

/// A rounded channel near a luminosity that is next to one.
proof fn lemma_bright_channel(r: real, l: real, a: real)
    requires
        size(r - (l + a)) <= 64real / 16777216real,
        size(a) <= 4300real / 16777216real,
        1real < l,
        l <= 1real + 24real / 16777216real,
    ensures
        -(8000real / 16777216real) <= r,
        r <= 1real + 8000real / 16777216real,
        size(r - l) <= 4400real / 16777216real,
{
}

/// A color without what is above one.
spec fn without_excess(m: Seq<Binary32>, low: Seq<Binary32>) -> Seq<Binary32> {
    let (l, x) = (luminosity(m), greatest(m));
    if Binary32(ONE).less(x) && Binary32(BILLIONTH).less(x.sub(l).abs()) {
        Seq::new(3, |i: int| spec_lowered(low[i], l, x))
    } else {
        low
    }
}

/// A color without what is above one lies in range.
proof fn lemma_without_excess(m: Seq<Binary32>, low: Seq<Binary32>)
    requires
        to_clip(m),
        lifted_color(low, m),
        low.len() == 3,
    ensures
        settled(without_excess(m, low), number(luminosity(m))),
        without_excess(m, low).len() == 3,
{
    lemma_limit_size();
    lemma_values();
    lemma_extremes(m);
    let (lf, xf, of) = (luminosity(m), greatest(m), Binary32(ONE));
    let (l, x) = (number(lf), number(xf));
    lemma_number_order(of, xf);
    lemma_number_order(xf, of);
    lemma_part(size(x - l));
    lemma_subtraction(xf, lf);
    lemma_guard(xf.sub(lf));
    if of.less(xf) && Binary32(BILLIONTH).less(xf.sub(lf).abs()) {
        if l <= 1real {
            lemma_lowered_to_dim(m, low);
        } else {
            lemma_lowered_to_bright(m, low);
        }
    } else {
        lemma_near_none(number(xf.sub(lf)), x, l);
        assert(within(low[0], 3real) && within(low[1], 3real) && within(low[2], 3real));
        assert(lifted(number(low[0]), x) && lifted(number(low[1]), x) && lifted(
            number(low[2]),
            x,
        ));
    }
}

/// Whether the channels of a color lie apart as those of another do, scaled, but for an error.
spec fn apart(r: (real, real, real), c: (real, real, real), k: real, e: real) -> bool {
    &&& size((r.0 - r.1) - (c.0 - c.1) * k) <= e
    &&& size((r.0 - r.2) - (c.0 - c.2) * k) <= e
    &&& size((r.1 - r.2) - (c.1 - c.2) * k) <= e
}

/// A share held to all.
spec fn capped(t: real) -> real {
    if t < 1real {
        t
    } else {
        1real
    }
}

/// Two channels whose distances from a gray are scaled lie apart as before, scaled.
proof fn lemma_pulled_pair(r: real, s: real, v: real, w: real, l: real, t: real)
    requires
        size(r - (l + t * (v - l))) <= 64real / 16777216real,
        size(s - (l + t * (w - l))) <= 64real / 16777216real,
        0real <= t,
        t <= 1real + 4real / 16777216real,
        size(v) <= 3real,
        size(w) <= 3real,
    ensures
        size((r - s) - (v - w) * capped(t)) <= 160real / 16777216real,
{
    let (d, k) = (v - w, capped(t));
    lemma_exchanged(t, v - l);
    lemma_exchanged(t, w - l);
    lemma_distributes(v - l, w - l, t);
    assert((v - l) - (w - l) == d);
    assert(size((r - s) - d * t) <= 128real / 16777216real);
    lemma_exchanged(d, t);
    lemma_exchanged(d, k);
    lemma_distributes(t, k, d);
    let f = t - k;
    lemma_size_product(f, d);
    lemma_times(size(f), 4real / 16777216real, size(d));
}

/// A color whose distances from a gray are scaled.
proof fn lemma_pulled_apart(r: (real, real, real), v: (real, real, real), l: real, t: real)
    requires
        pulled(r, v, l, t),
        0real <= t,
        t <= 1real + 4real / 16777216real,
        size(v.0) <= 3real,
        size(v.1) <= 3real,
        size(v.2) <= 3real,
    ensures
        apart(r, v, capped(t), 160real / 16777216real),
{
    lemma_pulled_pair(r.0, r.1, v.0, v.1, l, t);
    lemma_pulled_pair(r.0, r.2, v.0, v.2, l, t);
    lemma_pulled_pair(r.1, r.2, v.1, v.2, l, t);
}

/// A difference scaled twice.
proof fn lemma_composed_pair(r: real, w: real, m: real, c: real, j: real, k: real, e: real)
    requires
        size(r - w * k) <= 160real / 16777216real,
        size(w - m * j) <= e,
        size(m - c) <= 20real / 16777216real,
        0real <= j,
        j <= 1real,
        0real <= k,
        k <= 1real,
    ensures
        0real <= j * k,
        j * k <= 1real,
        size(r - c * (j * k)) <= e + 180real / 16777216real,
{
    let (n, d) = (j * k, w - m * j);
    lemma_shared(j, k);
    lemma_distributes(w, m * j, k);
    lemma_shared(d, k);
    assert((m * j) * k == m * (j * k)) by (nonlinear_arith);
    lemma_distributes(m, c, n);
    lemma_shared(m - c, n);
}

/// A color scaled twice after a move.
proof fn lemma_composed(
    r: (real, real, real),
    w: (real, real, real),
    m: (real, real, real),
    c: (real, real, real),
    j: real,
    k: real,
    e: real,
)
    requires
        apart(r, w, k, 160real / 16777216real),
        apart(w, m, j, e),
        apart(m, c, 1real, 20real / 16777216real),
        0real <= j,
        j <= 1real,
        0real <= k,
        k <= 1real,
    ensures
        0real <= j * k,
        j * k <= 1real,
        apart(r, c, j * k, e + 180real / 16777216real),
{
    lemma_composed_pair(r.0 - r.1, w.0 - w.1, m.0 - m.1, c.0 - c.1, j, k, e);
    lemma_composed_pair(r.0 - r.2, w.0 - w.2, m.0 - m.2, c.0 - c.2, j, k, e);
    lemma_composed_pair(r.1 - r.2, w.1 - w.2, m.1 - m.2, c.1 - c.2, j, k, e);
}

/// A color all of whose channels are near a gray.
proof fn lemma_near_gray(r: (real, real, real), c: (real, real, real), l: real)
    requires
        all_near(r, l),
    ensures
        apart(r, c, 0real, 8800real / 16777216real),
{
}

/// Where the least channel goes when it is raised.
proof fn lemma_raised_end(r: real, l: real, n: real, t: real)
    requires
        size(r - (l + t * (n - l))) <= 64real / 16777216real,
        share_of(t, l - n, l),
    ensures
        r <= 100real / 16777216real,
{
    lemma_exchanged(t, n - l);
    lemma_exchanged(t, l - n);
    lemma_distributes(n, l, t);
    lemma_distributes(l, n, t);
}

/// A greatest channel is hardly changed when what is raised is next to nothing.
proof fn lemma_kept_top(r: real, l: real, n: real, x: real, t: real)
    requires
        size(r - (l + t * (x - l))) <= 64real / 16777216real,
        share_of(t, l - n, l),
        1real / 16real <= l,
        l <= 2real,
        n < 0real,
        -(24real / 16777216real) <= n,
        size(x - l) <= 4real,
    ensures
        r >= x - 5000real / 16777216real,
{
    let d = 1real - t;
    lemma_exchanged(t, l - n);
    lemma_distributes(l, n, t);
    lemma_exchanged(n, t);
    lemma_size_product(t, n);
    lemma_times(t, 2real, size(n));
    assert(size(t * n) <= 48real / 16777216real);
    lemma_exchanged(t, x - l);
    lemma_exchanged(d, x - l);
    lemma_distributes(1real, t, x - l);
    lemma_exchanged(t, x - l);
    // What is missing of the whole.
    lemma_distributes(1real, t, l);
    lemma_exchanged(t, l);
    assert(d * l <= 64real / 16777216real);
    if d >= 0real {
        lemma_exchanged(d, l);
        lemma_times(1real / 16real, l, d);
        assert(d <= 1024real / 16777216real);
    }
    assert(size(d) <= 1024real / 16777216real);
    lemma_size_product(d, x - l);
    lemma_times(size(d), 1024real / 16777216real, size(x - l));
}

/// What raising does to a color.
proof fn lemma_first_scale(m: Seq<Binary32>) -> (k: real)
    requires
        to_clip(m),
    ensures
        0real <= k,
        k <= 1real,
        apart(channels(without_negatives(m)), channels(m), k, 8800real / 16777216real),
        k == 1real || some_at_most(channels(without_negatives(m)), 4500real / 16777216real),
        1real / 16real <= number(luminosity(m)) && -(24real / 16777216real) <= number(least(m))
            ==> some_at_least(
            channels(without_negatives(m)),
            number(greatest(m)) - 5000real / 16777216real,
        ),
{
    lemma_values();
    lemma_extremes(m);
    lemma_limit_size();
    let (lf, nf) = (luminosity(m), least(m));
    let (l, n, x) = (number(lf), number(nf), number(greatest(m)));
    let (v, low) = (channels(m), without_negatives(m));
    lemma_number_order(nf, Binary32(ZERO));
    lemma_number_order(Binary32(ZERO), nf);
    lemma_without_negatives(m);
    if nf.less(Binary32(ZERO)) && Binary32(BILLIONTH).less(lf.sub(nf).abs()) {
        assert(low =~= raised_color(m));
        if l >= 0real {
            lemma_raised_to_light(m);
            let r = channels(low);
            let t = choose|t: real| #[trigger]
                pulled(channels(raised_color(m)), channels(m), l, t) && share_of(t, l - n, l);
            lemma_pulled_apart(r, v, l, t);
            if n == v.0 {
                lemma_raised_end(r.0, l, n, t);
            } else if n == v.1 {
                lemma_raised_end(r.1, l, n, t);
            } else {
                lemma_raised_end(r.2, l, n, t);
            }
            if 1real / 16real <= l && -(24real / 16777216real) <= n {
                if x == v.0 {
                    lemma_kept_top(r.0, l, n, x, t);
                } else if x == v.1 {
                    lemma_kept_top(r.1, l, n, x, t);
                } else {
                    lemma_kept_top(r.2, l, n, x, t);
                }
            }
            capped(t)
        } else {
            lemma_raised_to_dark(m);
            lemma_near_gray(channels(low), v, l);
            0real
        }
    } else {
        1real
    }
}

/// Whether some channel is at most a bound.
spec fn some_at_most(r: (real, real, real), b: real) -> bool {
    r.0 <= b || r.1 <= b || r.2 <= b
}

/// Whether some channel is at least a bound.
spec fn some_at_least(r: (real, real, real), b: real) -> bool {
    r.0 >= b || r.1 >= b || r.2 >= b
}

/// The channels of a moved color lie at most one apart.
proof fn lemma_narrow(m: (real, real, real), c: (real, real, real), n: real, x: real)
    requires
        apart(m, c, 1real, 20real / 16777216real),
        n == m.0 || n == m.1 || n == m.2,
        x == m.0 || x == m.1 || x == m.2,
        0real <= c.0 && c.0 <= 1real,
        0real <= c.1 && c.1 <= 1real,
        0real <= c.2 && c.2 <= 1real,
        x > 1real,
    ensures
        -(24real / 16777216real) <= n,
{
}

/// A color with a bright channel is not dark.
proof fn lemma_not_dark(m: (real, real, real), n: real, x: real, l: real, g: real)
    requires
        n <= m.0,
        n <= m.1,
        n <= m.2,
        x == m.0 || x == m.1 || x == m.2,
        x > 1real,
        -(24real / 16777216real) <= n,
        size(l - weighed(m.0, m.1, m.2)) <= 4real * ((9real / 4real) / 16777216real + g),
        g <= 1real / 1267650600228229401496703205376real,
    ensures
        1real / 16real <= l,
{
}

/// Where the greatest channel goes when it is lowered.
proof fn lemma_lowered_end(r: real, w: real, l: real, x: real, t: real)
    requires
        size(r - (l + t * (w - l))) <= 64real / 16777216real,
        w >= x - 5000real / 16777216real,
        share_of(t, x - l, 1real - l),
    ensures
        r >= 1real - 12000real / 16777216real,
{
    let e = 5000real / 16777216real;
    lemma_exchanged(t, w - l);
    lemma_exchanged(t, x - l);
    lemma_times((x - l) - e, w - l, t);
    lemma_distributes(x - l, e, t);
    lemma_exchanged(e, t);
    lemma_times(t, 2real, e);
}

/// How the channels of a color that is moved to a luminosity lie apart.
proof fn lemma_chroma(c: Seq<Binary32>, l: Binary32) -> (k: real)
    requires
        c.len() == 3,
        all_fractional(c),
        fractional(l),
    ensures
        0real <= k,
        k <= 1real,
        apart(channels(with_luminosity(c, l)), channels(c), k, 9000real / 16777216real),
        k == 1real || some_at_most(channels(with_luminosity(c, l)), 12000real / 16777216real)
            || some_at_least(
            channels(with_luminosity(c, l)),
            1real - 12000real / 16777216real,
        ),
{
    let m = moved(c, l);
    lemma_moved_color(c, l);
    lemma_small_number(l);
    lemma_small_number(c[0]);
    lemma_small_number(c[1]);
    lemma_small_number(c[2]);
    lemma_without_negatives(m);
    let low = without_negatives(m);
    let r = with_luminosity(c, l);
    assert(r =~= without_excess(m, low));
    let j = lemma_first_scale(m);
    lemma_values();
    lemma_extremes(m);
    lemma_limit_size();
    let (lf, xf, of) = (luminosity(m), greatest(m), Binary32(ONE));
    let (light, x, n) = (number(lf), number(xf), number(least(m)));
    lemma_number_order(of, xf);
    lemma_number_order(xf, of);
    assert(within(low[0], 3real) && within(low[1], 3real) && within(low[2], 3real));
    if of.less(xf) && Binary32(BILLIONTH).less(xf.sub(lf).abs()) {
        lemma_narrow(channels(m), channels(c), n, x);
        lemma_lum(m, 9real / 4real);
        lemma_part(0real);
        lemma_not_dark(channels(m), n, x, light, speck());
        assert(r =~= lowered_color(m, low));
        if light <= 1real {
            lemma_lowered_to_dim(m, low);
            let t = choose|t: real| #[trigger]
                pulled(channels(lowered_color(m, low)), channels(low), light, t) && share_of(
                    t,
                    x - light,
                    1real - light,
                );
            let (v, w) = (channels(r), channels(low));
            lemma_pulled_apart(v, w, light, t);
            lemma_composed(v, w, channels(m), channels(c), j, capped(t), 8800real / 16777216real);
            let top = x - 5000real / 16777216real;
            if w.0 >= top {
                lemma_lowered_end(v.0, w.0, light, x, t);
            } else if w.1 >= top {
                lemma_lowered_end(v.1, w.1, light, x, t);
            } else {
                lemma_lowered_end(v.2, w.2, light, x, t);
            }
            j * capped(t)
        } else {
            lemma_lowered_to_bright(m, low);
            lemma_near_gray(channels(r), channels(c), light);
            0real
        }
    } else {
        let w = channels(low);
        lemma_composed(w, w, channels(m), channels(c), j, 1real, 8800real / 16777216real);
        assert(j * 1real == j);
        j
    }
}

/// Whether the channels of a color lie apart as those of another do, scaled by a factor, but for
/// a thousandth.
pub open spec fn spread_alike(r: Seq<Binary32>, c: Seq<Binary32>, k: real) -> bool {
    forall|i: int, j: int|
        0 <= i < 3 && 0 <= j < 3 ==> size(
            (number(#[trigger] r[i]) - number(#[trigger] r[j])) - (number(c[i]) - number(c[j])) * k,
        ) <= 1real / 1024real
}

/// Whether a channel of a color is as dark or as bright as can be, but for a thousandth.
pub open spec fn at_an_end(r: Seq<Binary32>) -> bool {
    exists|i: int|
        0 <= i < 3 && (number(#[trigger] r[i]) <= 1real / 1024real || number(r[i]) >= 1real - 1real
            / 1024real)
}

/// The color whose chroma a blend keeps, in the modes that keep all of one.
pub open spec fn chroma_kept(
    cb: Seq<Binary32>,
    cs: Seq<Binary32>,
    mode: CompositeMode,
) -> Option<Seq<Binary32>> {
    match mode {
        CompositeMode::HslColor => Some(cs),
        CompositeMode::HslLuminosity => Some(cb),
        _ => None,
    }
}

/// By color a blend has the chroma of the source, and by luminosity that of the backdrop: its
/// channels lie apart as those do. Only where a channel comes to lie at an end of the range are
/// all distances scaled down alike.
pub proof fn blends_keep_the_chroma(cb: Seq<Binary32>, cs: Seq<Binary32>, mode: CompositeMode)
    requires
        cb.len() == 3,
        cs.len() == 3,
        all_fractional(cb),
        all_fractional(cs),
        chroma_kept(cb, cs, mode) is Some,
    ensures
        exists|k: real|
            0real <= k && k <= 1real && #[trigger] spread_alike(
                blended_color(cb, cs, mode),
                chroma_kept(cb, cs, mode)->0,
                k,
            ) && (k == 1real || at_an_end(blended_color(cb, cs, mode))),
{
    lemma_fractional_light(cb);
    lemma_fractional_light(cs);
    let r = blended_color(cb, cs, mode);
    let c = chroma_kept(cb, cs, mode)->0;
    let l = luminosity(light_kept(cb, cs, mode)->0);
    assert(r == with_luminosity(c, l));
    let k = lemma_chroma(c, l);
    lemma_spread(r, c, k);
}

/// A color moved to a luminosity keeps its chroma: its channels lie apart as before, scaled down
/// alike only where one comes to lie at an end of the range.
pub proof fn moved_colors_keep_the_chroma(c: Seq<Binary32>, l: Binary32)
    requires
        c.len() == 3,
        all_fractional(c),
        fractional(l),
    ensures
        exists|k: real|
            0real <= k && k <= 1real && #[trigger] spread_alike(with_luminosity(c, l), c, k) && (k
                == 1real || at_an_end(with_luminosity(c, l))),
{
    let k = lemma_chroma(c, l);
    lemma_spread(with_luminosity(c, l), c, k);
}

/// Colors whose channels lie apart alike.
proof fn lemma_spread(r: Seq<Binary32>, c: Seq<Binary32>, k: real)
    requires
        apart(channels(r), channels(c), k, 9000real / 16777216real),
        k == 1real || some_at_most(channels(r), 12000real / 16777216real) || some_at_least(
            channels(r),
            1real - 12000real / 16777216real,
        ),
    ensures
        spread_alike(r, c, k),
        k == 1real || at_an_end(r),
{
    assert forall|i: int, j: int| 0 <= i < 3 && 0 <= j < 3 implies size(
        (number(#[trigger] r[i]) - number(#[trigger] r[j])) - (number(c[i]) - number(c[j])) * k,
    ) <= 1real / 1024real by {
        let (d, e) = (number(c[i]) - number(c[j]), number(c[j]) - number(c[i]));
        lemma_distributes(0real, e, k);
        assert(0real - e == d);
        assert(0real * k == 0real);
    }
}

} // verus!
