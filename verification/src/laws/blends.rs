//! What the separable blends compute, against exact real numbers.
use crate::binary32::{unity, Binary32};
use crate::blend::{
    b_colorburn, b_colordodge, b_hardlight, b_screen, b_softlight, blended_color, channel_blend,
    softlight_curve, CompositeMode,
};
use crate::bounds::{all_fractional, fractional};
use crate::consts::{FOUR, HALF, ONE, QUARTER, SIXTEEN, TWELVE, TWO, ZERO};
use crate::laws::circles::{lemma_four, lemma_root};
use crate::laws::inverses::lemma_bounded_product;
use crate::laws::luminosities::lemma_binade;
use crate::order::{lemma_div_order, lemma_div_self, lemma_same_number, lemma_values};
use crate::reals::{
    lemma_absolute_number, lemma_cancelled, lemma_distributes, lemma_divided_back, lemma_exchanged,
    lemma_limit_size, lemma_number_order, lemma_part, lemma_product, lemma_quotient, lemma_shared,
    lemma_size_product, lemma_small_number, lemma_subtraction, lemma_sum, lemma_times, lemma_two,
    number, part, size,
};
use vstd::arithmetic::power2::lemma2_to64;
use vstd::prelude::*;

verus! {

/// A number that is at most one, or one.
pub open spec fn at_most_one(x: real) -> real {
    if x < 1real {
        x
    } else {
        1real
    }
}

/// The curve that soft light lightens a dark channel along.
pub open spec fn dark_curve(b: real) -> real {
    ((16real * b - 12real) * b + 4real) * b
}

/// Whether a number is what a separable mode blends a backdrop channel and a source channel to,
/// but for an error.
pub open spec fn blends_to(v: real, b: real, s: real, mode: CompositeMode, e: real) -> bool {
    match mode {
        CompositeMode::Multiply => size(v - b * s) <= e,
        CompositeMode::Screen => size((1real - v) - (1real - b) * (1real - s)) <= e,
        CompositeMode::Overlay => lit_to(v, s, b, e),
        CompositeMode::Darken => v <= b && v <= s && (v == b || v == s),
        CompositeMode::Lighten => v >= b && v >= s && (v == b || v == s),
        CompositeMode::ColorDodge => if b == 0real {
            v == 0real
        } else if s >= 1real {
            v == 1real
        } else {
            size(v - at_most_one(b / (1real - s))) <= e
        },
        CompositeMode::ColorBurn => if b >= 1real {
            v == 1real
        } else if s == 0real {
            v == 0real
        } else {
            size((1real - v) - at_most_one((1real - b) / s)) <= e
        },
        CompositeMode::HardLight => lit_to(v, b, s, e),
        CompositeMode::SoftLight => if s <= 1real / 2real {
            size((b - v) - ((1real - 2real * s) * b) * (1real - b)) <= e
        } else if b <= 1real / 4real {
            size((v - b) - (2real * s - 1real) * (dark_curve(b) - b)) <= e
        } else {
            exists|root: real|
                0real <= root && size(root * root - b) <= e && #[trigger] lightened(
                    v,
                    b,
                    s,
                    root,
                    e,
                )
        },
        CompositeMode::Difference => size(v - size(b - s)) <= e,
        CompositeMode::Exclusion => size((v - b - s) + 2real * (b * s)) <= e,
        _ => true,
    }
}

/// Whether a number is a backdrop channel lightened towards a root, but for an error.
pub open spec fn lightened(v: real, b: real, s: real, root: real, e: real) -> bool {
    size((v - b) - (2real * s - 1real) * (root - b)) <= e
}

/// Whether a number is a channel multiplied or screened by twice the light, but for an error.
pub open spec fn lit_to(v: real, b: real, s: real, e: real) -> bool {
    if s <= 1real / 2real {
        size(v - (2real * b) * s) <= e
    } else {
        size((1real - v) - (2real * (1real - b)) * (1real - s)) <= e
    }
}

/// Every separable mode blends two channels to what its formula gives, but for sixty-four parts
/// in `2^24`.
pub proof fn channels_blend_by_their_formulas(cb: Binary32, cs: Binary32, mode: CompositeMode)
    requires
        fractional(cb),
        fractional(cs),
        channel_blend(cb, cs, mode) is Some,
    ensures
        channel_blend(cb, cs, mode)->0.finite(),
        blends_to(
            number(channel_blend(cb, cs, mode)->0),
            number(cb),
            number(cs),
            mode,
            64real * part(),
        ),
{
    lemma_small_number(cb);
    lemma_small_number(cs);
    lemma_part(64real);
    let (b, s) = (number(cb), number(cs));
    lemma_number_order(cb, cs);
    lemma_number_order(cs, cb);
    match mode {
        CompositeMode::Multiply => {
            lemma_product_near(cb, cs, b, s, 1real, 1real, 0real, 0real);
        },
        CompositeMode::Screen => {
            lemma_screened(cb, cs);
        },
        CompositeMode::Overlay => {
            lemma_lit(cs, cb);
        },
        CompositeMode::HardLight => {
            lemma_lit(cb, cs);
        },
        CompositeMode::ColorDodge => {
            lemma_dodged(cb, cs);
        },
        CompositeMode::ColorBurn => {
            lemma_burned(cb, cs);
        },
        CompositeMode::SoftLight => {
            lemma_softly_lit(cb, cs);
        },
        CompositeMode::Difference => {
            lemma_difference_near(cb, cs, b, s, 1real, 0real, 0real);
            lemma_absolute_number(cb.sub(cs));
        },
        CompositeMode::Exclusion => {
            lemma_excluded(cb, cs);
        },
        _ => {},
    }
}

/// Whether a mode blends each channel for itself.
pub open spec fn separable(mode: CompositeMode) -> bool {
    match mode {
        CompositeMode::Multiply
        | CompositeMode::Screen
        | CompositeMode::Overlay
        | CompositeMode::Darken
        | CompositeMode::Lighten
        | CompositeMode::ColorDodge
        | CompositeMode::ColorBurn
        | CompositeMode::HardLight
        | CompositeMode::SoftLight
        | CompositeMode::Difference
        | CompositeMode::Exclusion => true,
        _ => false,
    }
}

/// In a separable mode every channel of a blend is what the formula of the mode gives for the
/// channels of the backdrop and the source, but for sixty-four parts in `2^24`.
pub proof fn colors_blend_by_their_formulas(
    cb: Seq<Binary32>,
    cs: Seq<Binary32>,
    mode: CompositeMode,
    i: int,
)
    requires
        all_fractional(cb),
        all_fractional(cs),
        separable(mode),
        0 <= i < 3,
    ensures
        blended_color(cb, cs, mode)[i].finite(),
        blends_to(
            number(blended_color(cb, cs, mode)[i]),
            number(cb[i]),
            number(cs[i]),
            mode,
            64real * part(),
        ),
{
    assert(fractional(cb[i]) && fractional(cs[i]));
    channels_blend_by_their_formulas(cb[i], cs[i], mode);
}

/// A sum of numbers that are near two others.
pub proof fn lemma_sum_near(x: Binary32, y: Binary32, p: real, q: real, m: real, d: real, e: real)
    requires
        x.finite(),
        y.finite(),
        size(number(x) - p) <= d,
        size(number(y) - q) <= e,
        size(p + q) <= m,
        d <= 1real / 16real,
        e <= 1real / 16real,
        m <= 64real,
    ensures
        x.add(y).finite(),
        size(number(x.add(y)) - (p + q)) <= d + e + (m + 1real) / 16777216real,
{
    lemma_limit_size();
    lemma_part(size(number(x) + number(y)));
    lemma_sum(x, y);
}

/// A difference of numbers that are near two others.
pub proof fn lemma_difference_near(
    x: Binary32,
    y: Binary32,
    p: real,
    q: real,
    m: real,
    d: real,
    e: real,
)
    requires
        x.finite(),
        y.finite(),
        size(number(x) - p) <= d,
        size(number(y) - q) <= e,
        size(p - q) <= m,
        d <= 1real / 16real,
        e <= 1real / 16real,
        m <= 64real,
    ensures
        x.sub(y).finite(),
        size(number(x.sub(y)) - (p - q)) <= d + e + (m + 1real) / 16777216real,
{
    lemma_limit_size();
    lemma_part(size(number(x) - number(y)));
    lemma_subtraction(x, y);
}

/// A product of numbers that are near two others.
pub proof fn lemma_product_near(
    x: Binary32,
    y: Binary32,
    p: real,
    q: real,
    a: real,
    b: real,
    d: real,
    e: real,
)
    requires
        x.finite(),
        y.finite(),
        size(number(x) - p) <= d,
        size(number(y) - q) <= e,
        size(p) <= a,
        size(q) <= b,
        a <= 16real,
        b <= 16real,
        d <= 1real / 16real,
        e <= 1real / 16real,
    ensures
        x.mul(y).finite(),
        size(number(x.mul(y)) - p * q) <= d * b + d * e + a * e + (a * b + 4real) / 16777216real,
{
    lemma_limit_size();
    let (u, v) = (number(x), number(y));
    let (f, h) = (u - p, v - q);
    lemma_distributes(u, p, v);
    lemma_exchanged(p, v);
    lemma_exchanged(p, q);
    lemma_distributes(v, q, p);
    assert(u * v - p * q == f * v + h * p);
    lemma_bounded_product(f, v, d, b + e);
    lemma_bounded_product(h, p, e, a);
    lemma_exchanged(e, a);
    lemma_exchanged(d, b + e);
    lemma_distributes(b, e, d);
    lemma_exchanged(b, d);
    lemma_exchanged(e, d);
    lemma_bounded_product(p, q, a, b);
    lemma_bounded_product(f, v, 1real / 16real, 17real);
    lemma_bounded_product(h, p, 1real / 16real, 16real);
    lemma_bounded_product(p, q, 16real, 16real);
    lemma_part(size(u * v));
    lemma_product(x, y);
    let k = d * b + d * e + a * e;
    assert(size(u * v - p * q) <= k);
    assert(size(u * v - p * q) <= 3real);
    assert(size(p * q) <= a * b);
}

/// One less a channel.
pub proof fn lemma_rest(x: Binary32)
    requires
        fractional(x),
    ensures
        Binary32(ONE).sub(x).finite(),
        size(number(Binary32(ONE).sub(x)) - (1real - number(x))) <= 2real / 16777216real,
        size(number(Binary32(ONE).sub(x)) - (1real - number(x))) <= (1real - number(x))
            / 16777216real,
        Binary32(ONE).finite(),
        number(Binary32(ONE)) == 1real,
{
    lemma_limit_size();
    lemma_values();
    lemma_small_number(x);
    lemma_number_order(x, x);
    lemma_part(size(1real - number(x)));
    lemma_subtraction(Binary32(ONE), x);
}

/// Twice a number that is near another.
proof fn lemma_twice(x: Binary32, p: real, d: real)
    requires
        x.finite(),
        size(number(x) - p) <= d,
        size(p) <= 1real,
        0real <= d,
        d <= 1real / 16real,
    ensures
        Binary32(TWO).mul(x).finite(),
        size(number(Binary32(TWO).mul(x)) - 2real * p) <= 2real * d + 6real / 16777216real,
{
    lemma_four();
    lemma_two();
    let two = number(Binary32(TWO));
    lemma_product_near(Binary32(TWO), x, 2real, p, 2real, 1real, 0real, d);
    assert(0real * d == 0real);
}

/// A screened channel.
proof fn lemma_screened(cb: Binary32, cs: Binary32)
    requires
        fractional(cb),
        fractional(cs),
    ensures
        b_screen(cb, cs).finite(),
        blends_to(
            number(b_screen(cb, cs)),
            number(cb),
            number(cs),
            CompositeMode::Screen,
            64real / 16777216real,
        ),
{
    lemma_small_number(cb);
    lemma_small_number(cs);
    let (b, s) = (number(cb), number(cs));
    lemma_sum_near(cb, cs, b, s, 2real, 0real, 0real);
    lemma_product_near(cb, cs, b, s, 1real, 1real, 0real, 0real);
    lemma_bounded_product(b, s, 1real, 1real);
    lemma_difference_near(
        cb.add(cs),
        cb.mul(cs),
        b + s,
        b * s,
        3real,
        3real / 16777216real,
        5real / 16777216real,
    );
    lemma_complements(b, s);
}

/// The product of two complements.
pub proof fn lemma_complements(b: real, s: real)
    ensures
        (1real - b) * (1real - s) == 1real - b - s + b * s,
{
    lemma_distributes(1real, b, 1real - s);
    lemma_exchanged(b, 1real - s);
    lemma_distributes(1real, s, b);
    lemma_exchanged(s, b);
}

/// A channel by exclusion.
proof fn lemma_excluded(cb: Binary32, cs: Binary32)
    requires
        fractional(cb),
        fractional(cs),
    ensures
        ({
            let v = cb.add(cs).sub(Binary32(TWO).mul(cb).mul(cs));
            &&& v.finite()
            &&& blends_to(
                number(v),
                number(cb),
                number(cs),
                CompositeMode::Exclusion,
                64real / 16777216real,
            )
        }),
{
    lemma_small_number(cb);
    lemma_small_number(cs);
    let (b, s) = (number(cb), number(cs));
    lemma_sum_near(cb, cs, b, s, 2real, 0real, 0real);
    lemma_twice(cb, b, 0real);
    let two = Binary32(TWO).mul(cb);
    lemma_product_near(two, cs, 2real * b, s, 2real, 1real, 6real / 16777216real, 0real);
    lemma_bounded_product(b, s, 1real, 1real);
    assert((2real * b) * s == 2real * (b * s)) by (nonlinear_arith);
    lemma_difference_near(
        cb.add(cs),
        two.mul(cs),
        b + s,
        2real * (b * s),
        4real,
        3real / 16777216real,
        12real / 16777216real,
    );
}

/// A channel under a light.
proof fn lemma_lit(cb: Binary32, cs: Binary32)
    requires
        fractional(cb),
        fractional(cs),
    ensures
        b_hardlight(cb, cs).finite(),
        lit_to(
            number(b_hardlight(cb, cs)),
            number(cb),
            number(cs),
            64real / 16777216real,
        ),
{
    lemma_small_number(cb);
    lemma_small_number(cs);
    lemma_halves();
    lemma_number_order(cs, Binary32(HALF));
    lemma_number_order(Binary32(HALF), cs);
    let (b, s) = (number(cb), number(cs));
    if cs.at_most(Binary32(HALF)) {
        lemma_twice(cb, b, 0real);
        lemma_product_near(
            Binary32(TWO).mul(cb),
            cs,
            2real * b,
            s,
            2real,
            1real,
            6real / 16777216real,
            0real,
        );
    } else {
        lemma_rest(cb);
        lemma_rest(cs);
        let (i, j) = (Binary32(ONE).sub(cb), Binary32(ONE).sub(cs));
        lemma_twice(i, 1real - b, 2real / 16777216real);
        let k = Binary32(TWO).mul(i);
        lemma_product_near(
            k,
            j,
            2real * (1real - b),
            1real - s,
            2real,
            1real,
            10real / 16777216real,
            2real / 16777216real,
        );
        let v = (2real * (1real - b)) * (1real - s);
        lemma_bounded_product(2real * (1real - b), 1real - s, 2real, 1real);
        lemma_difference_near(
            Binary32(ONE),
            k.mul(j),
            1real,
            v,
            3real,
            0real,
            24real / 16777216real,
        );
    }
}

/// A half and a quarter, as real numbers.
pub proof fn lemma_halves()
    ensures
        Binary32(HALF).finite(),
        number(Binary32(HALF)) == 1real / 2real,
        Binary32(QUARTER).finite(),
        number(Binary32(QUARTER)) == 1real / 4real,
        Binary32(TWELVE).finite(),
        number(Binary32(TWELVE)) == 12real,
        Binary32(SIXTEEN).finite(),
        number(Binary32(SIXTEEN)) == 16real,
{
    lemma2_to64();
    lemma_binade(0x0080_0000, 125, 24);
    lemma_binade(0x0080_0000, 124, 25);
    lemma_binade(0x00c0_0000, 129, 20);
    lemma_binade(0x0080_0000, 130, 19);
    assert(8388608real / 16777216real == 1real / 2real);
    assert(8388608real / 33554432real == 1real / 4real);
    assert(12582912real / 1048576real == 12real);
    assert(8388608real / 524288real == 16real);
}

/// A quotient that is at most one, or one.
proof fn lemma_capped_quotient(x: Binary32, y: Binary32, p: real, c: real)
    requires
        x.finite(),
        y.finite(),
        0real <= number(x),
        number(x) <= 2real,
        0real < c,
        0real < number(y),
        size(number(x) - p) <= p / 16777216real,
        size(number(y) - c) <= c / 16777216real,
        0real <= p,
    ensures
        x.div(y).min(Binary32(ONE)).finite(),
        size(number(x.div(y).min(Binary32(ONE))) - at_most_one(p / c)) <= 8real / 16777216real,
{
    lemma_limit_size();
    lemma_values();
    lemma_number_order(Binary32(ZERO), y);
    lemma_number_order(y, x);
    lemma_number_order(x, y);
    let (u, v, h) = (number(x), number(y), p / c);
    lemma_divided_back(p, c);
    if y.value() <= x.value() {
        lemma_div_order(y, x, y);
        lemma_div_self(y);
        assert(x.div(y).min(Binary32(ONE)).value() == unity());
        lemma_same_number(x.div(y).min(Binary32(ONE)), Binary32(ONE));
        lemma_number_order(x.div(y).min(Binary32(ONE)), Binary32(ONE));
        lemma_number_order(Binary32(ONE), x.div(y).min(Binary32(ONE)));
        // The exact quotient is hardly less than one.
        lemma_hardly_less(h, p, c, u, v);
    } else {
        let q = u / v;
        lemma_divided_back(u, v);
        lemma_cancelled(0real, q, v);
        lemma_cancelled(q, 1real, v);
        lemma_part(size(q));
        lemma_quotient(x, y);
        let z = x.div(y);
        lemma_number_order(Binary32(ONE), z);
        lemma_number_order(z, Binary32(ONE));
        // The exact quotient is near the one of the rounded numbers.
        let (e, f, m) = (q - h, c - v, 4real / 16777216real);
        lemma_distributes(q, h, c);
        lemma_exchanged(q, c);
        lemma_exchanged(q, v);
        lemma_distributes(c, v, q);
        lemma_shared(f, q);
        assert(size(e * c) <= c / 16777216real + p / 16777216real);
        assert(p <= 2real * c);
        lemma_size_product(e, c);
        lemma_cancelled(size(e), m, c);
    }
}

/// A quotient of numbers that are near two in order.
proof fn lemma_hardly_less(h: real, p: real, c: real, u: real, v: real)
    requires
        h * c == p,
        0real < c,
        0real <= p,
        size(u - p) <= p / 16777216real,
        size(v - c) <= c / 16777216real,
        v <= u,
    ensures
        h >= 1real - 4real / 16777216real,
{
    let k = 4real / 16777216real;
    assert(p >= c - 3real * (c / 16777216real));
    lemma_distributes(1real, k, c);
    assert(k * c == 4real * (c / 16777216real));
    lemma_cancelled(1real - k, h, c);
}

/// A dodged channel.
proof fn lemma_dodged(cb: Binary32, cs: Binary32)
    requires
        fractional(cb),
        fractional(cs),
    ensures
        b_colordodge(cb, cs).finite(),
        blends_to(
            number(b_colordodge(cb, cs)),
            number(cb),
            number(cs),
            CompositeMode::ColorDodge,
            64real / 16777216real,
        ),
{
    lemma_values();
    lemma_small_number(cb);
    lemma_small_number(cs);
    lemma_number_order(Binary32(ZERO), cb);
    lemma_number_order(cb, Binary32(ZERO));
    lemma_number_order(cs, Binary32(ONE));
    lemma_number_order(Binary32(ONE), cs);
    lemma_rest(cs);
    if !cb.equals(Binary32(ZERO)) && !Binary32(ONE).at_most(cs) {
        lemma_capped_quotient(cb, Binary32(ONE).sub(cs), number(cb), 1real - number(cs));
    }
}

/// A burned channel.
proof fn lemma_burned(cb: Binary32, cs: Binary32)
    requires
        fractional(cb),
        fractional(cs),
    ensures
        b_colorburn(cb, cs).finite(),
        blends_to(
            number(b_colorburn(cb, cs)),
            number(cb),
            number(cs),
            CompositeMode::ColorBurn,
            64real / 16777216real,
        ),
{
    lemma_values();
    lemma_small_number(cb);
    lemma_small_number(cs);
    lemma_number_order(Binary32(ZERO), cs);
    lemma_number_order(cs, Binary32(ZERO));
    lemma_number_order(cb, Binary32(ONE));
    lemma_number_order(Binary32(ONE), cb);
    lemma_rest(cb);
    if !Binary32(ONE).at_most(cb) && !cs.equals(Binary32(ZERO)) {
        let (b, s) = (number(cb), number(cs));
        let x = Binary32(ONE).sub(cb);
        lemma_capped_quotient(x, cs, 1real - b, s);
        let h = (1real - b) / s;
        lemma_divided_back(1real - b, s);
        lemma_cancelled(0real, h, s);
        lemma_difference_near(
            Binary32(ONE),
            x.div(cs).min(Binary32(ONE)),
            1real,
            at_most_one(h),
            1real,
            0real,
            8real / 16777216real,
        );
    }
}

/// A channel under a soft light.
proof fn lemma_softly_lit(cb: Binary32, cs: Binary32)
    requires
        fractional(cb),
        fractional(cs),
    ensures
        b_softlight(cb, cs).finite(),
        blends_to(
            number(b_softlight(cb, cs)),
            number(cb),
            number(cs),
            CompositeMode::SoftLight,
            64real / 16777216real,
        ),
{
    lemma_small_number(cb);
    lemma_small_number(cs);
    lemma_halves();
    lemma_four();
    lemma_values();
    lemma_number_order(cs, Binary32(HALF));
    lemma_number_order(Binary32(HALF), cs);
    lemma_number_order(cb, Binary32(QUARTER));
    lemma_number_order(Binary32(QUARTER), cb);
    lemma_rest(cb);
    let (b, s, k) = (number(cb), number(cs), 1real / 16777216real);
    lemma_twice(cs, s, 0real);
    let two = Binary32(TWO).mul(cs);
    if cs.at_most(Binary32(HALF)) {
        lemma_difference_near(Binary32(ONE), two, 1real, 2real * s, 1real, 0real, 6real * k);
        let f = Binary32(ONE).sub(two);
        let p = 1real - 2real * s;
        lemma_product_near(f, cb, p, b, 1real, 1real, 8real * k, 0real);
        lemma_bounded_product(p, b, 1real, 1real);
        let g = f.mul(cb);
        let r = Binary32(ONE).sub(cb);
        lemma_product_near(g, r, p * b, 1real - b, 1real, 1real, 13real * k, 2real * k);
        let v = (p * b) * (1real - b);
        lemma_bounded_product(p * b, 1real - b, 1real, 1real);
        lemma_difference_near(cb, g.mul(r), b, v, 2real, 0real, 22real * k);
    } else {
        lemma_difference_near(two, Binary32(ONE), 2real * s, 1real, 1real, 6real * k, 0real);
        let f = two.sub(Binary32(ONE));
        let curve = softlight_curve(cb);
        if cb.at_most(Binary32(QUARTER)) {
            lemma_dark_curve(cb);
            lemma_towards(cb, f, curve, dark_curve(b), 2real * s - 1real);
        } else {
            lemma_number_order(Binary32(ZERO), cb);
            lemma_root(cb);
            let root = number(curve);
            if root > 2real {
                lemma_times(2real, root, root);
            }
            lemma_towards(cb, f, curve, root, 2real * s - 1real);
            assert(lightened(number(b_softlight(cb, cs)), b, s, root, 64real * k));
        }
    }
}

/// The curve for a dark channel.
proof fn lemma_dark_curve(cb: Binary32)
    requires
        fractional(cb),
        number(cb) <= 1real / 4real,
        cb.at_most(Binary32(QUARTER)),
    ensures
        softlight_curve(cb).finite(),
        size(number(softlight_curve(cb)) - dark_curve(number(cb))) <= 12real / 16777216real,
        size(dark_curve(number(cb))) <= 1real,
{
    lemma_small_number(cb);
    lemma_halves();
    lemma_four();
    let (b, k) = (number(cb), 1real / 16777216real);
    lemma_product_near(
        Binary32(SIXTEEN),
        cb,
        16real,
        b,
        16real,
        1real / 4real,
        0real,
        0real,
    );
    let x = Binary32(SIXTEEN).mul(cb);
    lemma_difference_near(x, Binary32(TWELVE), 16real * b, 12real, 12real, 8real * k, 0real);
    let y = x.sub(Binary32(TWELVE));
    let p = 16real * b - 12real;
    lemma_product_near(y, cb, p, b, 12real, 1real / 4real, 21real * k, 0real);
    lemma_bounded_product(p, b, 12real, 1real / 4real);
    lemma_times(-12real, p, b);
    lemma_times(p, 0real, b);
    let z = y.mul(cb);
    lemma_sum_near(z, Binary32(FOUR), p * b, 4real, 4real, 13real * k, 0real);
    let w = z.add(Binary32(FOUR));
    let q = p * b + 4real;
    lemma_product_near(w, cb, q, b, 4real, 1real / 4real, 18real * k, 0real);
    lemma_bounded_product(q, b, 4real, 1real / 4real);
}

/// A channel moved towards another by a share.
proof fn lemma_towards(cb: Binary32, f: Binary32, curve: Binary32, root: real, share: real)
    requires
        fractional(cb),
        f.finite(),
        curve.finite(),
        size(number(f) - share) <= 8real / 16777216real,
        0real <= share,
        share <= 1real,
        size(number(curve) - root) <= 12real / 16777216real,
        size(root) <= 2real,
    ensures
        ({
            let v = cb.add(f.mul(curve.sub(cb)));
            &&& v.finite()
            &&& size((number(v) - number(cb)) - share * (root - number(cb))) <= 64real
                / 16777216real
        }),
{
    lemma_small_number(cb);
    let (b, k) = (number(cb), 1real / 16777216real);
    lemma_difference_near(curve, cb, root, b, 3real, 12real * k, 0real);
    let d = curve.sub(cb);
    lemma_product_near(f, d, share, root - b, 1real, 3real, 8real * k, 16real * k);
    lemma_bounded_product(share, root - b, 1real, 3real);
    let v = share * (root - b);
    lemma_sum_near(cb, f.mul(d), b, v, 4real, 0real, 48real * k);
}

/// A product of numbers between zero and one.
pub proof fn lemma_unit_product(a: real, b: real)
    requires
        0real <= a,
        a <= 1real,
        0real <= b,
        b <= 1real,
    ensures
        0real <= a * b,
        a * b <= a,
        a * b <= b,
        a * b <= 1real,
{
    lemma_shared(a, b);
    lemma_shared(b, a);
    lemma_exchanged(a, b);
}

/// A quotient of a number that is not negative.
proof fn lemma_positive_quotient(p: real, c: real)
    requires
        0real <= p,
        0real < c,
    ensures
        0real <= p / c,
{
    lemma_divided_back(p, c);
    lemma_cancelled(0real, p / c, c);
}

/// A channel under a light lies between zero and one.
proof fn lemma_lit_range(v: real, b: real, s: real, e: real)
    requires
        lit_to(v, b, s, e),
        0real <= b,
        b <= 1real,
        0real <= s,
        s <= 1real,
    ensures
        -e <= v,
        v <= 1real + e,
{
    if s <= 1real / 2real {
        lemma_unit_product(b, 2real * s);
        assert((2real * b) * s == b * (2real * s)) by (nonlinear_arith);
    } else {
        let (c, d) = (1real - b, 1real - s);
        lemma_unit_product(c, 2real * d);
        assert((2real * c) * d == c * (2real * d)) by (nonlinear_arith);
    }
}

/// A channel between two numbers.
proof fn lemma_between(v: real, b: real, root: real, share: real, e: real, top: real)
    requires
        size((v - b) - share * (root - b)) <= e,
        0real <= share,
        share <= 1real,
        0real <= b,
        b <= top,
        0real <= root,
        root <= top,
    ensures
        -e <= v,
        v <= top + e,
{
    lemma_exchanged(share, root - b);
    lemma_shared(root - b, share);
}

/// Every separable blend of channels between zero and one lies there, but for rounding.
pub proof fn lemma_blend_range(v: real, b: real, s: real, mode: CompositeMode, e: real)
    requires
        blends_to(v, b, s, mode, e),
        separable(mode),
        0real <= b,
        b <= 1real,
        0real <= s,
        s <= 1real,
        0real <= e,
        e <= 1real / 4096real,
    ensures
        -(2real * e) <= v,
        v <= 1real + 2real * e,
{
    let (c, d) = (1real - b, 1real - s);
    lemma_unit_product(b, s);
    lemma_unit_product(c, d);
    match mode {
        CompositeMode::Overlay => {
            lemma_lit_range(v, s, b, e);
        },
        CompositeMode::HardLight => {
            lemma_lit_range(v, b, s, e);
        },
        CompositeMode::ColorDodge => {
            if b != 0real && s < 1real {
                lemma_positive_quotient(b, d);
            }
        },
        CompositeMode::ColorBurn => {
            if b < 1real && s != 0real {
                lemma_positive_quotient(c, s);
            }
        },
        CompositeMode::SoftLight => {
            if s <= 1real / 2real {
                let f = 1real - 2real * s;
                lemma_unit_product(f, b);
                lemma_unit_product(f * b, c);
            } else if b <= 1real / 4real {
                let p = 16real * b - 12real;
                lemma_times(-12real, p, b);
                lemma_times(p, 0real, b);
                let q = p * b + 4real;
                lemma_times(0real, q, b);
                lemma_times(q, 4real, b);
                lemma_between(v, b, dark_curve(b), 2real * s - 1real, e, 1real);
            } else {
                let root = choose|root: real|
                    0real <= root && size(root * root - b) <= e && #[trigger] lightened(
                        v,
                        b,
                        s,
                        root,
                        e,
                    );
                if root > 1real + e {
                    lemma_times(1real, root, root);
                }
                lemma_between(v, b, root, 2real * s - 1real, e, 1real + e);
            }
        },
        CompositeMode::Exclusion | CompositeMode::Screen => {
            lemma_complements(b, s);
            lemma_unit_product(b, d);
            lemma_exchanged(b, d);
            lemma_distributes(1real, s, b);
            lemma_exchanged(s, b);
            lemma_unit_product(s, c);
            lemma_exchanged(s, c);
            lemma_distributes(1real, b, s);
        },
        _ => {},
    }
}

} // verus!
