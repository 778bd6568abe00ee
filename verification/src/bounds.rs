//! How large the results of the arithmetic can get.
use crate::accuracy::{lemma_difference_within, lemma_exact_scaled, lemma_half_and_two};
use crate::binary32::{absolute, nearest_bits, units, unity, whole_root, Binary32, INFINITE};
use crate::blend::{
    ascending, b_colorburn, b_colordodge, b_hardlight, b_multiply, b_screen, b_softlight,
    blended_color, channel_blend, clipped, greatest, least, luminosity, saturation, softlight_curve,
    spec_raised, with_luminosity, with_saturation, CompositeMode,
};
use crate::consts::{
    BILLIONTH, BLUE_WEIGHT, FOUR, GREEN_WEIGHT, ONE, QUARTER, RED_WEIGHT, SIXTEEN, TWELVE, TWO,
    ZERO,
};
use crate::order::{
    lemma_add_order, lemma_add_value, lemma_div_order, lemma_div_self, lemma_div_value,
    lemma_finite_between, lemma_mul_one, lemma_mul_order, lemma_mul_value, lemma_rounded_exact,
    lemma_rounded_order, lemma_values, lemma_zero_product, products_commute, rounded,
};
use crate::rounding::{lemma_root_exists, lemma_units_binades, lemma_units_order};
use vstd::arithmetic::power2::{
    lemma2_to64, lemma_pow2_adds, lemma_pow2_pos, lemma_pow2_strictly_increases, lemma_pow2_unfold,
    pow2,
};
use vstd::prelude::*;

verus! {

/// Whether a number is finite and not past a power of two on either side.
pub open spec fn bounded(x: Binary32, k: nat) -> bool {
    x.finite() && absolute(x.value()) <= pow2(k) * unity()
}

/// Whether a number lies between zero and one.
pub open spec fn fractional(x: Binary32) -> bool {
    x.finite() && 0 <= x.value() <= unity()
}

/// A fraction that is not past a power of two does not round past it.
pub proof fn lemma_rounded_bound(n: nat, d: nat, k: nat)
    requires
        d > 0,
        k <= 120,
        n <= (pow2(k) * unity()) * d,
    ensures
        rounded(n, d) <= pow2(k) * unity(),
{
    let m = pow2(k) * unity();
    lemma_pow2_adds(k, 149);
    lemma_exact_scaled(1, k + 149);
    assert(1 * pow2(k + 149) == pow2(k + 149));
    lemma_infinity(k);
    lemma_units_order(nearest_bits(m, 1), INFINITE as nat);
    assert(rounded(m, 1) == m);
    assert(n * 1 <= m * d);
    lemma_rounded_order(n, d, m, 1);
}

/// Infinity is past every power of two that is spoken of here.
pub proof fn lemma_infinity(k: nat)
    requires
        k <= 120,
    ensures
        pow2(k) * unity() < units(INFINITE as nat),
{
    lemma2_to64();
    lemma_pow2_adds(k, 149);
    lemma_pow2_strictly_increases(k + 149, 277);
    lemma_units_binades(0x0080_0000, 254);
    lemma_pow2_adds(23, 254);
}

/// A number of a bounded value is finite.
pub proof fn lemma_bounded(x: Binary32, k: nat)
    requires
        !x.nan(),
        absolute(x.value()) <= pow2(k) * unity(),
        k <= 120,
    ensures
        bounded(x, k),
{
    lemma_infinity(k);
    lemma_units_order(x.magnitude(), INFINITE as nat);
    lemma_units_order(INFINITE as nat, x.magnitude());
}

/// A number that is bounded is bounded by a larger power too.
proof fn lemma_wider(x: Binary32, a: nat, b: nat)
    requires
        bounded(x, a),
        a <= b,
    ensures
        bounded(x, b),
{
    lemma_values();
    if a < b {
        lemma_pow2_strictly_increases(a, b);
    }
    assert(pow2(a) * unity() <= pow2(b) * unity()) by (nonlinear_arith)
        requires
            pow2(a) <= pow2(b),
            unity() > 0,
    ;
}

/// A number between zero and one is bounded.
pub proof fn lemma_fractional(x: Binary32, k: nat)
    requires
        fractional(x),
    ensures
        bounded(x, k),
{
    lemma2_to64();
    assert(pow2(0) * unity() == unity()) by (nonlinear_arith)
        requires
            pow2(0) == 1,
    ;
    lemma_wider(x, 0, k);
}

/// A product of bounded numbers is bounded.
pub proof fn lemma_mul_bounded(x: Binary32, a: nat, y: Binary32, b: nat)
    requires
        bounded(x, a),
        bounded(y, b),
        a + b <= 120,
    ensures
        bounded(x.mul(y), a + b),
{
    lemma_values();
    lemma_mul_value(x, y);
    let (m, n, u) = (absolute(x.value()), absolute(y.value()), unity());
    let (p, q) = (pow2(a), pow2(b));
    lemma_pow2_adds(a, b);
    assert(m * n <= (p * u) * (q * u)) by (nonlinear_arith)
        requires
            m <= p * u,
            n <= q * u,
    ;
    assert((p * u) * (q * u) == ((p * q) * u) * u) by (nonlinear_arith);
    lemma_rounded_bound(m * n, u, a + b);
    lemma_bounded(x.mul(y), a + b);
}

/// A sum of bounded numbers is bounded.
pub proof fn lemma_add_bounded(x: Binary32, a: nat, y: Binary32, b: nat, k: nat)
    requires
        bounded(x, a),
        bounded(y, b),
        a < k,
        b < k,
        k <= 120,
    ensures
        bounded(x.add(y), k),
{
    lemma_values();
    lemma_add_value(x, y);
    let j = (k - 1) as nat;
    lemma_wider(x, a, j);
    lemma_wider(y, b, j);
    lemma_pow2_unfold(k);
    let (p, u) = (pow2(j), unity());
    assert(p * u + p * u == (2 * p) * u) by (nonlinear_arith);
    let n = absolute(x.value() + y.value());
    assert(n <= (pow2(k) * u) * 1);
    lemma_rounded_bound(n, 1, k);
    lemma_bounded(x.add(y), k);
}

proof fn lemma_sub_bounded(x: Binary32, a: nat, y: Binary32, b: nat, k: nat)
    requires
        bounded(x, a),
        bounded(y, b),
        a < k,
        b < k,
        k <= 120,
    ensures
        bounded(x.sub(y), k),
{
    lemma_add_bounded(x, a, y.neg(), b, k);
}

proof fn lemma_div_bounded(x: Binary32, a: nat, y: Binary32, j: nat)
    requires
        bounded(x, a),
        y.finite(),
        absolute(y.value()) * pow2(j) >= unity(),
        a + j <= 120,
    ensures
        bounded(x.div(y), a + j),
{
    reveal(Binary32::spec_div);
    lemma_values();
    let (m, n, u) = (absolute(x.value()), absolute(y.value()), unity());
    let (p, q) = (pow2(a), pow2(j));
    assert(units(0) == 0);
    assert(n > 0) by (nonlinear_arith)
        requires
            n * q >= u,
            u > 0,
            n >= 0,
    ;
    lemma_pow2_adds(a, j);
    assert(m * u <= ((p * q) * u) * n) by (nonlinear_arith)
        requires
            m <= p * u,
            n * q >= u,
            p >= 0,
            u >= 0,
    ;
    lemma_rounded_bound(m * u, n, a + j);
    lemma_bounded(x.div(y), a + j);
}

/// The bounds of the numbers that the formulas hold.
pub proof fn lemma_constants()
    ensures
        fractional(Binary32(ZERO)),
        fractional(Binary32(ONE)),
        fractional(Binary32(RED_WEIGHT)),
        fractional(Binary32(GREEN_WEIGHT)),
        fractional(Binary32(BLUE_WEIGHT)),
        bounded(Binary32(TWO), 1),
        bounded(Binary32(FOUR), 4),
        bounded(Binary32(TWELVE), 4),
        bounded(Binary32(SIXTEEN), 4),
        Binary32(BILLIONTH).value() * pow2(30) >= unity(),
{
    lemma_values();
    lemma_half_and_two();
    lemma2_to64();
    assert(units(0) == 0);
    lemma_units_order(0, RED_WEIGHT as nat);
    lemma_units_order(0, GREEN_WEIGHT as nat);
    lemma_units_order(0, BLUE_WEIGHT as nat);
    lemma_units_order(RED_WEIGHT as nat, ONE as nat);
    lemma_units_order(GREEN_WEIGHT as nat, ONE as nat);
    lemma_units_order(BLUE_WEIGHT as nat, ONE as nat);
    lemma_units_binades(0x0080_0000, 130);
    lemma_pow2_adds(23, 130);
    lemma_pow2_adds(4, 149);
    lemma_units_order(FOUR as nat, SIXTEEN as nat);
    lemma_units_order(TWELVE as nat, SIXTEEN as nat);
    lemma_units_binades(0x0080_0000, 96);
    lemma_pow2_adds(23, 96);
    lemma_pow2_adds(119, 30);
    lemma_units_order(0x3080_0000, BILLIONTH as nat);
    assert(Binary32(BILLIONTH).value() * pow2(30) >= pow2(119) * pow2(30)) by (nonlinear_arith)
        requires
            Binary32(BILLIONTH).value() >= pow2(119),
            pow2(30) >= 0,
    ;
}

/// One less a number between zero and one lies there too.
pub proof fn lemma_complement(x: Binary32)
    requires
        fractional(x),
    ensures
        fractional(Binary32(ONE).sub(x)),
{
    lemma_values();
    lemma_difference_within(Binary32(ONE), x, Binary32(ONE));
}

/// A product of numbers between zero and one lies there too.
pub proof fn lemma_fractional_product(x: Binary32, y: Binary32)
    requires
        fractional(x),
        fractional(y),
    ensures
        fractional(x.mul(y)),
        x.mul(y).value() <= y.value(),
{
    lemma_values();
    lemma_mul_order(x, Binary32(ONE), y);
    lemma_mul_one(y);
    lemma_mul_order(Binary32(ZERO), x, y);
    lemma_zero_product(Binary32(ZERO), y);
    lemma_finite_between(Binary32(ZERO), x.mul(y), Binary32(ONE));
}

/// A quotient of numbers that are not negative, held to one.
proof fn lemma_held_quotient(x: Binary32, y: Binary32)
    requires
        fractional(x),
        fractional(y),
        y.value() > 0,
    ensures
        fractional(x.div(y).min(Binary32(ONE))),
{
    lemma_values();
    lemma_div_value(x, y);
    let q = x.div(y).min(Binary32(ONE));
    lemma_finite_between(Binary32(ZERO), q, Binary32(ONE));
}

/// The root of a number between zero and one lies there too.
proof fn lemma_fractional_root(x: Binary32)
    requires
        fractional(x),
    ensures
        fractional(x.sqrt()),
{
    reveal(Binary32::spec_sqrt);
    lemma_values();
    assert(units(0) == 0);
    lemma_units_order(0, x.magnitude());
    if !x.zero() {
        let (n, u) = (units(x.magnitude()), unity());
        let square = n * u;
        let root = whole_root(square);
        lemma_root_exists(square);
        assert(square <= u * u) by (nonlinear_arith)
            requires
                square == n * u,
                n <= u,
        ;
        assert(root <= u) by (nonlinear_arith)
            requires
                root * root <= u * u,
                root >= 0,
                u >= 0,
        ;
        lemma_rounded_exact(Binary32(ONE));
        if root * root == square {
            lemma_rounded_order(root, 1, u, 1);
        } else {
            if root == u {
                assert(root * root == u * u);
            }
            lemma_rounded_order(2 * root + 1, 2, u, 1);
        }
        lemma_finite_between(Binary32(ZERO), x.sqrt(), Binary32(ONE));
    }
}

/// Every separable blend of numbers between zero and one is bounded.
proof fn lemma_channel_blend(cb: Binary32, cs: Binary32, mode: CompositeMode)
    requires
        fractional(cb),
        fractional(cs),
    ensures
        channel_blend(cb, cs, mode) matches Some(v) ==> bounded(v, 12),
{
    lemma_values();
    lemma_constants();
    lemma_fractional(cb, 0);
    lemma_fractional(cs, 0);
    lemma_fractional(Binary32(ONE), 0);
    lemma_complement(cb);
    lemma_complement(cs);
    match mode {
        CompositeMode::Multiply => {
            lemma_mul_bounded(cb, 0, cs, 0);
            lemma_wider(b_multiply(cb, cs), 0, 12);
        },
        CompositeMode::Screen => {
            lemma_add_bounded(cb, 0, cs, 0, 1);
            lemma_mul_bounded(cb, 0, cs, 0);
            lemma_sub_bounded(cb.add(cs), 1, cb.mul(cs), 0, 2);
            lemma_wider(b_screen(cb, cs), 2, 12);
        },
        CompositeMode::Overlay => {
            lemma_hardlight(cs, cb);
        },
        CompositeMode::HardLight => {
            lemma_hardlight(cb, cs);
        },
        CompositeMode::Darken => {
            lemma_fractional(cb.min(cs), 12);
        },
        CompositeMode::Lighten => {
            lemma_fractional(cb.max(cs), 12);
        },
        CompositeMode::ColorDodge => {
            if !cb.equals(Binary32(ZERO)) && !Binary32(ONE).at_most(cs) {
                lemma_positive_difference(Binary32(ONE), cs);
                lemma_held_quotient(cb, Binary32(ONE).sub(cs));
            }
            lemma_fractional(b_colordodge(cb, cs), 12);
        },
        CompositeMode::ColorBurn => {
            if !Binary32(ONE).at_most(cb) && !cs.equals(Binary32(ZERO)) {
                lemma_held_quotient(Binary32(ONE).sub(cb), cs);
                lemma_complement(Binary32(ONE).sub(cb).div(cs).min(Binary32(ONE)));
            }
            lemma_fractional(b_colorburn(cb, cs), 12);
        },
        CompositeMode::SoftLight => {
            lemma_softlight(cb, cs);
        },
        CompositeMode::Difference => {
            lemma_sub_bounded(cb, 0, cs, 0, 1);
            lemma_wider(cb.sub(cs), 1, 12);
        },
        CompositeMode::Exclusion => {
            lemma_add_bounded(cb, 0, cs, 0, 1);
            lemma_mul_bounded(Binary32(TWO), 1, cb, 0);
            lemma_mul_bounded(Binary32(TWO).mul(cb), 1, cs, 0);
            lemma_sub_bounded(cb.add(cs), 1, Binary32(TWO).mul(cb).mul(cs), 1, 2);
            lemma_wider(cb.add(cs).sub(Binary32(TWO).mul(cb).mul(cs)), 2, 12);
        },
        _ => {},
    }
}

/// The difference of two different numbers is not nothing.
proof fn lemma_positive_difference(x: Binary32, y: Binary32)
    requires
        fractional(x),
        fractional(y),
        y.value() < x.value(),
    ensures
        fractional(x.sub(y)),
        x.sub(y).value() > 0,
{
    lemma_values();
    lemma_difference_within(x, y, Binary32(ONE));
    lemma_add_value(x, y.neg());
    let least = Binary32(1);
    assert(units(1) == 1);
    lemma_rounded_exact(least);
    lemma_rounded_order(1, 1, (x.value() - y.value()) as nat, 1);
}

proof fn lemma_hardlight(cb: Binary32, cs: Binary32)
    requires
        fractional(cb),
        fractional(cs),
    ensures
        bounded(b_hardlight(cb, cs), 12),
{
    lemma_constants();
    lemma_fractional(cb, 0);
    lemma_fractional(cs, 0);
    lemma_fractional(Binary32(ONE), 0);
    lemma_complement(cb);
    lemma_complement(cs);
    let (b, s) = (Binary32(ONE).sub(cb), Binary32(ONE).sub(cs));
    lemma_fractional(b, 0);
    lemma_fractional(s, 0);
    lemma_mul_bounded(Binary32(TWO), 1, cb, 0);
    lemma_mul_bounded(Binary32(TWO).mul(cb), 1, cs, 0);
    lemma_wider(Binary32(TWO).mul(cb).mul(cs), 1, 12);
    lemma_mul_bounded(Binary32(TWO), 1, b, 0);
    lemma_mul_bounded(Binary32(TWO).mul(b), 1, s, 0);
    lemma_sub_bounded(Binary32(ONE), 0, Binary32(TWO).mul(b).mul(s), 1, 2);
    lemma_wider(Binary32(ONE).sub(Binary32(TWO).mul(b).mul(s)), 2, 12);
}

proof fn lemma_softlight(cb: Binary32, cs: Binary32)
    requires
        fractional(cb),
        fractional(cs),
    ensures
        bounded(b_softlight(cb, cs), 12),
{
    lemma_constants();
    lemma_fractional(cb, 0);
    lemma_fractional(cs, 0);
    lemma_fractional(Binary32(ONE), 0);
    lemma_complement(cb);
    lemma_fractional(Binary32(ONE).sub(cb), 0);
    let d = softlight_curve(cb);
    assert(bounded(d, 6)) by {
        if cb.at_most(Binary32(QUARTER)) {
            let a = Binary32(SIXTEEN).mul(cb);
            let b = a.sub(Binary32(TWELVE));
            let c = b.mul(cb).add(Binary32(FOUR));
            lemma_mul_bounded(Binary32(SIXTEEN), 4, cb, 0);
            lemma_sub_bounded(a, 4, Binary32(TWELVE), 4, 5);
            lemma_mul_bounded(b, 5, cb, 0);
            lemma_add_bounded(b.mul(cb), 5, Binary32(FOUR), 4, 6);
            lemma_mul_bounded(c, 6, cb, 0);
        } else {
            lemma_fractional_root(cb);
            lemma_fractional(cb.sqrt(), 6);
        }
    }
    let s = Binary32(TWO).mul(cs);
    lemma_mul_bounded(Binary32(TWO), 1, cs, 0);
    lemma_sub_bounded(Binary32(ONE), 0, s, 1, 2);
    let dark = Binary32(ONE).sub(s);
    lemma_mul_bounded(dark, 2, cb, 0);
    lemma_mul_bounded(dark.mul(cb), 2, Binary32(ONE).sub(cb), 0);
    lemma_sub_bounded(cb, 0, dark.mul(cb).mul(Binary32(ONE).sub(cb)), 2, 12);
    lemma_sub_bounded(s, 1, Binary32(ONE), 0, 2);
    let light = s.sub(Binary32(ONE));
    lemma_sub_bounded(d, 6, cb, 0, 7);
    lemma_mul_bounded(light, 2, d.sub(cb), 7);
    lemma_add_bounded(cb, 0, light.mul(d.sub(cb)), 9, 12);
}

/// Whether the channels of a color are bounded.
spec fn all_bounded(c: Seq<Binary32>, k: nat) -> bool {
    bounded(c[0], k) && bounded(c[1], k) && bounded(c[2], k)
}

/// Whether the channels of a color lie between zero and one.
pub open spec fn all_fractional(c: Seq<Binary32>) -> bool {
    fractional(c[0]) && fractional(c[1]) && fractional(c[2])
}

proof fn lemma_luminosity(c: Seq<Binary32>, k: nat)
    requires
        all_bounded(c, k),
        k <= 100,
    ensures
        bounded(luminosity(c), k + 2),
{
    lemma_constants();
    lemma_fractional(Binary32(RED_WEIGHT), 0);
    lemma_fractional(Binary32(GREEN_WEIGHT), 0);
    lemma_fractional(Binary32(BLUE_WEIGHT), 0);
    lemma_mul_bounded(Binary32(RED_WEIGHT), 0, c[0], k);
    lemma_mul_bounded(Binary32(GREEN_WEIGHT), 0, c[1], k);
    lemma_mul_bounded(Binary32(BLUE_WEIGHT), 0, c[2], k);
    let (r, g) = (Binary32(RED_WEIGHT).mul(c[0]), Binary32(GREEN_WEIGHT).mul(c[1]));
    lemma_add_bounded(r, k, g, k, k + 1);
    lemma_add_bounded(r.add(g), k + 1, Binary32(BLUE_WEIGHT).mul(c[2]), k, k + 2);
}

/// A divisor that passes the guard is not next to nothing.
proof fn lemma_guarded(y: Binary32)
    requires
        y.finite(),
        Binary32(BILLIONTH).less(y.abs()),
    ensures
        absolute(y.value()) * pow2(30) >= unity(),
{
    lemma_constants();
    lemma_pow2_pos(30);
    assert(absolute(y.value()) * pow2(30) >= Binary32(BILLIONTH).value() * pow2(30))
        by (nonlinear_arith)
        requires
            absolute(y.value()) >= Binary32(BILLIONTH).value(),
            pow2(30) > 0,
    ;
}

/// A color brought into range is bounded.
proof fn lemma_clipped(c: Seq<Binary32>)
    requires
        c.len() == 3,
        all_bounded(c, 4),
    ensures
        all_bounded(clipped(c), 90),
        clipped(c).len() == 3,
{
    lemma_constants();
    lemma_luminosity(c, 4);
    lemma_fractional(Binary32(ONE), 0);
    let (l, n, x) = (luminosity(c), least(c), greatest(c));
    lemma_sub_bounded(l, 6, n, 4, 7);
    lemma_sub_bounded(x, 4, l, 6, 7);
    lemma_sub_bounded(Binary32(ONE), 0, l, 6, 7);
    let low = if n.less(Binary32(ZERO)) && Binary32(BILLIONTH).less(l.sub(n).abs()) {
        Seq::new(3, |i: int| spec_raised(c[i], l, n))
    } else {
        c
    };
    assert forall|i: int| 0 <= i < 3 implies bounded(#[trigger] low[i], 45) by {
        let v = c[i];
        assert(bounded(v, 4));
        lemma_wider(v, 4, 45);
        if n.less(Binary32(ZERO)) && Binary32(BILLIONTH).less(l.sub(n).abs()) {
            lemma_guarded(l.sub(n));
            lemma_sub_bounded(v, 4, l, 6, 7);
            lemma_mul_bounded(v.sub(l), 7, l, 6);
            lemma_div_bounded(v.sub(l).mul(l), 13, l.sub(n), 30);
            lemma_add_bounded(l, 6, v.sub(l).mul(l).div(l.sub(n)), 43, 45);
        }
    }
    assert forall|i: int| 0 <= i < 3 implies bounded(#[trigger] clipped(c)[i], 90) by {
        let v = low[i];
        lemma_wider(v, 45, 90);
        if Binary32(ONE).less(x) && Binary32(BILLIONTH).less(x.sub(l).abs()) {
            let outside = Binary32(ONE).sub(l);
            lemma_guarded(x.sub(l));
            lemma_sub_bounded(v, 45, l, 6, 46);
            lemma_mul_bounded(v.sub(l), 46, outside, 7);
            lemma_div_bounded(v.sub(l).mul(outside), 53, x.sub(l), 30);
            lemma_add_bounded(l, 6, v.sub(l).mul(outside).div(x.sub(l)), 83, 90);
        }
    }
    assert(bounded(clipped(c)[0], 90) && bounded(clipped(c)[1], 90) && bounded(clipped(c)[2], 90));
}

/// A color moved to a luminosity is bounded.
proof fn lemma_with_luminosity(c: Seq<Binary32>, l: Binary32)
    requires
        c.len() == 3,
        all_fractional(c),
        bounded(l, 2),
    ensures
        all_bounded(with_luminosity(c, l), 90),
        with_luminosity(c, l).len() == 3,
{
    lemma_fractional(c[0], 0);
    lemma_fractional(c[1], 0);
    lemma_fractional(c[2], 0);
    lemma_luminosity(c, 0);
    let d = l.sub(luminosity(c));
    lemma_sub_bounded(l, 2, luminosity(c), 2, 3);
    lemma_add_bounded(c[0], 0, d, 3, 4);
    lemma_add_bounded(c[1], 0, d, 3, 4);
    lemma_add_bounded(c[2], 0, d, 3, 4);
    lemma_clipped(Seq::new(3, |i: int| c[i].add(d)));
}

/// The saturation of a color lies between zero and one.
pub proof fn lemma_saturation(c: Seq<Binary32>)
    requires
        all_fractional(c),
    ensures
        fractional(saturation(c)),
{
    lemma_values();
    lemma_difference_within(greatest(c), least(c), Binary32(ONE));
}

/// A color stretched to a saturation lies between zero and one.
pub proof fn lemma_with_saturation(c: Seq<Binary32>, s: Binary32)
    requires
        all_fractional(c),
        fractional(s),
    ensures
        all_fractional(with_saturation(c, s)),
{
    lemma_values();
    lemma_constants();
    let (low, mid, high) = ascending(c);
    assert(fractional(c[low]) && fractional(c[mid]) && fractional(c[high]));
    if c[low].less(c[high]) {
        let (x, y) = (c[mid].sub(c[low]), c[high].sub(c[low]));
        lemma_positive_difference(c[high], c[low]);
        lemma_difference_within(c[mid], c[low], Binary32(ONE));
        lemma_add_order(c[mid], c[high], c[low].neg());
        lemma_fractional_product(x, s);
        lemma_fractional_product(s, x);
        products_commute(x, s);
        let n = x.mul(s);
        assert(n.value() <= y.value());
        lemma_div_order(n, y, y);
        lemma_div_self(y);
        lemma_div_value(n, y);
        lemma_finite_between(Binary32(ZERO), n.div(y), Binary32(ONE));
    }
}

/// Every blend of colors between zero and one is bounded.
pub proof fn lemma_blended_color(cb: Seq<Binary32>, cs: Seq<Binary32>, mode: CompositeMode)
    requires
        cb.len() == 3,
        cs.len() == 3,
        all_fractional(cb),
        all_fractional(cs),
    ensures
        ({
            let c = blended_color(cb, cs, mode);
            bounded(c[0], 90) && bounded(c[1], 90) && bounded(c[2], 90)
        }),
{
    lemma_light(cb);
    lemma_light(cs);
    match mode {
        CompositeMode::HslHue => {
            lemma_saturation(cb);
            lemma_with_saturation(cs, saturation(cb));
            lemma_with_luminosity(with_saturation(cs, saturation(cb)), luminosity(cb));
        },
        CompositeMode::HslSaturation => {
            lemma_saturation(cs);
            lemma_with_saturation(cb, saturation(cs));
            lemma_with_luminosity(with_saturation(cb, saturation(cs)), luminosity(cb));
        },
        CompositeMode::HslColor => {
            lemma_with_luminosity(cs, luminosity(cb));
        },
        CompositeMode::HslLuminosity => {
            lemma_with_luminosity(cb, luminosity(cs));
        },
        _ => {
            let c = blended_color(cb, cs, mode);
            assert forall|i: int| 0 <= i < 3 implies bounded(#[trigger] c[i], 90) by {
                assert(fractional(cb[i]) && fractional(cs[i]));
                lemma_channel_blend(cb[i], cs[i], mode);
                lemma_fractional(cs[i], 90);
                match channel_blend(cb[i], cs[i], mode) {
                    Some(v) => {
                        lemma_wider(v, 12, 90);
                    },
                    None => {},
                }
            }
            assert(bounded(c[0], 90) && bounded(c[1], 90) && bounded(c[2], 90));
        },
    }
}

proof fn lemma_light(c: Seq<Binary32>)
    requires
        all_fractional(c),
    ensures
        bounded(luminosity(c), 2),
{
    lemma_fractional(c[0], 0);
    lemma_fractional(c[1], 0);
    lemma_fractional(c[2], 0);
    lemma_luminosity(c, 0);
}

} // verus!
