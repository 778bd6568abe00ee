//! What holds of gradients and their color lines.
use crate::accuracy::{
    distance, lemma_difference_within, lemma_floor_value, lemma_fold_value, lemma_half_and_two,
    lemma_integer_exact, lemma_rescaled_channel, lemma_rounded_near, lemma_whole_channel, near,
};
use crate::binary32::{absolute, integer, units, unity, Binary32};
use crate::canvas::{linear_parameter, squared_length, sweep_parameter};
use crate::color::Rgba;
use crate::composite::{lemma_clamp01, lemma_fraction};
use crate::consts::{BILLIONTH, CHANNEL_MAX, DEGREES_PER_RADIAN, HALF, ONE, TURN, TWO, ZERO};
use crate::gradient::{
    apply_extend, base_color, color_line, cone_parameters, first_drawn, fraction, inserted, line_at,
    mix, radius_at, ramp_index, ramp_of, resolved_stop, sampled, segment_from, segment_part,
    spec_straight_byte, ColorStop, Extend, ResolvedStop, RAMP_LEN,
};
use crate::order::{
    lemma_add_value, lemma_div_self, lemma_div_value, lemma_finite_between, lemma_finite_factor,
    lemma_finite_terms, lemma_mul_one, lemma_mul_order, lemma_mul_value, lemma_nearest_byte_order,
    lemma_plus_nothing, lemma_round_order, lemma_rounded_exact, lemma_rounded_order,
    lemma_rounded_zero, lemma_same_number, lemma_same_size, lemma_values, lemma_zero_product,
    lemma_zero_quotient, products_commute, rounded,
};
use crate::reals::{
    lemma_finite_difference, lemma_floor_number, lemma_limit_size, lemma_number_order, lemma_part,
    lemma_product, lemma_subtraction, lemma_two, lemma_whole_number, number, part, size,
};
use crate::rounding::{lemma_units_binades, lemma_units_order};
use vstd::arithmetic::div_mod::{
    lemma_div_is_ordered, lemma_fundamental_div_mod, lemma_fundamental_div_mod_converse,
    lemma_mod_add_multiples_vanish,
};
use vstd::arithmetic::power2::{
    lemma2_to64, lemma2_to64_rest, lemma_pow2_adds, lemma_pow2_strictly_increases, pow2,
};
use vstd::prelude::*;

verus! {

/// Folding a parameter brings it between zero and one, in every mode. Only the greatest
/// negative number is not reflected there: its half rounds to zero.
pub proof fn extended_parameters_lie_within_one(t: Binary32, extend: Extend)
    requires
        t.finite(),
        extend == Extend::Reflect ==> t.value() != -1,
    ensures
        Binary32(ZERO).at_most(apply_extend(t, extend)),
        apply_extend(t, extend).at_most(Binary32(ONE)),
{
    lemma_values();
    lemma_half_and_two();
    match extend {
        Extend::Pad => {
            lemma_clamp01(t);
        },
        Extend::Repeat => {
            lemma_floor_value(t);
            lemma_fundamental_div_mod(t.value(), unity() as int);
            let q = t.value() / unity() as int;
            assert(unity() * q == q * unity()) by (nonlinear_arith);
            lemma_difference_within(t, t.floor(), Binary32(ONE));
        },
        Extend::Reflect => {
            let low = Binary32(TWO).mul(t.mul(Binary32(HALF)).floor());
            lemma_reflected(t);
            let u = t.sub(low);
            if Binary32(ONE).less(u) {
                lemma_difference_within(Binary32(TWO), u, Binary32(ONE));
            }
        },
    }
}

/// A parameter from zero up to one is not changed by any mode. Padding holds what lies
/// outside to the ends.
pub proof fn parameters_within_one_stay(t: Binary32, extend: Extend)
    ensures
        Binary32(ZERO).at_most(t) && t.less(Binary32(ONE)) ==> apply_extend(t, extend).equals(t),
        t.at_most(Binary32(ZERO)) ==> apply_extend(t, Extend::Pad).equals(Binary32(ZERO)),
        Binary32(ONE).at_most(t) ==> apply_extend(t, Extend::Pad).equals(Binary32(ONE)),
{
    lemma_values();
    lemma_half_and_two();
    if Binary32(ZERO).at_most(t) && t.less(Binary32(ONE)) {
        lemma_finite_between(Binary32(ZERO), t, Binary32(ONE));
        let (v, u) = (t.value(), unity() as int);
        lemma_fundamental_div_mod_converse(v, u, 0, v);
        lemma_fundamental_div_mod_converse(v, 2 * u, 0, v);
        assert(0 * u == 0) by (nonlinear_arith);
        lemma_floor_value(t);
        lemma_difference_within(t, t.floor(), t.abs());
        let low = Binary32(TWO).mul(t.mul(Binary32(HALF)).floor());
        lemma_fold_value(t);
        lemma_difference_within(t, low, t.abs());
    }
}

/// Repeating has a period of one, and reflecting one of two, where the longer parameter can
/// be told exactly. The greatest negative number is left out of the reflected ones.
pub proof fn extended_parameters_recur(s: Binary32, t: Binary32)
    requires
        s.finite(),
        t.finite(),
    ensures
        s.value() == t.value() + unity() ==> apply_extend(s, Extend::Repeat).equals(
            apply_extend(t, Extend::Repeat),
        ),
        s.value() == t.value() + 2 * unity() && t.value() != -1 && s.value() != -1
            ==> apply_extend(s, Extend::Reflect).equals(apply_extend(t, Extend::Reflect)),
{
    lemma_values();
    lemma_half_and_two();
    let u = unity() as int;
    if s.value() == t.value() + u {
        lemma_repeated(s);
        lemma_repeated(t);
        lemma_mod_add_multiples_vanish(t.value(), u);
        assert(u + t.value() == s.value());
    }
    if s.value() == t.value() + 2 * u && t.value() != -1 && s.value() != -1 {
        lemma_reflected(s);
        lemma_reflected(t);
        lemma_mod_add_multiples_vanish(t.value(), 2 * u);
        assert(2 * u + t.value() == s.value());
        let (a, b) = (
            s.sub(Binary32(TWO).mul(s.mul(Binary32(HALF)).floor())),
            t.sub(Binary32(TWO).mul(t.mul(Binary32(HALF)).floor())),
        );
        if Binary32(ONE).less(a) {
            lemma_same_number(a, b);
            lemma_difference_within(Binary32(TWO), a, Binary32(ONE));
        }
    }
}

/// Reflecting is even up to rounding: a number and its opposite come out as one. The smallest
/// numbers of either sign are left out.
pub proof fn reflected_parameters_are_even(s: Binary32, t: Binary32)
    requires
        s.finite(),
        t.finite(),
        s.value() == -t.value(),
        absolute(t.value()) != 1,
    ensures
        size(
            number(apply_extend(s, Extend::Reflect)) - number(apply_extend(t, Extend::Reflect)),
        ) <= 8real * part(),
{
    lemma_values();
    let d = (2 * unity()) as int;
    let (v, r) = (t.value(), t.value() % d);
    lemma_fundamental_div_mod(v, d);
    let q = v / d;
    if r == 0 {
        assert(-v == (-q) * d + 0) by (nonlinear_arith)
            requires
                v == d * q,
        ;
        lemma_fundamental_div_mod_converse(-v, d, -q, 0);
    } else {
        assert(-v == (-q - 1) * d + (d - r)) by (nonlinear_arith)
            requires
                v == d * q + r,
        ;
        lemma_fundamental_div_mod_converse(-v, d, -q - 1, d - r);
    }
    lemma_wave(s);
    lemma_wave(t);
    let u = unity() as real;
    assert((d - r) as real / u == 2real - r as real / u) by (nonlinear_arith)
        requires
            (d - r) as real == 2real * u - r as real,
            u > 0real,
    ;
    assert(0real / u == 0real) by (nonlinear_arith)
        requires
            u > 0real,
    ;
}

/// Parameters that lie near each other come out near each other: padded and reflected ones
/// wherever they lie, and repeated ones within one repetition. The greatest negative number is
/// left out of the reflected ones.
pub proof fn near_parameters_extend_alike(s: Binary32, t: Binary32, extend: Extend, d: real)
    requires
        s.finite(),
        t.finite(),
        size(number(s) - number(t)) <= d,
        d <= 1real,
        extend is Repeat ==> s.floor().value() == t.floor().value(),
        extend is Reflect ==> s.value() != -1 && t.value() != -1,
    ensures
        apply_extend(s, extend).finite(),
        apply_extend(t, extend).finite(),
        size(number(apply_extend(s, extend)) - number(apply_extend(t, extend))) <= d + 6real
            * part(),
{
    lemma_limit_size();
    match extend {
        Extend::Pad => {
            lemma_clamped_number(s);
            lemma_clamped_number(t);
        },
        Extend::Repeat => {
            lemma_repetition(s);
            lemma_repetition(t);
            assert(number(s.floor()) == number(t.floor()));
        },
        Extend::Reflect => {
            lemma_reflection(s);
            lemma_reflection(t);
            lemma_wave(s);
            lemma_wave(t);
            let (a, b) = (
                (s.value() % (2 * unity()) as int) as real / unity() as real,
                (t.value() % (2 * unity()) as int) as real / unity() as real,
            );
            let (m, n) = (
                s.value() / (2 * unity()) as int,
                t.value() / (2 * unity()) as int,
            );
            assert((m - n) as real == m as real - n as real);
            let k = m - n;
            assert(-1 <= k <= 1);
            lemma_wave_near(a, b, k as real, number(s) - number(t));
        },
    }
}

/// Reflected parameters that lie nearly two apart come out near each other, and so do repeated
/// ones that lie nearly one apart and a repetition apart, though their distance be rounded. The
/// greatest negative number is left out of the reflected ones.
pub proof fn shifted_parameters_extend_alike(s: Binary32, t: Binary32, d: real)
    requires
        s.finite(),
        t.finite(),
        d <= 1real,
    ensures
        size(number(s) - number(t) - 2real) <= d && s.value() != -1 && t.value() != -1 ==> size(
            number(apply_extend(s, Extend::Reflect)) - number(apply_extend(t, Extend::Reflect)),
        ) <= d + 6real * part(),
        size(number(s) - number(t) - 1real) <= d && s.floor().value() == t.floor().value()
            + unity() ==> size(
            number(apply_extend(s, Extend::Repeat)) - number(apply_extend(t, Extend::Repeat)),
        ) <= d + 2real * part(),
{
    lemma_values();
    if size(number(s) - number(t) - 2real) <= d && s.value() != -1 && t.value() != -1 {
        lemma_reflection(s);
        lemma_reflection(t);
        lemma_wave(s);
        lemma_wave(t);
        let u = unity() as int;
        let (a, b) = (
            (s.value() % (2 * u)) as real / u as real,
            (t.value() % (2 * u)) as real / u as real,
        );
        let (m, n) = (s.value() / (2 * u), t.value() / (2 * u));
        let k = m - n - 1;
        assert(k as real == m as real - n as real - 1real);
        assert(-1 <= k <= 1);
        lemma_wave_near(a, b, k as real, number(s) - number(t) - 2real);
    }
    if size(number(s) - number(t) - 1real) <= d && s.floor().value() == t.floor().value()
        + unity() {
        lemma_repetition(s);
        lemma_repetition(t);
        let (v, w, u) = (s.floor().value() as real, t.floor().value() as real, unity() as real);
        assert(v / u == w / u + 1real) by (nonlinear_arith)
            requires
                v == w + u,
                u > 0real,
        ;
    }
}

/// Points of the wave that lie near each other are near in height.
proof fn lemma_wave_near(a: real, b: real, k: real, e: real)
    requires
        0real <= a,
        a < 2real,
        0real <= b,
        b < 2real,
        k == -1real || k == 0real || k == 1real,
        2real * k + a - b == e,
        size(e) <= 1real,
    ensures
        size(wave(a) - wave(b)) <= size(e),
{
}

/// What repeating leaves of a number is near the exact rest.
proof fn lemma_repetition(t: Binary32)
    requires
        t.finite(),
    ensures
        apply_extend(t, Extend::Repeat).finite(),
        size(
            number(apply_extend(t, Extend::Repeat)) - (number(t) - number(t.floor())),
        ) <= part(),
{
    lemma_values();
    lemma_limit_size();
    lemma_repeated(t);
    lemma_floor_value(t);
    let u = unity() as int;
    lemma_fundamental_div_mod(t.value(), u);
    let (q, f) = (t.value() / u, t.floor());
    assert(u * q == q * u) by (nonlinear_arith);
    let (v, w, ur) = (t.value() as real, f.value() as real, u as real);
    assert(0real <= v - w && v - w < ur);
    assert(0real <= v / ur - w / ur && v / ur - w / ur <= 1real) by (nonlinear_arith)
        requires
            0real <= v - w,
            v - w < ur,
            ur > 0real,
    ;
    lemma_finite_difference(t, f);
    lemma_part(size(number(t) - number(f)));
}

/// A number is twice a whole number and its remainder by two, and its reflection is finite.
proof fn lemma_reflection(t: Binary32)
    requires
        t.finite(),
        t.value() != -1,
    ensures
        ({
            let d = (2 * unity()) as int;
            let rest = (t.value() % d) as real / unity() as real;
            &&& number(t) == 2real * ((t.value() / d) as real) + rest
            &&& 0real <= rest
            &&& rest < 2real
            &&& apply_extend(t, Extend::Reflect).finite()
        }),
{
    lemma_values();
    lemma_half_and_two();
    lemma_reflected(t);
    let a = t.sub(Binary32(TWO).mul(t.mul(Binary32(HALF)).floor()));
    if Binary32(ONE).less(a) {
        lemma_difference_within(Binary32(TWO), a, Binary32(TWO));
    }
    let u = unity() as int;
    let d = 2 * u;
    lemma_fundamental_div_mod(t.value(), d);
    let (q, r) = (t.value() / d, t.value() % d);
    let (v, qr, rr, ur) = (t.value() as real, q as real, r as real, u as real);
    assert((d * q) as real == 2real * ur * qr) by (nonlinear_arith)
        requires
            d == 2 * u,
            ur == u as real,
            qr == q as real,
    ;
    assert(v == 2real * ur * qr + rr);
    assert(v / ur == 2real * qr + rr / ur) by (nonlinear_arith)
        requires
            v == 2real * ur * qr + rr,
            ur > 0real,
    ;
    assert(0real <= rr / ur && rr / ur < 2real) by (nonlinear_arith)
        requires
            0real <= rr,
            rr < 2real * ur,
            ur > 0real,
    ;
}

/// A remainder by two, turned back past one.
spec fn wave(rest: real) -> real {
    if rest <= 1real {
        rest
    } else {
        2real - rest
    }
}

/// Reflecting follows the wave up to rounding.
proof fn lemma_wave(t: Binary32)
    requires
        t.finite(),
        t.value() != -1,
    ensures
        ({
            let rest = (t.value() % (2 * unity()) as int) as real / unity() as real;
            size(number(apply_extend(t, Extend::Reflect)) - wave(rest)) <= 3real * part()
        }),
{
    lemma_values();
    lemma_half_and_two();
    lemma_limit_size();
    lemma_reflected(t);
    lemma_fold_value(t);
    let low = Binary32(TWO).mul(t.mul(Binary32(HALF)).floor());
    let a = t.sub(low);
    let u = unity() as real;
    let d = (2 * unity()) as int;
    let r = t.value() % d;
    lemma_fundamental_div_mod(t.value(), d);
    let rest = r as real / u;
    let (x, y) = (t.value() as real, low.value() as real);
    assert(x / u - y / u == rest) by (nonlinear_arith)
        requires
            rest == r as real / u,
            r as real == x - y,
            u > 0real,
    ;
    assert(0real <= rest && rest < 2real) by (nonlinear_arith)
        requires
            rest == r as real / u,
            0real <= r as real,
            (r as real) < 2real * u,
            u > 0real,
    ;
    lemma_subtraction(t, low);
    let e = part();
    assert(e * rest <= 2real * e) by (nonlinear_arith)
        requires
            rest < 2real,
            e > 0real,
    ;
    lemma_number_order(Binary32(ONE), a);
    lemma_number_order(a, Binary32(ONE));
    lemma_number_order(a, Binary32(TWO));
    lemma_number_order(Binary32(ZERO), a);
    lemma_two();
    if Binary32(ONE).less(a) {
        lemma_subtraction(Binary32(TWO), a);
        let b = 2real - number(a);
        assert(e * size(b) <= e) by (nonlinear_arith)
            requires
                size(b) <= 1real,
                e > 0real,
        ;
        // What does not exceed one does not round past one.
        if rest <= 1real {
            assert(r <= unity()) by {
                assert(rest * u == r as real) by (nonlinear_arith)
                    requires
                        rest == r as real / u,
                        u > 0real,
                ;
                assert(rest * u <= u) by (nonlinear_arith)
                    requires
                        rest <= 1real,
                        u > 0real,
                ;
            }
            lemma_rounded_exact(Binary32(ONE));
            lemma_rounded_order(r as nat, 1, unity(), 1);
        }
    }
}

/// What repeating leaves of a number.
proof fn lemma_repeated(t: Binary32)
    requires
        t.finite(),
    ensures
        apply_extend(t, Extend::Repeat).finite(),
        apply_extend(t, Extend::Repeat).value() == rounded((t.value() % unity() as int) as nat, 1),
{
    lemma_values();
    let u = unity() as int;
    lemma_floor_value(t);
    lemma_fundamental_div_mod(t.value(), u);
    let q = t.value() / u;
    assert(u * q == q * u) by (nonlinear_arith);
    lemma_difference_within(t, t.floor(), Binary32(ONE));
    lemma_add_value(t, t.floor().neg());
}

/// What reflecting leaves of a number before it is turned back.
proof fn lemma_reflected(t: Binary32)
    requires
        t.finite(),
        t.value() != -1,
    ensures
        ({
            let u = t.sub(Binary32(TWO).mul(t.mul(Binary32(HALF)).floor()));
            &&& u.finite()
            &&& 0 <= u.value() <= 2 * unity()
            &&& u.value() == rounded((t.value() % (2 * unity()) as int) as nat, 1)
        }),
{
    lemma_values();
    lemma_half_and_two();
    let low = Binary32(TWO).mul(t.mul(Binary32(HALF)).floor());
    lemma_fold_value(t);
    lemma_fundamental_div_mod(t.value(), (2 * unity()) as int);
    lemma_difference_within(t, low, Binary32(TWO));
    lemma_add_value(t, low.neg());
}

/// The number of steps of a ramp.
pub proof fn lemma_steps()
    ensures
        ({
            let steps = integer(false, RAMP_LEN as nat).sub(Binary32(ONE));
            steps.finite() && steps.value() == 255 * unity()
        }),
{
    lemma_values();
    lemma_integer_exact(false, RAMP_LEN as nat);
    lemma_difference_within(
        integer(false, RAMP_LEN as nat),
        Binary32(ONE),
        Binary32(CHANNEL_MAX),
    );
}

/// A larger parameter does not look up an earlier entry of a ramp. At zero and before it
/// is the first entry, at one and past it the last.
pub proof fn ramps_are_looked_up_in_order(s: Binary32, t: Binary32)
    requires
        s.at_most(t),
    ensures
        0 <= ramp_index(RAMP_LEN as nat, s) <= ramp_index(RAMP_LEN as nat, t) < RAMP_LEN,
        t.at_most(Binary32(ZERO)) ==> ramp_index(RAMP_LEN as nat, t) == 0,
        Binary32(ONE).at_most(s) ==> ramp_index(RAMP_LEN as nat, s) == RAMP_LEN - 1,
{
    lemma_values();
    lemma_steps();
    lemma_clamp01(s);
    lemma_clamp01(t);
    let steps = integer(false, RAMP_LEN as nat).sub(Binary32(ONE));
    let a = s.clamp(Binary32(ZERO), Binary32(ONE));
    let b = t.clamp(Binary32(ZERO), Binary32(ONE));
    lemma_mul_order(a, b, steps);
    lemma_mul_order(Binary32(ZERO), a, steps);
    lemma_zero_product(Binary32(ZERO), steps);
    let (x, y) = (a.mul(steps), b.mul(steps));
    lemma_round_order(x, y);
    lemma_whole_order(x.round(), y.round());
    if t.at_most(Binary32(ZERO)) {
        lemma_mul_value(b, steps);
        assert(absolute(0) * absolute(steps.value()) == 0)
            by (nonlinear_arith)
            requires
                absolute(0) == 0,
        ;
        lemma_rounded_zero(unity());
        assert(y.value() == 0);
        lemma_round_order(y, y);
        lemma_fundamental_div_mod_converse(0, unity() as int, 0, 0);
    }
    if Binary32(ONE).at_most(s) {
        lemma_mul_one(steps);
        lemma_mul_value(a, steps);
        lemma_mul_value(Binary32(ONE), steps);
        assert(x.value() == 255 * unity());
        lemma_round_full(x);
    }
}

/// The entry that a parameter looks up, by the value of the parameter on the ramp.
pub proof fn lemma_entry(t: Binary32)
    requires
        t.finite(),
    ensures
        ({
            let steps = integer(false, RAMP_LEN as nat).sub(Binary32(ONE));
            let x = t.clamp(Binary32(ZERO), Binary32(ONE)).mul(steps);
            &&& x.finite()
            &&& 0 <= x.value() <= 255 * unity()
            &&& ramp_index(RAMP_LEN as nat, t) == (2 * x.value() + unity()) / (2 * unity() as int)
        }),
{
    reveal(Binary32::spec_round);
    lemma_values();
    lemma_steps();
    lemma_clamp01(t);
    let steps = integer(false, RAMP_LEN as nat).sub(Binary32(ONE));
    let a = t.clamp(Binary32(ZERO), Binary32(ONE));
    let x = a.mul(steps);
    lemma_mul_order(Binary32(ZERO), a, steps);
    lemma_mul_order(a, Binary32(ONE), steps);
    lemma_zero_product(Binary32(ZERO), steps);
    lemma_mul_one(steps);
    lemma_mul_value(Binary32(ONE), steps);
    assert(0 <= x.value() <= 255 * unity());
    lemma_finite_between(Binary32(ZERO), x, Binary32(CHANNEL_MAX));
    let (v, u) = (x.value(), unity() as int);
    assert(units(0) == 0);
    lemma_units_order(0, x.magnitude());
    assert(units(x.magnitude()) == v);
    let n = (2 * v + u) / (2 * u);
    lemma_fundamental_div_mod(2 * v + u, 2 * u);
    assert(0 <= n <= 255) by (nonlinear_arith)
        requires
            2 * v + u == (2 * u) * n + (2 * v + u) % (2 * u),
            0 <= (2 * v + u) % (2 * u) < 2 * u,
            0 <= v <= 255 * u,
            u > 0,
    ;
    lemma_integer_exact(x.negative(), n as nat);
    lemma_fundamental_div_mod_converse(n * u, u, n, 0);
    if x.negative() {
        assert(v == 0);
        lemma_fundamental_div_mod_converse(u, 2 * u, 0, u);
    }
}

/// Parameters that lie at most one part in 512 apart look up the same entry of a ramp or
/// neighboring ones.
pub proof fn near_parameters_look_up_neighbors(s: Binary32, t: Binary32)
    requires
        s.finite(),
        t.finite(),
        size(number(s) - number(t)) <= 1real / 512real,
    ensures
        -1 <= ramp_index(RAMP_LEN as nat, s) - ramp_index(RAMP_LEN as nat, t) <= 1,
{
    lemma_values();
    lemma_steps();
    lemma_entry(s);
    lemma_entry(t);
    lemma_limit_size();
    let steps = integer(false, RAMP_LEN as nat).sub(Binary32(ONE));
    let (a, b) = (
        s.clamp(Binary32(ZERO), Binary32(ONE)),
        t.clamp(Binary32(ZERO), Binary32(ONE)),
    );
    lemma_clamped_number(s);
    lemma_clamped_number(t);
    lemma_whole_number(steps, 255);
    let (x, y) = (a.mul(steps), b.mul(steps));
    let (p, q) = (number(a), number(b));
    assert(p * 255real <= 255real && q * 255real <= 255real);
    lemma_product(a, steps);
    lemma_product(b, steps);
    lemma_part(size(p * 255real));
    lemma_part(size(q * 255real));
    assert(size(number(x) - number(y)) < 1real);
    lemma_less_apart(x, y);
    let (v, w, u) = (x.value(), y.value(), unity() as int);
    lemma_fundamental_div_mod(2 * v + u, 2 * u);
    lemma_fundamental_div_mod(2 * w + u, 2 * u);
    let (m, n) = ((2 * v + u) / (2 * u), (2 * w + u) / (2 * u));
    let (g, h) = ((2 * v + u) % (2 * u), (2 * w + u) % (2 * u));
    assert(-1 <= m - n <= 1) by (nonlinear_arith)
        requires
            2 * v + u == (2 * u) * m + g,
            2 * w + u == (2 * u) * n + h,
            0 <= g < 2 * u,
            0 <= h < 2 * u,
            -u < v - w < u,
            u > 0,
    ;
}

/// A number held between zero and one.
pub proof fn lemma_clamped_number(t: Binary32)
    requires
        t.finite(),
    ensures
        ({
            let a = t.clamp(Binary32(ZERO), Binary32(ONE));
            &&& a.finite()
            &&& 0real <= number(a)
            &&& number(a) <= 1real
            &&& number(t) <= 0real ==> number(a) == 0real
            &&& number(t) >= 1real ==> number(a) == 1real
            &&& 0real <= number(t) && number(t) <= 1real ==> number(a) == number(t)
        }),
{
    lemma_values();
    lemma_clamp01(t);
    lemma_number_order(t, Binary32(ZERO));
    lemma_number_order(Binary32(ZERO), t);
    lemma_number_order(t, Binary32(ONE));
    lemma_number_order(Binary32(ONE), t);
}

/// Numbers less than one apart are less than a unit apart.
proof fn lemma_less_apart(x: Binary32, y: Binary32)
    requires
        size(number(x) - number(y)) < 1real,
    ensures
        -(unity() as int) < x.value() - y.value() < unity(),
{
    lemma_values();
    let (v, w, u) = (x.value() as real, y.value() as real, unity() as real);
    let (a, b) = (v / u, w / u);
    assert(a * u == v && b * u == w) by (nonlinear_arith)
        requires
            a == v / u,
            b == w / u,
            u > 0real,
    ;
    assert(-u < v - w && v - w < u) by (nonlinear_arith)
        requires
            a * u == v,
            b * u == w,
            -1real < a - b,
            a - b < 1real,
            u > 0real,
    ;
}

/// Two hundred and fifty-five rounds to itself.
proof fn lemma_round_full(x: Binary32)
    requires
        !x.nan(),
        x.value() == 255 * unity(),
    ensures
        x.round().truncated(0, usize::MAX as int) == 255,
{
    reveal(Binary32::spec_round);
    lemma_values();
    lemma_same_size(x, Binary32(CHANNEL_MAX));
    let u = unity() as int;
    assert(units(0) == 0);
    assert(!x.negative());
    lemma_fundamental_div_mod_converse(2 * (255 * u) + u, 2 * u, 255, u);
    lemma_integer_exact(false, 255);
    lemma_fundamental_div_mod_converse(255 * u, u, 255, 0);
}

/// The integer parts of numbers that are not negative keep their order.
proof fn lemma_whole_order(x: Binary32, y: Binary32)
    requires
        x.at_most(y),
        x.value() >= 0,
    ensures
        0 <= x.truncated(0, usize::MAX as int) <= y.truncated(0, usize::MAX as int),
{
    lemma_values();
    assert(units(0) == 0);
    lemma_units_order(0, x.magnitude());
    lemma_units_order(0, y.magnitude());
    lemma_div_is_ordered(
        units(x.magnitude()) as int,
        units(y.magnitude()) as int,
        unity() as int,
    );
    lemma_fundamental_div_mod_converse(0, unity() as int, 0, 0);
}

/// The entries at the ends of a ramp are the colors at the ends of the color line.
pub proof fn ramps_span_their_line(line: Seq<ResolvedStop>)
    ensures
        ramp_of(line)[0] == sampled(line, Binary32(ZERO)),
        ramp_of(line)[RAMP_LEN - 1] == sampled(line, Binary32(ONE)),
{
    reveal(Binary32::spec_div);
    lemma_values();
    lemma_steps();
    lemma_integer_exact(false, 0);
    lemma_integer_exact(false, 255);
    let steps = integer(false, RAMP_LEN as nat).sub(Binary32(ONE));
    let (first, last) = (integer(false, 0), integer(false, 255));
    lemma_same_number(last, steps);
    lemma_div_self(steps);
    assert(0 * unity() == 0) by (nonlinear_arith);
    assert(units(0) == 0);
    lemma_units_order(0, first.magnitude());
    lemma_units_order(0, steps.magnitude());
    lemma_rounded_zero(units(steps.magnitude()));
    assert(first.div(steps) == Binary32(ZERO));
}

/// A linear gradient is at zero where its line begins and at one where it ends.
pub proof fn gradient_lines_run_from_zero_to_one(
    p0: (Binary32, Binary32),
    p1: (Binary32, Binary32),
)
    requires
        p0.0.finite(),
        p0.1.finite(),
        squared_length(p0, p1).finite(),
        squared_length(p0, p1).value() > 0,
    ensures
        linear_parameter(p0, p1, p0).equals(Binary32(ZERO)),
        linear_parameter(p0, p1, p1) == Binary32(ONE),
{
    lemma_values();
    let (dx, dy) = (p1.0.sub(p0.0), p1.1.sub(p0.1));
    let length = squared_length(p0, p1);
    lemma_div_self(length);
    lemma_finite_terms(dx.mul(dx), dy.mul(dy));
    lemma_finite_factor(dx);
    lemma_finite_factor(dy);
    lemma_no_difference(p0.0);
    lemma_no_difference(p0.1);
    lemma_zero_product(p0.0.sub(p0.0), dx);
    lemma_zero_product(p0.1.sub(p0.1), dy);
    let (a, b) = (p0.0.sub(p0.0).mul(dx), p0.1.sub(p0.1).mul(dy));
    lemma_plus_nothing(a, b);
    lemma_div_value(a.add(b), length);
    assert(0 * unity() == 0) by (nonlinear_arith);
    lemma_rounded_zero(absolute(length.value()));
}

/// A number less itself is nothing.
proof fn lemma_no_difference(x: Binary32)
    requires
        x.finite(),
    ensures
        x.sub(x).finite(),
        x.sub(x).value() == 0,
{
    lemma_values();
    lemma_difference_within(x, x, Binary32(ZERO));
}

/// A sweep gradient is at zero at its start angle, and at one at its end angle if that is
/// less than a turn further.
pub proof fn sweeps_run_from_zero_to_one(start: Binary32, end: Binary32, angle: Binary32)
    requires
        start.finite(),
        end.finite(),
        end.sub(start).finite(),
    ensures
        ({
            let degrees = angle.mul(Binary32(DEGREES_PER_RADIAN));
            let sector = end.sub(start);
            &&& degrees.equals(start) && sector.value() != 0 ==> sweep_parameter(
                start,
                end,
                angle,
            ).equals(Binary32(ZERO))
            &&& degrees.equals(end) && 0 < sector.value() < Binary32(TURN).value()
                ==> sweep_parameter(start, end, angle) == Binary32(ONE)
        }),
{
    lemma_values();
    lemma_turn();
    let degrees = angle.mul(Binary32(DEGREES_PER_RADIAN));
    let sector = end.sub(start);
    let along = degrees.sub(start);
    let turns = along.div(Binary32(TURN)).floor();
    let lost = Binary32(TURN).mul(turns);
    let within = degrees.sub(lost);
    let u = unity() as int;
    if degrees.equals(start) && sector.value() != 0 {
        lemma_same_size(degrees, start);
        lemma_difference_within(degrees, start, Binary32(ZERO));
        lemma_zero_quotient(along, Binary32(TURN));
        lemma_fundamental_div_mod_converse(0, u, 0, 0);
        lemma_first_turn(along.div(Binary32(TURN)));
        lemma_plus_nothing(degrees, lost.neg());
        lemma_difference_within(within, start, Binary32(ZERO));
        lemma_nothing_over(within.sub(start), sector);
    }
    if degrees.equals(end) && 0 < sector.value() < Binary32(TURN).value() {
        lemma_same_size(degrees, end);
        lemma_same_difference(degrees, end, start);
        lemma_part_of_turn(along);
        lemma_first_turn(along.div(Binary32(TURN)));
        lemma_plus_nothing(degrees, lost.neg());
        lemma_same_difference(within, end, start);
        lemma_same_number(within.sub(start), sector);
        lemma_div_self(sector);
    }
}

/// The value of a turn.
pub proof fn lemma_turn()
    ensures
        Binary32(TURN).value() == 360 * unity(),
{
    lemma2_to64();
    lemma_units_binades(0x00b4_0000, 134);
    lemma_pow2_adds(15, 134);
    assert(0x00b4_0000 * pow2(134) == 360 * (0x8000 * pow2(134))) by (nonlinear_arith);
}

/// Within the first turn no turn is taken off.
proof fn lemma_first_turn(part: Binary32)
    requires
        part.finite(),
        0 <= part.value() < unity(),
    ensures
        Binary32(TURN).mul(part.floor()).finite(),
        Binary32(TURN).mul(part.floor()).value() == 0,
        Binary32(TURN).mul(part.floor()).neg().finite(),
        Binary32(TURN).mul(part.floor()).neg().value() == 0,
{
    lemma_values();
    lemma_floor_value(part);
    lemma_fundamental_div_mod_converse(part.value(), unity() as int, 0, part.value());
    assert(0 * unity() == 0) by (nonlinear_arith);
    products_commute(Binary32(TURN), part.floor());
    lemma_zero_product(part.floor(), Binary32(TURN));
}

/// Less than a turn is less than one turn after rounding too.
proof fn lemma_part_of_turn(along: Binary32)
    requires
        along.finite(),
        0 <= along.value() < Binary32(TURN).value(),
    ensures
        along.div(Binary32(TURN)).finite(),
        0 <= along.div(Binary32(TURN)).value() < unity(),
{
    lemma_values();
    lemma_turn();
    lemma2_to64();
    lemma_div_value(along, Binary32(TURN));
    let (v, u) = (along.value() as nat, unity());
    assert(units(0) == 0);
    lemma_units_order(0, along.magnitude());
    lemma_units_order(along.magnitude(), TURN as nat);
    lemma_units_order(along.magnitude(), (TURN - 1) as nat);
    lemma_units_binades(0x00b4_0000, 134);
    lemma_units_binades(0x00b3_ffff, 134);
    let (p, most) = (pow2(134), 0x00b3_ffff * pow2(134));
    assert(v <= most);
    // The largest number below a turn, over a turn.
    lemma_pow2_adds(15, 134);
    lemma_scaled_near(most);
    let r = rounded(most, 360);
    assert(r < u) by (nonlinear_arith)
        requires
            near(r, most, 360, 1),
            r * 360 <= most + distance(r, most, 360),
            distance(r, most, 360) * 0x0100_0000 <= most,
            most == 0x00b3_ffff * p,
            360 * u == 0x00b4_0000 * p,
            p > 0,
    ;
    assert((v * u) * 360 <= most * (360 * u)) by (nonlinear_arith)
        requires
            v <= most,
    ;
    lemma_rounded_order(v * u, 360 * u, most, 360);
    lemma_finite_between(Binary32(ZERO), along.div(Binary32(TURN)), Binary32(ONE));
}

/// That number over a turn is well within range.
proof fn lemma_scaled_near(most: nat)
    requires
        most == 0x00b3_ffff * pow2(134),
    ensures
        near(rounded(most, 360), most, 360, 1),
        pow2(134) > 0,
{
    lemma2_to64();
    lemma2_to64_rest();
    lemma_pow2_strictly_increases(32, 134);
    lemma_pow2_strictly_increases(134, 200);
    lemma_pow2_adds(64, 134);
    lemma_pow2_strictly_increases(198, 200);
    let p = pow2(134);
    assert(360 * 0x0080_0000 <= most <= 360 * pow2(200)) by (nonlinear_arith)
        requires
            most == 0x00b3_ffff * p,
            p >= 0x1_0000_0000,
            pow2(200) >= 0x1_0000_0000_0000_0000 * p,
    ;
    lemma_rounded_near(most, 360);
}

/// Differences of numbers of one value have one value.
proof fn lemma_same_difference(x: Binary32, y: Binary32, z: Binary32)
    requires
        x.finite(),
        y.finite(),
        z.finite(),
        x.value() == y.value(),
        y.sub(z).finite(),
    ensures
        x.sub(z).finite(),
        x.sub(z).value() == y.sub(z).value(),
{
    lemma_add_value(x, z.neg());
    lemma_add_value(y, z.neg());
    lemma_same_size(x.sub(z), y.sub(z));
}

/// Nothing over something is nothing.
proof fn lemma_nothing_over(zero: Binary32, y: Binary32)
    requires
        zero.finite(),
        zero.value() == 0,
        !y.nan(),
        y.value() != 0,
    ensures
        zero.div(y).equals(Binary32(ZERO)),
{
    reveal(Binary32::spec_div);
    lemma_values();
    assert(units(0) == 0);
    lemma_units_order(0, zero.magnitude());
    assert(0 * unity() == 0) by (nonlinear_arith);
    lemma_rounded_zero(units(y.magnitude()));
}

/// What a radial gradient finds at a point is a computed root of the equation of its
/// circles with a radius that is not negative, and no such root is larger. It finds none
/// only where there is none.
pub proof fn radial_parameter_is_the_largest(
    c0: (Binary32, Binary32),
    r0: Binary32,
    c1: (Binary32, Binary32),
    r1: Binary32,
    p: (Binary32, Binary32),
)
    ensures
        ({
            let all = cone_parameters(c0, r0, c1, r1, p);
            match first_drawn(all, r0, r1) {
                Some(t) => {
                    &&& all.contains(t)
                    &&& Binary32(ZERO).at_most(radius_at(r0, r1, t))
                    &&& forall|s: Binary32| #[trigger]
                        all.contains(s) && Binary32(ZERO).at_most(radius_at(r0, r1, s)) ==> s.nan()
                            || t.nan() || s.at_most(t)
                },
                None => forall|s: Binary32| #[trigger]
                    all.contains(s) ==> !Binary32(ZERO).at_most(radius_at(r0, r1, s)),
            }
        }),
{
    let all = cone_parameters(c0, r0, c1, r1, p);
    reveal_with_fuel(first_drawn, 3);
    assert(all.len() <= 2);
    if all.len() == 1 {
        assert(all.drop_first() =~= seq![]);
        assert(all.contains(all[0]));
    } else if all.len() == 2 {
        assert(all.drop_first() =~= seq![all[1]]);
        assert(all.drop_first().drop_first() =~= seq![]);
        assert(all.contains(all[0]) && all.contains(all[1]));
        assert(all[0].nan() || all[1].nan() || all[1].at_most(all[0]));
    }
}

/// The stops of a color line with their colors, in the order that they came in.
pub open spec fn resolved_stops(
    stops: Seq<ColorStop>,
    palette: Seq<Rgba>,
    foreground: Rgba,
) -> Seq<ResolvedStop> {
    stops.map_values(|s: ColorStop| resolved_stop(s, palette, foreground))
}

/// Whether the offsets of some stops ascend.
pub open spec fn ascends(line: Seq<ResolvedStop>) -> bool {
    forall|i: int, j: int|
        0 <= i < j < line.len() ==> #[trigger] line[i].offset.at_most(#[trigger] line[j].offset)
}

/// A color line holds the stops that it was made of, each as often, in the order of their
/// offsets.
pub proof fn color_lines_are_sorted(
    stops: Seq<ColorStop>,
    palette: Seq<Rgba>,
    foreground: Rgba,
)
    requires
        forall|i: int| 0 <= i < stops.len() ==> !(#[trigger] stops[i]).offset.nan(),
    ensures
        ascends(color_line(stops, palette, foreground)),
        color_line(stops, palette, foreground).to_multiset() == resolved_stops(
            stops,
            palette,
            foreground,
        ).to_multiset(),
    decreases stops.len(),
{
    broadcast use vstd::seq_lib::group_to_multiset_ensures;

    let resolved = resolved_stops(stops, palette, foreground);
    if stops.len() == 0 {
        assert(color_line(stops, palette, foreground) =~= resolved);
    } else {
        let rest = stops.drop_last();
        assert forall|i: int| 0 <= i < rest.len() implies !(#[trigger] rest[i]).offset.nan() by {
            assert(rest[i] == stops[i]);
        }
        color_lines_are_sorted(rest, palette, foreground);
        let line = color_line(rest, palette, foreground);
        let s = resolved_stop(stops.last(), palette, foreground);
        assert(resolved =~= resolved_stops(rest, palette, foreground).push(s));
        lemma_no_nan(line, resolved_stops(rest, palette, foreground));
        lemma_inserted_sorted(line, s);
    }
}

/// Whether a stop is at an offset.
pub open spec fn stands_at(offset: Binary32) -> spec_fn(ResolvedStop) -> bool {
    |s: ResolvedStop| s.offset.equals(offset)
}

/// Among the stops of a color line that have one offset, those that came first are first.
pub proof fn color_lines_are_stable(
    stops: Seq<ColorStop>,
    palette: Seq<Rgba>,
    foreground: Rgba,
    offset: Binary32,
)
    ensures
        color_line(stops, palette, foreground).filter(stands_at(offset)) == resolved_stops(
            stops,
            palette,
            foreground,
        ).filter(stands_at(offset)),
    decreases stops.len(),
{
    let resolved = resolved_stops(stops, palette, foreground);
    if stops.len() == 0 {
        assert(color_line(stops, palette, foreground) =~= resolved);
    } else {
        let rest = stops.drop_last();
        color_lines_are_stable(rest, palette, foreground, offset);
        let before = resolved_stops(rest, palette, foreground);
        let s = resolved_stop(stops.last(), palette, foreground);
        let line = color_line(rest, palette, foreground);
        assert(resolved =~= before.push(s));
        lemma_inserted_stable(line, s, offset);
        lemma_filter_pushed(line, s, offset);
        lemma_filter_pushed(before, s, offset);
    }
}

/// What is kept of a sequence with one more stop.
proof fn lemma_filter_pushed(line: Seq<ResolvedStop>, s: ResolvedStop, offset: Binary32)
    ensures
        line.push(s).filter(stands_at(offset)) == if s.offset.equals(offset) {
            line.filter(stands_at(offset)).push(s)
        } else {
            line.filter(stands_at(offset))
        },
{
    reveal(Seq::filter);
    assert(line.push(s).drop_last() =~= line);
}

/// A stop is inserted behind those at its own offset.
proof fn lemma_inserted_stable(line: Seq<ResolvedStop>, s: ResolvedStop, offset: Binary32)
    ensures
        inserted(line, s).filter(stands_at(offset)) == line.push(s).filter(stands_at(offset)),
    decreases line.len(),
{
    if !(line.len() == 0 || !s.offset.less(line.last().offset)) {
        let (rest, last) = (line.drop_last(), line.last());
        lemma_inserted_stable(rest, s, offset);
        lemma_filter_pushed(rest, s, offset);
        lemma_filter_pushed(inserted(rest, s), last, offset);
        lemma_filter_pushed(rest, last, offset);
        lemma_filter_pushed(line, s, offset);
        assert(rest.push(last) =~= line);
    }
}

/// What holds the same stops as a sequence without NaN offsets has none.
proof fn lemma_no_nan(line: Seq<ResolvedStop>, resolved: Seq<ResolvedStop>)
    requires
        line.to_multiset() == resolved.to_multiset(),
        forall|i: int| 0 <= i < resolved.len() ==> !(#[trigger] resolved[i]).offset.nan(),
    ensures
        forall|i: int| 0 <= i < line.len() ==> !(#[trigger] line[i]).offset.nan(),
{
    broadcast use vstd::seq_lib::group_to_multiset_ensures;

    assert forall|i: int| 0 <= i < line.len() implies !(#[trigger] line[i]).offset.nan() by {
        assert(line.contains(line[i]));
        assert(line.to_multiset().count(line[i]) > 0);
        assert(resolved.contains(line[i]));
    }
}

/// A stop goes into an ascending sequence where it leaves it ascending.
proof fn lemma_inserted_sorted(line: Seq<ResolvedStop>, s: ResolvedStop)
    requires
        ascends(line),
        !s.offset.nan(),
        forall|i: int| 0 <= i < line.len() ==> !(#[trigger] line[i]).offset.nan(),
    ensures
        ascends(inserted(line, s)),
        inserted(line, s).len() == line.len() + 1,
        inserted(line, s).to_multiset() == line.to_multiset().insert(s),
        forall|i: int|
            0 <= i < inserted(line, s).len() ==> #[trigger] inserted(line, s)[i] == s
                || line.contains(inserted(line, s)[i]),
    decreases line.len(),
{
    broadcast use vstd::seq_lib::group_to_multiset_ensures;

    let whole = inserted(line, s);
    if line.len() == 0 || !s.offset.less(line.last().offset) {
        assert(whole == line.push(s));
        assert forall|i: int, j: int| 0 <= i < j < whole.len() implies #[trigger] whole[i].offset
            .at_most(#[trigger] whole[j].offset) by {
            if j == line.len() && i < line.len() - 1 {
                assert(line[i].offset.at_most(line.last().offset));
            }
        }
        assert forall|i: int| 0 <= i < whole.len() implies #[trigger] whole[i] == s
            || line.contains(whole[i]) by {
            if i < line.len() {
                assert(whole[i] == line[i]);
            }
        }
    } else {
        let (rest, last) = (line.drop_last(), line.last());
        assert forall|i: int| 0 <= i < rest.len() implies !(#[trigger] rest[i]).offset.nan() by {
            assert(rest[i] == line[i]);
        }
        assert forall|i: int, j: int| 0 <= i < j < rest.len() implies #[trigger] rest[i].offset
            .at_most(#[trigger] rest[j].offset) by {
            assert(rest[i] == line[i] && rest[j] == line[j]);
        }
        lemma_inserted_sorted(rest, s);
        let short = inserted(rest, s);
        assert(whole == short.push(last));
        assert(line =~= rest.push(last));
        assert forall|i: int, j: int| 0 <= i < j < whole.len() implies #[trigger] whole[i].offset
            .at_most(#[trigger] whole[j].offset) by {
            if j == short.len() {
                assert(short[i] == s || rest.contains(short[i]));
                if short[i] != s {
                    let k = choose|k: int| 0 <= k < rest.len() && rest[k] == short[i];
                    assert(line[k].offset.at_most(line.last().offset));
                }
            }
        }
        assert forall|i: int| 0 <= i < whole.len() implies #[trigger] whole[i] == s
            || line.contains(whole[i]) by {
            if i < short.len() && short[i] != s {
                let k = choose|k: int| 0 <= k < rest.len() && rest[k] == short[i];
                assert(line[k] == whole[i]);
            } else if i == short.len() {
                assert(line[line.len() - 1] == whole[i]);
            }
        }
        assert(line.to_multiset().insert(s) =~= rest.to_multiset().insert(s).insert(last));
    }
}

/// At or before its first stop a color line has the color of that stop, and at or past its
/// last stop the color of that: exactly, where the stop adds no alpha of its own and the
/// color is not fully transparent.
pub proof fn color_lines_end_in_their_colors(
    stop: ColorStop,
    palette: Seq<Rgba>,
    foreground: Rgba,
    line: Seq<ResolvedStop>,
    t: Binary32,
)
    requires
        line.len() > 0,
        stop.alpha == Binary32(ONE),
        base_color(stop.palette_index, palette, foreground).a > 0,
        t.at_most(line[0].offset) && line[0] == resolved_stop(stop, palette, foreground)
            || !t.at_most(line[0].offset) && line.last().offset.at_most(t) && line.last()
            == resolved_stop(stop, palette, foreground),
    ensures
        sampled(line, t) == base_color(stop.palette_index, palette, foreground),
{
    let base = base_color(stop.palette_index, palette, foreground);
    let s = resolved_stop(stop, palette, foreground);
    lemma_values();
    lemma_fraction(base.a, base.a);
    lemma_mul_one(fraction(base.a));
    assert(s.a == fraction(base.a));
    assert(line_at(line, t) == s);
    lemma_whole_channel(base.a);
    lemma_rescaled_channel(base.r, base.a);
    lemma_rescaled_channel(base.g, base.a);
    lemma_rescaled_channel(base.b, base.a);
    if s.a.at_most(Binary32(ZERO)) {
        // The alpha would come back as nothing.
        lemma_mul_value(s.a, Binary32(CHANNEL_MAX));
        lemma_no_alpha(base.a);
    }
}

/// Inside an ascending line, at the offset of a stop, the color is that of the last stop
/// there: a hard edge belongs to the stop above it.
pub proof fn hard_edges_take_the_upper_stop(line: Seq<ResolvedStop>, j: int)
    requires
        ascends(line),
        0 < j < line.len() - 1,
        line[0].offset.less(line[j].offset),
        line[j].offset.less(line[j + 1].offset),
        line[j].offset.sub(line[j - 1].offset).finite(),
        solid_stop(line[j - 1]),
        solid_stop(line[j]),
    ensures
        sampled(line, line[j].offset) == sampled(seq![line[j]], line[j].offset),
{
    lemma_values();
    let (low, high, t) = (line[j - 1], line[j], line[j].offset);
    if j + 1 < line.len() - 1 {
        assert(line[j + 1].offset.at_most(line[line.len() - 1].offset));
    }
    assert(!line.last().offset.at_most(t));
    lemma_edge_segment(line, j, 0);
    let span = high.offset.sub(low.offset);
    let part = segment_part(low, high, t);
    if Binary32(BILLIONTH).less(span) {
        lemma_units_order(0, BILLIONTH as nat);
        assert(units(0) == 0);
        lemma_div_self(span);
    }
    lemma_whole_part(low.lr, high.lr, part);
    lemma_whole_part(low.lg, high.lg, part);
    lemma_whole_part(low.lb, high.lb, part);
    lemma_whole_part(low.a, high.a, part);
    let at = line_at(line, t);
    let alone = seq![high];
    assert(line_at(alone, t) == high);
    if Binary32(ZERO).less(high.a) {
        lemma_same_number(at.a, high.a);
        lemma_same_byte(at.lr, high.lr, high.a);
        lemma_same_byte(at.lg, high.lg, high.a);
        lemma_same_byte(at.lb, high.lb, high.a);
    }
}

/// Whether the offset and the channels of a stop are finite.
pub open spec fn solid_stop(s: ResolvedStop) -> bool {
    s.offset.finite() && s.lr.finite() && s.lg.finite() && s.lb.finite() && s.a.finite()
}

/// The pair of stops at the offset of a stop ends with the last stop there.
proof fn lemma_edge_segment(line: Seq<ResolvedStop>, j: int, i: int)
    requires
        ascends(line),
        0 <= i < j < line.len() - 1,
        line[j].offset.finite(),
        line[j].offset.less(line[j + 1].offset),
    ensures
        segment_from(line, line[j].offset, i) == (line[j - 1], line[j]),
    decreases j - i,
{
    let t = line[j].offset;
    assert(line[i].offset.at_most(t));
    if i + 1 < j {
        assert(line[i + 1].offset.at_most(t));
        if i + 2 < j {
            assert(line[i + 1].offset.at_most(line[i + 2].offset));
            assert(line[i + 2].offset.at_most(t));
        }
        lemma_edge_segment(line, j, i + 1);
    }
}

/// Where all of the upper stop is mixed in, nothing of the lower one is left.
pub proof fn lemma_whole_part(low: Binary32, high: Binary32, part: Binary32)
    requires
        low.finite(),
        high.finite(),
        part.equals(Binary32(ONE)),
    ensures
        mix(low, high, part).finite(),
        mix(low, high, part).value() == high.value(),
{
    lemma_values();
    lemma_same_number(part, Binary32(ONE));
    lemma_difference_within(Binary32(ONE), part, Binary32(ZERO));
    let rest = Binary32(ONE).sub(part);
    lemma_mul_one(high);
    products_commute(low, rest);
    lemma_zero_product(rest, low);
    lemma_add_value(low.mul(rest), high);
    lemma_rounded_exact(high);
    lemma_same_size(low.mul(rest).add(high), high);
}

/// Channels of one value give one byte.
proof fn lemma_same_byte(x: Binary32, y: Binary32, a: Binary32)
    requires
        x.finite(),
        y.finite(),
        a.finite(),
        a.value() > 0,
        x.value() == y.value(),
    ensures
        spec_straight_byte(x, a) == spec_straight_byte(y, a),
{
    lemma_values();
    lemma_div_value(x, a);
    lemma_div_value(y, a);
    let p = x.div(a).clamp(Binary32(ZERO), Binary32(ONE));
    let q = y.div(a).clamp(Binary32(ZERO), Binary32(ONE));
    lemma_clamp01(x.div(a));
    lemma_clamp01(y.div(a));
    lemma_mul_value(p, Binary32(CHANNEL_MAX));
    lemma_mul_value(q, Binary32(CHANNEL_MAX));
    lemma_nearest_byte_order(p.mul(Binary32(CHANNEL_MAX)), q.mul(Binary32(CHANNEL_MAX)));
    lemma_nearest_byte_order(q.mul(Binary32(CHANNEL_MAX)), p.mul(Binary32(CHANNEL_MAX)));
}

/// Only no channel has a fraction of nothing.
pub proof fn lemma_no_alpha(a: u8)
    requires
        fraction(a).at_most(Binary32(ZERO)),
    ensures
        a == 0,
{
    lemma_values();
    lemma_fraction(a, a);
    lemma_whole_channel(a);
    lemma_whole_channel(0);
    lemma_fraction(0, a);
    assert(fraction(0).value() == 0);
    lemma_mul_order(fraction(a), fraction(0), Binary32(CHANNEL_MAX));
    lemma_nearest_byte_order(
        fraction(a).mul(Binary32(CHANNEL_MAX)),
        fraction(0).mul(Binary32(CHANNEL_MAX)),
    );
}

/// Whether a folded parameter is as far from a whole number of steps as the parameter is.
pub open spec fn folds_about(t: Binary32, extend: Extend, k: int) -> bool {
    let (x, y) = (number(t), number(apply_extend(t, extend)));
    match extend {
        Extend::Pad => x >= 1real && y == 1real || x <= 0real && y == 0real || y == x,
        Extend::Repeat => size(y - (x - k as real)) <= 4real * part(),
        Extend::Reflect => size(y - size(x - 2real * (k as real))) <= 4real * part(),
    }
}

/// Repeating takes a whole number off a parameter, and reflecting leaves its distance from an even
/// number, which brings it between zero and one. Padding only holds it there. The greatest
/// negative number is left out of the reflected ones.
pub proof fn parameters_fold_about_whole_numbers(t: Binary32, extend: Extend)
    requires
        t.finite(),
        extend is Reflect ==> t.value() != -1,
    ensures
        apply_extend(t, extend).finite(),
        0real <= number(apply_extend(t, extend)),
        number(apply_extend(t, extend)) <= 1real,
        exists|k: int| #[trigger] folds_about(t, extend, k),
{
    lemma_values();
    lemma_limit_size();
    extended_parameters_lie_within_one(t, extend);
    let y = apply_extend(t, extend);
    lemma_finite_between(Binary32(ZERO), y, Binary32(ONE));
    lemma_number_order(Binary32(ZERO), y);
    lemma_number_order(y, Binary32(ONE));
    match extend {
        Extend::Pad => {
            lemma_clamped_number(t);
            assert(folds_about(t, extend, 0));
        },
        Extend::Repeat => {
            lemma_repetition(t);
            lemma_floor_number(t);
            assert(folds_about(t, extend, t.value() / unity() as int));
        },
        Extend::Reflect => {
            lemma_reflection(t);
            lemma_wave(t);
            let d = (2 * unity()) as int;
            let (k, rest) = (t.value() / d, (t.value() % d) as real / unity() as real);
            if rest <= 1real {
                assert(folds_about(t, extend, k));
            } else {
                assert((k + 1) as real == k as real + 1real);
                assert(folds_about(t, extend, k + 1));
            }
        },
    }
}

} // verus!
