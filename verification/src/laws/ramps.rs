//! What holds of the entries of a ramp and of looking them up.
use crate::accuracy::lemma_integer_exact;
use crate::binary32::{integer, unity, Binary32};
use crate::canvas::gradient_color;
use crate::consts::{ONE, ZERO};
use crate::gradient::{apply_extend, ramp_index, ramp_of, sampled, Extend, ResolvedStop, RAMP_LEN};
use crate::laws::blends::at_most_one;
use crate::laws::bytes::lemma_half_away;
use crate::laws::gradients::{
    lemma_clamped_number, lemma_entry, lemma_steps, ramps_are_looked_up_in_order,
};
use crate::order::lemma_values;
use crate::reals::{
    lemma_limit_size, lemma_part, lemma_product, lemma_quotient, lemma_scale, lemma_whole_number,
    number, part, size,
};
use vstd::arithmetic::div_mod::lemma_fundamental_div_mod;
use vstd::arithmetic::mul::{lemma_mul_is_associative, lemma_mul_is_commutative};
use vstd::prelude::*;

verus! {

/// A parameter held between zero and one.
pub open spec fn held(t: real) -> real {
    if t < 0real {
        0real
    } else {
        at_most_one(t)
    }
}

/// The entry that a parameter looks up is the one nearest to its place on the ramp.
pub proof fn entries_are_nearest(t: Binary32)
    requires
        t.finite(),
    ensures
        0 <= ramp_index(RAMP_LEN as nat, t) < RAMP_LEN,
        size(ramp_index(RAMP_LEN as nat, t) as real - 255real * held(number(t))) <= 1real / 2real
            + 1real / 4096real,
{
    lemma_limit_size();
    lemma_values();
    lemma_steps();
    lemma_entry(t);
    lemma_clamped_number(t);
    ramps_are_looked_up_in_order(t, t);
    let steps = integer(false, RAMP_LEN as nat).sub(Binary32(ONE));
    let a = t.clamp(Binary32(ZERO), Binary32(ONE));
    let x = a.mul(steps);
    lemma_whole_number(steps, 255);
    let (c, y) = (number(steps), number(a));
    assert(y * c == 255real * y);
    lemma_part(size(y * c));
    lemma_product(a, steps);
    let (v, u) = (x.value(), unity() as int);
    let n = (2 * v + u) / (2 * u);
    lemma_fundamental_div_mod(2 * v + u, 2 * u);
    lemma_mul_is_associative(2, u, n);
    lemma_mul_is_commutative(u, n);
    lemma_scale(x);
    lemma_half_away(n, v, u, number(x));
}

/// An entry of a ramp is the color of the line at its place: as many parts of 255 as it has
/// entries before it.
pub proof fn entries_lie_in_equal_steps(line: Seq<ResolvedStop>, i: int)
    requires
        0 <= i < RAMP_LEN,
    ensures
        exists|x: Binary32|
            x.finite() && size(number(x) - i as real / 255real) <= 2real * part()
                && #[trigger] sampled(line, x) == ramp_of(line)[i],
{
    lemma_limit_size();
    lemma_values();
    lemma_steps();
    lemma_integer_exact(false, i as nat);
    let steps = integer(false, RAMP_LEN as nat).sub(Binary32(ONE));
    lemma_whole_number(steps, 255);
    let n = integer(false, i as nat);
    lemma_whole_number(n, i);
    let h = i as real / 255real;
    assert(0real <= i as real && i as real <= 255real);
    lemma_part(size(h));
    lemma_part(2real);
    lemma_quotient(n, steps);
    let x = n.div(steps);
    assert(sampled(line, x) == ramp_of(line)[i]);
}

/// A padded gradient shows the color of its line at the parameter, held between zero and one, but
/// for half a step of its ramp.
pub proof fn gradients_show_their_line(line: Seq<ResolvedStop>, t: Binary32)
    requires
        t.finite(),
    ensures
        exists|x: Binary32|
            x.finite() && size(255real * (number(x) - held(number(t)))) <= 1real / 2real + 1real
                / 1024real && #[trigger] sampled(line, x) == gradient_color(
                ramp_of(line),
                t,
                Extend::Pad,
            ),
{
    let c = apply_extend(t, Extend::Pad);
    lemma_clamped_number(t);
    lemma_clamped_number(c);
    entries_are_nearest(c);
    let i = ramp_index(RAMP_LEN as nat, c);
    entries_lie_in_equal_steps(line, i);
    lemma_part(2real);
    let x = choose|x: Binary32|
        x.finite() && size(number(x) - i as real / 255real) <= 2real * part() && #[trigger] sampled(
            line,
            x,
        ) == ramp_of(line)[i];
    assert(sampled(line, x) == gradient_color(ramp_of(line), t, Extend::Pad));
}

} // verus!
