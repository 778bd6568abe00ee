//! What holds of sweep gradients a turn apart.
use crate::accuracy::lemma_floor_value;
use crate::binary32::{unity, Binary32};
use crate::bounds::lemma_constants;
use crate::canvas::{blended_pixel, coverage, gradient_color, sweep_parameter, Canvas};
use crate::color::Rgba;
use crate::composite::pixel;
use crate::consts::{BILLIONTH, DEGREES_PER_RADIAN, TURN, ZERO};
use crate::gradient::{apply_extend, ramp_index, ColorStop, Extend, RAMP_LEN};
use crate::laws::gradients::{
    lemma_turn, near_parameters_extend_alike, near_parameters_look_up_neighbors,
};
use crate::laws::luminosities::lemma_binade;
use crate::order::{lemma_same_size, lemma_values};
use crate::reals::{
    lemma_absolute_number, lemma_distributes, lemma_exchanged, lemma_finite_factors,
    lemma_finite_product, lemma_limit_size, lemma_number_order, lemma_part, lemma_product,
    lemma_quotient, lemma_size_product, lemma_size_sum, lemma_subtraction, lemma_sum, lemma_times,
    limit, number, part, size, speck,
};
use vstd::arithmetic::div_mod::{lemma_fundamental_div_mod, lemma_fundamental_div_mod_converse};
use vstd::arithmetic::power2::lemma2_to64;
use vstd::prelude::*;

verus! {

/// The number of whole turns that a sweep gradient takes off an angle.
pub open spec fn turns_taken(start: Binary32, angle: Binary32) -> int {
    let degrees = angle.mul(Binary32(DEGREES_PER_RADIAN));
    degrees.sub(start).div(Binary32(TURN)).floor().value() / unity() as int
}

/// The angle in degrees that a sweep gradient looks at.
pub open spec fn degrees_of(angle: Binary32) -> Binary32 {
    angle.mul(Binary32(DEGREES_PER_RADIAN))
}

/// A number of whole turns in degrees.
pub open spec fn turns(k: int) -> real {
    360real * (k as real)
}

/// Whether an angle is no whole number of turns from the start of a sweep gradient, by sixteen
/// parts in `2^24` of the largest angle. At the seam rounding may take an angle to either side.
pub open spec fn away_from_seam(start: Binary32, angle: Binary32, largest: real) -> bool {
    forall|k: int|
        size(number(degrees_of(angle)) - number(start) - #[trigger] turns(k)) >= 16real * (part()
            * largest)
}

/// The bound on how far the parameters of a sweep gradient and of one a turn further lie apart,
/// counted in degrees.
pub open spec fn sweep_slack(u: Binary32, largest: real) -> real {
    64real * (part() * largest) * (1real + size(number(u)))
}

/// A sweep gradient whose angles are a whole turn further is the same up to rounding: away from
/// the seam it takes one turn less off an angle, and its parameter is near that of the other.
pub proof fn sweeps_recur_after_a_turn(
    start: Binary32,
    end: Binary32,
    angle: Binary32,
    largest: real,
)
    requires
        sweep_within(start, end, angle, largest),
        sweep_within(start.add(Binary32(TURN)), end.add(Binary32(TURN)), angle, largest),
        away_from_seam(start, angle, largest),
    ensures
        turns_taken(start.add(Binary32(TURN)), angle) == turns_taken(start, angle) - 1,
        ({
            let t = sweep_parameter(start, end, angle);
            let u = sweep_parameter(start.add(Binary32(TURN)), end.add(Binary32(TURN)), angle);
            &&& t.finite()
            &&& u.finite()
            &&& end.sub(start).finite()
            &&& size(number(u) - number(t)) * size(number(end.sub(start))) <= sweep_slack(
                u,
                largest,
            )
        }),
{
    let (further_start, further_end) = (start.add(Binary32(TURN)), end.add(Binary32(TURN)));
    lemma_moderate(largest);
    lemma_further(start, largest);
    lemma_further(end, largest);
    lemma_one_sweep(start, end, angle, largest);
    lemma_one_sweep(further_start, further_end, angle, largest);
    lemma_one_turn_less(start, end, angle, largest);
    let (t, u) = (
        number(sweep_parameter(start, end, angle)),
        number(sweep_parameter(further_start, further_end, angle)),
    );
    let (k, d, eb) = (turns_taken(start, angle), number(degrees_of(angle)), part() * largest);
    assert((k - 1) as real == k as real - 1real);
    let (f, h) = (number(start), number(further_start));
    let (m, n) = (number(end.sub(start)), number(further_end.sub(further_start)));
    lemma_sector(start, end, largest);
    lemma_sector(further_start, further_end, largest);
    lemma_parted(t * m, u * n, d, 360real * (k as real), f, h, eb);
    lemma_sectors(m, n, f, h, number(end), number(further_end), eb);
    lemma_size_product(u - t, m);
    lemma_size_product(u, n - m);
    let s = size(u);
    assert((u - t) * m == u * m - t * m) by (nonlinear_arith);
    assert(u * (n - m) == u * n - u * m) by (nonlinear_arith);
    assert(s * size(n - m) <= 12real * (eb * s)) by (nonlinear_arith)
        requires
            size(n - m) <= 12real * eb,
            s >= 0real,
    ;
    assert(64real * eb * (1real + s) == 64real * eb + 64real * (eb * s)) by (nonlinear_arith);
    assert(eb * s >= 0real) by (nonlinear_arith)
        requires
            eb >= 0real,
            s >= 0real,
    ;
    lemma_slack(u * m, t * m, u * n, eb, eb * s);
}

/// Whether two parameters look up the same entry of a ramp or neighboring ones.
pub open spec fn neighbors(t: Binary32, u: Binary32, extend: Extend) -> bool {
    let i = ramp_index(RAMP_LEN as nat, apply_extend(t, extend));
    let j = ramp_index(RAMP_LEN as nat, apply_extend(u, extend));
    -1 <= i - j <= 1
}

/// Whether a sweep gradient and the one a turn further paint a pixel alike: both from the ramp of
/// the canvas, and away from the seam at parameters within the bound. Where the bound is at most
/// one part in 1024 of the sector, these look up the same entry or neighboring ones, for a
/// repeated gradient within one repetition.
pub open spec fn painted_alike(
    canvas: Canvas,
    angles: Seq<Binary32>,
    start: Binary32,
    end: Binary32,
    stops: Seq<ColorStop>,
    extend: Extend,
    largest: real,
    p: int,
) -> bool {
    let (later, last) = (start.add(Binary32(TURN)), end.add(Binary32(TURN)));
    let one = pixel(canvas.sweep_filled(angles, start, end, stops, extend).pixels, p);
    let other = pixel(canvas.sweep_filled(angles, later, last, stops, extend).pixels, p);
    let (ramp, angle) = (canvas.ramp(stops), angles[p]);
    let (px, covered) = (pixel(canvas.pixels, p), coverage(canvas.clips, p));
    let t = sweep_parameter(start, end, angle);
    let u = sweep_parameter(later, last, angle);
    let (slack, sector) = (sweep_slack(u, largest), size(number(end.sub(start))));
    let moderate = sweep_within(start, end, angle, largest) && sweep_within(
        later,
        last,
        angle,
        largest,
    );
    &&& one == blended_pixel(px, gradient_color(ramp, t, extend), covered)
    &&& other == blended_pixel(px, gradient_color(ramp, u, extend), covered)
    &&& covered == 0 ==> one == other
    &&& moderate && away_from_seam(start, angle, largest) ==> {
        &&& size(number(u) - number(t)) * sector <= slack
        &&& joined(t, u, extend) && slack * 1024real <= sector ==> neighbors(t, u, extend)
    }
}

/// A sweep gradient whose angles are a whole turn further fills a canvas alike: it changes
/// nothing but the pixels, and paints every one of them like the other.
pub proof fn sweeps_fill_alike_after_a_turn(
    canvas: Canvas,
    angles: Seq<Binary32>,
    start: Binary32,
    end: Binary32,
    stops: Seq<ColorStop>,
    extend: Extend,
    largest: real,
)
    requires
        canvas.wf(),
        canvas.sweeps(start, end, stops),
        canvas.sweeps(start.add(Binary32(TURN)), end.add(Binary32(TURN)), stops),
    ensures
        ({
            let (later, last) = (start.add(Binary32(TURN)), end.add(Binary32(TURN)));
            let one = canvas.sweep_filled(angles, start, end, stops, extend);
            let other = canvas.sweep_filled(angles, later, last, stops, extend);
            other == (Canvas { pixels: other.pixels, ..one })
        }),
        forall|p: int|
            0 <= p < canvas.area() ==> #[trigger] painted_alike(
                canvas,
                angles,
                start,
                end,
                stops,
                extend,
                largest,
                p,
            ),
{
    let (later, last) = (start.add(Binary32(TURN)), end.add(Binary32(TURN)));
    assert forall|p: int| 0 <= p < canvas.area() implies #[trigger] painted_alike(
        canvas,
        angles,
        start,
        end,
        stops,
        extend,
        largest,
        p,
    ) by {
        let (ramp, angle) = (canvas.ramp(stops), angles[p]);
        let t = sweep_parameter(start, end, angle);
        let u = sweep_parameter(later, last, angle);
        lemma_swept_pixel(canvas, angles, start, end, stops, extend, p);
        lemma_swept_pixel(canvas, angles, later, last, stops, extend, p);
        lemma_uncovered(pixel(canvas.pixels, p), gradient_color(ramp, t, extend));
        lemma_uncovered(pixel(canvas.pixels, p), gradient_color(ramp, u, extend));
        if sweep_within(start, end, angle, largest) && sweep_within(later, last, angle, largest)
            && away_from_seam(start, angle, largest) {
            sweeps_recur_after_a_turn(start, end, angle, largest);
            let (slack, sector) = (sweep_slack(u, largest), size(number(end.sub(start))));
            if joined(t, u, extend) && slack * 1024real <= sector {
                lemma_neighbors(start, end, t, u, extend, slack);
            }
        }
    }
}

/// What laying a color over a pixel without coverage does.
proof fn lemma_uncovered(px: Seq<u8>, color: Rgba)
    requires
        px.len() == 4,
    ensures
        blended_pixel(px, color, 0) == px,
{
    assert(color.a * 0 == 0) by (nonlinear_arith);
    assert(blended_pixel(px, color, 0) =~= px);
}

/// A pixel of a sweep gradient.
proof fn lemma_swept_pixel(
    canvas: Canvas,
    angles: Seq<Binary32>,
    start: Binary32,
    end: Binary32,
    stops: Seq<ColorStop>,
    extend: Extend,
    p: int,
)
    requires
        canvas.wf(),
        canvas.sweeps(start, end, stops),
        0 <= p < canvas.area(),
    ensures
        pixel(canvas.sweep_filled(angles, start, end, stops, extend).pixels, p) == blended_pixel(
            pixel(canvas.pixels, p),
            gradient_color(
                canvas.ramp(stops),
                sweep_parameter(start, end, angles[p]),
                extend,
            ),
            coverage(canvas.clips, p),
        ),
{
    let filled = canvas.sweep_filled(angles, start, end, stops, extend);
    let color = gradient_color(
        canvas.ramp(stops),
        sweep_parameter(start, end, angles[p]),
        extend,
    );
    let px = blended_pixel(pixel(canvas.pixels, p), color, coverage(canvas.clips, p));
    assert forall|k: int| 0 <= k < 4 implies #[trigger] pixel(filled.pixels, p)[k] == px[k] by {
        let i = 4 * p + k;
        assert(i / 4 == p && i % 4 == k);
    }
    assert(pixel(filled.pixels, p) =~= px);
}

/// Whether two parameters are not parted by where a gradient begins anew. The greatest negative
/// number is left out of the reflected ones.
pub open spec fn joined(t: Binary32, u: Binary32, extend: Extend) -> bool {
    match extend {
        Extend::Pad => true,
        Extend::Repeat => t.floor().value() == u.floor().value(),
        Extend::Reflect => t.value() != -1 && u.value() != -1,
    }
}

/// Parameters that are near each other look up neighbors.
proof fn lemma_neighbors(
    start: Binary32,
    end: Binary32,
    t: Binary32,
    u: Binary32,
    extend: Extend,
    slack: real,
)
    requires
        t.finite(),
        u.finite(),
        joined(t, u, extend),
        size(number(u) - number(t)) * size(number(end.sub(start))) <= slack,
        slack * 1024real <= size(number(end.sub(start))),
        !end.sub(start).abs().less(Binary32(BILLIONTH)),
        end.sub(start).finite(),
    ensures
        neighbors(t, u, extend),
{
    let sector = end.sub(start);
    lemma_number_order(sector.abs(), Binary32(BILLIONTH));
    lemma_number_order(Binary32(BILLIONTH), sector.abs());
    lemma_absolute_number(sector);
    lemma_billionth();
    let (d, s) = (size(number(u) - number(t)), size(number(sector)));
    assert(s > 0real);
    assert(d <= 1real / 1024real) by (nonlinear_arith)
        requires
            d * s <= slack,
            slack * 1024real <= s,
            s > 0real,
    ;
    near_parameters_extend_alike(t, u, extend, 1real / 1024real);
    lemma_limit_size();
    near_parameters_look_up_neighbors(apply_extend(t, extend), apply_extend(u, extend));
}

/// The errors of two parameters together.
proof fn lemma_slack(um: real, tm: real, un: real, eb: real, es: real)
    requires
        size(tm - un) <= 53real * eb,
        size(un - um) <= 12real * es,
        0real <= es,
        0real < eb,
    ensures
        size(um - tm) <= 64real * eb + 64real * es,
{
}

/// The angles from the starts of two sweep gradients, with their turns taken off.
proof fn lemma_parted(tm: real, un: real, d: real, k: real, f: real, h: real, eb: real)
    requires
        size(tm - (d - k - f)) <= 25real * eb,
        size(un - (d - (k - 360real) - h)) <= 25real * eb,
        size(h - (f + 360real)) <= 2real * eb,
        0real < eb,
    ensures
        size(tm - un) <= 53real * eb,
{
}

/// The sectors of two sweep gradients.
proof fn lemma_sectors(m: real, n: real, f: real, h: real, g: real, i: real, eb: real)
    requires
        size(m - (g - f)) <= 3real * eb,
        size(n - (i - h)) <= 3real * eb,
        size(h - (f + 360real)) <= 2real * eb,
        size(i - (g + 360real)) <= 2real * eb,
        0real < eb,
    ensures
        size(n - m) <= 12real * eb,
{
}

/// A sector is near the exact one.
proof fn lemma_sector(start: Binary32, end: Binary32, largest: real)
    requires
        720real <= largest,
        largest <= 268435456real,
        start.finite(),
        end.finite(),
        size(number(start)) <= largest,
        size(number(end)) <= largest,
    ensures
        end.sub(start).finite(),
        size(number(end.sub(start)) - (number(end) - number(start))) <= 3real * (part() * largest),
{
    lemma_moderate(largest);
    lemma_size_sum(number(end), number(start));
    lemma_subtraction(end, start);
    lemma_scaled_size(part(), number(end) - number(start), 2real, largest);
}

/// An angle a turn further.
proof fn lemma_further(x: Binary32, largest: real)
    requires
        720real <= largest,
        largest <= 268435456real,
        x.finite(),
        size(number(x)) <= largest,
    ensures
        size(number(x.add(Binary32(TURN))) - (number(x) + 360real)) <= 2real * (part() * largest),
{
    lemma_moderate(largest);
    lemma_values();
    lemma_turn();
    lemma_shifted_number(Binary32(ZERO), Binary32(TURN));
    lemma_number_order(Binary32(ZERO), Binary32(ZERO));
    lemma_same_size(Binary32(TURN), Binary32(TURN));
    lemma_sum(x, Binary32(TURN));
    lemma_scaled_size(part(), number(x) + 360real, 2real, largest);
}

/// Away from the seam a sweep gradient a turn further takes one turn less off an angle.
proof fn lemma_one_turn_less(start: Binary32, end: Binary32, angle: Binary32, largest: real)
    requires
        sweep_within(start, end, angle, largest),
        sweep_within(start.add(Binary32(TURN)), end.add(Binary32(TURN)), angle, largest),
        away_from_seam(start, angle, largest),
    ensures
        turns_taken(start.add(Binary32(TURN)), angle) == turns_taken(start, angle) - 1,
{
    let further = start.add(Binary32(TURN));
    lemma_moderate(largest);
    lemma_further(start, largest);
    lemma_turns_size(start, end, angle, largest);
    lemma_turns_size(further, end.add(Binary32(TURN)), angle, largest);
    let (k, j) = (turns_taken(start, angle), turns_taken(further, angle));
    let (d, f, h, eb) = (
        number(degrees_of(angle)),
        number(start),
        number(further),
        part() * largest,
    );
    assert(size(d - f - turns(k)) >= 16real * eb);
    assert(size(d - f - turns(k + 1)) >= 16real * eb);
    assert((k + 1) as real == k as real + 1real);
    let (kr, jr) = (k as real, j as real);
    lemma_between(d, f, h, kr, jr, eb);
    assert(j == k - 1);
}

/// The counts of the turns of two angles that lie a turn apart.
proof fn lemma_between(d: real, f: real, h: real, k: real, j: real, eb: real)
    requires
        360real * k - 6real * eb <= d - f,
        d - f <= 360real * k + 360real + 6real * eb,
        360real * j - 6real * eb <= d - h,
        d - h <= 360real * j + 360real + 6real * eb,
        size(d - f - 360real * k) >= 16real * eb,
        size(d - f - 360real * (k + 1real)) >= 16real * eb,
        size(h - (f + 360real)) <= 2real * eb,
        0real < eb,
    ensures
        j - 1real < k - 1real,
        k - 1real < j + 1real,
{
}

/// Whether a sweep gradient and an angle are not larger than some angle, and the sector is not
/// next to nothing. For angles past `2^28` degrees rounding exceeds a turn.
pub open spec fn sweep_within(
    start: Binary32,
    end: Binary32,
    angle: Binary32,
    largest: real,
) -> bool {
    let degrees = angle.mul(Binary32(DEGREES_PER_RADIAN));
    &&& 720real <= largest
    &&& largest <= 268435456real
    &&& degrees.finite()
    &&& start.finite()
    &&& end.finite()
    &&& size(number(degrees)) <= largest
    &&& size(number(start)) <= largest
    &&& size(number(end)) <= largest
    &&& !end.sub(start).abs().less(Binary32(BILLIONTH))
}

/// A number a turn further.
proof fn lemma_shifted_number(x: Binary32, y: Binary32)
    requires
        y.value() == x.value() + 360 * unity(),
    ensures
        number(y) == number(x) + 360real,
{
    lemma_values();
    let (v, w, u) = (x.value() as real, y.value() as real, unity() as real);
    assert(w == v + 360real * u);
    assert(w / u == v / u + 360real) by (nonlinear_arith)
        requires
            w == v + 360real * u,
            u > 0real,
    ;
}

/// How small the parts are that rounding takes of moderate angles.
proof fn lemma_moderate(b: real)
    requires
        720real <= b,
        b <= 268435456real,
    ensures
        part() > 0real,
        part() * b == b / 16777216real,
        part() * b > 0real,
        0real < speck(),
        speck() <= part() * b / 1000000real,
        speck() * (3real * b) <= part() * b,
        limit() == 1267650600228229401496703205376real,
{
    lemma_limit_size();
    lemma_part(b);
    let (g, h) = (speck(), 1real / 1267650600228229401496703205376real);
    assert(g * (3real * b) <= h * (3real * b)) by (nonlinear_arith)
        requires
            g <= h,
            b > 0real,
    ;
    assert(h * (3real * b) == (3real * b) / 1267650600228229401496703205376real)
        by (nonlinear_arith)
        requires
            h == 1real / 1267650600228229401496703205376real,
    ;
}

/// The turns that are taken off an angle do not exceed it by much.
proof fn lemma_turns_size(start: Binary32, end: Binary32, angle: Binary32, largest: real)
    requires
        sweep_within(start, end, angle, largest),
    ensures
        ({
            let degrees = angle.mul(Binary32(DEGREES_PER_RADIAN));
            let turns = degrees.sub(start).div(Binary32(TURN)).floor();
            let k = turns_taken(start, angle) as real;
            &&& turns.finite()
            &&& number(turns) == k
            &&& size(360real * k) <= 3real * largest
            &&& number(Binary32(TURN)) == 360real
            &&& 360real * k - 6real * (part() * largest) <= number(degrees) - number(start)
            &&& number(degrees) - number(start) <= 360real * k + 360real + 6real * (part()
                * largest)
        }),
{
    lemma_values();
    lemma_turn();
    lemma_moderate(largest);
    let degrees = angle.mul(Binary32(DEGREES_PER_RADIAN));
    let (d, f, e, b) = (number(degrees), number(start), part(), largest);
    let turn = Binary32(TURN);
    lemma_shifted_number(Binary32(ZERO), turn);
    lemma_number_order(Binary32(ZERO), Binary32(ZERO));
    let eb = e * b;
    lemma_size_sum(d, f);
    lemma_subtraction(degrees, start);
    let along = degrees.sub(start);
    let a = number(along);
    lemma_scaled_size(e, d - f, 2real, b);
    assert(size(a) <= 2real * b + 2real * eb);
    let q = along.div(turn);
    let c = a / 360real;
    assert(size(c) <= b / 100real);
    lemma_quotient(along, turn);
    lemma_scaled_size(e, c, 1real / 100real, b);
    lemma_floor_value(q);
    let turns = q.floor();
    let k = q.value() / unity() as int;
    lemma_fundamental_div_mod_converse(k * unity(), unity() as int, k, 0);
    lemma_turn_count(q, turns, k);
    assert((1real / 100real) * eb == eb / 100real);
    lemma_counted_turns(d, f, a, c, number(q), k as real, eb, b);
}

/// The count of the turns, by the errors of the quotient.
proof fn lemma_counted_turns(
    d: real,
    f: real,
    a: real,
    c: real,
    q: real,
    k: real,
    eb: real,
    b: real,
)
    requires
        size(a - (d - f)) <= 2real * eb,
        c == a / 360real,
        size(q - c) <= eb / 100real + eb / 1000000real,
        k <= q,
        q < k + 1real,
        size(d - f) <= 2real * b,
        eb == b / 16777216real,
        720real <= b,
    ensures
        360real * k - 6real * eb <= d - f,
        d - f <= 360real * k + 360real + 6real * eb,
        size(360real * k) <= 3real * b,
{
}

/// What is left of an angle when its turns and the start are taken off.
proof fn lemma_sweep_rest(start: Binary32, end: Binary32, angle: Binary32, largest: real)
    requires
        sweep_within(start, end, angle, largest),
    ensures
        ({
            let degrees = angle.mul(Binary32(DEGREES_PER_RADIAN));
            let turns = degrees.sub(start).div(Binary32(TURN)).floor();
            let rest = degrees.sub(Binary32(TURN).mul(turns)).sub(start);
            let k = turns_taken(start, angle) as real;
            &&& rest.finite()
            &&& size(number(rest) - (number(degrees) - 360real * k - number(start))) <= 16real
                * (part() * largest)
            &&& size(number(rest)) <= 8real * largest
        }),
{
    lemma_turns_size(start, end, angle, largest);
    lemma_moderate(largest);
    let degrees = angle.mul(Binary32(DEGREES_PER_RADIAN));
    let (d, f, e, b) = (number(degrees), number(start), part(), largest);
    let eb = e * b;
    let turn = Binary32(TURN);
    let turns = degrees.sub(start).div(turn).floor();
    let k = turns_taken(start, angle) as real;
    let lost = turn.mul(turns);
    lemma_product(turn, turns);
    lemma_scaled_size(e, 360real * k, 3real, b);
    let o = number(lost);
    assert(size(o - 360real * k) <= 4real * eb);
    lemma_chain(d, o, 360real * k, 4real * eb);
    assert(size(d - o) <= 5real * b);
    lemma_subtraction(degrees, lost);
    let within = degrees.sub(lost);
    lemma_scaled_size(e, d - o, 5real, b);
    let w = number(within);
    assert(size(w - (d - o)) <= 5real * eb);
    lemma_chain(w, f, 0real, b);
    lemma_chain(0real, w, d - o, 5real * eb);
    assert(size(w - f) <= 7real * b);
    lemma_subtraction(within, start);
    lemma_scaled_size(e, w - f, 7real, b);
    lemma_total(d, o, 360real * k, w, f, number(within.sub(start)), eb, b);
}

/// The size of a difference, by way of a third number.
proof fn lemma_chain(x: real, y: real, z: real, e: real)
    requires
        size(y - z) <= e,
    ensures
        size(x - y) <= size(x) + size(z) + e,
        size(y) <= size(z) + e,
{
}

/// The errors of three steps together.
proof fn lemma_total(d: real, o: real, k: real, w: real, f: real, p: real, eb: real, b: real)
    requires
        size(o - k) <= 4real * eb,
        size(w - (d - o)) <= 5real * eb,
        size(p - (w - f)) <= 7real * eb,
        size(w - f) <= 7real * b,
        eb == b / 16777216real,
        b >= 720real,
    ensures
        size(p - (d - k - f)) <= 16real * eb,
        size(p) <= 8real * b,
{
}

/// A sweep parameter, counted back in degrees, is the angle from the start with its whole
/// turns taken off, up to rounding.
proof fn lemma_one_sweep(start: Binary32, end: Binary32, angle: Binary32, largest: real)
    requires
        sweep_within(start, end, angle, largest),
    ensures
        ({
            let degrees = angle.mul(Binary32(DEGREES_PER_RADIAN));
            let k = turns_taken(start, angle) as real;
            size(
                number(sweep_parameter(start, end, angle)) * number(end.sub(start)) - (number(
                    degrees,
                ) - 360real * k - number(start)),
            ) <= 25real * (part() * largest)
        }),
        sweep_parameter(start, end, angle).finite(),
{
    lemma_sweep_rest(start, end, angle, largest);
    lemma_moderate(largest);
    let degrees = angle.mul(Binary32(DEGREES_PER_RADIAN));
    let turns = degrees.sub(start).div(Binary32(TURN)).floor();
    let rest = degrees.sub(Binary32(TURN).mul(turns)).sub(start);
    let (f, e, b, g) = (number(start), part(), largest, speck());
    let p = number(rest);
    let sector = end.sub(start);
    lemma_size_sum(number(end), f);
    lemma_subtraction(end, start);
    lemma_scaled_size(e, number(end) - f, 2real, b);
    lemma_number_order(Binary32(BILLIONTH), sector.abs());
    lemma_number_order(sector.abs(), Binary32(BILLIONTH));
    lemma_absolute_number(sector);
    lemma_billionth();
    let n = number(sector);
    let t = p / n;
    assert(size(n) * 1073741824real >= 1real);
    assert(t * n == p) by (nonlinear_arith)
        requires
            t == p / n,
            n != 0real,
    ;
    lemma_size_product(t, n);
    assert(size(t) <= 8real * b * 1073741824real) by (nonlinear_arith)
        requires
            size(t) * size(n) <= 8real * b,
            size(n) * 1073741824real >= 1real,
            size(t) >= 0real,
            b > 0real,
    ;
    lemma_quotient(rest, sector);
    let c = number(rest.div(sector));
    lemma_size_product(c - t, n);
    assert((c - t) * n == c * n - t * n) by (nonlinear_arith);
    assert(size(c - t) * size(n) <= e * (size(t) * size(n)) + g * size(n)) by (nonlinear_arith)
        requires
            size(c - t) <= e * size(t) + g,
            size(n) >= 0real,
    ;
    lemma_scaled_size(e, p, 8real, b);
    assert(g * size(n) <= g * (3real * b)) by (nonlinear_arith)
        requires
            size(n) <= 3real * b,
            g > 0real,
    ;
}

/// A part of something that is not larger than a multiple of something else.
proof fn lemma_scaled_size(e: real, x: real, m: real, b: real)
    requires
        e > 0real,
        size(x) <= m * b,
    ensures
        e * size(x) <= m * (e * b),
{
    assert(e * size(x) <= m * (e * b)) by (nonlinear_arith)
        requires
            e > 0real,
            size(x) <= m * b,
    ;
}

/// The number of turns, as a real number, is within one of the quotient.
proof fn lemma_turn_count(q: Binary32, turns: Binary32, k: int)
    requires
        q.finite(),
        turns.value() == k * unity(),
        k == q.value() / unity() as int,
    ensures
        number(turns) == k as real,
        k as real <= number(q),
        number(q) < k as real + 1real,
{
    lemma_values();
    let (v, u) = (q.value(), unity() as int);
    lemma_fundamental_div_mod(v, u);
    let (vr, ur, kr) = (v as real, u as real, k as real);
    assert((k * u) as real == kr * ur && (u * k) as real == kr * ur) by (nonlinear_arith)
        requires
            kr == k as real,
            ur == u as real,
    ;
    assert((kr * ur) / ur == kr) by (nonlinear_arith)
        requires
            ur > 0real,
    ;
    let x = vr / ur;
    assert(kr <= x && x < kr + 1real) by (nonlinear_arith)
        requires
            x == vr / ur,
            kr * ur <= vr,
            vr < kr * ur + ur,
            ur > 0real,
    ;
}

/// The distance that counts as none is not smaller than `2^-30`.
pub proof fn lemma_billionth()
    ensures
        number(Binary32(BILLIONTH)) * 1073741824real >= 1real,
{
    lemma_values();
    lemma_constants();
    lemma2_to64();
    let (v, u) = (Binary32(BILLIONTH).value(), unity() as int);
    assert((v * 0x4000_0000) as real == v as real * 1073741824real);
    assert((v as real / u as real) * 1073741824real >= 1real) by (nonlinear_arith)
        requires
            v as real * 1073741824real >= u as real,
            u as real > 0real,
    ;
}

/// Whether a parameter of a sweep gradient, counted in degrees of its sector, is the angle from
/// the start once some whole turns are taken off, which leaves at most a turn of it.
pub open spec fn measures(
    start: Binary32,
    end: Binary32,
    angle: Binary32,
    largest: real,
    k: int,
) -> bool {
    let t = number(sweep_parameter(start, end, angle));
    let sector = number(end) - number(start);
    let left = number(angle) * (15019745real / 262144real) - turns(k) - number(start);
    let slack = part() * largest;
    &&& -(10real * slack) <= left
    &&& left <= 360real + 10real * slack
    &&& size(t * sector - left) <= 32real * slack + size(t) * (2real * slack)
}

/// The parameter of a sweep gradient at an angle is how far around its sector the angle lies: the
/// angle in degrees, taken to the turn that begins at the start angle, from there on, by the
/// width of the sector.
pub proof fn sweep_parameters_measure_the_angle(
    start: Binary32,
    end: Binary32,
    angle: Binary32,
    largest: real,
)
    requires
        sweep_within(start, end, angle, largest),
    ensures
        exists|k: int| #[trigger] measures(start, end, angle, largest, k),
{
    let k = turns_taken(start, angle);
    lemma_turns_size(start, end, angle, largest);
    lemma_one_sweep(start, end, angle, largest);
    lemma_moderate(largest);
    let degrees = angle.mul(Binary32(DEGREES_PER_RADIAN));
    lemma_finite_factors(angle, Binary32(DEGREES_PER_RADIAN));
    lemma_finite_product(angle, Binary32(DEGREES_PER_RADIAN));
    lemma2_to64();
    lemma_binade(0x00e5_2ee1, 131, 18);
    let x = number(angle) * (15019745real / 262144real);
    lemma_part(size(x));
    assert(size(number(degrees) - x) <= 2real * (largest / 16777216real));
    lemma_size_sum(number(end), number(start));
    lemma_subtraction(end, start);
    let (a, b) = (number(end) - number(start), number(end.sub(start)));
    lemma_part(size(a));
    let t = number(sweep_parameter(start, end, angle));
    lemma_exchanged(t, a);
    lemma_exchanged(t, b);
    lemma_distributes(b, a, t);
    lemma_size_product(b - a, t);
    lemma_exchanged(size(b - a), size(t));
    lemma_exchanged(size(t), 2real * (largest / 16777216real));
    lemma_times(size(b - a), 2real * (largest / 16777216real), size(t));
    assert(measures(start, end, angle, largest, k));
}

} // verus!
