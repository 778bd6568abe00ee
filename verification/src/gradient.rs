//! Gradient color lines: resolving their stops, sampling them, and the
//! parameters at which a gradient samples them.
use crate::binary32::{integer, Binary32};
use crate::color::Rgba;
use crate::consts::{BILLIONTH, CHANNEL_MAX, FOUR, HALF, ONE, TWO, ZERO};
use crate::path::Vector;
use vstd::prelude::*;

verus! {

/// The palette index that stands for the text color.
pub const FOREGROUND_COLOR_INDEX: u16 = 0xffff;

/// The number of entries of a color ramp. It is below the banding of eight-bit output.
pub const RAMP_LEN: usize = 256;

/// What a gradient does past the ends of its color line.
#[derive(Copy, Clone, Debug, PartialEq, Eq, Structural)]
pub enum Extend {
    Pad,
    Repeat,
    Reflect,
}

/// A stop of a color line.
#[derive(Copy, Clone, Debug, PartialEq, Eq, Structural)]
pub struct ColorStop {
    pub offset: Binary32,
    pub palette_index: u16,
    pub alpha: Binary32,
}

/// What an area is filled with, in paint coordinates. Angles are clockwise degrees
/// from the axis that points right.
#[derive(Copy, Clone, Debug)]
pub enum Brush<'a> {
    Solid { palette_index: u16, alpha: Binary32 },
    LinearGradient { p0: Vector, p1: Vector, color_stops: &'a [ColorStop], extend: Extend },
    RadialGradient {
        c0: Vector,
        r0: Binary32,
        c1: Vector,
        r1: Binary32,
        color_stops: &'a [ColorStop],
        extend: Extend,
    },
    SweepGradient {
        c0: Vector,
        start_angle: Binary32,
        end_angle: Binary32,
        color_stops: &'a [ColorStop],
        extend: Extend,
    },
}

/// A stop with its color, ready for interpolation.
#[derive(Copy, Clone, Debug, PartialEq, Eq, Structural)]
pub struct ResolvedStop {
    pub offset: Binary32,
    /// Red, premultiplied by `a`.
    pub lr: Binary32,
    /// Green, premultiplied by `a`.
    pub lg: Binary32,
    /// Blue, premultiplied by `a`.
    pub lb: Binary32,
    /// The alpha of the color and of the stop together.
    pub a: Binary32,
}

pub open spec fn spec_fraction(c: u8) -> Binary32 {
    integer(false, c as nat).div(Binary32(CHANNEL_MAX))
}

/// A channel as a fraction of its largest value.
#[verifier::when_used_as_spec(spec_fraction)]
pub fn fraction(c: u8) -> (r: Binary32)
    ensures
        r == spec_fraction(c),
{
    Binary32::from_integer(c as u64).div(Binary32(CHANNEL_MAX))
}

pub open spec fn spec_nearest_byte(x: Binary32) -> u8 {
    x.round().clamp(Binary32(ZERO), Binary32(CHANNEL_MAX)).truncated(0, 255) as u8
}

/// The byte nearest to a number.
#[verifier::when_used_as_spec(spec_nearest_byte)]
pub fn nearest_byte(x: Binary32) -> (r: u8)
    ensures
        r == spec_nearest_byte(x),
{
    x.round().clamp(Binary32(ZERO), Binary32(CHANNEL_MAX)).to_u8()
}

impl Rgba {
    pub open spec fn spec_with_alpha(self, alpha: Binary32) -> Rgba {
        Rgba { a: nearest_byte(integer(false, self.a as nat).mul(alpha)), ..self }
    }

    /// The color with its alpha multiplied by a fraction.
    #[verifier::when_used_as_spec(spec_with_alpha)]
    pub fn with_alpha(self, alpha: Binary32) -> (r: Rgba)
        ensures
            r == self.spec_with_alpha(alpha),
    {
        Rgba {
            r: self.r,
            g: self.g,
            b: self.b,
            a: nearest_byte(Binary32::from_integer(self.a as u64).mul(alpha)),
        }
    }
}

/// The color that a palette index stands for: the text color at its own index,
/// an entry of the palette, or black where the palette has no such entry.
pub open spec fn base_color(palette_index: u16, palette: Seq<Rgba>, foreground: Rgba) -> Rgba {
    if palette_index == FOREGROUND_COLOR_INDEX {
        foreground
    } else if palette_index < palette.len() {
        palette[palette_index as int]
    } else {
        Rgba::black()
    }
}

/// Looks up the color of a palette index.
pub fn resolve_base_color(palette_index: u16, palette: &[Rgba], foreground: Rgba) -> (r: Rgba)
    ensures
        r == base_color(palette_index, palette@, foreground),
{
    if palette_index == FOREGROUND_COLOR_INDEX {
        foreground
    } else if (palette_index as usize) < palette.len() {
        palette[palette_index as usize]
    } else {
        Rgba::black()
    }
}

/// Looks up the color of a solid fill, with the alpha of the fill applied.
pub fn resolve_color(palette_index: u16, alpha: Binary32, palette: &[Rgba], foreground: Rgba) -> (r:
    Rgba)
    ensures
        r == base_color(palette_index, palette@, foreground).with_alpha(alpha),
{
    resolve_base_color(palette_index, palette, foreground).with_alpha(alpha)
}

/// A stop with its color: the alpha of the color times that of the stop, and the
/// channels premultiplied by it.
pub open spec fn resolved_stop(s: ColorStop, palette: Seq<Rgba>, foreground: Rgba) -> ResolvedStop {
    let base = base_color(s.palette_index, palette, foreground);
    let a = fraction(base.a).mul(s.alpha);
    ResolvedStop {
        offset: s.offset,
        lr: fraction(base.r).mul(a),
        lg: fraction(base.g).mul(a),
        lb: fraction(base.b).mul(a),
        a,
    }
}

/// A sequence of stops in order, with one more stop behind those that it is not before.
pub open spec fn inserted(line: Seq<ResolvedStop>, s: ResolvedStop) -> Seq<ResolvedStop>
    decreases line.len(),
{
    if line.len() == 0 || !s.offset.less(line.last().offset) {
        line.push(s)
    } else {
        inserted(line.drop_last(), s).push(line.last())
    }
}

/// The stops with their colors, in the order of their offsets; stops at one
/// offset stay in the order that they came in.
pub open spec fn color_line(
    stops: Seq<ColorStop>,
    palette: Seq<Rgba>,
    foreground: Rgba,
) -> Seq<ResolvedStop>
    decreases stops.len(),
{
    if stops.len() == 0 {
        Seq::empty()
    } else {
        inserted(
            color_line(stops.drop_last(), palette, foreground),
            resolved_stop(stops.last(), palette, foreground),
        )
    }
}

/// Where a stop goes into a sequence of stops in order.
fn insertion_point(line: &Vec<ResolvedStop>, s: ResolvedStop) -> (i: usize)
    ensures
        i <= line@.len(),
        inserted(line@, s) == line@.insert(i as int, s),
{
    let mut i: usize = line.len();
    let ghost mut tail: Seq<ResolvedStop> = Seq::empty();
    assert(line@.take(i as int) =~= line@);
    assert(inserted(line@, s) =~= inserted(line@.take(i as int), s) + tail);
    while i > 0 && s.offset.less(line[i - 1].offset)
        invariant
            i <= line@.len(),
            tail == line@.skip(i as int),
            inserted(line@, s) == inserted(line@.take(i as int), s) + tail,
        decreases i,
    {
        proof {
            let head = line@.take(i as int);
            let last = line@[i - 1];
            assert(head.last() == last);
            assert(head.drop_last() =~= line@.take(i - 1));
            assert(inserted(head, s) == inserted(line@.take(i - 1), s).push(last));
            assert(inserted(line@.take(i - 1), s).push(last) + tail =~= inserted(
                line@.take(i - 1),
                s,
            ) + line@.skip(i - 1));
            tail = line@.skip(i - 1);
        }
        i = i - 1;
    }
    proof {
        let head = line@.take(i as int);
        if i > 0 {
            assert(head.last() == line@[i - 1]);
        }
        assert(inserted(head, s) == head.push(s));
        assert(head.push(s) + tail =~= line@.insert(i as int, s));
    }
    i
}

/// Resolves the stops of a color line and puts them in order.
pub fn resolve_color_line(stops: &[ColorStop], palette: &[Rgba], foreground: Rgba) -> (out: Vec<
    ResolvedStop,
>)
    ensures
        out@ == color_line(stops@, palette@, foreground),
        out@.len() == stops@.len(),
{
    let mut out: Vec<ResolvedStop> = Vec::new();
    let mut i: usize = 0;
    assert(stops@.take(0) =~= Seq::<ColorStop>::empty());
    while i < stops.len()
        invariant
            i <= stops@.len(),
            out@ == color_line(stops@.take(i as int), palette@, foreground),
            out@.len() == i,
        decreases stops@.len() - i,
    {
        let s = stops[i];
        let base = resolve_base_color(s.palette_index, palette, foreground);
        let a = fraction(base.a).mul(s.alpha);
        let resolved = ResolvedStop {
            offset: s.offset,
            lr: fraction(base.r).mul(a),
            lg: fraction(base.g).mul(a),
            lb: fraction(base.b).mul(a),
            a,
        };
        proof {
            let taken = stops@.take(i + 1);
            assert(taken.drop_last() =~= stops@.take(i as int));
            assert(taken.last() == s);
        }
        let at: usize = insertion_point(&out, resolved);
        out.insert(at, resolved);
        i = i + 1;
    }
    assert(stops@.take(i as int) =~= stops@);
    out
}

/// Whether a stop and the next one both lie at a parameter.
pub open spec fn doubled(line: Seq<ResolvedStop>, t: Binary32, i: int) -> bool {
    i + 1 < line.len() && line[i].offset.equals(t) && line[i + 1].offset.equals(t)
}

/// The two stops between which a parameter lies, the first such pair from `i` on;
/// the ends of the line if there is none. A pair holds the offsets of both its stops. At an
/// offset that several stops share it is the last two of them, whose upper one counts.
pub open spec fn segment_from(line: Seq<ResolvedStop>, t: Binary32, i: int) -> (
    ResolvedStop,
    ResolvedStop,
)
    decreases line.len() - i,
{
    if i + 1 >= line.len() {
        (line[0], line.last())
    } else if line[i].offset.at_most(t) && t.at_most(line[i + 1].offset) && !doubled(
        line,
        t,
        i + 1,
    ) {
        (line[i], line[i + 1])
    } else {
        segment_from(line, t, i + 1)
    }
}

/// Finds the two stops between which a parameter lies.
fn segment(stops: &[ResolvedStop], t: Binary32) -> (r: (ResolvedStop, ResolvedStop))
    requires
        stops@.len() > 0,
    ensures
        r == segment_from(stops@, t, 0),
{
    let mut i: usize = 0;
    while i < stops.len() - 1
        invariant
            i < stops@.len(),
            segment_from(stops@, t, 0) == segment_from(stops@, t, i as int),
        decreases stops@.len() - i,
    {
        let shared = i + 2 < stops.len() && stops[i + 1].offset.equals(t) && stops[i
            + 2].offset.equals(t);
        if stops[i].offset.at_most(t) && t.at_most(stops[i + 1].offset) && !shared {
            return (stops[i], stops[i + 1]);
        }
        i = i + 1;
    }
    (stops[0], stops[stops.len() - 1])
}

/// A channel between those of two stops.
pub open spec fn spec_mix(low: Binary32, high: Binary32, part: Binary32) -> Binary32 {
    low.mul(Binary32(ONE).sub(part)).add(high.mul(part))
}

/// Mixes two channels.
#[verifier::when_used_as_spec(spec_mix)]
pub fn mix(low: Binary32, high: Binary32, part: Binary32) -> (r: Binary32)
    ensures
        r == spec_mix(low, high, part),
{
    low.mul(Binary32(ONE).sub(part)).add(high.mul(part))
}

/// How far a parameter is along a segment. Stops that are next to no distance apart make
/// a hard edge: it takes the upper stop.
pub open spec fn segment_part(low: ResolvedStop, high: ResolvedStop, t: Binary32) -> Binary32 {
    let span = high.offset.sub(low.offset);
    if Binary32(BILLIONTH).less(span) {
        t.sub(low.offset).div(span)
    } else {
        Binary32(ONE)
    }
}

/// The premultiplied channels and the alpha of a line that is not empty at a
/// parameter: those of an end at or past it, and a mix of two stops between.
pub open spec fn line_at(line: Seq<ResolvedStop>, t: Binary32) -> ResolvedStop {
    let (low, high) = segment_from(line, t, 0);
    let part = segment_part(low, high, t);
    if t.at_most(line[0].offset) {
        line[0]
    } else if line.last().offset.at_most(t) {
        line.last()
    } else {
        ResolvedStop {
            offset: t,
            lr: mix(low.lr, high.lr, part),
            lg: mix(low.lg, high.lg, part),
            lb: mix(low.lb, high.lb, part),
            a: mix(low.a, high.a, part),
        }
    }
}

pub open spec fn spec_straight_byte(premultiplied: Binary32, a: Binary32) -> u8 {
    nearest_byte(
        premultiplied.div(a).clamp(Binary32(ZERO), Binary32(ONE)).mul(Binary32(CHANNEL_MAX)),
    )
}

/// The byte of a premultiplied channel with its alpha taken out.
#[verifier::when_used_as_spec(spec_straight_byte)]
fn straight_byte(premultiplied: Binary32, a: Binary32) -> (r: u8)
    ensures
        r == spec_straight_byte(premultiplied, a),
{
    nearest_byte(
        premultiplied.div(a).clamp(Binary32(ZERO), Binary32(ONE)).mul(Binary32(CHANNEL_MAX)),
    )
}

/// The straight color of a color line at a parameter.
pub open spec fn sampled(line: Seq<ResolvedStop>, t: Binary32) -> Rgba {
    let s = line_at(line, t);
    if line.len() == 0 || s.a.at_most(Binary32(ZERO)) {
        Rgba::transparent()
    } else {
        Rgba {
            r: spec_straight_byte(s.lr, s.a),
            g: spec_straight_byte(s.lg, s.a),
            b: spec_straight_byte(s.lb, s.a),
            a: nearest_byte(s.a.mul(Binary32(CHANNEL_MAX))),
        }
    }
}

/// Samples a color line, interpolating premultiplied channels.
pub fn sample_color_line(stops: &[ResolvedStop], t: Binary32) -> (r: Rgba)
    ensures
        r == sampled(stops@, t),
{
    if stops.len() == 0 {
        return Rgba::transparent();
    }
    let first = stops[0];
    let last = stops[stops.len() - 1];
    let at = if t.at_most(first.offset) {
        first
    } else if last.offset.at_most(t) {
        last
    } else {
        let (low, high) = segment(stops, t);
        let span = high.offset.sub(low.offset);
        let part = if Binary32(BILLIONTH).less(span) {
            t.sub(low.offset).div(span)
        } else {
            Binary32(ONE)
        };
        ResolvedStop {
            offset: t,
            lr: mix(low.lr, high.lr, part),
            lg: mix(low.lg, high.lg, part),
            lb: mix(low.lb, high.lb, part),
            a: mix(low.a, high.a, part),
        }
    };
    if at.a.at_most(Binary32(ZERO)) {
        return Rgba::transparent();
    }
    Rgba {
        r: straight_byte(at.lr, at.a),
        g: straight_byte(at.lg, at.a),
        b: straight_byte(at.lb, at.a),
        a: nearest_byte(at.a.mul(Binary32(CHANNEL_MAX))),
    }
}

/// The ramp of a color line: its colors at equal steps from zero to one.
pub open spec fn ramp_of(line: Seq<ResolvedStop>) -> Seq<Rgba> {
    Seq::new(
        RAMP_LEN as nat,
        |i: int|
            sampled(
                line,
                integer(false, i as nat).div(
                    integer(false, RAMP_LEN as nat).sub(Binary32(ONE)),
                ),
            ),
    )
}

/// Samples a color line once for each entry of a ramp.
pub fn build_ramp(stops: &[ResolvedStop]) -> (ramp: Vec<Rgba>)
    ensures
        ramp@ == ramp_of(stops@),
        ramp@.len() == RAMP_LEN,
{
    let mut ramp: Vec<Rgba> = Vec::new();
    let mut i: usize = 0;
    while i < RAMP_LEN
        invariant
            i <= RAMP_LEN,
            ramp@.len() == i,
            forall|j: int| 0 <= j < i ==> ramp@[j] == ramp_of(stops@)[j],
        decreases RAMP_LEN - i,
    {
        let steps = Binary32::from_integer(RAMP_LEN as u64).sub(Binary32(ONE));
        ramp.push(sample_color_line(stops, Binary32::from_integer(i as u64).div(steps)));
        i = i + 1;
    }
    assert(ramp@ =~= ramp_of(stops@));
    ramp
}

/// The entry of a ramp nearest to a parameter, which is held between zero and one.
pub open spec fn ramp_index(len: nat, t: Binary32) -> int {
    let steps = integer(false, len).sub(Binary32(ONE));
    let i = t.clamp(Binary32(ZERO), Binary32(ONE)).mul(steps).round().truncated(
        0,
        usize::MAX as int,
    );
    if i < len {
        i
    } else {
        len - 1
    }
}

/// Looks up a ramp.
pub fn ramp_lookup(ramp: &[Rgba], t: Binary32) -> (r: Rgba)
    requires
        ramp@.len() > 0,
    ensures
        r == ramp@[ramp_index(ramp@.len(), t)],
        0 <= ramp_index(ramp@.len(), t) < ramp@.len(),
{
    let steps = Binary32::from_integer(ramp.len() as u64).sub(Binary32(ONE));
    let i: usize = t.clamp(Binary32(ZERO), Binary32(ONE)).mul(steps).round().to_usize();
    if i < ramp.len() {
        ramp[i]
    } else {
        ramp[ramp.len() - 1]
    }
}

/// A parameter folded by an extend mode.
pub open spec fn spec_apply_extend(t: Binary32, extend: Extend) -> Binary32 {
    match extend {
        Extend::Pad => t.clamp(Binary32(ZERO), Binary32(ONE)),
        Extend::Repeat => t.sub(t.floor()),
        Extend::Reflect => {
            let u = t.sub(Binary32(TWO).mul(t.mul(Binary32(HALF)).floor()));
            if Binary32(ONE).less(u) {
                Binary32(TWO).sub(u)
            } else {
                u
            }
        },
    }
}

/// Folds a parameter into the range from zero to one.
#[verifier::when_used_as_spec(spec_apply_extend)]
pub fn apply_extend(t: Binary32, extend: Extend) -> (r: Binary32)
    ensures
        r == spec_apply_extend(t, extend),
{
    match extend {
        Extend::Repeat => t.sub(t.floor()),
        Extend::Reflect => {
            let u = t.sub(Binary32(TWO).mul(t.mul(Binary32(HALF)).floor()));
            if Binary32(ONE).less(u) {
                Binary32(TWO).sub(u)
            } else {
                u
            }
        },
        Extend::Pad => t.clamp(Binary32(ZERO), Binary32(ONE)),
    }
}

/// The radius of the circle at a parameter between two circles.
pub open spec fn radius_at(r0: Binary32, r1: Binary32, t: Binary32) -> Binary32 {
    r0.add(r1.sub(r0).mul(t))
}

/// The computed roots, the larger first, of the equation that says at which parameters a
/// circle between two circles passes through a point. The equation is quadratic, and linear
/// where the circles touch from within; there are none where it has no root. How near the
/// point then lies to its circle is stated in [`crate::laws::circles`].
pub open spec fn cone_parameters(
    c0: (Binary32, Binary32),
    r0: Binary32,
    c1: (Binary32, Binary32),
    r1: Binary32,
    p: (Binary32, Binary32),
) -> Seq<Binary32> {
    let (dcx, dcy) = (c1.0.sub(c0.0), c1.1.sub(c0.1));
    let dr = r1.sub(r0);
    let (px, py) = (p.0.sub(c0.0), p.1.sub(c0.1));
    let a = dcx.mul(dcx).add(dcy.mul(dcy)).sub(dr.mul(dr));
    let b = Binary32(TWO).neg().mul(px.mul(dcx).add(py.mul(dcy)).add(r0.mul(dr)));
    let c = px.mul(px).add(py.mul(py)).sub(r0.mul(r0));
    let discriminant = b.mul(b).sub(Binary32(FOUR).mul(a).mul(c));
    let t0 = b.neg().add(discriminant.sqrt()).div(Binary32(TWO).mul(a));
    let t1 = b.neg().sub(discriminant.sqrt()).div(Binary32(TWO).mul(a));
    if a.abs().less(Binary32(BILLIONTH)) {
        if b.abs().less(Binary32(BILLIONTH)) {
            seq![]
        } else {
            seq![c.neg().div(b)]
        }
    } else if discriminant.less(Binary32(ZERO)) {
        seq![]
    } else if t1.at_most(t0) {
        seq![t0, t1]
    } else {
        seq![t1, t0]
    }
}

/// The first of some parameters at which the radius is not negative.
pub open spec fn first_drawn(ts: Seq<Binary32>, r0: Binary32, r1: Binary32) -> Option<Binary32>
    decreases ts.len(),
{
    if ts.len() == 0 {
        None
    } else if Binary32(ZERO).at_most(radius_at(r0, r1, ts[0])) {
        Some(ts[0])
    } else {
        first_drawn(ts.drop_first(), r0, r1)
    }
}

/// Solves a radial gradient at a point: the largest computed root of the equation of its
/// circles whose radius is not negative. A point outside the cone has none and is not
/// painted.
pub fn radial_t(
    c0: (Binary32, Binary32),
    r0: Binary32,
    c1: (Binary32, Binary32),
    r1: Binary32,
    p: (Binary32, Binary32),
) -> (r: Option<Binary32>)
    ensures
        r == first_drawn(cone_parameters(c0, r0, c1, r1, p), r0, r1),
{
    let dcx = c1.0.sub(c0.0);
    let dcy = c1.1.sub(c0.1);
    let dr = r1.sub(r0);
    let px = p.0.sub(c0.0);
    let py = p.1.sub(c0.1);
    let a = dcx.mul(dcx).add(dcy.mul(dcy)).sub(dr.mul(dr));
    let b = Binary32(TWO).neg().mul(px.mul(dcx).add(py.mul(dcy)).add(r0.mul(dr)));
    let c = px.mul(px).add(py.mul(py)).sub(r0.mul(r0));
    let ghost all = cone_parameters(c0, r0, c1, r1, p);
    proof {
        reveal_with_fuel(first_drawn, 3);
    }
    if a.abs().less(Binary32(BILLIONTH)) {
        if b.abs().less(Binary32(BILLIONTH)) {
            return None;
        }
        let t = c.neg().div(b);
        assert(all =~= seq![t]);
        assert(all.drop_first() =~= seq![]);
        return if Binary32(ZERO).at_most(r0.add(dr.mul(t))) {
            Some(t)
        } else {
            None
        };
    }
    let discriminant = b.mul(b).sub(Binary32(FOUR).mul(a).mul(c));
    if discriminant.less(Binary32(ZERO)) {
        return None;
    }
    let root = discriminant.sqrt();
    let t0 = b.neg().add(root).div(Binary32(TWO).mul(a));
    let t1 = b.neg().sub(root).div(Binary32(TWO).mul(a));
    let (high, low) = if t1.at_most(t0) {
        (t0, t1)
    } else {
        (t1, t0)
    };
    assert(all =~= seq![high, low]);
    assert(all.drop_first() =~= seq![low]);
    assert(all.drop_first().drop_first() =~= seq![]);
    if Binary32(ZERO).at_most(r0.add(dr.mul(high))) {
        Some(high)
    } else if Binary32(ZERO).at_most(r0.add(dr.mul(low))) {
        Some(low)
    } else {
        None
    }
}

} // verus!
