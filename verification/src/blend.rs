//! The composite modes: the Porter-Duff operators and the separable and
//! non-separable blend modes.
use crate::binary32::Binary32;
use crate::consts::{
    BILLIONTH, BLUE_WEIGHT, FOUR, GREEN_WEIGHT, HALF, ONE, QUARTER, RED_WEIGHT, SIXTEEN, TWELVE,
    TWO, ZERO,
};
use vstd::prelude::*;

verus! {

/// How a layer is composited onto its backdrop.
#[derive(Copy, Clone, Debug, PartialEq, Eq, Structural)]
pub enum CompositeMode {
    Clear,
    Src,
    Dest,
    SrcOver,
    DestOver,
    SrcIn,
    DestIn,
    SrcOut,
    DestOut,
    SrcAtop,
    DestAtop,
    Xor,
    Plus,
    Screen,
    Overlay,
    Darken,
    Lighten,
    ColorDodge,
    ColorBurn,
    HardLight,
    SoftLight,
    Difference,
    Exclusion,
    Multiply,
    HslHue,
    HslSaturation,
    HslColor,
    HslLuminosity,
    /// A mode that is not one of the above.
    Unknown,
}

pub open spec fn spec_clamp01(x: Binary32) -> Binary32 {
    x.clamp(Binary32(ZERO), Binary32(ONE))
}

/// Holds a number between zero and one.
#[verifier::when_used_as_spec(spec_clamp01)]
pub fn clamp01(x: Binary32) -> (r: Binary32)
    ensures
        r == spec_clamp01(x),
{
    x.clamp(Binary32(ZERO), Binary32(ONE))
}

pub open spec fn spec_b_multiply(cb: Binary32, cs: Binary32) -> Binary32 {
    cb.mul(cs)
}

/// The product of the channels.
#[verifier::when_used_as_spec(spec_b_multiply)]
pub fn b_multiply(cb: Binary32, cs: Binary32) -> (r: Binary32)
    ensures
        r == spec_b_multiply(cb, cs),
{
    cb.mul(cs)
}

pub open spec fn spec_b_screen(cb: Binary32, cs: Binary32) -> Binary32 {
    cb.add(cs).sub(cb.mul(cs))
}

/// The complement of the product of the complements.
#[verifier::when_used_as_spec(spec_b_screen)]
pub fn b_screen(cb: Binary32, cs: Binary32) -> (r: Binary32)
    ensures
        r == spec_b_screen(cb, cs),
{
    cb.add(cs).sub(cb.mul(cs))
}

pub open spec fn spec_b_hardlight(cb: Binary32, cs: Binary32) -> Binary32 {
    if cs.at_most(Binary32(HALF)) {
        Binary32(TWO).mul(cb).mul(cs)
    } else {
        Binary32(ONE).sub(
            Binary32(TWO).mul(Binary32(ONE).sub(cb)).mul(Binary32(ONE).sub(cs)),
        )
    }
}

/// Multiply or screen, by the source.
#[verifier::when_used_as_spec(spec_b_hardlight)]
pub fn b_hardlight(cb: Binary32, cs: Binary32) -> (r: Binary32)
    ensures
        r == spec_b_hardlight(cb, cs),
{
    if cs.at_most(Binary32(HALF)) {
        Binary32(TWO).mul(cb).mul(cs)
    } else {
        Binary32(ONE).sub(
            Binary32(TWO).mul(Binary32(ONE).sub(cb)).mul(Binary32(ONE).sub(cs)),
        )
    }
}

pub open spec fn spec_b_overlay(cb: Binary32, cs: Binary32) -> Binary32 {
    spec_b_hardlight(cs, cb)
}

/// Hard light with the channels exchanged.
#[verifier::when_used_as_spec(spec_b_overlay)]
pub fn b_overlay(cb: Binary32, cs: Binary32) -> (r: Binary32)
    ensures
        r == spec_b_overlay(cb, cs),
{
    b_hardlight(cs, cb)
}

pub open spec fn spec_b_colordodge(cb: Binary32, cs: Binary32) -> Binary32 {
    if cb.equals(Binary32(ZERO)) {
        Binary32(ZERO)
    } else if Binary32(ONE).at_most(cs) {
        Binary32(ONE)
    } else {
        cb.div(Binary32(ONE).sub(cs)).min(Binary32(ONE))
    }
}

/// The backdrop brightened to reflect the source.
#[verifier::when_used_as_spec(spec_b_colordodge)]
pub fn b_colordodge(cb: Binary32, cs: Binary32) -> (r: Binary32)
    ensures
        r == spec_b_colordodge(cb, cs),
{
    if cb.equals(Binary32(ZERO)) {
        Binary32(ZERO)
    } else if Binary32(ONE).at_most(cs) {
        Binary32(ONE)
    } else {
        cb.div(Binary32(ONE).sub(cs)).min(Binary32(ONE))
    }
}

pub open spec fn spec_b_colorburn(cb: Binary32, cs: Binary32) -> Binary32 {
    if Binary32(ONE).at_most(cb) {
        Binary32(ONE)
    } else if cs.equals(Binary32(ZERO)) {
        Binary32(ZERO)
    } else {
        Binary32(ONE).sub(Binary32(ONE).sub(cb).div(cs).min(Binary32(ONE)))
    }
}

/// The backdrop darkened to reflect the source.
#[verifier::when_used_as_spec(spec_b_colorburn)]
pub fn b_colorburn(cb: Binary32, cs: Binary32) -> (r: Binary32)
    ensures
        r == spec_b_colorburn(cb, cs),
{
    if Binary32(ONE).at_most(cb) {
        Binary32(ONE)
    } else if cs.equals(Binary32(ZERO)) {
        Binary32(ZERO)
    } else {
        Binary32(ONE).sub(Binary32(ONE).sub(cb).div(cs).min(Binary32(ONE)))
    }
}

/// The curve that soft light lightens along.
pub open spec fn softlight_curve(cb: Binary32) -> Binary32 {
    if cb.at_most(Binary32(QUARTER)) {
        Binary32(SIXTEEN).mul(cb).sub(Binary32(TWELVE)).mul(cb).add(Binary32(FOUR)).mul(cb)
    } else {
        cb.sqrt()
    }
}

pub open spec fn spec_b_softlight(cb: Binary32, cs: Binary32) -> Binary32 {
    if cs.at_most(Binary32(HALF)) {
        cb.sub(
            Binary32(ONE).sub(Binary32(TWO).mul(cs)).mul(cb).mul(Binary32(ONE).sub(cb)),
        )
    } else {
        cb.add(Binary32(TWO).mul(cs).sub(Binary32(ONE)).mul(softlight_curve(cb).sub(cb)))
    }
}

/// The backdrop darkened or lightened, by the source.
#[verifier::when_used_as_spec(spec_b_softlight)]
pub fn b_softlight(cb: Binary32, cs: Binary32) -> (r: Binary32)
    ensures
        r == spec_b_softlight(cb, cs),
{
    let d = if cb.at_most(Binary32(QUARTER)) {
        Binary32(SIXTEEN).mul(cb).sub(Binary32(TWELVE)).mul(cb).add(Binary32(FOUR)).mul(cb)
    } else {
        cb.sqrt()
    };
    if cs.at_most(Binary32(HALF)) {
        cb.sub(
            Binary32(ONE).sub(Binary32(TWO).mul(cs)).mul(cb).mul(Binary32(ONE).sub(cb)),
        )
    } else {
        cb.add(Binary32(TWO).mul(cs).sub(Binary32(ONE)).mul(d.sub(cb)))
    }
}

/// The luminosity of a color.
pub open spec fn luminosity(c: Seq<Binary32>) -> Binary32 {
    Binary32(RED_WEIGHT).mul(c[0]).add(Binary32(GREEN_WEIGHT).mul(c[1])).add(
        Binary32(BLUE_WEIGHT).mul(c[2]),
    )
}

/// Weighs the channels of a color.
pub fn lum(c: [Binary32; 3]) -> (r: Binary32)
    ensures
        r == luminosity(c@),
{
    Binary32(RED_WEIGHT).mul(c[0]).add(Binary32(GREEN_WEIGHT).mul(c[1])).add(
        Binary32(BLUE_WEIGHT).mul(c[2]),
    )
}

/// The least channel.
pub open spec fn least(c: Seq<Binary32>) -> Binary32 {
    c[0].min(c[1]).min(c[2])
}

/// The greatest channel.
pub open spec fn greatest(c: Seq<Binary32>) -> Binary32 {
    c[0].max(c[1]).max(c[2])
}

/// A channel brought back from below zero by scaling its distance from the luminosity.
pub open spec fn spec_raised(v: Binary32, l: Binary32, n: Binary32) -> Binary32 {
    l.add(v.sub(l).mul(l).div(l.sub(n)))
}

#[verifier::when_used_as_spec(spec_raised)]
fn raised(v: Binary32, l: Binary32, n: Binary32) -> (r: Binary32)
    ensures
        r == spec_raised(v, l, n),
{
    l.add(v.sub(l).mul(l).div(l.sub(n)))
}

/// A channel brought back from above one by scaling its distance from the luminosity.
pub open spec fn spec_lowered(v: Binary32, l: Binary32, x: Binary32) -> Binary32 {
    l.add(v.sub(l).mul(Binary32(ONE).sub(l)).div(x.sub(l)))
}

#[verifier::when_used_as_spec(spec_lowered)]
fn lowered(v: Binary32, l: Binary32, x: Binary32) -> (r: Binary32)
    ensures
        r == spec_lowered(v, l, x),
{
    l.add(v.sub(l).mul(Binary32(ONE).sub(l)).div(x.sub(l)))
}

/// A color brought into range without a change of its luminosity: first from
/// below, then from above. A distance from the luminosity that is next to nothing
/// is not scaled.
pub open spec fn clipped(c: Seq<Binary32>) -> Seq<Binary32> {
    let l = luminosity(c);
    let n = least(c);
    let x = greatest(c);
    let low = if n.less(Binary32(ZERO)) && Binary32(BILLIONTH).less(l.sub(n).abs()) {
        Seq::new(3, |i: int| spec_raised(c[i], l, n))
    } else {
        c
    };
    if Binary32(ONE).less(x) && Binary32(BILLIONTH).less(x.sub(l).abs()) {
        Seq::new(3, |i: int| spec_lowered(low[i], l, x))
    } else {
        low
    }
}

/// Brings a color into range.
pub fn clip_color(c: [Binary32; 3]) -> (r: [Binary32; 3])
    ensures
        r@ == clipped(c@),
{
    let l = lum(c);
    let n = c[0].min(c[1]).min(c[2]);
    let x = c[0].max(c[1]).max(c[2]);
    let low = if n.less(Binary32(ZERO)) && Binary32(BILLIONTH).less(l.sub(n).abs()) {
        [raised(c[0], l, n), raised(c[1], l, n), raised(c[2], l, n)]
    } else {
        c
    };
    if Binary32(ONE).less(x) && Binary32(BILLIONTH).less(x.sub(l).abs()) {
        [lowered(low[0], l, x), lowered(low[1], l, x), lowered(low[2], l, x)]
    } else {
        low
    }
}

/// A color moved to a luminosity.
pub open spec fn with_luminosity(c: Seq<Binary32>, l: Binary32) -> Seq<Binary32> {
    clipped(Seq::new(3, |i: int| c[i].add(l.sub(luminosity(c)))))
}

/// Moves a color to a luminosity.
pub fn set_lum(c: [Binary32; 3], l: Binary32) -> (r: [Binary32; 3])
    ensures
        r@ == with_luminosity(c@, l),
{
    let d = l.sub(lum(c));
    let moved = [c[0].add(d), c[1].add(d), c[2].add(d)];
    assert(moved@ =~= Seq::new(3, |i: int| c@[i].add(l.sub(luminosity(c@)))));
    clip_color(moved)
}

/// The distance of the greatest channel from the least.
pub open spec fn saturation(c: Seq<Binary32>) -> Binary32 {
    greatest(c).sub(least(c))
}

/// Takes the saturation of a color.
pub fn sat(c: [Binary32; 3]) -> (r: Binary32)
    ensures
        r == saturation(c@),
{
    c[0].max(c[1]).max(c[2]).sub(c[0].min(c[1]).min(c[2]))
}

/// The channels of a color from the least to the greatest; equal ones stay in order.
pub open spec fn ascending(c: Seq<Binary32>) -> (int, int, int) {
    let (x, y) = if c[1].less(c[0]) {
        (1int, 0int)
    } else {
        (0int, 1int)
    };
    if !c[2].less(c[y]) {
        (x, y, 2)
    } else if !c[2].less(c[x]) {
        (x, 2, y)
    } else {
        (2, x, y)
    }
}

/// A color stretched to a saturation: the least channel goes to zero, the greatest
/// to the saturation, and the one between keeps its place between them. A gray
/// goes to zero.
pub open spec fn with_saturation(c: Seq<Binary32>, s: Binary32) -> Seq<Binary32> {
    let (low, mid, high) = ascending(c);
    Seq::new(
        3,
        |i: int|
            if !c[low].less(c[high]) || i == low {
                Binary32(ZERO)
            } else if i == mid {
                c[mid].sub(c[low]).mul(s).div(c[high].sub(c[low]))
            } else {
                s
            },
    )
}

/// Stretches a color to a saturation.
pub fn set_sat(c: [Binary32; 3], s: Binary32) -> (r: [Binary32; 3])
    ensures
        r@ == with_saturation(c@, s),
{
    let (x, y): (usize, usize) = if c[1].less(c[0]) {
        (1, 0)
    } else {
        (0, 1)
    };
    let (low, mid, high): (usize, usize, usize) = if !c[2].less(c[y]) {
        (x, y, 2)
    } else if !c[2].less(c[x]) {
        (x, 2, y)
    } else {
        (2, x, y)
    };
    let mut out = [Binary32(ZERO), Binary32(ZERO), Binary32(ZERO)];
    if c[low].less(c[high]) {
        out[mid] = c[mid].sub(c[low]).mul(s).div(c[high].sub(c[low]));
        out[high] = s;
    }
    out
}

/// The blend of one channel in a separable mode, and nothing in another mode.
pub open spec fn channel_blend(cb: Binary32, cs: Binary32, mode: CompositeMode) -> Option<
    Binary32,
> {
    match mode {
        CompositeMode::Multiply => Some(b_multiply(cb, cs)),
        CompositeMode::Screen => Some(b_screen(cb, cs)),
        CompositeMode::Overlay => Some(b_overlay(cb, cs)),
        CompositeMode::Darken => Some(cb.min(cs)),
        CompositeMode::Lighten => Some(cb.max(cs)),
        CompositeMode::ColorDodge => Some(b_colordodge(cb, cs)),
        CompositeMode::ColorBurn => Some(b_colorburn(cb, cs)),
        CompositeMode::HardLight => Some(b_hardlight(cb, cs)),
        CompositeMode::SoftLight => Some(b_softlight(cb, cs)),
        CompositeMode::Difference => Some(cb.sub(cs).abs()),
        CompositeMode::Exclusion => Some(
            cb.add(cs).sub(Binary32(TWO).mul(cb).mul(cs)),
        ),
        _ => None,
    }
}

/// Blends one channel.
fn blend_channel(cb: Binary32, cs: Binary32, mode: CompositeMode) -> (r: Option<Binary32>)
    ensures
        r == channel_blend(cb, cs, mode),
{
    match mode {
        CompositeMode::Multiply => Some(b_multiply(cb, cs)),
        CompositeMode::Screen => Some(b_screen(cb, cs)),
        CompositeMode::Overlay => Some(b_overlay(cb, cs)),
        CompositeMode::Darken => Some(cb.min(cs)),
        CompositeMode::Lighten => Some(cb.max(cs)),
        CompositeMode::ColorDodge => Some(b_colordodge(cb, cs)),
        CompositeMode::ColorBurn => Some(b_colorburn(cb, cs)),
        CompositeMode::HardLight => Some(b_hardlight(cb, cs)),
        CompositeMode::SoftLight => Some(b_softlight(cb, cs)),
        CompositeMode::Difference => Some(cb.sub(cs).abs()),
        CompositeMode::Exclusion => Some(
            cb.add(cs).sub(Binary32(TWO).mul(cb).mul(cs)),
        ),
        _ => None,
    }
}

/// The blend of a source color with a backdrop color: each channel for itself in a
/// separable mode, by hue, saturation and luminosity in the others, and the source
/// in a mode that blends nothing.
pub open spec fn blended_color(
    cb: Seq<Binary32>,
    cs: Seq<Binary32>,
    mode: CompositeMode,
) -> Seq<Binary32> {
    match mode {
        CompositeMode::HslHue => with_luminosity(
            with_saturation(cs, saturation(cb)),
            luminosity(cb),
        ),
        CompositeMode::HslSaturation => with_luminosity(
            with_saturation(cb, saturation(cs)),
            luminosity(cb),
        ),
        CompositeMode::HslColor => with_luminosity(cs, luminosity(cb)),
        CompositeMode::HslLuminosity => with_luminosity(cb, luminosity(cs)),
        _ => Seq::new(
            3,
            |i: int|
                match channel_blend(cb[i], cs[i], mode) {
                    Some(v) => v,
                    None => cs[i],
                },
        ),
    }
}

/// Blends a source color with a backdrop color.
pub fn blend_color(cb: [Binary32; 3], cs: [Binary32; 3], mode: CompositeMode) -> (r: [Binary32; 3])
    ensures
        r@ == blended_color(cb@, cs@, mode),
{
    match mode {
        CompositeMode::HslHue => set_lum(set_sat(cs, sat(cb)), lum(cb)),
        CompositeMode::HslSaturation => set_lum(set_sat(cb, sat(cs)), lum(cb)),
        CompositeMode::HslColor => set_lum(cs, lum(cb)),
        CompositeMode::HslLuminosity => set_lum(cb, lum(cs)),
        _ => {
            let r = [
                match blend_channel(cb[0], cs[0], mode) {
                    Some(v) => v,
                    None => cs[0],
                },
                match blend_channel(cb[1], cs[1], mode) {
                    Some(v) => v,
                    None => cs[1],
                },
                match blend_channel(cb[2], cs[2], mode) {
                    Some(v) => v,
                    None => cs[2],
                },
            ];
            r
        },
    }
}

} // verus!
