//! The canvas that a glyph is painted on: its size, and where the glyph lies in it.
use crate::affine::PaintTransform;
use crate::binary32::{integer, units, unity, Binary32};
use crate::consts::{LARGEST_SIDE, ONE, TWO, ZERO};
use crate::order::lemma_values;
use crate::path::BoundingBox;
use crate::rounding::lemma_units_binades;
use vstd::arithmetic::div_mod::{lemma_div_is_ordered, lemma_div_multiples_vanish};
use vstd::arithmetic::power2::{lemma2_to64, lemma_pow2_adds};
use vstd::prelude::*;

verus! {

/// The largest width and height of a canvas.
pub const MAX_DIM: u32 = 8192;

/// The canvas of a glyph.
#[derive(Copy, Clone, Debug, PartialEq, Eq, Structural)]
pub struct Frame {
    pub width: u32,
    pub height: u32,
    /// From font units, which run upwards, to pixels, which run downwards.
    pub base_transform: PaintTransform,
    /// The pixel column at which the glyph begins, from the origin of the glyph.
    pub x_min: i32,
    /// The pixel row at which the glyph ends, upwards from the origin of the glyph.
    pub y_max: i32,
}

/// The measures of a font, in font units.
#[derive(Copy, Clone, Debug, PartialEq, Eq, Structural)]
pub struct FaceMetrics {
    pub units_per_em: u16,
    pub ascent: Binary32,
    pub descent: Binary32,
}

/// The size of a font unit in pixels.
pub open spec fn pixels_per_unit(metrics: FaceMetrics, font_size: Binary32) -> Binary32 {
    font_size.div(integer(false, metrics.units_per_em as nat))
}

/// The box that a glyph is painted in: its clip box, or else an em wide and as high as
/// the font. In pixels from the origin of the glyph, which run upwards.
pub open spec fn glyph_box(
    metrics: FaceMetrics,
    font_size: Binary32,
    clip_box: Option<BoundingBox>,
) -> BoundingBox {
    let scale = pixels_per_unit(metrics, font_size);
    match clip_box {
        Some(b) => BoundingBox {
            x_min: b.x_min.mul(scale),
            y_min: b.y_min.mul(scale),
            x_max: b.x_max.mul(scale),
            y_max: b.y_max.mul(scale),
        },
        None => BoundingBox {
            x_min: Binary32(ZERO),
            y_min: metrics.descent.mul(scale),
            x_max: font_size,
            y_max: metrics.ascent.mul(scale),
        },
    }
}

/// A box grown to whole pixels.
pub open spec fn whole_box(b: BoundingBox) -> BoundingBox {
    BoundingBox {
        x_min: b.x_min.floor(),
        y_min: b.y_min.floor(),
        x_max: b.x_max.ceil(),
        y_max: b.y_max.ceil(),
    }
}

/// The side of a canvas, with a pixel to spare at either end.
pub open spec fn padded(low: Binary32, high: Binary32) -> Binary32 {
    high.sub(low).add(Binary32(TWO))
}

/// Whether a canvas can have such a side.
pub open spec fn fits(side: Binary32) -> bool {
    side.finite() && !side.less(Binary32(ONE)) && !Binary32(LARGEST_SIDE).less(side)
}

/// The canvas of a glyph, unless there is nothing to paint on or it would be too large.
pub open spec fn frame_of(
    metrics: FaceMetrics,
    font_size: Binary32,
    clip_box: Option<BoundingBox>,
) -> Option<Frame> {
    let scale = pixels_per_unit(metrics, font_size);
    let b = whole_box(glyph_box(metrics, font_size, clip_box));
    let width = padded(b.x_min, b.x_max);
    let height = padded(b.y_min, b.y_max);
    if metrics.units_per_em == 0 || b.x_max.at_most(b.x_min) || b.y_max.at_most(b.y_min) || !fits(
        width,
    ) || !fits(height) {
        None
    } else {
        Some(
            Frame {
                width: width.truncated(0, u32::MAX as int) as u32,
                height: height.truncated(0, u32::MAX as int) as u32,
                base_transform: PaintTransform {
                    xx: scale,
                    yx: Binary32(ZERO),
                    xy: Binary32(ZERO),
                    yy: scale.neg(),
                    dx: b.x_min.neg().add(Binary32(ONE)),
                    dy: b.y_max.add(Binary32(ONE)),
                },
                x_min: b.x_min.truncated(i32::MIN as int, i32::MAX as int) as i32,
                y_max: b.y_max.truncated(i32::MIN as int, i32::MAX as int) as i32,
            },
        )
    }
}

/// Tests whether a canvas can have such a side.
fn side_fits(side: Binary32) -> (r: bool)
    ensures
        r == fits(side),
{
    side.is_finite() && !side.less(Binary32(ONE)) && !Binary32(LARGEST_SIDE).less(side)
}

/// A side that a canvas can have is a pixel at least, and not above the largest.
pub proof fn lemma_side(side: Binary32)
    requires
        fits(side),
    ensures
        1 <= side.truncated(0, u32::MAX as int) <= MAX_DIM,
{
    lemma_values();
    lemma2_to64();
    lemma_units_binades(0x0080_0000, 139);
    lemma_pow2_adds(23, 139);
    lemma_pow2_adds(13, 149);
    let (u, n) = (units(side.magnitude()) as int, unity() as int);
    assert(Binary32(LARGEST_SIDE).value() == 8192 * n);
    assert(!side.negative());
    lemma_div_is_ordered(n, u, n);
    lemma_div_is_ordered(u, 8192 * n, n);
    lemma_div_multiples_vanish(1, n);
    lemma_div_multiples_vanish(8192, n);
    assert(n * 1 == n && n * 8192 == 8192 * n);
}

impl Frame {
    /// Whether the sides are within bounds.
    pub open spec fn wf(self) -> bool {
        1 <= self.width <= MAX_DIM && 1 <= self.height <= MAX_DIM
    }

    /// The canvas for a glyph of a font at a size in pixels.
    pub fn new(metrics: FaceMetrics, font_size: Binary32, clip_box: Option<BoundingBox>) -> (r:
        Option<Frame>)
        ensures
            r == frame_of(metrics, font_size, clip_box),
            r matches Some(frame) ==> frame.wf(),
    {
        if metrics.units_per_em == 0 {
            return None;
        }
        let scale = font_size.div(Binary32::from_integer(metrics.units_per_em as u64));
        let bbox = match clip_box {
            Some(b) => BoundingBox {
                x_min: b.x_min.mul(scale),
                y_min: b.y_min.mul(scale),
                x_max: b.x_max.mul(scale),
                y_max: b.y_max.mul(scale),
            },
            None => BoundingBox {
                x_min: Binary32(ZERO),
                y_min: metrics.descent.mul(scale),
                x_max: font_size,
                y_max: metrics.ascent.mul(scale),
            },
        };
        let x_min = bbox.x_min.floor();
        let x_max = bbox.x_max.ceil();
        let y_min = bbox.y_min.floor();
        let y_max = bbox.y_max.ceil();
        if x_max.at_most(x_min) || y_max.at_most(y_min) {
            return None;
        }
        let width = x_max.sub(x_min).add(Binary32(TWO));
        let height = y_max.sub(y_min).add(Binary32(TWO));
        if !side_fits(width) || !side_fits(height) {
            return None;
        }
        proof {
            lemma_side(width);
            lemma_side(height);
        }
        Some(
            Frame {
                width: width.to_u32(),
                height: height.to_u32(),
                base_transform: PaintTransform {
                    xx: scale,
                    yx: Binary32(ZERO),
                    xy: Binary32(ZERO),
                    yy: scale.neg(),
                    dx: x_min.neg().add(Binary32(ONE)),
                    dy: y_max.add(Binary32(ONE)),
                },
                x_min: x_min.to_i32(),
                y_max: y_max.to_i32(),
            },
        )
    }

    /// Whether the place of the canvas can be told from the origin of the glyph.
    pub open spec fn placed(self) -> bool {
        self.x_min > i32::MIN && self.y_max < i32::MAX
    }

    /// The left edge of the canvas, from the origin of the glyph.
    pub fn placement_left(&self) -> (left: i32)
        requires
            self.placed(),
        ensures
            left == self.x_min - 1,
    {
        self.x_min - 1
    }

    /// The top edge of the canvas, upwards from the origin of the glyph.
    pub fn placement_top(&self) -> (top: i32)
        requires
            self.placed(),
        ensures
            top == self.y_max + 1,
    {
        self.y_max + 1
    }
}

} // verus!
