//! The state of a painter as plain mathematics, and what each step does to it.
use crate::affine::{transform_point, PaintTransform};
use crate::binary32::{integer, Binary32};
use crate::blend::CompositeMode;
use crate::color::{mul_u8, over_pixel, Rgba};
use crate::composite::{composited_buffer, pixel, premultiplied};
use crate::consts::{BILLIONTH, DEGREES_PER_RADIAN, HALF, TRILLIONTH, TURN};
use crate::gradient::{
    apply_extend, base_color, color_line, cone_parameters, first_drawn, ramp_index, ramp_of, Brush,
    ColorStop, Extend, RAMP_LEN,
};
use crate::path::{BoundingBox, Command, Vector};
use vstd::prelude::*;

verus! {

/// What a painter holds.
#[verifier::ext_equal]
pub struct Canvas {
    pub palette: Seq<Rgba>,
    /// The text color.
    pub foreground: Rgba,
    pub width: u32,
    pub height: u32,
    /// The premultiplied pixels, four bytes each, in rows from the top.
    pub pixels: Seq<u8>,
    /// The transforms from paint coordinates to pixels, the current one last.
    pub transforms: Seq<PaintTransform>,
    /// The coverage masks that apply, one byte to a pixel.
    pub clips: Seq<Seq<u8>>,
    /// The backdrops of the open layers, each with the mode of its layer.
    pub layers: Seq<(Seq<u8>, CompositeMode)>,
}

/// The place of a coverage mask among the pixels.
#[derive(Copy, Clone, Debug, PartialEq, Eq, Structural)]
pub struct Placement {
    pub left: i32,
    pub top: i32,
    pub width: u32,
    pub height: u32,
}

/// The coverage of a pixel by some clips together.
pub open spec fn coverage(clips: Seq<Seq<u8>>, p: int) -> u8
    decreases clips.len(),
{
    if clips.len() == 0 {
        255
    } else {
        mul_u8(coverage(clips.drop_last(), p), clips.last()[p])
    }
}

/// A pixel with a straight color laid over it, by the coverage of the pixel.
pub open spec fn blended_pixel(px: Seq<u8>, color: Rgba, covered: u8) -> Seq<u8> {
    let a = mul_u8(color.a, covered);
    over_pixel(px, mul_u8(color.r, a), mul_u8(color.g, a), mul_u8(color.b, a), a)
}

/// A size read as a signed number of 32 bits.
pub open spec fn as_signed(n: u32) -> int {
    if n < 0x8000_0000 {
        n as int
    } else {
        n - 0x1_0000_0000
    }
}

/// A placed mask at a pixel; zero where it does not reach.
pub open spec fn mask_at(placement: Placement, mask: Seq<u8>, x: int, y: int) -> u8 {
    let col = x - placement.left;
    let row = y - placement.top;
    let at = row * as_signed(placement.width) + col;
    if 0 <= col < as_signed(placement.width) && 0 <= row < as_signed(placement.height) && at
        < mask.len() {
        mask[at]
    } else {
        0
    }
}

/// The outline of a box under a transform.
pub open spec fn box_path(t: PaintTransform, clip_box: BoundingBox) -> Seq<Command> {
    let corner = |x: Binary32, y: Binary32|
        Vector { x: transform_point(&t, x, y).0, y: transform_point(&t, x, y).1 };
    seq![
        Command::MoveTo(corner(clip_box.x_min, clip_box.y_min)),
        Command::LineTo(corner(clip_box.x_max, clip_box.y_min)),
        Command::LineTo(corner(clip_box.x_max, clip_box.y_max)),
        Command::LineTo(corner(clip_box.x_min, clip_box.y_max)),
        Command::Close,
    ]
}

/// The color of a gradient at a parameter.
pub open spec fn gradient_color(ramp: Seq<Rgba>, t: Binary32, extend: Extend) -> Rgba {
    ramp[ramp_index(RAMP_LEN as nat, apply_extend(t, extend))]
}

/// The parameter of a linear gradient at a point: how far along the gradient line
/// the point projects to.
pub open spec fn linear_parameter(
    p0: (Binary32, Binary32),
    p1: (Binary32, Binary32),
    p: (Binary32, Binary32),
) -> Binary32 {
    let dx = p1.0.sub(p0.0);
    let dy = p1.1.sub(p0.1);
    p.0.sub(p0.0).mul(dx).add(p.1.sub(p0.1).mul(dy)).div(squared_length(p0, p1))
}

/// The squared length of a gradient line.
pub open spec fn squared_length(p0: (Binary32, Binary32), p1: (Binary32, Binary32)) -> Binary32 {
    let dx = p1.0.sub(p0.0);
    let dy = p1.1.sub(p0.1);
    dx.mul(dx).add(dy.mul(dy))
}

/// The parameter of a sweep gradient at a clockwise angle in radians. The angle in
/// degrees is first taken to the turn that begins at the start angle.
pub open spec fn sweep_parameter(start: Binary32, end: Binary32, angle: Binary32) -> Binary32 {
    let degrees = angle.mul(Binary32(DEGREES_PER_RADIAN));
    let turns = degrees.sub(start).div(Binary32(TURN)).floor();
    let within = degrees.sub(Binary32(TURN).mul(turns));
    within.sub(start).div(end.sub(start))
}

/// The clockwise direction of a point from a center, as the two arguments of the
/// arc tangent: paint coordinates run upwards.
pub open spec fn sweep_direction(center: (Binary32, Binary32), p: (Binary32, Binary32)) -> (
    Binary32,
    Binary32,
) {
    (p.1.sub(center.1).neg(), p.0.sub(center.0))
}

impl Canvas {
    /// The number of pixels.
    pub open spec fn area(self) -> int {
        self.width * self.height
    }

    /// The sizes of everything fit each other, and the pixels are premultiplied.
    pub open spec fn wf(self) -> bool {
        &&& self.area() * 4 <= u32::MAX
        &&& self.pixels.len() == self.area() * 4
        &&& premultiplied(self.pixels)
        &&& self.transforms.len() > 0
        &&& forall|i: int|
            0 <= i < self.clips.len() ==> (#[trigger] self.clips[i]).len() == self.area()
        &&& forall|i: int|
            0 <= i < self.layers.len() ==> (#[trigger] self.layers[i]).0.len() == self.area() * 4
                && premultiplied(self.layers[i].0)
    }

    pub open spec fn transform(self) -> PaintTransform {
        self.transforms.last()
    }

    /// The canvas with a local transform inside the current one.
    pub open spec fn transformed(self, local: PaintTransform) -> Canvas {
        Canvas { transforms: self.transforms.push(local.then_outer(self.transform())), ..self }
    }

    /// The canvas without its current transform; the first one stays.
    pub open spec fn untransformed(self) -> Canvas {
        if self.transforms.len() > 1 {
            Canvas { transforms: self.transforms.drop_last(), ..self }
        } else {
            self
        }
    }

    /// A placed mask over the whole canvas.
    pub open spec fn full_mask(self, placement: Placement, mask: Seq<u8>) -> Seq<u8> {
        Seq::new(
            self.area() as nat,
            |p: int| mask_at(placement, mask, p % self.width as int, p / self.width as int),
        )
    }

    /// A mask that covers nothing.
    pub open spec fn empty_mask(self) -> Seq<u8> {
        Seq::new(self.area() as nat, |p: int| 0u8)
    }

    pub open spec fn clipped(self, mask: Seq<u8>) -> Canvas {
        Canvas { clips: self.clips.push(mask), ..self }
    }

    /// The canvas without its last clip, if it has one.
    pub open spec fn unclipped(self) -> Canvas {
        if self.clips.len() > 0 {
            Canvas { clips: self.clips.drop_last(), ..self }
        } else {
            self
        }
    }

    /// The canvas with a new layer on top, which begins transparent.
    pub open spec fn layered(self, mode: CompositeMode) -> Canvas {
        Canvas {
            pixels: Seq::new(self.pixels.len(), |i: int| 0u8),
            layers: self.layers.push((self.pixels, mode)),
            ..self
        }
    }

    /// The canvas with its last layer composited onto the backdrop, if it has one.
    pub open spec fn merged(self) -> Canvas {
        if self.layers.len() > 0 {
            let (backdrop, mode) = self.layers.last();
            Canvas {
                pixels: composited_buffer(self.pixels, backdrop, mode),
                layers: self.layers.drop_last(),
                ..self
            }
        } else {
            self
        }
    }

    /// The point of the paint that a pixel shows: its center, taken back through the
    /// current transform.
    pub open spec fn paint_point(self, p: int) -> (Binary32, Binary32) {
        let x = integer(false, (p % self.width as int) as nat).add(Binary32(HALF));
        let y = integer(false, (p / self.width as int) as nat).add(Binary32(HALF));
        transform_point(&self.transform().inverse(), x, y)
    }

    /// The canvas with one pixel replaced.
    pub open spec fn with_pixel(self, p: int, px: Seq<u8>) -> Canvas {
        Canvas {
            pixels: Seq::new(
                self.pixels.len(),
                |i: int|
                    if i / 4 == p {
                        px[i % 4]
                    } else {
                        self.pixels[i]
                    },
            ),
            ..self
        }
    }

    /// A pixel with its color, if it has one, laid over it.
    pub open spec fn shaded_pixel(self, p: int, color: Option<Rgba>) -> Seq<u8> {
        match color {
            Some(c) => blended_pixel(pixel(self.pixels, p), c, coverage(self.clips, p)),
            None => pixel(self.pixels, p),
        }
    }

    /// The canvas with a color laid over each pixel.
    pub open spec fn shaded(self, color: spec_fn(int) -> Option<Rgba>) -> Canvas {
        Canvas {
            pixels: Seq::new(
                self.pixels.len(),
                |i: int| self.shaded_pixel(i / 4, color(i / 4))[i % 4],
            ),
            ..self
        }
    }

    /// The canvas filled with one color.
    pub open spec fn flooded(self, color: Rgba) -> Canvas {
        self.shaded(|p: int| Some(color))
    }

    /// The color of a palette index with an alpha.
    pub open spec fn color(self, palette_index: u16, alpha: Binary32) -> Rgba {
        base_color(palette_index, self.palette, self.foreground).with_alpha(alpha)
    }

    /// The ramp of a color line.
    pub open spec fn ramp(self, stops: Seq<ColorStop>) -> Seq<Rgba> {
        ramp_of(color_line(stops, self.palette, self.foreground))
    }

    /// The canvas filled with a gradient: with nothing for a color line without stops
    /// or a gradient without extent, with the one color of a single stop, and with the
    /// color at each pixel's parameter otherwise. A pixel without a parameter is not
    /// painted.
    pub open spec fn gradient_filled(
        self,
        stops: Seq<ColorStop>,
        extend: Extend,
        flat: bool,
        parameter: spec_fn(int) -> Option<Binary32>,
    ) -> Canvas {
        if stops.len() == 1 {
            self.flooded(self.color(stops[0].palette_index, stops[0].alpha))
        } else if stops.len() == 0 || flat || self.transform().singular() {
            self
        } else {
            self.shaded(
                |p: int|
                    match parameter(p) {
                        Some(t) => Some(gradient_color(self.ramp(stops), t, extend)),
                        None => None,
                    },
            )
        }
    }

    /// The canvas filled with a linear gradient. A gradient line of no length paints nothing.
    pub open spec fn linear_filled(
        self,
        p0: (Binary32, Binary32),
        p1: (Binary32, Binary32),
        stops: Seq<ColorStop>,
        extend: Extend,
    ) -> Canvas {
        self.gradient_filled(
            stops,
            extend,
            squared_length(p0, p1).less(Binary32(TRILLIONTH)),
            |p: int| Some(linear_parameter(p0, p1, self.paint_point(p))),
        )
    }

    /// The canvas filled with a radial gradient. A pixel outside the cone is not painted.
    pub open spec fn radial_filled(
        self,
        c0: (Binary32, Binary32),
        r0: Binary32,
        c1: (Binary32, Binary32),
        r1: Binary32,
        stops: Seq<ColorStop>,
        extend: Extend,
    ) -> Canvas {
        self.gradient_filled(
            stops,
            extend,
            false,
            |p: int|
                first_drawn(cone_parameters(c0, r0, c1, r1, self.paint_point(p)), r0, r1),
        )
    }

    /// The canvas filled with a sweep gradient, by the angle of each pixel. A sector of
    /// no width paints nothing.
    pub open spec fn sweep_filled(
        self,
        angles: Seq<Binary32>,
        start: Binary32,
        end: Binary32,
        stops: Seq<ColorStop>,
        extend: Extend,
    ) -> Canvas {
        self.gradient_filled(
            stops,
            extend,
            end.sub(start).abs().less(Binary32(BILLIONTH)),
            |p: int| Some(sweep_parameter(start, end, angles[p])),
        )
    }

    /// Whether a sweep gradient looks at the angles of the pixels.
    pub open spec fn sweeps(self, start: Binary32, end: Binary32, stops: Seq<ColorStop>) -> bool {
        stops.len() > 1 && !end.sub(start).abs().less(Binary32(BILLIONTH))
            && !self.transform().singular()
    }

    /// Whether some angles are those that an arc tangent may give for the directions of
    /// the pixels from a center. Nothing is said of a pixel without coverage.
    pub open spec fn angled<A: Fn(Binary32, Binary32) -> Binary32>(
        self,
        center: (Binary32, Binary32),
        atan2: A,
        angles: Seq<Binary32>,
    ) -> bool {
        &&& angles.len() == self.area()
        &&& forall|p: int|
            0 <= p < self.area() && coverage(self.clips, p) != 0 ==> call_ensures(
                atan2,
                sweep_direction(center, self.paint_point(p)),
                #[trigger] angles[p],
            )
    }

    /// The canvas filled with a brush. Only a sweep gradient looks at the angles.
    pub open spec fn brushed(self, brush: Brush, angles: Seq<Binary32>) -> Canvas {
        match brush {
            Brush::Solid { palette_index, alpha } => self.flooded(self.color(palette_index, alpha)),
            Brush::LinearGradient { p0, p1, color_stops, extend } => self.linear_filled(
                (p0.x, p0.y),
                (p1.x, p1.y),
                color_stops@,
                extend,
            ),
            Brush::RadialGradient { c0, r0, c1, r1, color_stops, extend } => self.radial_filled(
                (c0.x, c0.y),
                r0,
                (c1.x, c1.y),
                r1,
                color_stops@,
                extend,
            ),
            Brush::SweepGradient { start_angle, end_angle, color_stops, extend, .. } =>
                self.sweep_filled(angles, start_angle, end_angle, color_stops@, extend),
        }
    }
}

} // verus!
