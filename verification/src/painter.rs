//! The painter: the state that a paint graph is drawn with.
use crate::affine::{invert_transform, transform_point, PaintTransform};
use crate::binary32::{integer, Binary32};
use crate::blend::CompositeMode;
use crate::canvas::{
    as_signed, blended_pixel, box_path, coverage, gradient_color, linear_parameter, sweep_direction,
    sweep_parameter, Canvas, Placement,
};
use crate::color::{
    lemma_mul_u8_bounds, lemma_over_premultiplied, mul_u8, over_pixel, premultiplied_pixel,
    src_over, straight_pixels, unpremultiply_rgba, Rgba,
};
use crate::composite::{composite_buffers, lemma_composited_premultiplied, pixel};
use crate::consts::{BILLIONTH, DEGREES_PER_RADIAN, HALF, TRILLIONTH, TURN, ZERO};
use crate::gradient::{
    apply_extend, build_ramp, cone_parameters, first_drawn, radial_t, ramp_lookup, resolve_color,
    resolve_color_line, Brush, ColorStop, Extend, RAMP_LEN,
};
use crate::path::{BoundingBox, Command, PathCollector};
use vstd::prelude::*;

verus! {

/// Draws a paint graph into a buffer of premultiplied pixels.
pub struct ColrV1Painter {
    palette: Vec<Rgba>,
    foreground: Rgba,
    width: u32,
    height: u32,
    buffer: Vec<u8>,
    transform_stack: Vec<PaintTransform>,
    clip_stack: Vec<Vec<u8>>,
    layer_stack: Vec<(Vec<u8>, CompositeMode)>,
}

impl View for ColrV1Painter {
    type V = Canvas;

    closed spec fn view(&self) -> Canvas {
        Canvas {
            palette: self.palette@,
            foreground: self.foreground,
            width: self.width,
            height: self.height,
            pixels: self.buffer@,
            transforms: self.transform_stack@,
            clips: Seq::new(self.clip_stack@.len(), |i: int| self.clip_stack@[i]@),
            layers: Seq::new(
                self.layer_stack@.len(),
                |i: int| (self.layer_stack@[i].0@, self.layer_stack@[i].1),
            ),
        }
    }
}

/// A picture in straight sRGB colors, four bytes to a pixel, in rows from the top.
#[derive(Debug)]
pub struct ColorImage {
    pub placement: Placement,
    pub data: Vec<u8>,
}

/// What gives a pixel its color.
enum Shader<'a> {
    Solid { color: Rgba },
    Linear {
        inverse: PaintTransform,
        p0: (Binary32, Binary32),
        dx: Binary32,
        dy: Binary32,
        length: Binary32,
        ramp: Vec<Rgba>,
        extend: Extend,
    },
    Radial {
        inverse: PaintTransform,
        c0: (Binary32, Binary32),
        r0: Binary32,
        c1: (Binary32, Binary32),
        r1: Binary32,
        ramp: Vec<Rgba>,
        extend: Extend,
    },
    Sweep {
        angles: &'a [Binary32],
        start: Binary32,
        sector: Binary32,
        ramp: Vec<Rgba>,
        extend: Extend,
    },
}

/// The parameter at an angle, by the start and the width of a sector.
spec fn sector_parameter(start: Binary32, sector: Binary32, angle: Binary32) -> Binary32 {
    let degrees = angle.mul(Binary32(DEGREES_PER_RADIAN));
    let turns = degrees.sub(start).div(Binary32(TURN)).floor();
    degrees.sub(Binary32(TURN).mul(turns)).sub(start).div(sector)
}

/// The point of the paint under the center of a pixel.
fn center_point(inverse: &PaintTransform, x: u32, y: u32) -> (p: (Binary32, Binary32))
    ensures
        p == transform_point(
            inverse,
            integer(false, x as nat).add(Binary32(HALF)),
            integer(false, y as nat).add(Binary32(HALF)),
        ),
{
    transform_point(
        inverse,
        Binary32::from_integer(x as u64).add(Binary32(HALF)),
        Binary32::from_integer(y as u64).add(Binary32(HALF)),
    )
}

impl<'a> Shader<'a> {
    /// The ramp is complete, and there is an angle for each of the first pixels.
    spec fn ready(self, pixels: int) -> bool {
        match self {
            Shader::Solid { .. } => true,
            Shader::Linear { ramp, .. } => ramp@.len() == RAMP_LEN,
            Shader::Radial { ramp, .. } => ramp@.len() == RAMP_LEN,
            Shader::Sweep { ramp, angles, .. } => ramp@.len() == RAMP_LEN && angles@.len()
                >= pixels,
        }
    }

    /// The color of a pixel of a canvas of the given width.
    spec fn color(self, width: u32, p: int) -> Option<Rgba> {
        let x = integer(false, (p % width as int) as nat).add(Binary32(HALF));
        let y = integer(false, (p / width as int) as nat).add(Binary32(HALF));
        match self {
            Shader::Solid { color } => Some(color),
            Shader::Linear { inverse, p0, dx, dy, length, ramp, extend } => {
                let at = transform_point(&inverse, x, y);
                let t = at.0.sub(p0.0).mul(dx).add(at.1.sub(p0.1).mul(dy)).div(length);
                Some(gradient_color(ramp@, t, extend))
            },
            Shader::Radial { inverse, c0, r0, c1, r1, ramp, extend } => {
                let at = transform_point(&inverse, x, y);
                match first_drawn(cone_parameters(c0, r0, c1, r1, at), r0, r1) {
                    Some(t) => Some(gradient_color(ramp@, t, extend)),
                    None => None,
                }
            },
            Shader::Sweep { angles, start, sector, ramp, extend } => Some(
                gradient_color(ramp@, sector_parameter(start, sector, angles@[p]), extend),
            ),
        }
    }

    /// Computes the color of a pixel.
    fn color_at(&self, width: u32, p: usize) -> (c: Option<Rgba>)
        requires
            width > 0,
            p < u32::MAX,
            self.ready(p + 1),
        ensures
            c == self.color(width, p as int),
    {
        let x: u32 = p as u32 % width;
        let y: u32 = p as u32 / width;
        match self {
            Shader::Solid { color } => Some(*color),
            Shader::Linear { inverse, p0, dx, dy, length, ramp, extend } => {
                let at = center_point(inverse, x, y);
                let t = at.0.sub(p0.0).mul(*dx).add(at.1.sub(p0.1).mul(*dy)).div(*length);
                Some(ramp_lookup(ramp.as_slice(), apply_extend(t, *extend)))
            },
            Shader::Radial { inverse, c0, r0, c1, r1, ramp, extend } => {
                let at = center_point(inverse, x, y);
                match radial_t(*c0, *r0, *c1, *r1, at) {
                    Some(t) => Some(ramp_lookup(ramp.as_slice(), apply_extend(t, *extend))),
                    None => None,
                }
            },
            Shader::Sweep { angles, start, sector, ramp, extend } => {
                let degrees = angles[p].mul(Binary32(DEGREES_PER_RADIAN));
                let turns = degrees.sub(*start).div(Binary32(TURN)).floor();
                let within = degrees.sub(Binary32(TURN).mul(turns));
                let t = within.sub(*start).div(*sector);
                Some(ramp_lookup(ramp.as_slice(), apply_extend(t, *extend)))
            },
        }
    }
}

impl ColrV1Painter {
    /// A painter of a transparent canvas. The base transform takes paint coordinates to
    /// pixels.
    pub fn new(
        palette: Vec<Rgba>,
        foreground: Rgba,
        width: u32,
        height: u32,
        base_transform: PaintTransform,
    ) -> (painter: ColrV1Painter)
        requires
            width * height * 4 <= u32::MAX,
        ensures
            painter@.wf(),
            painter@ == (Canvas {
                palette: palette@,
                foreground,
                width,
                height,
                pixels: Seq::new((width * height * 4) as nat, |i: int| 0u8),
                transforms: seq![base_transform],
                clips: Seq::empty(),
                layers: Seq::empty(),
            }),
    {
        assert(width * height <= width * height * 4) by (nonlinear_arith)
            requires
                width >= 0,
                height >= 0,
        ;
        let buffer: Vec<u8> = vec![0u8; (width * height * 4) as usize];
        let painter = ColrV1Painter {
            palette,
            foreground,
            width,
            height,
            buffer,
            transform_stack: vec![base_transform],
            clip_stack: Vec::new(),
            layer_stack: Vec::new(),
        };
        assert(painter@.pixels =~= Seq::new((width * height * 4) as nat, |i: int| 0u8));
        assert(painter@.transforms =~= seq![base_transform]);
        assert(painter@.clips =~= Seq::empty());
        assert(painter@.layers =~= Seq::empty());
        painter
    }

    /// The transform that paints are drawn under.
    pub fn current_transform(&self) -> (t: PaintTransform)
        requires
            self@.wf(),
        ensures
            t == self@.transform(),
    {
        self.transform_stack[self.transform_stack.len() - 1]
    }

    /// Copies a placed coverage mask into a mask of the whole canvas.
    pub fn blit_mask_to_full(&self, placement: &Placement, mask_data: &[u8]) -> (full: Vec<u8>)
        requires
            self@.wf(),
        ensures
            full@ == self@.full_mask(*placement, mask_data@),
    {
        let mut full: Vec<u8> = Vec::new();
        let area: u32 = self.area();
        let mask_width: i64 = signed_size(placement.width);
        let mask_height: i64 = signed_size(placement.height);
        let mut p: u32 = 0;
        while p < area
            invariant
                self@.wf(),
                area == self@.area(),
                area <= u32::MAX / 4,
                p <= area,
                mask_width == as_signed(placement.width),
                mask_height == as_signed(placement.height),
                full@.len() == p,
                forall|j: int|
                    0 <= j < p ==> #[trigger] full@[j] == self@.full_mask(
                        *placement,
                        mask_data@,
                    )[j],
            decreases area - p,
        {
            proof {
                if self.width == 0 {
                    assert(self.width * self.height == 0) by (nonlinear_arith)
                        requires
                            self.width == 0,
                    ;
                }
            }
            let col: i64 = (p % self.width) as i64 - placement.left as i64;
            let row: i64 = (p / self.width) as i64 - placement.top as i64;
            let mut value: u8 = 0;
            if 0 <= col && col < mask_width && 0 <= row && row < mask_height {
                assert(0 <= row * mask_width <= 0x7fff_ffff * 0x7fff_ffff) by (nonlinear_arith)
                    requires
                        0 <= row < 0x8000_0000,
                        0 <= mask_width < 0x8000_0000,
                ;
                let at: i64 = row * mask_width + col;
                if (at as u64) < mask_data.len() as u64 {
                    value = mask_data[at as usize];
                }
            }
            full.push(value);
            p = p + 1;
        }
        assert(full@ =~= self@.full_mask(*placement, mask_data@));
        full
    }

    /// The coverage of a pixel by the clips.
    pub fn clip_alpha_at(&self, idx: usize) -> (alpha: u8)
        requires
            self@.wf(),
            idx < self@.area(),
        ensures
            alpha == coverage(self@.clips, idx as int),
    {
        let mut alpha: u8 = 255;
        let mut i: usize = 0;
        let ghost clips = self@.clips;
        assert(clips.take(0) =~= Seq::empty());
        while i < self.clip_stack.len()
            invariant
                self@.wf(),
                clips == self@.clips,
                clips.len() == self.clip_stack@.len(),
                idx < self@.area(),
                i <= clips.len(),
                alpha == coverage(clips.take(i as int), idx as int),
            decreases clips.len() - i,
        {
            proof {
                let taken = clips.take(i + 1);
                assert(taken.drop_last() =~= clips.take(i as int));
                assert(taken.last() == clips[i as int]);
                assert(clips[i as int] == self.clip_stack@[i as int]@);
            }
            alpha = mul_u8(alpha, self.clip_stack[i][idx]);
            if alpha == 0 {
                proof {
                    lemma_nothing_covered(clips, i + 1, idx as int);
                }
                return 0;
            }
            i = i + 1;
        }
        assert(clips.take(i as int) =~= clips);
        alpha
    }

    /// Lays a straight color over a pixel, by the coverage of the pixel.
    pub fn blend_pixel(&mut self, idx: usize, color: Rgba, clip_alpha: u8)
        requires
            old(self)@.wf(),
            idx < old(self)@.area(),
        ensures
            final(self)@.wf(),
            final(self)@ == old(self)@.with_pixel(
                idx as int,
                blended_pixel(pixel(old(self)@.pixels, idx as int), color, clip_alpha),
            ),
    {
        let ghost before = self.buffer@;
        let a: u8 = mul_u8(color.a, clip_alpha);
        let r: u8 = mul_u8(color.r, a);
        let g: u8 = mul_u8(color.g, a);
        let b: u8 = mul_u8(color.b, a);
        let p: usize = idx * 4;
        let (_, rest) = self.buffer.as_mut_slice().split_at_mut(p);
        src_over(rest, r, g, b, a);
        proof {
            let px = pixel(before, idx as int);
            let whole = old(self)@.with_pixel(idx as int, blended_pixel(px, color, clip_alpha));
            assert forall|i: int| 0 <= i < before.len() implies #[trigger] self.buffer@[i]
                == whole.pixels[i] by {
                let tail = before.subrange(p as int, before.len() as int);
                if i >= p {
                    assert(self.buffer@[i] == over_pixel(tail, r, g, b, a)[i - p]);
                    if i < p + 4 {
                        assert(i / 4 == idx && i % 4 == i - p);
                        assert(px[i - p] == tail[i - p]);
                    }
                }
            }
            assert(self.buffer@ =~= whole.pixels);
            assert(self@ =~= whole);
            lemma_blended_premultiplied(px, color, clip_alpha);
            assert forall|q: int| 0 <= q < whole.pixels.len() / 4 implies premultiplied_pixel(
                #[trigger] pixel(whole.pixels, q),
            ) by {
                if q == idx {
                    assert(pixel(whole.pixels, q) =~= blended_pixel(px, color, clip_alpha));
                } else {
                    assert(pixel(whole.pixels, q) =~= pixel(before, q));
                }
            }
        }
    }

    /// Lays the color of each pixel over it.
    fn shade(&mut self, shader: &Shader)
        requires
            old(self)@.wf(),
            shader.ready(old(self)@.area()),
        ensures
            final(self)@.wf(),
            final(self)@ == old(self)@.shaded(|p: int| shader.color(old(self)@.width, p)),
    {
        let ghost start = self@;
        let ghost whole = start.shaded(|p: int| shader.color(start.width, p));
        let area: u32 = self.area();
        let mut idx: u32 = 0;
        while idx < area
            invariant
                start == old(self)@,
                whole == start.shaded(|p: int| shader.color(start.width, p)),
                self@.wf(),
                self@ == (Canvas { pixels: self@.pixels, ..start }),
                shader.ready(area as int),
                area == start.area(),
                area <= u32::MAX / 4,
                idx <= area,
                start.pixels.len() == 4 * area,
                forall|j: int| 0 <= j < 4 * idx ==> #[trigger] self@.pixels[j] == whole.pixels[j],
                forall|j: int|
                    4 * idx <= j < 4 * area ==> #[trigger] self@.pixels[j] == start.pixels[j],
            decreases area - idx,
        {
            let ghost before = self@;
            proof {
                lemma_some_width(start.width, start.height);
                assert(pixel(before.pixels, idx as int) =~= pixel(start.pixels, idx as int));
            }
            let ca: u8 = self.clip_alpha_at(idx as usize);
            if ca != 0 {
                match shader.color_at(self.width, idx as usize) {
                    Some(color) => {
                        self.blend_pixel(idx as usize, color, ca);
                    },
                    None => {},
                }
            }
            proof {
                let px = start.shaded_pixel(idx as int, shader.color(start.width, idx as int));
                if ca == 0 {
                    lemma_uncovered(start, idx as int, shader.color(start.width, idx as int));
                }
                assert(forall|j: int|
                    0 <= j < 4 * area && j / 4 == idx ==> #[trigger] self@.pixels[j] == px[j % 4]);
                assert forall|j: int| 0 <= j < 4 * idx + 4 implies #[trigger] self@.pixels[j]
                    == whole.pixels[j] by {
                    if j >= 4 * idx {
                        assert(j / 4 == idx);
                    } else {
                        assert(self@.pixels[j] == before.pixels[j]);
                    }
                }
                assert forall|j: int| 4 * idx + 4 <= j < 4 * area implies #[trigger] self@.pixels[j]
                    == start.pixels[j] by {
                    assert(self@.pixels[j] == before.pixels[j]);
                }
            }
            idx = idx + 1;
        }
        assert(self@ =~= whole);
    }

    /// Fills the canvas with a straight color.
    pub fn fill_solid(&mut self, color: Rgba)
        requires
            old(self)@.wf(),
        ensures
            final(self)@.wf(),
            final(self)@ == old(self)@.flooded(color),
    {
        let ghost start = self@;
        if color.a == 0 {
            proof {
                assert forall|i: int| 0 <= i < start.pixels.len() implies #[trigger] start.flooded(
                    color,
                ).pixels[i] == start.pixels[i] by {
                    assert(0 * coverage(start.clips, i / 4) == 0) by (nonlinear_arith);
                    assert(pixel(start.pixels, i / 4)[i % 4] == start.pixels[i]);
                }
                assert(start =~= start.flooded(color));
            }
            return;
        }
        let shader = Shader::Solid { color };
        self.shade(&shader);
        proof {
            lemma_shaded_alike(
                start,
                |p: int| shader.color(start.width, p),
                |p: int| Some(color),
            );
        }
    }

    /// The transform from pixels to paint coordinates, if there is one.
    pub fn inverse_or_skip(&self) -> (inverse: Option<PaintTransform>)
        requires
            self@.wf(),
        ensures
            inverse == if self@.transform().singular() {
                None
            } else {
                Some(self@.transform().inverse())
            },
    {
        invert_transform(&self.current_transform())
    }

    /// Computes the ramp of a color line.
    fn ramp(&self, color_stops: &[ColorStop]) -> (ramp: Vec<Rgba>)
        ensures
            ramp@ == self@.ramp(color_stops@),
            ramp@.len() == RAMP_LEN,
    {
        build_ramp(
            resolve_color_line(color_stops, self.palette.as_slice(), self.foreground).as_slice(),
        )
    }

    /// Fills the canvas with the color of a stop.
    fn fill_stop(&mut self, stop: &ColorStop)
        requires
            old(self)@.wf(),
        ensures
            final(self)@.wf(),
            final(self)@ == old(self)@.flooded(
                old(self)@.color(stop.palette_index, stop.alpha),
            ),
    {
        let color = resolve_color(
            stop.palette_index,
            stop.alpha,
            self.palette.as_slice(),
            self.foreground,
        );
        self.fill_solid(color);
    }

    /// Fills the canvas with a linear gradient.
    pub fn fill_linear_gradient(
        &mut self,
        p0: (Binary32, Binary32),
        p1: (Binary32, Binary32),
        color_stops: &[ColorStop],
        extend: Extend,
    )
        requires
            old(self)@.wf(),
        ensures
            final(self)@.wf(),
            final(self)@ == old(self)@.linear_filled(p0, p1, color_stops@, extend),
    {
        let ghost start = self@;
        if color_stops.len() == 0 {
            return;
        }
        if color_stops.len() == 1 {
            self.fill_stop(&color_stops[0]);
            return;
        }
        let dx = p1.0.sub(p0.0);
        let dy = p1.1.sub(p0.1);
        let length = dx.mul(dx).add(dy.mul(dy));
        if length.less(Binary32(TRILLIONTH)) {
            return;
        }
        match self.inverse_or_skip() {
            Some(inverse) => {
                let ramp = self.ramp(color_stops);
                let shader = Shader::Linear { inverse, p0, dx, dy, length, ramp, extend };
                self.shade(&shader);
                proof {
                    lemma_shaded_alike(
                        start,
                        |p: int| shader.color(start.width, p),
                        |p: int|
                            Some(
                                gradient_color(
                                    start.ramp(color_stops@),
                                    linear_parameter(p0, p1, start.paint_point(p)),
                                    extend,
                                ),
                            ),
                    );
                    assert(self@ =~= start.linear_filled(p0, p1, color_stops@, extend));
                }
            },
            None => {},
        }
    }

    /// Fills the canvas with a radial gradient between two circles.
    pub fn fill_radial_gradient(
        &mut self,
        c0: (Binary32, Binary32),
        r0: Binary32,
        c1: (Binary32, Binary32),
        r1: Binary32,
        color_stops: &[ColorStop],
        extend: Extend,
    )
        requires
            old(self)@.wf(),
        ensures
            final(self)@.wf(),
            final(self)@ == old(self)@.radial_filled(c0, r0, c1, r1, color_stops@, extend),
    {
        let ghost start = self@;
        if color_stops.len() == 0 {
            return;
        }
        if color_stops.len() == 1 {
            self.fill_stop(&color_stops[0]);
            return;
        }
        match self.inverse_or_skip() {
            Some(inverse) => {
                let ramp = self.ramp(color_stops);
                let shader = Shader::Radial { inverse, c0, r0, c1, r1, ramp, extend };
                self.shade(&shader);
                proof {
                    lemma_shaded_alike(
                        start,
                        |p: int| shader.color(start.width, p),
                        |p: int|
                            match first_drawn(
                                cone_parameters(c0, r0, c1, r1, start.paint_point(p)),
                                r0,
                                r1,
                            ) {
                                Some(t) => Some(
                                    gradient_color(start.ramp(color_stops@), t, extend),
                                ),
                                None => None,
                            },
                    );
                    assert(self@ =~= start.radial_filled(c0, r0, c1, r1, color_stops@, extend));
                }
            },
            None => {},
        }
    }

    /// Fills the canvas with a sweep gradient, by the clockwise angle of each pixel from the
    /// center of the gradient in radians.
    pub fn fill_sweep_angles(
        &mut self,
        angles: &[Binary32],
        start_angle: Binary32,
        end_angle: Binary32,
        color_stops: &[ColorStop],
        extend: Extend,
    )
        requires
            old(self)@.wf(),
            angles@.len() >= old(self)@.area(),
        ensures
            final(self)@.wf(),
            final(self)@ == old(self)@.sweep_filled(
                angles@,
                start_angle,
                end_angle,
                color_stops@,
                extend,
            ),
    {
        let ghost start = self@;
        if color_stops.len() == 0 {
            return;
        }
        if color_stops.len() == 1 {
            self.fill_stop(&color_stops[0]);
            return;
        }
        let sector = end_angle.sub(start_angle);
        if sector.abs().less(Binary32(BILLIONTH)) {
            return;
        }
        if self.inverse_or_skip().is_none() {
            return;
        }
        let ramp = self.ramp(color_stops);
        let shader = Shader::Sweep { angles, start: start_angle, sector, ramp, extend };
        self.shade(&shader);
        proof {
            lemma_shaded_alike(
                start,
                |p: int| shader.color(start.width, p),
                |p: int|
                    Some(
                        gradient_color(
                            start.ramp(color_stops@),
                            sweep_parameter(start_angle, end_angle, angles@[p]),
                            extend,
                        ),
                    ),
            );
            assert(self@ =~= start.sweep_filled(
                angles@,
                start_angle,
                end_angle,
                color_stops@,
                extend,
            ));
        }
    }

    /// Asks the arc tangent for the angles of the covered pixels.
    fn sweep_angles<A: Fn(Binary32, Binary32) -> Binary32>(
        &self,
        center: (Binary32, Binary32),
        inverse: &PaintTransform,
        atan2: &A,
    ) -> (angles: Vec<Binary32>)
        requires
            self@.wf(),
            *inverse == self@.transform().inverse(),
            forall|y: Binary32, x: Binary32| call_requires(*atan2, (y, x)),
        ensures
            self@.angled(center, *atan2, angles@),
    {
        let area: u32 = self.area();
        let mut angles: Vec<Binary32> = Vec::new();
        let mut p: u32 = 0;
        while p < area
            invariant
                self@.wf(),
                *inverse == self@.transform().inverse(),
                forall|y: Binary32, x: Binary32| call_requires(*atan2, (y, x)),
                area == self@.area(),
                area <= u32::MAX / 4,
                p <= area,
                angles@.len() == p,
                forall|j: int|
                    0 <= j < p && coverage(self@.clips, j) != 0 ==> call_ensures(
                        *atan2,
                        sweep_direction(center, self@.paint_point(j)),
                        #[trigger] angles@[j],
                    ),
            decreases area - p,
        {
            proof {
                lemma_some_width(self.width, self.height);
            }
            if self.clip_alpha_at(p as usize) == 0 {
                angles.push(Binary32(ZERO));
            } else {
                let at = center_point(inverse, p % self.width, p / self.width);
                let angle = atan2(at.1.sub(center.1).neg(), at.0.sub(center.0));
                angles.push(angle);
            }
            p = p + 1;
        }
        angles
    }

    /// Fills the canvas with a sweep gradient. The arc tangent of a direction, which it
    /// takes as its two coordinates, comes from the caller.
    pub fn fill_sweep_gradient<A: Fn(Binary32, Binary32) -> Binary32>(
        &mut self,
        center: (Binary32, Binary32),
        start_angle: Binary32,
        end_angle: Binary32,
        color_stops: &[ColorStop],
        extend: Extend,
        atan2: &A,
    )
        requires
            old(self)@.wf(),
            forall|y: Binary32, x: Binary32| call_requires(*atan2, (y, x)),
        ensures
            final(self)@.wf(),
            old(self)@.sweeps(start_angle, end_angle, color_stops@) ==> exists|
                angles: Seq<Binary32>,
            |
                old(self)@.angled(center, *atan2, angles) && final(self)@
                    == #[trigger] old(self)@.sweep_filled(
                    angles,
                    start_angle,
                    end_angle,
                    color_stops@,
                    extend,
                ),
            !old(self)@.sweeps(start_angle, end_angle, color_stops@) ==> final(self)@ == old(
                self,
            )@.sweep_filled(Seq::empty(), start_angle, end_angle, color_stops@, extend),
    {
        if color_stops.len() == 1 {
            self.fill_stop(&color_stops[0]);
        } else if color_stops.len() > 1 && !end_angle.sub(start_angle).abs().less(
            Binary32(BILLIONTH),
        ) {
            match self.inverse_or_skip() {
                Some(inverse) => {
                    let angles = self.sweep_angles(center, &inverse, atan2);
                    self.fill_sweep_angles(
                        angles.as_slice(),
                        start_angle,
                        end_angle,
                        color_stops,
                        extend,
                    );
                },
                None => {},
            }
        }
    }

    /// Fills the canvas with a brush. The arc tangent is for sweep gradients.
    pub fn fill<A: Fn(Binary32, Binary32) -> Binary32>(&mut self, brush: Brush, atan2: &A)
        requires
            old(self)@.wf(),
            forall|y: Binary32, x: Binary32| call_requires(*atan2, (y, x)),
        ensures
            final(self)@.wf(),
            match brush {
                Brush::SweepGradient { c0, start_angle, end_angle, color_stops, .. } => if old(
                    self,
                )@.sweeps(start_angle, end_angle, color_stops@) {
                    exists|angles: Seq<Binary32>|
                        old(self)@.angled((c0.x, c0.y), *atan2, angles) && final(self)@
                            == #[trigger] old(self)@.brushed(brush, angles)
                } else {
                    final(self)@ == old(self)@.brushed(brush, Seq::empty())
                },
                _ => final(self)@ == old(self)@.brushed(brush, Seq::empty()),
            },
    {
        match brush {
            Brush::Solid { palette_index, alpha } => {
                let color = resolve_color(
                    palette_index,
                    alpha,
                    self.palette.as_slice(),
                    self.foreground,
                );
                self.fill_solid(color);
            },
            Brush::LinearGradient { p0, p1, color_stops, extend } => {
                self.fill_linear_gradient((p0.x, p0.y), (p1.x, p1.y), color_stops, extend);
            },
            Brush::RadialGradient { c0, r0, c1, r1, color_stops, extend } => {
                self.fill_radial_gradient((c0.x, c0.y), r0, (c1.x, c1.y), r1, color_stops, extend);
            },
            Brush::SweepGradient { c0, start_angle, end_angle, color_stops, extend } => {
                let ghost start = self@;
                self.fill_sweep_gradient(
                    (c0.x, c0.y),
                    start_angle,
                    end_angle,
                    color_stops,
                    extend,
                    atan2,
                );
                proof {
                    if start.sweeps(start_angle, end_angle, color_stops@) {
                        let angles = choose|angles: Seq<Binary32>|
                            start.angled((c0.x, c0.y), *atan2, angles) && self@
                                == #[trigger] start.sweep_filled(
                                angles,
                                start_angle,
                                end_angle,
                                color_stops@,
                                extend,
                            );
                        assert(self@ == start.brushed(brush, angles));
                    }
                }
            },
        }
    }

    /// Puts a local transform inside the current one.
    pub fn push_transform(&mut self, transform: PaintTransform)
        requires
            old(self)@.wf(),
        ensures
            final(self)@.wf(),
            final(self)@ == old(self)@.transformed(transform),
    {
        let new = transform.then_outer(self.current_transform());
        self.transform_stack.push(new);
        assert(self@ =~= old(self)@.transformed(transform));
    }

    /// Takes the current transform away. The base transform stays.
    pub fn pop_transform(&mut self)
        requires
            old(self)@.wf(),
        ensures
            final(self)@.wf(),
            final(self)@ == old(self)@.untransformed(),
    {
        if self.transform_stack.len() > 1 {
            self.transform_stack.pop();
        }
        assert(self@ =~= old(self)@.untransformed());
    }

    /// Clips to a mask of the whole canvas.
    fn push_clip(&mut self, mask: Vec<u8>)
        requires
            old(self)@.wf(),
            mask@.len() == old(self)@.area(),
        ensures
            final(self)@.wf(),
            final(self)@ == old(self)@.clipped(mask@),
    {
        self.clip_stack.push(mask);
        assert(self@.clips =~= old(self)@.clips.push(mask@));
        assert(self@ =~= old(self)@.clipped(mask@));
    }

    /// Clips to the mask that a glyph outline was rasterized to. A glyph without an outline
    /// has no mask and hides everything.
    pub fn push_clip_glyph(&mut self, mask: Option<(Placement, Vec<u8>)>)
        requires
            old(self)@.wf(),
        ensures
            final(self)@.wf(),
            final(self)@ == old(self)@.clipped(
                match mask {
                    Some((placement, data)) => old(self)@.full_mask(placement, data@),
                    None => old(self)@.empty_mask(),
                },
            ),
    {
        let full: Vec<u8> = match mask {
            Some((placement, data)) => self.blit_mask_to_full(&placement, data.as_slice()),
            None => vec![0u8; self.area() as usize],
        };
        assert(mask is None ==> full@ =~= self@.empty_mask());
        self.push_clip(full);
    }

    /// The outline of a box in pixels.
    pub fn clip_box_path(&self, clip_box: BoundingBox) -> (commands: Vec<Command>)
        requires
            self@.wf(),
        ensures
            commands@ == box_path(self@.transform(), clip_box),
    {
        let t = self.current_transform();
        let (x0, y0) = transform_point(&t, clip_box.x_min, clip_box.y_min);
        let (x1, y1) = transform_point(&t, clip_box.x_max, clip_box.y_min);
        let (x2, y2) = transform_point(&t, clip_box.x_max, clip_box.y_max);
        let (x3, y3) = transform_point(&t, clip_box.x_min, clip_box.y_max);
        let mut path = PathCollector::new();
        path.move_to(x0, y0);
        path.line_to(x1, y1);
        path.line_to(x2, y2);
        path.line_to(x3, y3);
        path.close();
        assert(path.commands@ =~= box_path(self@.transform(), clip_box));
        path.commands
    }

    /// Clips to the mask that the outline of a box was rasterized to.
    pub fn push_clip_box(&mut self, placement: Placement, mask: Vec<u8>)
        requires
            old(self)@.wf(),
        ensures
            final(self)@.wf(),
            final(self)@ == old(self)@.clipped(old(self)@.full_mask(placement, mask@)),
    {
        let full: Vec<u8> = self.blit_mask_to_full(&placement, mask.as_slice());
        self.push_clip(full);
    }

    /// Takes the last clip away.
    pub fn pop_clip(&mut self)
        requires
            old(self)@.wf(),
        ensures
            final(self)@.wf(),
            final(self)@ == old(self)@.unclipped(),
    {
        let ghost start = self@;
        let last = self.clip_stack.pop();
        assert(self@.clips =~= start.unclipped().clips);
        assert(self@ =~= start.unclipped());
    }

    /// Opens a transparent layer, which will be composited in the given mode.
    pub fn push_layer(&mut self, composite_mode: CompositeMode)
        requires
            old(self)@.wf(),
        ensures
            final(self)@.wf(),
            final(self)@ == old(self)@.layered(composite_mode),
    {
        let ghost start = self@;
        let mut saved: Vec<u8> = vec![0u8; self.buffer.len()];
        std::mem::swap(&mut self.buffer, &mut saved);
        self.layer_stack.push((saved, composite_mode));
        assert(self@.pixels =~= start.layered(composite_mode).pixels);
        assert(self@.layers =~= start.layered(composite_mode).layers);
        assert(self@.clips =~= start.clips);
        assert(self@ =~= start.layered(composite_mode));
    }

    /// Composites the last layer onto its backdrop.
    pub fn pop_layer(&mut self)
        requires
            old(self)@.wf(),
        ensures
            final(self)@.wf(),
            final(self)@ == old(self)@.merged(),
    {
        let ghost start = self@;
        match self.layer_stack.pop() {
            Some((backdrop, mode)) => {
                assert(start.layers.last() == (backdrop@, mode));
                proof {
                    lemma_composited_premultiplied(self.buffer@, backdrop@, mode);
                }
                composite_buffers(self.buffer.as_mut_slice(), backdrop.as_slice(), mode);
                assert(self@.layers =~= start.layers.drop_last());
                assert(self@.clips =~= start.clips);
                assert(self@ =~= start.merged());
            },
            None => {
                assert(self@ =~= start.merged());
            },
        }
    }

    /// The picture, in straight colors.
    pub fn into_image(self, placement_left: i32, placement_top: i32) -> (image: ColorImage)
        requires
            self@.wf(),
        ensures
            image.placement == (Placement {
                left: placement_left,
                top: placement_top,
                width: self@.width,
                height: self@.height,
            }),
            image.data@ == straight_pixels(self@.pixels),
            image.data@.len() == image.placement.width * image.placement.height * 4,
    {
        let mut data: Vec<u8> = self.buffer;
        unpremultiply_rgba(data.as_mut_slice());
        ColorImage {
            placement: Placement {
                left: placement_left,
                top: placement_top,
                width: self.width,
                height: self.height,
            },
            data,
        }
    }

    /// The number of pixels.
    fn area(&self) -> (n: u32)
        requires
            self@.wf(),
        ensures
            n == self@.area(),
            n <= u32::MAX / 4,
            n * 4 == self@.pixels.len(),
    {
        self.width * self.height
    }
}

/// A canvas with pixels has some width.
proof fn lemma_some_width(width: u32, height: u32)
    ensures
        width * height > 0 ==> width > 0,
{
    assert(0 * height == 0) by (nonlinear_arith);
}

/// A color over a pixel without coverage changes nothing.
proof fn lemma_uncovered(canvas: Canvas, p: int, color: Option<Rgba>)
    requires
        coverage(canvas.clips, p) == 0,
    ensures
        canvas.shaded_pixel(p, color) == pixel(canvas.pixels, p),
{
    if color is Some {
        assert(color->0.a * 0 == 0) by (nonlinear_arith);
    }
}

/// Only the colors of the pixels that a canvas has matter.
proof fn lemma_shaded_alike(
    canvas: Canvas,
    f: spec_fn(int) -> Option<Rgba>,
    g: spec_fn(int) -> Option<Rgba>,
)
    requires
        canvas.wf(),
        forall|p: int|
            0 <= p < canvas.area() && coverage(canvas.clips, p) != 0 ==> #[trigger] f(p) == g(p),
    ensures
        canvas.shaded(f) == canvas.shaded(g),
{
    assert forall|i: int| 0 <= i < canvas.pixels.len() implies #[trigger] canvas.shaded(f).pixels[i]
        == canvas.shaded(g).pixels[i] by {
        let p = i / 4;
        if coverage(canvas.clips, p) == 0 {
            lemma_uncovered(canvas, p, f(p));
            lemma_uncovered(canvas, p, g(p));
        } else {
            assert(f(p) == g(p));
        }
    }
    assert(canvas.shaded(f) =~= canvas.shaded(g));
}

/// A color laid over a premultiplied pixel leaves it premultiplied.
proof fn lemma_blended_premultiplied(px: Seq<u8>, color: Rgba, covered: u8)
    requires
        px.len() == 4,
        premultiplied_pixel(px),
    ensures
        premultiplied_pixel(blended_pixel(px, color, covered)),
{
    let a = mul_u8(color.a, covered);
    lemma_mul_u8_bounds(color.r, a);
    lemma_mul_u8_bounds(color.g, a);
    lemma_mul_u8_bounds(color.b, a);
    lemma_over_premultiplied(px, mul_u8(color.r, a), mul_u8(color.g, a), mul_u8(color.b, a), a);
}

/// Clips among which the first few already cover nothing cover nothing.
proof fn lemma_nothing_covered(clips: Seq<Seq<u8>>, n: int, p: int)
    requires
        0 <= n <= clips.len(),
        coverage(clips.take(n), p) == 0,
    ensures
        coverage(clips, p) == 0,
    decreases clips.len() - n,
{
    if n < clips.len() {
        let taken = clips.take(n + 1);
        assert(taken.drop_last() =~= clips.take(n));
        assert(0 * taken.last()[p] == 0) by (nonlinear_arith);
        lemma_nothing_covered(clips, n + 1, p);
    } else {
        assert(clips.take(n) =~= clips);
    }
}

/// Reads a size as a signed number of 32 bits.
fn signed_size(n: u32) -> (r: i64)
    ensures
        r == as_signed(n),
        -0x8000_0000 <= r < 0x8000_0000,
{
    if n < 0x8000_0000 {
        n as i64
    } else {
        n as i64 - 0x1_0000_0000
    }
}

} // verus!
