//! What holds of painting on a canvas.
use crate::affine::PaintTransform;
use crate::binary32::Binary32;
use crate::blend::CompositeMode;
use crate::canvas::{
    blended_pixel, coverage, linear_parameter, squared_length, sweep_parameter, Canvas, Placement,
};
use crate::color::{lemma_mul_u8_bounds, mul_u8, Rgba};
use crate::composite::{pixel, premultiplied};
use crate::consts::{BILLIONTH, TRILLIONTH};
use crate::gradient::{
    color_line, cone_parameters, first_drawn, Brush, ColorStop, Extend, FOREGROUND_COLOR_INDEX,
};
use crate::laws::colors::{fractions_multiply, opaque_replaces, over_keeps_alpha};
use crate::laws::compositing::{
    a_source_over_nothing, keeps_backdrop, keeps_source, nothing_over_a_backdrop, one_sided_modes,
};
use vstd::arithmetic::div_mod::lemma_fundamental_div_mod;
use vstd::prelude::*;

verus! {

/// Taking a transform away undoes putting it on. The base transform is never taken away.
pub proof fn transforms_nest(canvas: Canvas, local: PaintTransform)
    requires
        canvas.wf(),
    ensures
        canvas.transformed(local).wf(),
        canvas.transformed(local).untransformed() == canvas,
        canvas.untransformed().wf(),
        canvas.untransformed().transforms.first() == canvas.transforms.first(),
        canvas.transforms.len() == 1 ==> canvas.untransformed() == canvas,
{
    assert(canvas.transformed(local).untransformed().transforms =~= canvas.transforms);
}

/// Taking a clip away undoes putting it on.
pub proof fn clips_nest(canvas: Canvas, mask: Seq<u8>)
    requires
        canvas.wf(),
        mask.len() == canvas.area(),
    ensures
        canvas.clipped(mask).wf(),
        canvas.clipped(mask).unclipped() == canvas,
{
    assert(canvas.clipped(mask).unclipped().clips =~= canvas.clips);
}

/// A further clip does not raise the coverage of a pixel. Where it is full the coverage
/// stays, and where it is empty nothing is covered.
pub proof fn clips_only_take_away(clips: Seq<Seq<u8>>, mask: Seq<u8>, p: int)
    ensures
        coverage(clips.push(mask), p) <= coverage(clips, p),
        mask[p] == 255 ==> coverage(clips.push(mask), p) == coverage(clips, p),
        mask[p] == 0 ==> coverage(clips.push(mask), p) == 0,
        coverage(Seq::empty(), p) == 255,
{
    assert(clips.push(mask).drop_last() =~= clips);
    lemma_mul_u8_bounds(coverage(clips, p), mask[p]);
    fractions_multiply(coverage(clips, p), mask[p], mask[p]);
}

/// A mask of the size of the canvas, placed at its corner, covers it as it is.
pub proof fn whole_masks_stay(canvas: Canvas, mask: Seq<u8>)
    requires
        canvas.wf(),
        canvas.width < 0x8000_0000,
        canvas.height < 0x8000_0000,
        mask.len() == canvas.area(),
    ensures
        canvas.full_mask(
            Placement { left: 0, top: 0, width: canvas.width, height: canvas.height },
            mask,
        ) == mask,
{
    let placement = Placement { left: 0, top: 0, width: canvas.width, height: canvas.height };
    let w = canvas.width as int;
    assert forall|p: int| 0 <= p < mask.len() implies #[trigger] canvas.full_mask(
        placement,
        mask,
    )[p] == mask[p] by {
        assert(w > 0) by (nonlinear_arith)
            requires
                0 <= p < w * canvas.height,
                w >= 0,
        ;
        lemma_fundamental_div_mod(p, w);
        let (x, y) = (p % w, p / w);
        assert(0 <= y < canvas.height) by (nonlinear_arith)
            requires
                p == w * y + x,
                0 <= x < w,
                0 <= p < w * canvas.height,
        ;
        assert(y * w + x == p) by (nonlinear_arith)
            requires
                p == w * y + x,
        ;
    }
    assert(canvas.full_mask(placement, mask) =~= mask);
}

/// A fill leaves a pixel without coverage as it is, whatever it is filled with, and leaves
/// everything but the pixels.
pub proof fn fills_stay_within_the_clip(
    canvas: Canvas,
    brush: Brush,
    angles: Seq<Binary32>,
    p: int,
)
    requires
        canvas.wf(),
        0 <= p < canvas.area(),
    ensures
        coverage(canvas.clips, p) == 0 ==> pixel(canvas.brushed(brush, angles).pixels, p) == pixel(
            canvas.pixels,
            p,
        ),
        canvas.brushed(brush, angles) == (Canvas {
            pixels: canvas.brushed(brush, angles).pixels,
            ..canvas
        }),
{
    let painted = canvas.brushed(brush, angles);
    if coverage(canvas.clips, p) == 0 {
        assert forall|k: int| 0 <= k < 4 implies #[trigger] pixel(painted.pixels, p)[k] == pixel(
            canvas.pixels,
            p,
        )[k] by {
            let i = 4 * p + k;
            assert(i / 4 == p && i % 4 == k);
            assert forall|color: Option<Rgba>|
                #[trigger] canvas.shaded_pixel(p, color) == pixel(canvas.pixels, p) by {
                if color is Some {
                    assert(color->0.a * 0 == 0) by (nonlinear_arith);
                }
            }
        }
        assert(pixel(painted.pixels, p) =~= pixel(canvas.pixels, p));
    }
}

/// Whether some stops ask for the text color.
pub open spec fn stops_use_text_color(stops: Seq<ColorStop>) -> bool {
    exists|i: int|
        0 <= i < stops.len() && (#[trigger] stops[i]).palette_index == FOREGROUND_COLOR_INDEX
}

/// Whether a brush asks for the text color.
pub open spec fn uses_text_color(brush: Brush) -> bool {
    match brush {
        Brush::Solid { palette_index, .. } => palette_index == FOREGROUND_COLOR_INDEX,
        Brush::LinearGradient { color_stops, .. } => stops_use_text_color(color_stops@),
        Brush::RadialGradient { color_stops, .. } => stops_use_text_color(color_stops@),
        Brush::SweepGradient { color_stops, .. } => stops_use_text_color(color_stops@),
    }
}

/// A fill that does not ask for the text color is the same for every text color.
pub proof fn text_color_shows_where_it_is_asked_for(
    canvas: Canvas,
    brush: Brush,
    angles: Seq<Binary32>,
    foreground: Rgba,
)
    requires
        !uses_text_color(brush),
    ensures
        (Canvas { foreground, ..canvas }).brushed(brush, angles) == (Canvas {
            foreground,
            ..canvas.brushed(brush, angles)
        }),
{
    let other = Canvas { foreground, ..canvas };
    match brush {
        Brush::Solid { palette_index, alpha } => {
            let color = canvas.color(palette_index, alpha);
            assert(other.flooded(color).pixels =~= canvas.flooded(color).pixels);
        },
        Brush::LinearGradient { p0, p1, color_stops, extend } => {
            let (a, b) = ((p0.x, p0.y), (p1.x, p1.y));
            lemma_gradient_alike(
                canvas,
                foreground,
                color_stops@,
                extend,
                squared_length(a, b).less(Binary32(TRILLIONTH)),
                |p: int| Some(linear_parameter(a, b, canvas.paint_point(p))),
                |p: int| Some(linear_parameter(a, b, other.paint_point(p))),
            );
        },
        Brush::RadialGradient { c0, r0, c1, r1, color_stops, extend } => {
            let (a, b) = ((c0.x, c0.y), (c1.x, c1.y));
            lemma_gradient_alike(
                canvas,
                foreground,
                color_stops@,
                extend,
                false,
                |p: int|
                    first_drawn(cone_parameters(a, r0, b, r1, canvas.paint_point(p)), r0, r1),
                |p: int|
                    first_drawn(cone_parameters(a, r0, b, r1, other.paint_point(p)), r0, r1),
            );
        },
        Brush::SweepGradient { start_angle, end_angle, color_stops, extend, .. } => {
            lemma_gradient_alike(
                canvas,
                foreground,
                color_stops@,
                extend,
                end_angle.sub(start_angle).abs().less(Binary32(BILLIONTH)),
                |p: int| Some(sweep_parameter(start_angle, end_angle, angles[p])),
                |p: int| Some(sweep_parameter(start_angle, end_angle, angles[p])),
            );
        },
    }
}

/// A gradient without the text color is the same for every text color.
proof fn lemma_gradient_alike(
    canvas: Canvas,
    foreground: Rgba,
    stops: Seq<ColorStop>,
    extend: Extend,
    flat: bool,
    f: spec_fn(int) -> Option<Binary32>,
    g: spec_fn(int) -> Option<Binary32>,
)
    requires
        !stops_use_text_color(stops),
        forall|p: int| #[trigger] f(p) == g(p),
    ensures
        (Canvas { foreground, ..canvas }).gradient_filled(stops, extend, flat, g) == (Canvas {
            foreground,
            ..canvas.gradient_filled(stops, extend, flat, f)
        }),
{
    let other = Canvas { foreground, ..canvas };
    lemma_line_alike(stops, canvas.palette, canvas.foreground, foreground);
    let (filled, same) = (
        canvas.gradient_filled(stops, extend, flat, f),
        other.gradient_filled(stops, extend, flat, g),
    );
    if stops.len() == 1 {
        assert(stops[0].palette_index != FOREGROUND_COLOR_INDEX);
        let color = canvas.color(stops[0].palette_index, stops[0].alpha);
        assert(other.flooded(color).pixels =~= canvas.flooded(color).pixels);
    } else if !(stops.len() == 0 || flat || canvas.transform().singular()) {
        assert forall|i: int| 0 <= i < canvas.pixels.len() implies #[trigger] same.pixels[i]
            == filled.pixels[i] by {
            assert(f(i / 4) == g(i / 4));
        }
        assert(same.pixels =~= filled.pixels);
    }
}

/// A color line without the text color is the same for every text color.
proof fn lemma_line_alike(
    stops: Seq<ColorStop>,
    palette: Seq<Rgba>,
    foreground: Rgba,
    other: Rgba,
)
    requires
        !stops_use_text_color(stops),
    ensures
        color_line(stops, palette, foreground) == color_line(stops, palette, other),
    decreases stops.len(),
{
    if stops.len() > 0 {
        let rest = stops.drop_last();
        assert forall|i: int| 0 <= i < rest.len() implies (#[trigger] rest[i]).palette_index
            != FOREGROUND_COLOR_INDEX by {
            assert(rest[i] == stops[i]);
        }
        assert(stops[stops.len() - 1].palette_index != FOREGROUND_COLOR_INDEX);
        lemma_line_alike(rest, palette, foreground, other);
    }
}

/// An opaque color laid over a fully covered pixel becomes the pixel; a color over a pixel
/// does not lower its alpha, and a fully transparent color changes nothing.
pub proof fn colors_cover(px: Seq<u8>, color: Rgba, covered: u8)
    requires
        px.len() == 4,
    ensures
        color.a == 255 && covered == 255 ==> blended_pixel(px, color, covered) == seq![
            color.r,
            color.g,
            color.b,
            255u8,
        ],
        blended_pixel(px, color, covered)[3] >= px[3],
        color.a == 0 ==> blended_pixel(px, color, covered) == px,
{
    let a = mul_u8(color.a, covered);
    fractions_multiply(covered, color.a, color.a);
    fractions_multiply(color.a, covered, covered);
    over_keeps_alpha(a, px[3]);
    if color.a == 255 && covered == 255 {
        fractions_multiply(color.r, a, a);
        fractions_multiply(color.g, a, a);
        fractions_multiply(color.b, a, a);
        opaque_replaces(px, color.r, color.g, color.b);
    }
}

/// A layer that nothing is painted on leaves no trace, in every mode that keeps the
/// backdrop where there is no source.
pub proof fn empty_layers_vanish(canvas: Canvas, mode: CompositeMode)
    requires
        canvas.wf(),
        keeps_backdrop(mode),
    ensures
        canvas.layered(mode).wf(),
        canvas.layered(mode).merged() == canvas,
{
    let layered = canvas.layered(mode);
    lemma_layered(canvas, mode);
    let merged = layered.merged();
    assert forall|i: int| 0 <= i < canvas.pixels.len() implies #[trigger] merged.pixels[i]
        == canvas.pixels[i] by {
        let p = i / 4;
        assert(pixel(layered.pixels, p) =~= seq![0u8, 0, 0, 0]);
        nothing_over_a_backdrop(pixel(canvas.pixels, p), mode);
        assert(pixel(canvas.pixels, p)[i % 4] == canvas.pixels[i]);
    }
    assert(merged.pixels =~= canvas.pixels);
    assert(merged.layers =~= canvas.layers);
}

/// A layer over a backdrop that nothing is painted on comes out as it is, in every mode
/// that keeps the source where there is no backdrop.
pub proof fn layers_over_nothing_stay(canvas: Canvas)
    requires
        canvas.wf(),
        canvas.layers.len() > 0,
        keeps_source(canvas.layers.last().1),
        forall|i: int|
            0 <= i < canvas.layers.last().0.len() ==> #[trigger] canvas.layers.last().0[i] == 0,
    ensures
        canvas.merged().pixels == canvas.pixels,
{
    let (backdrop, mode) = canvas.layers.last();
    assert(canvas.layers.last() == canvas.layers[canvas.layers.len() - 1]);
    let merged = canvas.merged();
    assert forall|i: int| 0 <= i < canvas.pixels.len() implies #[trigger] merged.pixels[i]
        == canvas.pixels[i] by {
        let p = i / 4;
        assert(pixel(backdrop, p) =~= seq![0u8, 0, 0, 0]);
        a_source_over_nothing(pixel(canvas.pixels, p), mode);
        assert(pixel(canvas.pixels, p)[i % 4] == canvas.pixels[i]);
    }
    assert(merged.pixels =~= canvas.pixels);
}

/// A new layer leaves a canvas well formed.
proof fn lemma_layered(canvas: Canvas, mode: CompositeMode)
    requires
        canvas.wf(),
    ensures
        canvas.layered(mode).wf(),
{
    let layered = canvas.layered(mode);
    assert forall|i: int| 0 <= i < layered.layers.len() implies (
    #[trigger] layered.layers[i]).0.len() == layered.area() * 4 && premultiplied(
        layered.layers[i].0,
    ) by {
        if i < canvas.layers.len() {
            assert(layered.layers[i] == canvas.layers[i]);
        }
    }
}

/// Whatever is painted on a layer, it is dropped by the mode that keeps the backdrop, and
/// stays alone by the mode that keeps the source.
pub proof fn one_sided_layers(canvas: Canvas)
    requires
        canvas.wf(),
        canvas.layers.len() > 0,
    ensures
        canvas.layers.last().1 == CompositeMode::Dest ==> canvas.merged().pixels
            == canvas.layers.last().0,
        canvas.layers.last().1 == CompositeMode::Src ==> canvas.merged().pixels == canvas.pixels,
        canvas.layers.last().1 == CompositeMode::Clear ==> canvas.merged().pixels == Seq::new(
            canvas.pixels.len(),
            |i: int| 0u8,
        ),
{
    assert(canvas.layers.last() == canvas.layers[canvas.layers.len() - 1]);
    one_sided_modes(canvas.pixels, canvas.layers.last().0);
}

} // verus!
