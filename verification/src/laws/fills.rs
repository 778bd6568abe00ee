//! What holds of the pixels that a fill paints.
use crate::binary32::Binary32;
use crate::bounds::fractional;
use crate::canvas::{
    blended_pixel, coverage, gradient_color, linear_parameter, squared_length, sweep_parameter,
    Canvas,
};
use crate::color::{lemma_mul_u8_bounds, mul_u8, over_channel, premultiplied_pixel, Rgba};
use crate::composite::pixel;
use crate::consts::TRILLIONTH;
use crate::gradient::{base_color, cone_parameters, first_drawn, Brush, ColorStop, Extend};
use crate::laws::bytes::alphas_scale_the_alpha;
use crate::laws::circles::{
    circle_gap, circle_slack, circles_within, cone_coefficients, points_lie_on_their_circles,
};
use crate::laws::colors::{
    fractions_multiply, products_of_fractions_are_nearest, what_lies_below_shines_through,
};
use crate::laws::cones::{circles_through_a_point_are_found, clear_by};
use crate::laws::gradients::radial_parameter_is_the_largest;
use crate::laws::parameters::{linear_parameters_project, step};
use crate::laws::sweeps::{measures, sweep_parameters_measure_the_angle, sweep_within};
use crate::reals::{number, part, size};
use vstd::prelude::*;

verus! {

/// Whether a fill lays a color over a pixel, by the coverage of the pixel.
pub open spec fn painted_with(canvas: Canvas, filled: Canvas, p: int, color: Rgba) -> bool {
    pixel(filled.pixels, p) == blended_pixel(
        pixel(canvas.pixels, p),
        color,
        coverage(canvas.clips, p),
    )
}

/// Whether a fill paints a pixel with the color of a gradient at a parameter.
pub open spec fn painted_at(
    canvas: Canvas,
    filled: Canvas,
    stops: Seq<ColorStop>,
    extend: Extend,
    p: int,
    t: Binary32,
) -> bool {
    painted_with(canvas, filled, p, gradient_color(canvas.ramp(stops), t, extend))
}

/// A channel of a color in 255 parts; the alpha counts as full.
pub open spec fn color_channel(color: Rgba, k: int) -> int {
    if k == 0 {
        color.r as int
    } else if k == 1 {
        color.g as int
    } else if k == 2 {
        color.b as int
    } else {
        255
    }
}

/// A color laid over a pixel covers it by its alpha and the coverage together: every channel
/// comes to lie between the one below and the one of the color in that proportion, but for one
/// and a half steps.
pub proof fn colors_cover_in_proportion(px: Seq<u8>, color: Rgba, covered: u8, k: int)
    requires
        px.len() == 4,
        premultiplied_pixel(px),
        0 <= k < 4,
    ensures
        ({
            let n = color.a * covered;
            let exact = n * color_channel(color, k) + (65025 - n) * px[k];
            -97920 <= 65025 * blended_pixel(px, color, covered)[k] - exact <= 97920
        }),
{
    let a = mul_u8(color.a, covered);
    products_of_fractions_are_nearest(color.a, covered);
    let c: u8 = if k == 0 {
        color.r
    } else if k == 1 {
        color.g
    } else if k == 2 {
        color.b
    } else {
        255
    };
    products_of_fractions_are_nearest(c, a);
    lemma_mul_u8_bounds(c, a);
    let m = mul_u8(c, a);
    if k == 3 {
        fractions_multiply(a, 255, 255);
    }
    let out = over_channel(m, a, px[k]);
    what_lies_below_shines_through(m, a, px[k], px[3]);
    if a == 0 {
        assert((255 - 0) * px[k] == 255 * px[k]);
        assert(c * 0 == 0);
        assert(out == px[k]);
    }
    assert(blended_pixel(px, color, covered)[k] == out);
    lemma_proportion(c as int, a as int, m as int, px[k] as int, out as int, color.a * covered);
}

/// The errors of a color laid over a pixel.
proof fn lemma_proportion(c: int, a: int, m: int, d: int, out: int, n: int)
    requires
        0 <= c <= 255,
        0 <= d <= 255,
        -128 <= 255 * a - n <= 128,
        -128 <= 255 * m - c * a <= 128,
        -128 <= 255 * out - (255 * m + (255 - a) * d) <= 128,
    ensures
        -97920 <= 65025 * out - (n * c + (65025 - n) * d) <= 97920,
{
    let (e, f) = (255 * a - n, c - d);
    assert(e * f <= 128 * 255 && -(128 * 255) <= e * f) by (nonlinear_arith)
        requires
            -128 <= e <= 128,
            -255 <= f <= 255,
    ;
    assert((255 - a) * d == 255 * d - a * d) by (nonlinear_arith);
    assert((65025 - n) * d == 65025 * d - n * d) by (nonlinear_arith);
    assert(e * f == 255 * (c * a) - n * c - 255 * (a * d) + n * d) by (nonlinear_arith)
        requires
            e == 255 * a - n,
            f == c - d,
    ;
}

/// A pixel of a canvas that is filled with a gradient.
proof fn lemma_gradient_pixel(
    canvas: Canvas,
    stops: Seq<ColorStop>,
    extend: Extend,
    parameter: spec_fn(int) -> Option<Binary32>,
    p: int,
)
    requires
        canvas.wf(),
        stops.len() > 1,
        !canvas.transform().singular(),
        0 <= p < canvas.area(),
    ensures
        ({
            let filled = canvas.gradient_filled(stops, extend, false, parameter);
            match parameter(p) {
                Some(t) => painted_at(canvas, filled, stops, extend, p, t),
                None => pixel(filled.pixels, p) == pixel(canvas.pixels, p),
            }
        }),
{
    let filled = canvas.gradient_filled(stops, extend, false, parameter);
    let px = match parameter(p) {
        Some(t) => blended_pixel(
            pixel(canvas.pixels, p),
            gradient_color(canvas.ramp(stops), t, extend),
            coverage(canvas.clips, p),
        ),
        None => pixel(canvas.pixels, p),
    };
    assert forall|k: int| 0 <= k < 4 implies #[trigger] pixel(filled.pixels, p)[k] == px[k] by {
        let i = 4 * p + k;
        assert(i / 4 == p && i % 4 == k);
    }
    assert(pixel(filled.pixels, p) =~= px);
}

/// Whether a parameter is how far along a gradient line a point lies, but for rounding.
pub open spec fn projects_to(
    p0: (Binary32, Binary32),
    p1: (Binary32, Binary32),
    at: (Binary32, Binary32),
    t: Binary32,
    d: real,
    q: real,
) -> bool {
    let (x, y) = (step(p0.0, p1.0), step(p0.1, p1.1));
    let (u, v) = (step(p0.0, at.0), step(p0.1, at.1));
    size(number(t) * (x * x + y * y) - (u * x + v * y)) <= 32real * (part() * (q * d + (d * d)
        * size(number(t))))
}

/// A linear gradient paints every pixel with its color at how far along the gradient line the
/// point lies that the pixel shows.
pub proof fn linear_fills_follow_their_line(
    canvas: Canvas,
    p0: (Binary32, Binary32),
    p1: (Binary32, Binary32),
    stops: Seq<ColorStop>,
    extend: Extend,
    p: int,
    d: real,
    q: real,
)
    requires
        canvas.wf(),
        stops.len() > 1,
        !canvas.transform().singular(),
        0 <= p < canvas.area(),
        squared_length(p0, p1).finite(),
        !squared_length(p0, p1).less(Binary32(TRILLIONTH)),
        linear_parameter(p0, p1, canvas.paint_point(p)).finite(),
        size(step(p0.0, p1.0)) <= d,
        size(step(p0.1, p1.1)) <= d,
        size(step(p0.0, canvas.paint_point(p).0)) <= q,
        size(step(p0.1, canvas.paint_point(p).1)) <= q,
        1real <= q,
    ensures
        exists|t: Binary32|
            projects_to(p0, p1, canvas.paint_point(p), t, d, q) && #[trigger] painted_at(
                canvas,
                canvas.linear_filled(p0, p1, stops, extend),
                stops,
                extend,
                p,
                t,
            ),
{
    let at = canvas.paint_point(p);
    let t = linear_parameter(p0, p1, at);
    linear_parameters_project(p0, p1, at, d, q);
    let parameter = |p: int| Some(linear_parameter(p0, p1, canvas.paint_point(p)));
    lemma_gradient_pixel(canvas, stops, extend, parameter, p);
    assert(parameter(p) == Some(t));
    assert(canvas.linear_filled(p0, p1, stops, extend) == canvas.gradient_filled(
        stops,
        extend,
        false,
        parameter,
    ));
    assert(painted_at(
        canvas,
        canvas.linear_filled(p0, p1, stops, extend),
        stops,
        extend,
        p,
        t,
    ));
}

/// A radial gradient paints a pixel with its color at a circle that passes through the point that
/// the pixel shows, where one does that is clear of rounding, and not before it.
pub proof fn radial_fills_find_their_circle(
    canvas: Canvas,
    c0: (Binary32, Binary32),
    r0: Binary32,
    c1: (Binary32, Binary32),
    r1: Binary32,
    stops: Seq<ColorStop>,
    extend: Extend,
    p: int,
    d: real,
    q: real,
    t: real,
    e: real,
)
    requires
        canvas.wf(),
        stops.len() > 1,
        !canvas.transform().singular(),
        0 <= p < canvas.area(),
        circles_within(c0, r0, c1, r1, canvas.paint_point(p), d, q),
        d * q <= 4294967296real,
        circle_gap(c0, r0, c1, r1, canvas.paint_point(p), t) == 0real,
        clear_by(c0, r0, c1, r1, canvas.paint_point(p), d, q, t, e),
    ensures
        exists|found: Binary32|
            found.finite() && number(found) >= t - e && size(
                circle_gap(c0, r0, c1, r1, canvas.paint_point(p), number(found)),
            ) * size(number(cone_coefficients(c0, r0, c1, r1, canvas.paint_point(p)).0))
                <= circle_slack(d, q, number(found)) && #[trigger] painted_at(
                canvas,
                canvas.radial_filled(c0, r0, c1, r1, stops, extend),
                stops,
                extend,
                p,
                found,
            ),
{
    let at = canvas.paint_point(p);
    circles_through_a_point_are_found(c0, r0, c1, r1, at, d, q, t, e);
    let all = cone_parameters(c0, r0, c1, r1, at);
    let found = first_drawn(all, r0, r1)->0;
    radial_parameter_is_the_largest(c0, r0, c1, r1, at);
    points_lie_on_their_circles(c0, r0, c1, r1, at, found, d, q);
    let parameter = |p: int|
        first_drawn(cone_parameters(c0, r0, c1, r1, canvas.paint_point(p)), r0, r1);
    lemma_gradient_pixel(canvas, stops, extend, parameter, p);
    assert(parameter(p) == Some(found));
    let filled = canvas.radial_filled(c0, r0, c1, r1, stops, extend);
    assert(filled == canvas.gradient_filled(stops, extend, false, parameter));
    assert(painted_at(canvas, filled, stops, extend, p, found));
}

/// A sweep gradient paints every pixel with its color at how far around its sector the angle of
/// the pixel lies.
pub proof fn sweep_fills_follow_the_angle(
    canvas: Canvas,
    angles: Seq<Binary32>,
    start: Binary32,
    end: Binary32,
    stops: Seq<ColorStop>,
    extend: Extend,
    p: int,
    largest: real,
)
    requires
        canvas.wf(),
        canvas.sweeps(start, end, stops),
        0 <= p < canvas.area(),
        sweep_within(start, end, angles[p], largest),
    ensures
        ({
            let t = sweep_parameter(start, end, angles[p]);
            let filled = canvas.sweep_filled(angles, start, end, stops, extend);
            &&& exists|k: int| #[trigger] measures(start, end, angles[p], largest, k)
            &&& painted_at(canvas, filled, stops, extend, p, t)
        }),
{
    sweep_parameters_measure_the_angle(start, end, angles[p], largest);
    let parameter = |p: int| Some(sweep_parameter(start, end, angles[p]));
    lemma_gradient_pixel(canvas, stops, extend, parameter, p);
    assert(parameter(p) == Some(sweep_parameter(start, end, angles[p])));
    assert(canvas.sweep_filled(angles, start, end, stops, extend) == canvas.gradient_filled(
        stops,
        extend,
        false,
        parameter,
    ));
}

/// A solid fill lays its color over every pixel: the channels of the color that its index stands
/// for, and the alpha of that times its own, to the nearest byte.
pub proof fn solid_fills_cover_every_pixel(
    canvas: Canvas,
    palette_index: u16,
    alpha: Binary32,
    angles: Seq<Binary32>,
    p: int,
)
    requires
        canvas.wf(),
        fractional(alpha),
        0 <= p < canvas.area(),
    ensures
        ({
            let filled = canvas.brushed(Brush::Solid { palette_index, alpha }, angles);
            let base = base_color(palette_index, canvas.palette, canvas.foreground);
            exists|color: Rgba|
                color.r == base.r && color.g == base.g && color.b == base.b && size(
                    color.a as int as real - (base.a as int as real) * number(alpha),
                ) <= 1real / 2real + 1real / 4096real && #[trigger] painted_with(
                    canvas,
                    filled,
                    p,
                    color,
                )
        }),
{
    let base = base_color(palette_index, canvas.palette, canvas.foreground);
    alphas_scale_the_alpha(base, alpha);
    let color = base.with_alpha(alpha);
    let filled = canvas.brushed(Brush::Solid { palette_index, alpha }, angles);
    let px = blended_pixel(pixel(canvas.pixels, p), color, coverage(canvas.clips, p));
    assert forall|k: int| 0 <= k < 4 implies #[trigger] pixel(filled.pixels, p)[k] == px[k] by {
        let i = 4 * p + k;
        assert(i / 4 == p && i % 4 == k);
    }
    assert(pixel(filled.pixels, p) =~= px);
    assert(painted_with(canvas, filled, p, color));
}

/// The stops of a gradient.
pub open spec fn stops_of(brush: Brush) -> Option<Seq<ColorStop>> {
    match brush {
        Brush::LinearGradient { color_stops, .. } => Some(color_stops@),
        Brush::RadialGradient { color_stops, .. } => Some(color_stops@),
        Brush::SweepGradient { color_stops, .. } => Some(color_stops@),
        _ => None,
    }
}

/// A gradient with one stop fills like the color of that stop, and one without stops, or under a
/// transform that collapses the plane, fills nothing.
pub proof fn short_gradients_are_solid(
    canvas: Canvas,
    brush: Brush,
    angles: Seq<Binary32>,
)
    requires
        stops_of(brush) is Some,
    ensures
        ({
            let stops = stops_of(brush)->0;
            &&& stops.len() == 1 ==> canvas.brushed(brush, angles) == canvas.brushed(
                Brush::Solid { palette_index: stops[0].palette_index, alpha: stops[0].alpha },
                angles,
            )
            &&& stops.len() == 0 ==> canvas.brushed(brush, angles) == canvas
            &&& stops.len() > 1 && canvas.transform().singular() ==> canvas.brushed(brush, angles)
                == canvas
        }),
{
}

} // verus!
