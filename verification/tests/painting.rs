use colr_paint::affine::{transform_point, PaintTransform};
use colr_paint::binary32::Binary32;
use colr_paint::blend::CompositeMode;
use colr_paint::canvas::Placement;
use colr_paint::color::Rgba;
use colr_paint::gradient::{Brush, ColorStop, Extend};
use colr_paint::painter::ColrV1Painter;
use colr_paint::path::{BoundingBox, Command, PathCollector, Vector};

fn n(x: f32) -> Binary32 {
    Binary32(x.to_bits())
}

fn f(x: Binary32) -> f32 {
    f32::from_bits(x.0)
}

fn atan2(y: Binary32, x: Binary32) -> Binary32 {
    n(f(y).atan2(f(x)))
}

const RED: Rgba = Rgba { r: 255, g: 0, b: 0, a: 255 };
const BLUE: Rgba = Rgba { r: 0, g: 0, b: 255, a: 255 };
const HALF_GREEN: Rgba = Rgba { r: 0, g: 255, b: 0, a: 128 };
const TEXT: Rgba = Rgba { r: 10, g: 20, b: 30, a: 255 };

fn transform(xx: f32, yx: f32, xy: f32, yy: f32, dx: f32, dy: f32) -> PaintTransform {
    PaintTransform { xx: n(xx), yx: n(yx), xy: n(xy), yy: n(yy), dx: n(dx), dy: n(dy) }
}

fn painter(width: u32, height: u32) -> ColrV1Painter {
    let palette = vec![RED, BLUE, HALF_GREEN];
    ColrV1Painter::new(palette, TEXT, width, height, PaintTransform::identity())
}

fn pixels(painter: ColrV1Painter) -> Vec<[u8; 4]> {
    let image = painter.into_image(0, 0);
    image.data.chunks_exact(4).map(|p| [p[0], p[1], p[2], p[3]]).collect()
}

fn stop(offset: f32, palette_index: u16, alpha: f32) -> ColorStop {
    ColorStop { offset: n(offset), palette_index, alpha: n(alpha) }
}

fn red_to_blue() -> Vec<ColorStop> {
    vec![stop(0.0, 0, 1.0), stop(1.0, 1, 1.0)]
}

fn point(x: f32, y: f32) -> (Binary32, Binary32) {
    (n(x), n(y))
}

fn linear(color_stops: &[ColorStop], x1: f32) -> Brush<'_> {
    Brush::LinearGradient {
        p0: Vector { x: n(0.0), y: n(0.0) },
        p1: Vector { x: n(x1), y: n(0.0) },
        color_stops,
        extend: Extend::Pad,
    }
}

#[test]
fn new_painters_are_transparent() {
    assert_eq!(pixels(painter(3, 2)), vec![[0; 4]; 6]);
    assert_eq!(pixels(painter(0, 5)), Vec::<[u8; 4]>::new());
}

#[test]
fn solid_fills_cover_everything() {
    let mut p = painter(2, 2);
    p.fill_solid(RED);
    assert_eq!(pixels(p), vec![[255, 0, 0, 255]; 4]);
    // A transparent color changes nothing.
    let mut p = painter(2, 2);
    p.fill_solid(RED);
    p.fill_solid(Rgba { r: 1, g: 2, b: 3, a: 0 });
    assert_eq!(pixels(p), vec![[255, 0, 0, 255]; 4]);
    // A half transparent one is mixed in.
    let mut p = painter(1, 1);
    p.fill_solid(RED);
    p.fill_solid(HALF_GREEN);
    assert_eq!(pixels(p), vec![[127, 128, 0, 255]]);
}

#[test]
fn brushes_resolve_their_colors() {
    let cases = [
        (0, 1.0, [255, 0, 0, 255]),
        (2, 1.0, [0, 255, 0, 128]),
        // The text color, and black where the palette has no entry.
        (0xffff, 1.0, [10, 20, 30, 255]),
        (3, 1.0, [0, 0, 0, 255]),
        (1, 0.0, [0, 0, 0, 0]),
    ];
    for (palette_index, alpha, expected) in cases {
        let mut p = painter(1, 1);
        p.fill(Brush::Solid { palette_index, alpha: n(alpha) }, &atan2);
        assert_eq!(pixels(p), vec![expected]);
    }
}

#[test]
fn linear_gradients_run_along_their_line() {
    let mut p = painter(4, 1);
    p.fill(linear(&red_to_blue(), 4.0), &atan2);
    // At 1/8, 3/8, 5/8 and 7/8 of the line.
    assert_eq!(
        pixels(p),
        vec![[223, 0, 32, 255], [159, 0, 96, 255], [96, 0, 159, 255], [32, 0, 223, 255]]
    );
}

#[test]
fn gradient_lines_run_from_end_to_end() {
    // The centers of the two pixels are the ends of the line.
    let mut p = painter(2, 1);
    p.fill_linear_gradient(point(0.5, 0.5), point(1.5, 0.5), &red_to_blue(), Extend::Pad);
    assert_eq!(pixels(p), vec![[255, 0, 0, 255], [0, 0, 255, 255]]);
}

#[test]
fn gradients_are_laid_out_in_paint_coordinates() {
    // Twice as large, the line covers all eight pixels.
    let mut p = painter(8, 1);
    p.push_transform(transform(2.0, 0.0, 0.0, 2.0, 0.0, 0.0));
    p.fill(linear(&red_to_blue(), 4.0), &atan2);
    let large = pixels(p);
    assert!(large[0][0] > 230 && large[7][2] > 230);
    // Upside down the same.
    let mut p = painter(8, 1);
    p.push_transform(transform(-2.0, 0.0, 0.0, 2.0, 8.0, 0.0));
    p.fill(linear(&red_to_blue(), 4.0), &atan2);
    let mut mirrored = pixels(p);
    mirrored.reverse();
    assert_eq!(mirrored, large);
}

#[test]
fn gradients_without_extent_paint_nothing() {
    let blank = vec![[0; 4]; 4];
    let stops = red_to_blue();
    // No stops, a line of no length, and a transform without an inverse.
    let mut p = painter(2, 2);
    p.fill(linear(&[], 4.0), &atan2);
    p.fill(linear(&stops, 0.0), &atan2);
    p.fill_radial_gradient(point(0.0, 0.0), n(0.0), point(0.0, 0.0), n(2.0), &[], Extend::Pad);
    p.fill_sweep_gradient(point(0.0, 0.0), n(0.0), n(90.0), &[], Extend::Pad, &atan2);
    p.fill_sweep_gradient(point(0.0, 0.0), n(90.0), n(90.0), &stops, Extend::Pad, &atan2);
    p.push_transform(transform(1.0, 1.0, 1.0, 1.0, 0.0, 0.0));
    assert!(p.inverse_or_skip().is_none());
    p.fill(linear(&stops, 4.0), &atan2);
    p.fill_radial_gradient(point(0.0, 0.0), n(0.0), point(0.0, 0.0), n(2.0), &stops, Extend::Pad);
    p.fill_sweep_gradient(point(0.0, 0.0), n(0.0), n(90.0), &stops, Extend::Pad, &atan2);
    assert_eq!(pixels(p), blank);
    // A single stop is a solid color, even so.
    let one = vec![stop(0.5, 1, 1.0)];
    for kind in 0..3 {
        let mut p = painter(2, 2);
        p.push_transform(transform(1.0, 1.0, 1.0, 1.0, 0.0, 0.0));
        let zero = point(0.0, 0.0);
        match kind {
            0 => p.fill_linear_gradient(zero, zero, &one, Extend::Pad),
            1 => p.fill_radial_gradient(zero, n(0.0), zero, n(0.0), &one, Extend::Pad),
            _ => p.fill_sweep_gradient(zero, n(0.0), n(0.0), &one, Extend::Pad, &atan2),
        }
        assert_eq!(pixels(p), vec![[0, 0, 255, 255]; 4]);
    }
}

#[test]
fn radial_gradients_leave_out_what_is_outside_the_cone() {
    // From a point at the left to a circle at the right: the cone opens to the right.
    let mut p = painter(9, 9);
    let stops = red_to_blue();
    p.fill_radial_gradient(point(4.5, 4.5), n(0.0), point(8.5, 4.5), n(1.0), &stops, Extend::Pad);
    let all = pixels(p);
    assert_eq!(all[4 * 9], [0, 0, 0, 0]);
    assert_eq!(all[8 * 9 + 4], [0, 0, 0, 0]);
    assert_eq!(all[4 * 9 + 8][3], 255);
}

#[test]
fn sweeps_turn_clockwise_in_upward_paint() {
    // Paint runs upwards and pixels downwards. Clockwise from the right, the first quarter is
    // below the center: it is painted from red at the right to blue at the bottom.
    let mut p = painter(21, 21);
    p.push_transform(transform(1.0, 0.0, 0.0, -1.0, 0.0, 21.0));
    let stops = red_to_blue();
    p.fill_sweep_gradient(point(10.5, 10.5), n(0.0), n(90.0), &stops, Extend::Pad, &atan2);
    let all = pixels(p);
    assert_eq!(all[10 * 21 + 20], [255, 0, 0, 255]);
    assert_eq!(all[20 * 21 + 10], [0, 0, 255, 255]);
    let diagonal = all[20 * 21 + 20];
    assert!((i32::from(diagonal[0]) - 128).abs() <= 1 && (i32::from(diagonal[2]) - 128).abs() <= 1);
}

#[test]
fn sweeps_fold_angles_into_the_turn_from_their_start() {
    // The wedge from 350 to 370 degrees lies across the axis to the right.
    let stops = red_to_blue();
    let mut p = painter(2, 1);
    let degree = std::f32::consts::PI / 180.0;
    let angles = [n(355.0 * degree), n(5.0 * degree)];
    p.fill_sweep_angles(&angles, n(350.0), n(370.0), &stops, Extend::Pad);
    let all = pixels(p);
    assert!((i32::from(all[0][2]) - 64).abs() <= 1, "{:?}", all[0]);
    assert!((i32::from(all[1][2]) - 191).abs() <= 1, "{:?}", all[1]);
}

#[test]
fn sweeps_ask_for_the_angles_of_covered_pixels_only() {
    let stops = red_to_blue();
    let mut p = painter(2, 1);
    let placement = Placement { left: 1, top: 0, width: 1, height: 1 };
    p.push_clip_glyph(Some((placement, vec![255])));
    let only_right = |y: Binary32, x: Binary32| {
        assert_eq!((f(y), f(x)), (-0.5, 1.5));
        n(0.0)
    };
    p.fill_sweep_gradient(point(0.0, 0.0), n(0.0), n(90.0), &stops, Extend::Pad, &only_right);
    assert_eq!(pixels(p), vec![[0; 4], [255, 0, 0, 255]]);
}

#[test]
fn transforms_are_put_inside_each_other() {
    let mut p = painter(1, 1);
    let base = p.current_transform();
    p.push_transform(transform(2.0, 0.0, 0.0, 2.0, 10.0, 0.0));
    let outer = p.current_transform();
    p.push_transform(transform(1.0, 0.0, 0.0, 1.0, 3.0, 4.0));
    // The inner transform comes first.
    let (x, y) = transform_point(&p.current_transform(), n(1.0), n(1.0));
    assert_eq!((f(x), f(y)), (18.0, 10.0));
    p.pop_transform();
    assert_eq!(p.current_transform(), outer);
    p.pop_transform();
    assert_eq!(p.current_transform(), base);
    // The base transform stays.
    p.pop_transform();
    assert_eq!(p.current_transform(), base);
}

#[test]
fn masks_are_placed_and_cut_off() {
    let p = painter(3, 3);
    let mask = [1, 2, 3, 4];
    let placed = |left, top| {
        let placement = Placement { left, top, width: 2, height: 2 };
        p.blit_mask_to_full(&placement, &mask)
    };
    assert_eq!(placed(0, 0), vec![1, 2, 0, 3, 4, 0, 0, 0, 0]);
    assert_eq!(placed(1, 1), vec![0, 0, 0, 0, 1, 2, 0, 3, 4]);
    assert_eq!(placed(-1, 2), vec![0, 0, 0, 0, 0, 0, 2, 0, 0]);
    assert_eq!(placed(2, -1), vec![0, 0, 3, 0, 0, 0, 0, 0, 0]);
    assert_eq!(placed(i32::MIN, i32::MAX), vec![0; 9]);
    // Data that is too short covers nothing where it ends.
    let placement = Placement { left: 0, top: 0, width: 2, height: 2 };
    assert_eq!(p.blit_mask_to_full(&placement, &[9, 8, 7]), vec![9, 8, 0, 7, 0, 0, 0, 0, 0]);
    let whole = Placement { left: 0, top: 0, width: 3, height: 3 };
    let bytes: Vec<u8> = (1..10).collect();
    assert_eq!(p.blit_mask_to_full(&whole, &bytes), bytes);
}

#[test]
fn clips_multiply_and_come_off() {
    let whole = Placement { left: 0, top: 0, width: 2, height: 1 };
    let mut p = painter(2, 1);
    assert_eq!(p.clip_alpha_at(0), 255);
    p.push_clip_glyph(Some((whole, vec![128, 255])));
    p.push_clip_box(whole, vec![128, 0]);
    assert_eq!((p.clip_alpha_at(0), p.clip_alpha_at(1)), (64, 0));
    p.fill_solid(RED);
    p.pop_clip();
    assert_eq!((p.clip_alpha_at(0), p.clip_alpha_at(1)), (128, 255));
    p.pop_clip();
    p.pop_clip();
    assert_eq!((p.clip_alpha_at(0), p.clip_alpha_at(1)), (255, 255));
    assert_eq!(pixels(p), vec![[255, 0, 0, 64], [0; 4]]);
}

#[test]
fn a_glyph_without_an_outline_hides_everything() {
    let mut p = painter(2, 2);
    p.push_clip_glyph(None);
    p.fill_solid(RED);
    p.pop_clip();
    assert_eq!(pixels(p), vec![[0; 4]; 4]);
    assert!(PathCollector::new().outline().is_none());
}

#[test]
fn outlines_collect_every_stroke() {
    let mut c = PathCollector::new();
    c.move_to(n(0.0), n(1.0));
    c.line_to(n(2.0), n(3.0));
    c.quad_to(n(4.0), n(5.0), n(6.0), n(7.0));
    c.curve_to(n(8.0), n(9.0), n(10.0), n(11.0), n(12.0), n(13.0));
    c.close();
    let v = |x: f32, y: f32| Vector { x: n(x), y: n(y) };
    assert_eq!(
        c.outline().unwrap(),
        vec![
            Command::MoveTo(v(0.0, 1.0)),
            Command::LineTo(v(2.0, 3.0)),
            Command::QuadTo(v(4.0, 5.0), v(6.0, 7.0)),
            Command::CurveTo(v(8.0, 9.0), v(10.0, 11.0), v(12.0, 13.0)),
            Command::Close,
        ]
    );
}

#[test]
fn clip_boxes_become_quadrilaterals() {
    let mut p = painter(1, 1);
    p.push_transform(transform(1.0, 0.0, 1.0, -1.0, 5.0, 0.0));
    let commands = p.clip_box_path(BoundingBox {
        x_min: n(0.0),
        y_min: n(1.0),
        x_max: n(2.0),
        y_max: n(3.0),
    });
    let v = |x: f32, y: f32| Vector { x: n(x), y: n(y) };
    assert_eq!(
        commands,
        vec![
            Command::MoveTo(v(6.0, -1.0)),
            Command::LineTo(v(8.0, -1.0)),
            Command::LineTo(v(10.0, -3.0)),
            Command::LineTo(v(8.0, -3.0)),
            Command::Close,
        ]
    );
}

fn all_modes() -> Vec<CompositeMode> {
    vec![
        CompositeMode::Clear,
        CompositeMode::Src,
        CompositeMode::Dest,
        CompositeMode::SrcOver,
        CompositeMode::DestOver,
        CompositeMode::SrcIn,
        CompositeMode::DestIn,
        CompositeMode::SrcOut,
        CompositeMode::DestOut,
        CompositeMode::SrcAtop,
        CompositeMode::DestAtop,
        CompositeMode::Xor,
        CompositeMode::Plus,
        CompositeMode::Screen,
        CompositeMode::Overlay,
        CompositeMode::Darken,
        CompositeMode::Lighten,
        CompositeMode::ColorDodge,
        CompositeMode::ColorBurn,
        CompositeMode::HardLight,
        CompositeMode::SoftLight,
        CompositeMode::Difference,
        CompositeMode::Exclusion,
        CompositeMode::Multiply,
        CompositeMode::HslHue,
        CompositeMode::HslSaturation,
        CompositeMode::HslColor,
        CompositeMode::HslLuminosity,
        CompositeMode::Unknown,
    ]
}

fn painted() -> ColrV1Painter {
    let mut p = painter(4, 1);
    p.fill(linear(&red_to_blue(), 4.0), &atan2);
    p
}

#[test]
fn empty_layers_leave_no_trace() {
    let expected = pixels(painted());
    for mode in all_modes() {
        let mut p = painted();
        p.push_layer(mode);
        p.pop_layer();
        let kept = !matches!(
            mode,
            CompositeMode::Clear
                | CompositeMode::Src
                | CompositeMode::SrcIn
                | CompositeMode::DestIn
                | CompositeMode::SrcOut
                | CompositeMode::DestAtop
        );
        let expected = if kept { expected.clone() } else { vec![[0; 4]; 4] };
        assert_eq!(pixels(p), expected, "{mode:?}");
    }
}

#[test]
fn layers_over_nothing_come_out() {
    let expected = pixels(painted());
    for mode in all_modes() {
        let mut p = painter(4, 1);
        p.push_layer(mode);
        p.fill(linear(&red_to_blue(), 4.0), &atan2);
        p.pop_layer();
        let kept = !matches!(
            mode,
            CompositeMode::Clear
                | CompositeMode::Dest
                | CompositeMode::SrcIn
                | CompositeMode::DestIn
                | CompositeMode::DestOut
                | CompositeMode::SrcAtop
        );
        let expected = if kept { expected.clone() } else { vec![[0; 4]; 4] };
        assert_eq!(pixels(p), expected, "{mode:?}");
    }
}

#[test]
fn layers_nest() {
    let mut p = painter(1, 1);
    p.fill_solid(RED);
    p.push_layer(CompositeMode::SrcOver);
    p.fill_solid(BLUE);
    p.push_layer(CompositeMode::DestIn);
    p.fill_solid(HALF_GREEN);
    // Half of the blue is left, and then laid over the red.
    p.pop_layer();
    p.pop_layer();
    // There is no further layer.
    p.pop_layer();
    assert_eq!(pixels(p), vec![[127, 0, 128, 255]]);
}

#[test]
fn images_are_straight_and_placed() {
    let mut p = painter(1, 2);
    p.fill_solid(HALF_GREEN);
    let image = p.into_image(-3, 7);
    assert_eq!(image.placement, Placement { left: -3, top: 7, width: 1, height: 2 });
    assert_eq!(image.data, vec![0, 255, 0, 128, 0, 255, 0, 128]);
}

#[test]
fn text_color_shows_only_where_it_is_asked_for() {
    let palette = vec![RED, BLUE, HALF_GREEN];
    let painted = |foreground: Rgba, stops: &[ColorStop]| {
        let t = PaintTransform::identity();
        let mut p = ColrV1Painter::new(palette.clone(), foreground, 4, 1, t);
        p.fill_linear_gradient(point(0.0, 0.0), point(4.0, 0.0), stops, Extend::Pad);
        pixels(p)
    };
    let stops = red_to_blue();
    assert_eq!(painted(TEXT, &stops), painted(HALF_GREEN, &stops));
    let asking = [stop(0.0, 0, 1.0), stop(1.0, 0xffff, 1.0)];
    assert_ne!(painted(TEXT, &asking), painted(HALF_GREEN, &asking));
}

#[test]
fn sweeps_recur_after_a_turn() {
    let degree = std::f32::consts::PI / 180.0;
    let stops = red_to_blue();
    let swept = |start: f32, end: f32| {
        let at = |k: u8| n((f32::from(k) * 45.0 + 10.0) * degree);
        let angles: Vec<Binary32> = (0..8).map(at).collect();
        let mut p = painter(8, 1);
        p.fill_sweep_angles(&angles, n(start), n(end), &stops, Extend::Pad);
        pixels(p)
    };
    let (first, further) = (swept(0.0, 360.0), swept(360.0, 720.0));
    for (a, b) in first.iter().zip(&further) {
        for i in 0..4 {
            assert!((i32::from(a[i]) - i32::from(b[i])).abs() <= 1, "{a:?} {b:?}");
        }
    }
    // Red near the start, blue near the end.
    assert!(first[0][0] > 240 && first[7][2] > 220);
}
