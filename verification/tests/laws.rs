use colr_paint::affine::{invert_transform, transform_point, PaintTransform};
use colr_paint::binary32::Binary32;
use colr_paint::blend::{
    b_colorburn, b_colordodge, b_hardlight, b_multiply, b_overlay, b_screen, b_softlight,
    blend_color, clamp01, clip_color, lum, sat, set_lum, set_sat, CompositeMode,
};
use colr_paint::color::{mul_u8, src_over, unpremultiply_rgba, Color, Rgba};
use colr_paint::composite::{composite_buffers, composite_pixel};
use colr_paint::frame::{FaceMetrics, Frame};
use colr_paint::gradient::{
    apply_extend, build_ramp, radial_t, ramp_lookup, resolve_base_color, resolve_color,
    resolve_color_line, sample_color_line, ColorStop, Extend, ResolvedStop,
};
use colr_paint::path::BoundingBox;

fn n(x: f32) -> Binary32 {
    Binary32(x.to_bits())
}

fn f(x: Binary32) -> f32 {
    f32::from_bits(x.0)
}

fn point(x: f32, y: f32) -> (Binary32, Binary32) {
    (n(x), n(y))
}

fn color(r: f32, g: f32, b: f32) -> [Binary32; 3] {
    [n(r), n(g), n(b)]
}

/// Every premultiplied pair of a channel and an alpha, as gray pixels.
fn all_grays() -> Vec<u8> {
    let mut pixels = Vec::new();
    for a in 0..=255u8 {
        for c in 0..=a {
            pixels.extend([c, c, c, a]);
        }
    }
    pixels
}

#[test]
fn fractions_multiply() {
    for a in 0..=255u8 {
        assert_eq!(mul_u8(a, 255), a);
        assert_eq!(mul_u8(a, 0), 0);
        for b in 0..=255u8 {
            let product = mul_u8(a, b);
            assert_eq!(product, mul_u8(b, a));
            assert!(product <= a && product <= b);
            let exact = f64::from(a) * f64::from(b) / 255.0;
            assert!((f64::from(product) - exact).abs() <= 0.502);
        }
    }
}

#[test]
fn pixels_over_pixels_stay_premultiplied() {
    for (c, a) in [(0u8, 1u8), (1, 1), (77, 100), (100, 100), (254, 254), (255, 255)] {
        for (d, e) in [(0u8, 0u8), (3, 9), (128, 128), (200, 255), (255, 255)] {
            let mut px = [d, d, d, e];
            src_over(&mut px, c, 0, c, a);
            assert!(px[0] <= px[3] && px[1] <= px[3] && px[2] <= px[3]);
            assert!(px[3] >= a && px[3] >= e);
        }
    }
}

#[test]
fn straight_channels_return_but_for_one() {
    let before = all_grays();
    let mut after = before.clone();
    unpremultiply_rgba(&mut after);
    for (b, s) in before.chunks_exact(4).zip(after.chunks_exact(4)) {
        assert_eq!(b[3], s[3]);
        let back = mul_u8(s[0], s[3]);
        if (b[0], b[3]) == (127, 254) {
            assert_eq!(back, 128);
        } else {
            assert_eq!(back, b[0]);
        }
    }
    // Bytes that make up no whole pixel stay.
    let mut odd = [10, 10, 10, 20, 7, 7];
    unpremultiply_rgba(&mut odd);
    assert_eq!(odd, [128, 128, 128, 20, 7, 7]);
}

#[test]
fn folded_parameters_lie_within_one() {
    let samples = [0.0, 0.3, 1.0, 1.75, -0.1, -1.0, -7.25, 1e-30, -1e-30, 1e9, -1e9, 3e38, -3e38];
    for t in samples {
        for extend in [Extend::Pad, Extend::Repeat, Extend::Reflect] {
            let u = f(apply_extend(n(t), extend));
            assert!((0.0..=1.0).contains(&u), "{t} {extend:?} {u}");
        }
    }
    // The one number that is not reflected into the range.
    let greatest_negative = Binary32(0x8000_0001);
    assert_eq!(apply_extend(greatest_negative, Extend::Reflect), greatest_negative);
    assert_eq!(apply_extend(Binary32(0x8000_0002), Extend::Reflect), n(0.0));
}

#[test]
fn color_lines_are_sorted_and_stable() {
    let palette = [Rgba { r: 255, g: 0, b: 0, a: 255 }, Rgba { r: 0, g: 255, b: 0, a: 128 }];
    let text = Rgba { r: 1, g: 2, b: 3, a: 4 };
    let stop = |offset: f32, palette_index: u16| ColorStop {
        offset: n(offset),
        palette_index,
        alpha: n(1.0),
    };
    let stops = [stop(0.5, 1), stop(0.0, 0xffff), stop(0.5, 0), stop(-1.0, 9)];
    let line = resolve_color_line(&stops, &palette, text);
    let offsets: Vec<f32> = line.iter().map(|s| f(s.offset)).collect();
    assert_eq!(offsets, vec![-1.0, 0.0, 0.5, 0.5]);
    // The green stop came before the red one.
    assert_eq!((f(line[2].lr), f(line[3].lr)), (0.0, 1.0));
    assert_eq!(f(line[2].a), 128.0 / 255.0);
    assert_eq!(f(line[2].lg), 128.0 / 255.0);
    // At the end of the line the last stop counts.
    assert_eq!(sample_color_line(&line, n(0.5)), palette[0]);
}

#[test]
fn hard_edges_take_the_upper_stop() {
    let stop = |offset: f32, r: f32, g: f32, b: f32| ResolvedStop {
        offset: n(offset),
        lr: n(r),
        lg: n(g),
        lb: n(b),
        a: n(1.0),
    };
    let red = Rgba { r: 255, g: 0, b: 0, a: 255 };
    let blue = Rgba { r: 0, g: 0, b: 255, a: 255 };
    let line = [
        stop(0.0, 1.0, 0.0, 0.0),
        stop(0.5, 1.0, 0.0, 0.0),
        stop(0.5, 0.0, 0.0, 1.0),
        stop(1.0, 0.0, 0.0, 1.0),
    ];
    assert_eq!(sample_color_line(&line, n(0.5)), blue);
    assert_eq!(sample_color_line(&line, Binary32(n(0.5).0 - 1)), red);
    assert_eq!(sample_color_line(&line, Binary32(n(0.5).0 + 1)), blue);
    // Of three stops the last counts, and the one between shows nowhere.
    let line = [
        stop(0.0, 1.0, 0.0, 0.0),
        stop(0.25, 1.0, 0.0, 0.0),
        stop(0.25, 0.0, 1.0, 0.0),
        stop(0.25, 0.0, 0.0, 1.0),
        stop(1.0, 0.0, 0.0, 1.0),
    ];
    assert_eq!(sample_color_line(&line, n(0.25)), blue);
    assert_eq!(sample_color_line(&line, Binary32(n(0.25).0 - 1)), red);
    // A stop by itself has its own color.
    let line = [
        stop(0.0, 1.0, 0.0, 0.0),
        stop(0.25, 0.0, 1.0, 0.0),
        stop(1.0, 0.0, 0.0, 1.0),
    ];
    let green = Rgba { r: 0, g: 255, b: 0, a: 255 };
    assert_eq!(sample_color_line(&line, n(0.25)), green);
    // It ends the pair below it, so that a stop there that is no color shows.
    let mut line = line;
    line[0].a = n(f32::INFINITY);
    assert_eq!(sample_color_line(&line, n(0.25)), Rgba { r: 0, g: 0, b: 0, a: 0 });
}

#[test]
fn color_lines_end_in_their_colors() {
    let text = Rgba { r: 0, g: 0, b: 0, a: 255 };
    for a in [1u8, 2, 127, 128, 254, 255] {
        for c in 0..=255u8 {
            let palette = [Rgba { r: c, g: 255 - c, b: c / 2, a }];
            let stops = [
                ColorStop { offset: n(0.25), palette_index: 0, alpha: n(1.0) },
                ColorStop { offset: n(0.75), palette_index: 7, alpha: n(1.0) },
            ];
            let line = resolve_color_line(&stops, &palette, text);
            assert_eq!(sample_color_line(&line, n(0.0)), palette[0]);
            assert_eq!(sample_color_line(&line, n(1.0)), Rgba::black());
        }
    }
    assert_eq!(sample_color_line(&[], n(0.5)), Rgba::transparent());
}

#[test]
fn ramps_are_looked_up_in_order() {
    let palette = [Rgba { r: 255, g: 0, b: 0, a: 255 }, Rgba { r: 0, g: 0, b: 255, a: 255 }];
    let stops = [
        ColorStop { offset: n(0.0), palette_index: 0, alpha: n(1.0) },
        ColorStop { offset: n(1.0), palette_index: 1, alpha: n(1.0) },
    ];
    let line = resolve_color_line(&stops, &palette, palette[0]);
    let ramp = build_ramp(&line);
    let mut last = 0;
    for i in 0..=1000 {
        let c = ramp_lookup(&ramp, n(i as f32 / 1000.0));
        assert!(c.b >= last);
        last = c.b;
    }
    assert_eq!(ramp[0], sample_color_line(&line, n(0.0)));
    assert_eq!(ramp[255], sample_color_line(&line, n(1.0)));
    // What is not a number looks up the first entry.
    assert_eq!(ramp_lookup(&ramp, n(f32::NAN)), ramp[0]);
}

#[test]
fn radial_parameters_are_the_largest() {
    // Both roots are 1 +- 1/2: the larger is taken.
    let t = radial_t(point(0.0, 0.0), n(1.0), point(2.0, 0.0), n(1.0), point(2.0, 0.0)).unwrap();
    assert_eq!(f(t), 1.5);
    // Past the tip of the cone the radii are negative at both roots.
    let t = radial_t(point(0.0, 0.0), n(1.0), point(4.0, 0.0), n(0.0), point(4.5, 0.0));
    assert_eq!(t, None);
    // The larger root, 3/2, has a negative radius: the smaller is taken.
    let t = radial_t(point(0.0, 0.0), n(2.0), point(1.0, 0.0), n(0.0), point(0.5, 0.0)).unwrap();
    assert!((f(t) - 5.0 / 6.0).abs() < 1e-6);
    // Circles that touch from within give a linear equation.
    let t = radial_t(point(0.0, 0.0), n(1.0), point(1.0, 0.0), n(2.0), point(2.0, 0.0)).unwrap();
    assert_eq!(f(t), 0.5);
    // Outside of the cone there is none.
    let t = radial_t(point(0.0, 0.0), n(1.0), point(9.0, 0.0), n(1.0), point(0.0, 5.0));
    assert_eq!(t, None);
}

#[test]
fn palette_indices_resolve() {
    let palette = [Rgba { r: 9, g: 8, b: 7, a: 200 }];
    let text = Rgba { r: 1, g: 2, b: 3, a: 4 };
    assert_eq!(resolve_base_color(0, &palette, text), palette[0]);
    assert_eq!(resolve_base_color(1, &palette, text), Rgba::black());
    assert_eq!(resolve_base_color(0xffff, &palette, text), text);
    assert_eq!(resolve_color(0, n(0.5), &palette, text), Rgba { r: 9, g: 8, b: 7, a: 100 });
    assert_eq!(resolve_color(0, n(9.0), &palette, text).a, 255);
    assert_eq!(resolve_color(0, n(-1.0), &palette, text).a, 0);
    assert_eq!(resolve_color(0, n(f32::NAN), &palette, text).a, 0);
    let c = Color { r: 1, g: 2, b: 3, a: 4 };
    assert_eq!(Rgba::from_color(c), text);
    assert_eq!(Color::rgb(5, 6, 7), Color { r: 5, g: 6, b: 7, a: 255 });
}

#[test]
fn one_sided_modes_return_every_pixel() {
    let grays = all_grays();
    let other: Vec<u8> = grays.iter().rev().map(|_| 0).collect();
    let mut src = grays.clone();
    composite_buffers(&mut src, &other, CompositeMode::Src);
    assert!(src == grays);
    let mut src = other.clone();
    composite_buffers(&mut src, &grays, CompositeMode::Dest);
    assert!(src == grays);
    let mut src = grays.clone();
    composite_buffers(&mut src, &grays, CompositeMode::Clear);
    assert!(src.iter().all(|&b| b == 0));
}

#[test]
fn operators_come_in_pairs() {
    let s = [0.9, 0.1, 0.4, 0.7].map(n);
    let d = [0.2, 0.6, 0.5, 0.3].map(n);
    let pairs = [
        (CompositeMode::SrcOver, CompositeMode::DestOver),
        (CompositeMode::SrcIn, CompositeMode::DestIn),
        (CompositeMode::SrcOut, CompositeMode::DestOut),
        (CompositeMode::SrcAtop, CompositeMode::DestAtop),
        (CompositeMode::Xor, CompositeMode::Xor),
        (CompositeMode::Plus, CompositeMode::Plus),
        (CompositeMode::Src, CompositeMode::Dest),
    ];
    for (mode, other) in pairs {
        assert_eq!(composite_pixel(s, d, mode), composite_pixel(d, s, other));
    }
    // Exact values of each operator, for an opaque source and a half covered backdrop.
    let s = [1.0, 0.0, 0.0, 1.0].map(n);
    let d = [0.0, 0.0, 1.0, 0.5].map(n);
    let cases = [
        (CompositeMode::SrcOver, [1.0, 0.0, 0.0, 1.0]),
        (CompositeMode::DestOver, [0.5, 0.0, 0.5, 1.0]),
        (CompositeMode::SrcIn, [1.0, 0.0, 0.0, 0.5]),
        (CompositeMode::DestIn, [0.0, 0.0, 1.0, 0.5]),
        (CompositeMode::SrcOut, [1.0, 0.0, 0.0, 0.5]),
        (CompositeMode::DestOut, [0.0, 0.0, 0.0, 0.0]),
        (CompositeMode::SrcAtop, [1.0, 0.0, 0.0, 0.5]),
        (CompositeMode::DestAtop, [0.5, 0.0, 0.5, 1.0]),
        (CompositeMode::Xor, [1.0, 0.0, 0.0, 0.5]),
        (CompositeMode::Plus, [1.0, 0.0, 0.5, 1.0]),
    ];
    for (mode, expected) in cases {
        assert_eq!(composite_pixel(s, d, mode).map(f), expected, "{mode:?}");
    }
}

#[test]
fn blends_have_exact_values() {
    assert_eq!(f(b_multiply(n(0.5), n(0.25))), 0.125);
    assert_eq!(f(b_screen(n(0.5), n(0.25))), 0.625);
    assert_eq!(f(b_hardlight(n(0.5), n(0.25))), 0.25);
    assert_eq!(f(b_hardlight(n(0.5), n(0.75))), 0.75);
    assert_eq!(f(b_overlay(n(0.25), n(0.5))), 0.25);
    assert_eq!(f(b_colordodge(n(0.0), n(1.0))), 0.0);
    assert_eq!(f(b_colordodge(n(0.25), n(1.0))), 1.0);
    assert_eq!(f(b_colordodge(n(0.25), n(0.5))), 0.5);
    assert_eq!(f(b_colordodge(n(0.75), n(0.5))), 1.0);
    assert_eq!(f(b_colorburn(n(1.0), n(0.0))), 1.0);
    assert_eq!(f(b_colorburn(n(0.5), n(0.0))), 0.0);
    assert_eq!(f(b_colorburn(n(0.75), n(0.5))), 0.5);
    assert_eq!(f(b_colorburn(n(0.25), n(0.5))), 0.0);
    assert_eq!(f(b_softlight(n(0.5), n(0.25))), 0.375);
    assert_eq!(f(b_softlight(n(0.25), n(1.0))), 0.5);
    assert_eq!(f(b_softlight(n(0.125), n(1.0))), 0.34375);
    assert_eq!(f(b_softlight(n(0.5625), n(0.75))), 0.65625);
    assert_eq!(f(clamp01(n(2.0))), 1.0);
    assert_eq!(f(clamp01(n(-2.0))), 0.0);
    let blended = |mode| blend_color(color(0.5, 0.25, 1.0), color(0.25, 0.5, 0.0), mode).map(f);
    assert_eq!(blended(CompositeMode::Darken), [0.25, 0.25, 0.0]);
    assert_eq!(blended(CompositeMode::Lighten), [0.5, 0.5, 1.0]);
    assert_eq!(blended(CompositeMode::Difference), [0.25, 0.25, 1.0]);
    assert_eq!(blended(CompositeMode::Exclusion), [0.5, 0.5, 1.0]);
    // A mode that blends nothing gives the source.
    assert_eq!(blended(CompositeMode::Unknown), [0.25, 0.5, 0.0]);
}

#[test]
fn hues_are_kept_apart_from_light() {
    let c = color(0.5, 0.25, 0.75);
    let expected = 0.3f32 * 0.5 + 0.59 * 0.25 + 0.11 * 0.75;
    assert_eq!(f(lum(c)), expected);
    assert_eq!(f(sat(c)), 0.5);
    assert_eq!(set_sat(c, n(1.0)).map(f), [0.5, 0.0, 1.0]);
    assert_eq!(set_sat(color(0.3, 0.3, 0.3), n(1.0)).map(f), [0.0, 0.0, 0.0]);
    // A color in range is not clipped.
    assert_eq!(clip_color(c), c);
    // Out of range it keeps its luminosity.
    let over = clip_color(color(1.5, 0.0, 0.5));
    assert!(over.iter().all(|&v| (-1e-6..=1.000001).contains(&f(v))));
    assert!((f(lum(over)) - f(lum(color(1.5, 0.0, 0.5)))).abs() < 1e-6);
    let under = clip_color(color(-0.5, 0.5, 0.5));
    assert!((f(lum(under)) - f(lum(color(-0.5, 0.5, 0.5)))).abs() < 1e-6);
    assert!((f(lum(set_lum(c, n(0.9)))) - 0.9).abs() < 1e-6);
    // By luminosity a gray source gives a color as light as it is.
    let lit = blend_color(c, color(0.5, 0.5, 0.5), CompositeMode::HslLuminosity);
    assert!((f(lum(lit)) - 0.5).abs() < 1e-6);
    // By color, hue or saturation the light of the backdrop stays.
    for mode in [CompositeMode::HslColor, CompositeMode::HslHue, CompositeMode::HslSaturation] {
        let blended = blend_color(c, color(0.9, 0.1, 0.2), mode);
        assert!((f(lum(blended)) - f(lum(c))).abs() < 1e-6);
    }
}

#[test]
fn frames_hold_their_glyphs() {
    let metrics = FaceMetrics { units_per_em: 1000, ascent: n(800.0), descent: n(-200.0) };
    let frame = Frame::new(metrics, n(50.0), None).unwrap();
    assert_eq!((frame.width, frame.height, frame.x_min, frame.y_max), (52, 52, 0, 40));
    // A clip box of -10.5 to 20.25 and -5 to 30 pixels.
    let clip_box = BoundingBox {
        x_min: n(-105.0),
        y_min: n(-50.0),
        x_max: n(202.5),
        y_max: n(300.0),
    };
    let frame = Frame::new(metrics, n(100.0), Some(clip_box)).unwrap();
    assert_eq!((frame.width, frame.height, frame.x_min, frame.y_max), (34, 37, -11, 30));
    assert_eq!((f(frame.base_transform.dx), f(frame.base_transform.dy)), (12.0, 31.0));
    assert_eq!((frame.placement_left(), frame.placement_top()), (-12, 31));
    // Nothing to paint on.
    let flat = BoundingBox { x_max: clip_box.x_min, ..clip_box };
    let whole = BoundingBox { x_min: n(100.0), x_max: n(100.0), ..clip_box };
    assert!(Frame::new(metrics, n(100.0), Some(whole)).is_none());
    assert!(Frame::new(metrics, n(100.0), Some(flat)).is_some());
    let upside_down = BoundingBox { y_min: n(300.0), y_max: n(-50.0), ..clip_box };
    assert!(Frame::new(metrics, n(100.0), Some(upside_down)).is_none());
    let no_em = FaceMetrics { units_per_em: 0, ..metrics };
    assert!(Frame::new(no_em, n(50.0), None).is_none());
    assert!(Frame::new(metrics, n(f32::NAN), None).is_none());
    assert!(Frame::new(metrics, n(8191.0), None).is_none());
}

#[test]
fn identity_changes_no_transform() {
    let t = PaintTransform {
        xx: n(2.0),
        yx: n(0.5),
        xy: n(-1.0),
        yy: n(3.0),
        dx: n(5.0),
        dy: n(-2.0),
    };
    assert_eq!(PaintTransform::identity().then_outer(t), t);
    assert_eq!(t.then_outer(PaintTransform::identity()), t);
    // The outer transform is applied to what the inner one gives.
    let twice = t.then_outer(t);
    assert_eq!((f(twice.xx), f(twice.dx), f(twice.dy)), (3.5, 17.0, -5.5));
}

#[test]
fn blends_commute() {
    let samples = [0.0, 0.1, 0.25, 0.5, 0.7, 1.0];
    for a in samples {
        for b in samples {
            assert_eq!(b_multiply(n(a), n(b)), b_multiply(n(b), n(a)));
            assert_eq!(b_screen(n(a), n(b)), b_screen(n(b), n(a)));
            assert_eq!(b_overlay(n(a), n(b)), b_hardlight(n(b), n(a)));
            for mode in [
                CompositeMode::Darken,
                CompositeMode::Lighten,
                CompositeMode::Difference,
                CompositeMode::Exclusion,
            ] {
                let (one, other) = (color(a, b, a), color(b, a, a));
                let blended = blend_color(one, other, mode);
                assert_eq!(blended.map(f), blend_color(other, one, mode).map(f));
            }
        }
    }
    // By difference a color with itself is black, and the darker of two is the lesser.
    let (one, other) = (color(0.25, 0.5, 1.0), color(0.5, 0.5, 0.5));
    let black = blend_color(one, one, CompositeMode::Difference);
    assert_eq!(black.map(f), [0.0, 0.0, 0.0]);
    assert_eq!(blend_color(one, other, CompositeMode::Darken).map(f), [0.25, 0.5, 0.5]);
    assert_eq!(blend_color(one, other, CompositeMode::Exclusion).map(f), [0.5, 0.5, 0.5]);
}

#[test]
fn compositing_stays_in_range() {
    let modes = [
        CompositeMode::SrcOver,
        CompositeMode::SrcAtop,
        CompositeMode::Xor,
        CompositeMode::Plus,
        CompositeMode::Screen,
        CompositeMode::Overlay,
        CompositeMode::ColorDodge,
        CompositeMode::ColorBurn,
        CompositeMode::SoftLight,
        CompositeMode::Exclusion,
        CompositeMode::HslHue,
        CompositeMode::HslSaturation,
        CompositeMode::HslColor,
        CompositeMode::HslLuminosity,
        CompositeMode::Unknown,
    ];
    let samples = [0.0, 0.003, 0.5, 0.997, 1.0];
    for mode in modes {
        for a in samples {
            for b in samples {
                for c in samples {
                    let s = [n(a), n(b), n(c), n(b)];
                    let d = [n(c), n(c), n(a), n(a)];
                    for v in composite_pixel(s, d, mode) {
                        assert!((0.0..=1.0).contains(&f(v)), "{mode:?}");
                    }
                }
            }
        }
    }
}

#[test]
fn parameters_within_one_stay() {
    for mode in [Extend::Pad, Extend::Repeat, Extend::Reflect] {
        for t in [0.0f32, 1e-40, 0.1, 0.25, 0.5, 0.75, 0.9999999] {
            assert_eq!(f(apply_extend(n(t), mode)), t);
        }
    }
    assert_eq!(f(apply_extend(n(-3.5), Extend::Pad)), 0.0);
    assert_eq!(f(apply_extend(n(3.5), Extend::Pad)), 1.0);
}

#[test]
fn extended_parameters_recur() {
    for k in -40..40i16 {
        let t = f32::from(k) / 16.0;
        assert_eq!(
            f(apply_extend(n(t + 1.0), Extend::Repeat)),
            f(apply_extend(n(t), Extend::Repeat))
        );
        let folded = f(apply_extend(n(t), Extend::Reflect));
        assert_eq!(f(apply_extend(n(t + 2.0), Extend::Reflect)), folded);
        assert_eq!(f(apply_extend(n(-t), Extend::Reflect)), folded);
    }
    assert_eq!(f(apply_extend(n(2.25), Extend::Repeat)), 0.25);
    assert_eq!(f(apply_extend(n(1.25), Extend::Reflect)), 0.75);
}

#[test]
fn opaque_colors_blend() {
    let (src, dst) = ([n(0.5), n(0.25), n(1.0), n(1.0)], [n(0.5), n(0.5), n(0.25), n(1.0)]);
    let multiplied = composite_pixel(src, dst, CompositeMode::Multiply);
    assert_eq!(multiplied.map(f), [0.25, 0.125, 0.25, 1.0]);
    let screened = composite_pixel(src, dst, CompositeMode::Screen);
    assert_eq!(screened.map(f), [0.75, 0.625, 1.0, 1.0]);
}

#[test]
fn blends_with_one_side_show_it() {
    let none = [n(0.0); 4];
    let some = [n(0.25), n(0.5), n(0.75), n(0.6)];
    for mode in [
        CompositeMode::Multiply,
        CompositeMode::Screen,
        CompositeMode::ColorDodge,
        CompositeMode::SoftLight,
        CompositeMode::HslHue,
    ] {
        // Either zero stands for no alpha.
        for none in [none, [n(-0.0); 4]] {
            for shown in [composite_pixel(some, none, mode), composite_pixel(none, some, mode)] {
                for i in 0..4 {
                    assert!((f(shown[i]) - f(some[i])).abs() < 1e-6, "{mode:?}");
                }
            }
        }
    }
}

#[test]
fn inverses_undo_transforms() {
    let transforms = [
        [2.0f32, 0.5, -1.0, 3.0, 5.0, -2.0],
        [0.001, 0.0, 0.0, -0.001, 300.0, 700.0],
        [0.0, 1.0, -1.0, 0.0, 0.5, 0.25],
        [40.0, 39.0, 38.0, 37.5, -100.0, 90.0],
        [10000.0, 0.0, 0.0, -10000.0, 7.0, 9.0],
        [1e15, 0.0, 0.0, 1e15, 1e20, 3.0],
    ];
    let size = |c: f32| f64::from(c).abs();
    for t in transforms {
        let [xx, yx, xy, yy, dx, dy] = t.map(n);
        let t = PaintTransform { xx, yx, xy, yy, dx, dy };
        let inverse = invert_transform(&t).unwrap();
        let determinant = f64::from(f(xx)) * f64::from(f(yy)) - f64::from(f(xy)) * f64::from(f(yx));
        let m = [xx, yx, xy, yy].iter().fold(0.0, |m: f64, &c| m.max(size(f(c))));
        let q = size(f(dx)).max(size(f(dy)));
        let part = 512.0 / 16777216.0 / determinant.abs() * 1.01;
        for (x, y) in [(7.0f32, -3.0f32), (0.0, 0.0), (-512.5, 1000.0)] {
            let r = size(x).max(size(y)).max(1.0);
            let (a, b) = transform_point(&t, n(x), n(y));
            let (u, v) = transform_point(&inverse, a, b);
            let error = part * m * (m * r + q);
            assert!((f64::from(f(u)) - f64::from(x)).abs() <= error);
            assert!((f64::from(f(v)) - f64::from(y)).abs() <= error);
            let (a, b) = transform_point(&inverse, n(x), n(y));
            let (u, v) = transform_point(&t, a, b);
            let error = part * m * m * (r + q);
            assert!((f64::from(f(u)) - f64::from(x)).abs() <= error);
            assert!((f64::from(f(v)) - f64::from(y)).abs() <= error);
        }
    }
}

#[test]
fn points_lie_on_their_circles() {
    let circles = [
        ((0.0f32, 0.0f32), 1.0f32, (2.0f32, 0.0f32), 1.0f32),
        ((3.0, 4.0), 10.0, (5.0, -2.0), 40.0),
        ((100.0, 50.0), 0.0, (100.0, 50.0), 75.0),
        ((0.0, 0.0), 2.0, (1.0, 0.0), 0.5),
    ];
    let mut found = 0;
    for (c0, r0, c1, r1) in circles {
        for k in 0..60u8 {
            let (px, py) = (f32::from(k) * 1.75 - 30.0, f32::from(k % 7) * 9.5 - 20.0);
            let center = point(c0.0, c0.1);
            let end = point(c1.0, c1.1);
            let Some(t) = radial_t(center, n(r0), end, n(r1), point(px, py)) else {
                continue;
            };
            found += 1;
            let (t, dx, dy) = (f64::from(f(t)), f64::from(c1.0 - c0.0), f64::from(c1.1 - c0.1));
            let (dr, r0) = (f64::from(r1 - r0), f64::from(r0));
            let (px, py) = (f64::from(px - c0.0), f64::from(py - c0.1));
            let gap = (px - t * dx).powi(2) + (py - t * dy).powi(2) - (r0 + t * dr).powi(2);
            let d = dx.abs().max(dy.abs()).max(dr.abs());
            let q = px.abs().max(py.abs()).max(r0.abs()).max(1.0);
            let a = (dx * dx + dy * dy - dr * dr).abs();
            let slack = 2048.0 / 16777216.0 * (d * q * d * q + d * d * d * q * t.abs());
            assert!(gap.abs() * a <= slack * 1.01, "{t} {gap}");
        }
    }
    assert!(found > 60);
}

#[test]
fn near_parameters_look_up_neighbors() {
    let ramp: Vec<Rgba> = (0..=255u8).map(|r| Rgba { r, g: 0, b: 0, a: 255 }).collect();
    for mode in [Extend::Pad, Extend::Reflect] {
        for k in 0..2000u16 {
            let t = f32::from(k) / 500.0 - 2.0;
            let one = ramp_lookup(&ramp, apply_extend(n(t), mode));
            let other = ramp_lookup(&ramp, apply_extend(n(t + 1.0 / 1024.0), mode));
            assert!(one.r.abs_diff(other.r) <= 1);
        }
    }
}

#[test]
fn moved_colors_take_the_luminosity() {
    let steps = [0.0f32, 1e-7, 0.1, 0.3, 0.5, 0.7, 0.999, 1.0];
    for r in steps {
        for g in steps {
            for b in steps {
                for l in steps {
                    let lit = set_lum(color(r, g, b), n(l));
                    assert!((f(lum(lit)) - l).abs() <= 1.0 / 2048.0);
                    for v in lit {
                        assert!((-1.0 / 2048.0..=1.0 + 1.0 / 2048.0).contains(&f(v)));
                    }
                }
            }
        }
    }
    // In range after the move, it is only moved.
    let c = color(0.5, 0.25, 0.75);
    let d = n(0.5).sub(lum(c));
    assert_eq!(set_lum(c, n(0.5)), c.map(|v| v.add(d)));
}
