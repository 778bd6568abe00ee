use colr_paint::affine::{invert_transform, transform_point, PaintTransform};
use colr_paint::binary32::Binary32;
use colr_paint::blend::CompositeMode;
use colr_paint::color::{mul_u8, src_over, unpremultiply_rgba};
use colr_paint::composite::{composite_buffers, composite_pixel};
use colr_paint::gradient::{
    apply_extend, build_ramp, radial_t, ramp_lookup, sample_color_line, Extend, ResolvedStop,
    RAMP_LEN,
};

fn n(x: f32) -> Binary32 {
    Binary32(x.to_bits())
}

fn f(x: Binary32) -> f32 {
    f32::from_bits(x.0)
}

fn point(x: f32, y: f32) -> (Binary32, Binary32) {
    (n(x), n(y))
}

fn transform(xx: f32, yx: f32, xy: f32, yy: f32, dx: f32, dy: f32) -> PaintTransform {
    PaintTransform { xx: n(xx), yx: n(yx), xy: n(xy), yy: n(yy), dx: n(dx), dy: n(dy) }
}

fn stop(offset: f32, lr: f32, lg: f32, lb: f32, a: f32) -> ResolvedStop {
    ResolvedStop { offset: n(offset), lr: n(lr), lg: n(lg), lb: n(lb), a: n(a) }
}

fn extended(t: f32, extend: Extend) -> f32 {
    f(apply_extend(n(t), extend))
}

fn composited(src: [f32; 4], dst: [f32; 4], mode: CompositeMode) -> [f32; 4] {
    composite_pixel(src.map(n), dst.map(n), mode).map(f)
}

#[test]
fn mul_u8_fractional() {
    assert_eq!(mul_u8(255, 255), 255);
    assert_eq!(mul_u8(255, 0), 0);
    assert_eq!(mul_u8(0, 255), 0);
    assert_eq!(mul_u8(128, 255), 128);
    assert_eq!(mul_u8(128, 128), 64);
}

#[test]
fn src_over_premultiplied() {
    // Opaque source replaces destination.
    let mut dst = [10, 20, 30, 40];
    src_over(&mut dst, 100, 110, 120, 255);
    assert_eq!(dst, [100, 110, 120, 255]);

    // Fully transparent source leaves destination untouched.
    let mut dst = [10, 20, 30, 40];
    src_over(&mut dst, 200, 200, 200, 0);
    assert_eq!(dst, [10, 20, 30, 40]);

    // Half-opaque red (premultiplied r=128, a=128) over opaque black.
    let mut dst = [0, 0, 0, 255];
    src_over(&mut dst, 128, 0, 0, 128);
    assert_eq!(dst[0], 128);
    assert_eq!(dst[3], 255);
}

#[test]
fn unpremultiply_round_trips_straight_alpha() {
    let mut buf = [64u8, 0, 0, 128];
    unpremultiply_rgba(&mut buf);
    assert_eq!(buf, [128, 0, 0, 128]);

    let mut buf = [200u8, 100, 50, 255];
    unpremultiply_rgba(&mut buf);
    assert_eq!(buf, [200, 100, 50, 255]);

    let mut buf = [99u8, 99, 99, 0];
    unpremultiply_rgba(&mut buf);
    assert_eq!(buf, [0, 0, 0, 0]);

    let mut buf = [200u8, 0, 0, 100];
    unpremultiply_rgba(&mut buf);
    assert_eq!(buf[0], 255);
}

#[test]
fn apply_extend_modes() {
    assert!((extended(-0.5, Extend::Pad) - 0.0).abs() < 1e-6);
    assert!((extended(1.5, Extend::Pad) - 1.0).abs() < 1e-6);
    assert!((extended(1.25, Extend::Repeat) - 0.25).abs() < 1e-6);
    assert!((extended(-0.25, Extend::Repeat) - 0.75).abs() < 1e-6);
    assert!((extended(1.25, Extend::Reflect) - 0.75).abs() < 1e-6);
    assert!((extended(2.5, Extend::Reflect) - 0.5).abs() < 1e-6);
}

#[test]
fn transform_point_and_inverse() {
    let id = transform(1.0, 0.0, 0.0, 1.0, 0.0, 0.0);
    let (x, y) = transform_point(&id, n(3.0), n(4.0));
    assert_eq!((f(x), f(y)), (3.0, 4.0));

    // Non-trivial: scale + shear + rotation-ish + translation.
    let t = transform(2.0, 0.5, -1.0, 3.0, 5.0, -2.0);
    let inv = invert_transform(&t).expect("invertible");
    // inverse(forward(p)) ~= p
    let (px, py) = (7.0f32, -3.0f32);
    let (fx, fy) = transform_point(&t, n(px), n(py));
    let (bx, by) = transform_point(&inv, fx, fy);
    assert!((f(bx) - px).abs() < 1e-3 && (f(by) - py).abs() < 1e-3);

    // Singular transform is rejected.
    let singular = transform(1.0, 2.0, 2.0, 4.0, 0.0, 0.0);
    assert!(invert_transform(&singular).is_none());
}

#[test]
fn radial_t_concentric() {
    // Concentric gradient r0=0..r1=10 centered at origin: a point at distance d
    // maps to t = d / 10.
    let t = f(radial_t(point(0.0, 0.0), n(0.0), point(0.0, 0.0), n(10.0), point(5.0, 0.0))
        .expect("has a valid root"));
    assert!((t - 0.5).abs() < 1e-4, "t = {t}");
    let t = f(radial_t(point(0.0, 0.0), n(0.0), point(0.0, 0.0), n(10.0), point(0.0, 8.0))
        .expect("has a valid root"));
    assert!((t - 0.8).abs() < 1e-4, "t = {t}");

    // Fully degenerate (identical circles) yields no valid root.
    assert!(
        radial_t(point(0.0, 0.0), n(5.0), point(0.0, 0.0), n(5.0), point(3.0, 4.0)).is_none()
    );
}

#[test]
fn color_line_interpolation_is_premultiplied_srgb() {
    // Opaque red -> opaque blue, interpolated in premultiplied sRGB: endpoints
    // exact, midpoint the sRGB average (~128) of each channel.
    let red = stop(0.0, 1.0, 0.0, 0.0, 1.0);
    let blue = stop(1.0, 0.0, 0.0, 1.0, 1.0);
    let stops = [red, blue];
    let lo = sample_color_line(&stops, n(0.0));
    assert_eq!((lo.r, lo.g, lo.b, lo.a), (255, 0, 0, 255));
    let hi = sample_color_line(&stops, n(1.0));
    assert_eq!((hi.r, hi.g, hi.b, hi.a), (0, 0, 255, 255));
    let mid = sample_color_line(&stops, n(0.5));
    assert_eq!(mid.r, mid.b);
    assert!(
        (i32::from(mid.r) - 128).abs() <= 1,
        "sRGB midpoint averages to ~128: {}",
        mid.r
    );

    // Opaque red -> transparent: premultiplied interpolation keeps full red hue
    // at the midpoint (no dark fringing); only alpha drops.
    let transparent = stop(1.0, 0.0, 0.0, 0.0, 0.0);
    let mid = sample_color_line(&[red, transparent], n(0.5));
    assert_eq!(mid.r, 255, "no fringing: red stays saturated");
    assert!((i32::from(mid.a) - 128).abs() <= 1, "alpha halves: {}", mid.a);
}

#[test]
fn ramp_lookup_endpoints() {
    let red = stop(0.0, 1.0, 0.0, 0.0, 1.0);
    let blue = stop(1.0, 0.0, 0.0, 1.0, 1.0);
    let ramp = build_ramp(&[red, blue]);
    assert_eq!(ramp.len(), RAMP_LEN);
    let lo = ramp_lookup(&ramp, n(0.0));
    assert_eq!((lo.r, lo.b), (255, 0));
    let hi = ramp_lookup(&ramp, n(1.0));
    assert_eq!((hi.r, hi.b), (0, 255));
    // Out-of-range t is clamped.
    assert_eq!(ramp_lookup(&ramp, n(-1.0)), lo);
    assert_eq!(ramp_lookup(&ramp, n(2.0)), hi);
}

#[test]
fn composite_pixel_porter_duff() {
    let red = [1.0, 0.0, 0.0, 1.0];
    let blue = [0.0, 0.0, 1.0, 1.0];

    // Clear -> transparent.
    assert_eq!(composited(red, blue, CompositeMode::Clear), [0.0; 4]);
    // Src -> source.
    assert_eq!(composited(red, blue, CompositeMode::Src), red);
    // Dest -> backdrop.
    assert_eq!(composited(red, blue, CompositeMode::Dest), blue);
    // SrcOver of opaque source -> source.
    let o = composited(red, blue, CompositeMode::SrcOver);
    assert!((o[0] - 1.0).abs() < 1e-4 && o[3] > 0.99);

    // DestOut with opaque source erases the backdrop.
    let o = composited(red, blue, CompositeMode::DestOut);
    assert!(o[3] < 1e-4, "DestOut erases dest under opaque src");

    // SrcIn with transparent backdrop -> nothing.
    let o = composited(red, [0.0, 0.0, 0.0, 0.0], CompositeMode::SrcIn);
    assert!(o[3] < 1e-4);
}

#[test]
fn composite_pixel_blend_modes() {
    // Multiply of two opaque mid-grays -> darker (0.5*0.5 = 0.25).
    let g = [0.5, 0.5, 0.5, 1.0];
    let o = composited(g, g, CompositeMode::Multiply);
    assert!((o[0] - 0.25).abs() < 1e-3, "multiply: {}", o[0]);

    // Screen of two opaque mid-grays -> lighter (1-(0.5)(0.5)=0.75).
    let o = composited(g, g, CompositeMode::Screen);
    assert!((o[0] - 0.75).abs() < 1e-3, "screen: {}", o[0]);

    // Darken / Lighten pick min / max per channel.
    let a = [0.2, 0.8, 0.5, 1.0];
    let b = [0.6, 0.3, 0.5, 1.0];
    let dk = composited(b, a, CompositeMode::Darken);
    assert!((dk[0] - 0.2).abs() < 1e-3 && (dk[1] - 0.3).abs() < 1e-3);
    let lt = composited(b, a, CompositeMode::Lighten);
    assert!((lt[0] - 0.6).abs() < 1e-3 && (lt[1] - 0.8).abs() < 1e-3);

    // By color: the result is opaque and its channels are in range.
    let o = composited([0.9, 0.1, 0.1, 1.0], [0.2, 0.2, 0.8, 1.0], CompositeMode::HslColor);
    assert!(o[3] > 0.99 && o.iter().take(3).all(|&c| (0.0..=1.0).contains(&c)));
}

#[test]
fn composite_buffers_modes() {
    // SrcOver fast path: transparent src -> backdrop shows through.
    let backdrop = [10u8, 20, 30, 255];
    let mut src = [0u8, 0, 0, 0];
    composite_buffers(&mut src, &backdrop, CompositeMode::SrcOver);
    assert_eq!(src, backdrop);

    // Opaque src over anything -> src kept.
    let backdrop = [10u8, 20, 30, 255];
    let mut src = [100u8, 110, 120, 255];
    composite_buffers(&mut src, &backdrop, CompositeMode::SrcOver);
    assert_eq!(src, [100, 110, 120, 255]);

    // Clear wipes everything.
    let backdrop = [10u8, 20, 30, 255];
    let mut src = [100u8, 110, 120, 255];
    composite_buffers(&mut src, &backdrop, CompositeMode::Clear);
    assert_eq!(src, [0, 0, 0, 0]);

    // DestOver: opaque backdrop wins where it already covers.
    let backdrop = [255u8, 0, 0, 255]; // opaque red (premult)
    let mut src = [0u8, 0, 255, 255]; // opaque blue (premult)
    composite_buffers(&mut src, &backdrop, CompositeMode::DestOver);
    assert_eq!(src, [255, 0, 0, 255], "backdrop shows over fully-covered dest");
}
