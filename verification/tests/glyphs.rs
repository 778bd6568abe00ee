use colr_paint::affine::PaintTransform;
use colr_paint::binary32::Binary32;
use colr_paint::blend::CompositeMode;
use colr_paint::canvas::Placement;
use colr_paint::color::{Color, Rgba};
use colr_paint::font::{begin_glyph, end_glyph, read_palette, CacheKey, WEIGHT_AXIS};
use colr_paint::frame::MAX_DIM;
use colr_paint::gradient::{Brush, ColorStop, Extend};
use colr_paint::painter::ColrV1Painter;
use colr_paint::path::{BoundingBox, Command, PathCollector, Vector};
use skrifa::color::{ColorGlyphFormat, ColorPainter};
use skrifa::instance::{Location, Size};
use skrifa::outline::{DrawSettings, OutlinePen};
use skrifa::{FontRef, GlyphId, MetadataProvider, Tag};
use swash::scale::image::{Content, Image};
use swash::scale::Source;
use swash::zeno;

fn n(x: f32) -> Binary32 {
    Binary32(x.to_bits())
}

fn f(x: Binary32) -> f32 {
    f32::from_bits(x.0)
}

// A font of seven glyphs over an em of 1000 units. Those of 'A' to 'E' are painted:
//   'A' solid red, 'B' linear red to blue from left to right, 'C' radial red (center) to
//   blue (edge), 'D' sweep red to blue, 'E' solid red clipped to the upper half of the em.
// The last two are the outlines that they are clipped to: the em, and its upper half.

const EM: u16 = 6;
const UPPER_HALF: u16 = 7;

struct Bytes(Vec<u8>);

impl Bytes {
    fn new() -> Self {
        Bytes(Vec::new())
    }

    fn u8(mut self, v: u8) -> Self {
        self.0.push(v);
        self
    }

    fn u16(mut self, v: u16) -> Self {
        self.0.extend(v.to_be_bytes());
        self
    }

    fn i16(self, v: i16) -> Self {
        self.u16(v as u16)
    }

    fn u24(mut self, v: u32) -> Self {
        self.0.extend(&v.to_be_bytes()[1..]);
        self
    }

    fn u32(mut self, v: u32) -> Self {
        self.0.extend(v.to_be_bytes());
        self
    }

    fn all(mut self, v: &[u8]) -> Self {
        self.0.extend(v);
        self
    }

    fn zeros(mut self, count: usize) -> Self {
        self.0.resize(self.0.len() + count, 0);
        self
    }
}

fn rectangle(x0: i16, y0: i16, x1: i16, y1: i16) -> Vec<u8> {
    let (w, h) = (x1 - x0, y1 - y0);
    let b = Bytes::new().i16(1).i16(x0).i16(y0).i16(x1).i16(y1);
    let b = b.u16(3).u16(0).all(&[1, 1, 1, 1]);
    let b = b.i16(x0).i16(0).i16(w).i16(0);
    b.i16(y0).i16(h).i16(0).i16(-h).zeros(2).0
}

const ONE: u16 = 0x4000;

fn red_to_blue() -> Vec<u8> {
    let b = Bytes::new().u8(0).u16(2);
    b.u16(0).u16(0).u16(ONE).u16(ONE).u16(1).u16(ONE).0
}

fn clipped_to(glyph: u16, paint: &[u8]) -> Vec<u8> {
    Bytes::new().u8(10).u24(6).u16(glyph).all(paint).0
}

fn solid(palette_index: u16) -> Vec<u8> {
    Bytes::new().u8(2).u16(palette_index).u16(ONE).0
}

fn linear() -> Vec<u8> {
    let b = Bytes::new().u8(4).u24(16).i16(0).i16(0).i16(1000).i16(0).i16(0).i16(1000);
    b.all(&red_to_blue()).0
}

fn radial() -> Vec<u8> {
    let b = Bytes::new().u8(6).u24(16).i16(500).i16(500).u16(0).i16(500).i16(500).u16(500);
    b.all(&red_to_blue()).0
}

fn sweep() -> Vec<u8> {
    // Angles are in half turns, less one: from 0 to 360 degrees.
    let b = Bytes::new().u8(8).u24(12).i16(500).i16(500).i16(-0x4000).i16(0x4000);
    b.all(&red_to_blue()).0
}

fn colr(paints: &[Vec<u8>], clip_all: bool) -> Vec<u8> {
    let mut records = Bytes::new().u32(paints.len() as u32);
    let mut at = 4 + 6 * paints.len();
    for (i, paint) in paints.iter().enumerate() {
        records = records.u16(i as u16 + 1).u32(at as u32);
        at += paint.len();
    }
    for paint in paints {
        records = records.all(paint);
    }
    let clip_list = if clip_all { 34 + records.0.len() as u32 } else { 0 };
    let b = Bytes::new().u16(1).u16(0).u32(0).u32(0).u16(0);
    let b = b.u32(34).u32(0).u32(clip_list).u32(0).u32(0).all(&records.0);
    if !clip_all {
        return b.0;
    }
    let b = b.u8(1).u32(1).u16(1).u16(paints.len() as u16).u24(12);
    b.u8(1).i16(0).i16(0).i16(1000).i16(1000).0
}

fn cpal() -> Vec<u8> {
    // Records are blue, green, red and alpha.
    let b = Bytes::new().u16(0).u16(2).u16(1).u16(2).u32(14).u16(0);
    b.all(&[0, 0, 255, 255]).all(&[255, 0, 0, 255]).0
}

fn cmap() -> Vec<u8> {
    let b = Bytes::new().u16(0).u16(1).u16(3).u16(1).u32(12);
    let b = b.u16(4).u16(32).u16(0).u16(4).u16(4).u16(1).u16(0);
    let b = b.u16('E' as u16).u16(0xffff).u16(0).u16('A' as u16).u16(0xffff);
    b.i16(1 - 'A' as i16).i16(1).u16(0).u16(0).0
}

fn font_of(colr: Vec<u8>, cpal: Vec<u8>) -> Vec<u8> {
    let glyphs = [
        Vec::new(),
        Vec::new(),
        Vec::new(),
        Vec::new(),
        Vec::new(),
        Vec::new(),
        rectangle(0, 0, 1000, 1000),
        rectangle(0, 500, 1000, 1000),
    ];
    let mut loca = Bytes::new().u32(0);
    let mut glyf = Bytes::new();
    for glyph in &glyphs {
        glyf = glyf.all(glyph);
        loca = loca.u32(glyf.0.len() as u32);
    }
    let count = glyphs.len() as u16;
    let head = Bytes::new().u32(0x0001_0000).u32(0x0001_0000).u32(0).u32(0x5f0f_3cf5);
    let head = head.u16(0).u16(1000).zeros(16).i16(0).i16(0).i16(1000).i16(1000);
    let head = head.u16(0).u16(8).i16(2).i16(1).i16(0);
    let hhea = Bytes::new().u32(0x0001_0000).i16(1000).i16(0).i16(0).u16(1000);
    let hhea = hhea.zeros(22).u16(count);
    let maxp = Bytes::new().u32(0x0001_0000).u16(count).u16(4).u16(1).zeros(4).u16(1);
    let maxp = maxp.zeros(16);
    let mut hmtx = Bytes::new();
    for _ in 0..count {
        hmtx = hmtx.u16(1000).i16(0);
    }
    let tables: [(&[u8; 4], Vec<u8>); 9] = [
        (b"COLR", colr),
        (b"CPAL", cpal),
        (b"cmap", cmap()),
        (b"glyf", glyf.0),
        (b"head", head.0),
        (b"hhea", hhea.0),
        (b"hmtx", hmtx.0),
        (b"loca", loca.0),
        (b"maxp", maxp.0),
    ];
    let mut font = Bytes::new().u32(0x0001_0000).u16(tables.len() as u16).u16(128).u16(3).u16(16);
    let mut at = 12 + 16 * tables.len();
    for (tag, data) in &tables {
        font = font.all(*tag).u32(0).u32(at as u32).u32(data.len() as u32);
        at += (data.len() + 3) / 4 * 4;
    }
    for (_, data) in &tables {
        let padding = (4 - data.len() % 4) % 4;
        font = font.all(data).zeros(padding);
    }
    font.0
}

fn paints() -> Vec<Vec<u8>> {
    vec![
        clipped_to(EM, &solid(0)),
        clipped_to(EM, &linear()),
        clipped_to(EM, &radial()),
        clipped_to(EM, &sweep()),
        clipped_to(UPPER_HALF, &solid(0)),
    ]
}

fn test_font() -> Vec<u8> {
    font_of(colr(&paints(), false), cpal())
}

// The paint graph of a glyph, handed on to the painter.

struct Pen(PathCollector);

impl OutlinePen for Pen {
    fn move_to(&mut self, x: f32, y: f32) {
        self.0.move_to(n(x), n(y));
    }

    fn line_to(&mut self, x: f32, y: f32) {
        self.0.line_to(n(x), n(y));
    }

    fn quad_to(&mut self, cx0: f32, cy0: f32, x: f32, y: f32) {
        self.0.quad_to(n(cx0), n(cy0), n(x), n(y));
    }

    fn curve_to(&mut self, cx0: f32, cy0: f32, cx1: f32, cy1: f32, x: f32, y: f32) {
        self.0.curve_to(n(cx0), n(cy0), n(cx1), n(cy1), n(x), n(y));
    }

    fn close(&mut self) {
        self.0.close();
    }
}

fn rasterized(commands: &[Command], t: Option<PaintTransform>) -> (Placement, Vec<u8>) {
    let v = |v: &Vector| zeno::Vector::new(f(v.x), f(v.y));
    let commands: Vec<zeno::Command> = commands
        .iter()
        .map(|c| match c {
            Command::MoveTo(p) => zeno::Command::MoveTo(v(p)),
            Command::LineTo(p) => zeno::Command::LineTo(v(p)),
            Command::QuadTo(c, p) => zeno::Command::QuadTo(v(c), v(p)),
            Command::CurveTo(c0, c1, p) => zeno::Command::CurveTo(v(c0), v(c1), v(p)),
            Command::Close => zeno::Command::Close,
        })
        .collect();
    let mut mask = zeno::Mask::new(&commands);
    mask.format(zeno::Format::Alpha);
    if let Some(t) = t {
        mask.transform(Some(zeno::Transform {
            xx: f(t.xx),
            yx: f(t.yx),
            xy: f(t.xy),
            yy: f(t.yy),
            x: f(t.dx),
            y: f(t.dy),
        }));
    }
    let (data, p) = mask.render();
    (Placement { left: p.left, top: p.top, width: p.width, height: p.height }, data)
}

struct Driver<'a> {
    painter: ColrV1Painter,
    font: FontRef<'a>,
    location: Location,
}

impl Driver<'_> {
    fn glyph_mask(&self, glyph_id: GlyphId) -> Option<(Placement, Vec<u8>)> {
        let outline = self.font.outline_glyphs().get(glyph_id)?;
        let mut pen = Pen(PathCollector::new());
        outline.draw(DrawSettings::unhinted(Size::unscaled(), &self.location), &mut pen).ok()?;
        let commands = pen.0.outline()?;
        Some(rasterized(&commands, Some(self.painter.current_transform())))
    }
}

fn extend(e: skrifa::color::Extend) -> Extend {
    match e {
        skrifa::color::Extend::Repeat => Extend::Repeat,
        skrifa::color::Extend::Reflect => Extend::Reflect,
        _ => Extend::Pad,
    }
}

fn stops(color_stops: &[skrifa::color::ColorStop]) -> Vec<ColorStop> {
    color_stops
        .iter()
        .map(|s| ColorStop {
            offset: n(s.offset),
            palette_index: s.palette_index,
            alpha: n(s.alpha),
        })
        .collect()
}

impl ColorPainter for Driver<'_> {
    fn push_transform(&mut self, t: skrifa::color::Transform) {
        self.painter.push_transform(PaintTransform {
            xx: n(t.xx),
            yx: n(t.yx),
            xy: n(t.xy),
            yy: n(t.yy),
            dx: n(t.dx),
            dy: n(t.dy),
        });
    }

    fn pop_transform(&mut self) {
        self.painter.pop_transform();
    }

    fn push_clip_glyph(&mut self, glyph_id: GlyphId) {
        let mask = self.glyph_mask(glyph_id);
        self.painter.push_clip_glyph(mask);
    }

    fn push_clip_box(&mut self, b: skrifa::raw::types::BoundingBox<f32>) {
        let commands = self.painter.clip_box_path(BoundingBox {
            x_min: n(b.x_min),
            y_min: n(b.y_min),
            x_max: n(b.x_max),
            y_max: n(b.y_max),
        });
        let (placement, mask) = rasterized(&commands, None);
        self.painter.push_clip_box(placement, mask);
    }

    fn pop_clip(&mut self) {
        self.painter.pop_clip();
    }

    fn fill(&mut self, brush: skrifa::color::Brush<'_>) {
        let atan2 = |y: Binary32, x: Binary32| n(f(y).atan2(f(x)));
        let v = |p: skrifa::raw::types::Point<f32>| Vector { x: n(p.x), y: n(p.y) };
        match brush {
            skrifa::color::Brush::Solid { palette_index, alpha } => {
                self.painter.fill(Brush::Solid { palette_index, alpha: n(alpha) }, &atan2);
            }
            skrifa::color::Brush::LinearGradient { p0, p1, color_stops, extend: e } => {
                let color_stops = &stops(color_stops);
                self.painter.fill(
                    Brush::LinearGradient { p0: v(p0), p1: v(p1), color_stops, extend: extend(e) },
                    &atan2,
                );
            }
            skrifa::color::Brush::RadialGradient { c0, r0, c1, r1, color_stops, extend: e } => {
                let color_stops = &stops(color_stops);
                self.painter.fill(
                    Brush::RadialGradient {
                        c0: v(c0),
                        r0: n(r0),
                        c1: v(c1),
                        r1: n(r1),
                        color_stops,
                        extend: extend(e),
                    },
                    &atan2,
                );
            }
            skrifa::color::Brush::SweepGradient {
                c0,
                start_angle,
                end_angle,
                color_stops,
                extend: e,
            } => {
                let color_stops = &stops(color_stops);
                self.painter.fill(
                    Brush::SweepGradient {
                        c0: v(c0),
                        start_angle: n(start_angle),
                        end_angle: n(end_angle),
                        color_stops,
                        extend: extend(e),
                    },
                    &atan2,
                );
            }
        }
    }

    fn push_layer(&mut self, mode: skrifa::color::CompositeMode) {
        let mode = match mode {
            skrifa::color::CompositeMode::SrcOver => CompositeMode::SrcOver,
            skrifa::color::CompositeMode::SrcIn => CompositeMode::SrcIn,
            _ => panic!("the test font has no such mode"),
        };
        self.painter.push_layer(mode);
    }

    fn pop_layer(&mut self) {
        self.painter.pop_layer();
    }
}

fn render(font_data: &[u8], key: &CacheKey, foreground: Color) -> Option<Image> {
    let (painter, frame) = begin_glyph(font_data, 0, key, foreground)?;
    let font = FontRef::from_index(font_data, 0).ok()?;
    let weight = f32::from(key.font_weight);
    let location = font.axes().location([(Tag::from_u32(WEIGHT_AXIS), weight)]);
    let glyph = font
        .color_glyphs()
        .get_with_format(GlyphId::new(u32::from(key.glyph_id)), ColorGlyphFormat::ColrV1)?;
    let mut driver = Driver { painter, font, location: location.clone() };
    glyph.paint(&location, &mut driver).ok()?;
    let image = end_glyph(driver.painter, &frame);
    Some(Image {
        source: Source::ColorOutline(0),
        content: Content::Color,
        placement: zeno::Placement {
            left: image.placement.left,
            top: image.placement.top,
            width: image.placement.width,
            height: image.placement.height,
        },
        data: image.data,
    })
}

fn glyph_id_for(font_data: &[u8], ch: char) -> u16 {
    let font = FontRef::from_index(font_data, 0).expect("valid test font");
    font.charmap().map(ch).expect("test font maps the char").to_u32() as u16
}

fn cache_key_for(glyph_id: u16, size: f32) -> CacheKey {
    CacheKey { glyph_id, font_size_bits: size.to_bits(), font_weight: 400 }
}

fn render_char(ch: char, size: f32) -> Image {
    let font = test_font();
    let key = cache_key_for(glyph_id_for(&font, ch), size);
    render(&font, &key, Color::rgb(0, 0, 0)).expect("COLR v1 glyph should render")
}

fn is_red(px: &[u8]) -> bool {
    px[3] > 200
        && px[0] > 150
        && i32::from(px[0]) > i32::from(px[1]) + 40
        && i32::from(px[0]) > i32::from(px[2]) + 40
}

fn is_blue(px: &[u8]) -> bool {
    px[3] > 200
        && px[2] > 150
        && i32::from(px[2]) > i32::from(px[0]) + 40
        && i32::from(px[2]) > i32::from(px[1]) + 40
}

#[test]
fn renders_colr_v1_image_shape() {
    let img = render_char('A', 64.0);
    assert_eq!(img.content, Content::Color);
    assert!(img.placement.width > 0 && img.placement.height > 0);
    assert!(img.placement.width <= MAX_DIM && img.placement.height <= MAX_DIM);
    assert_eq!(
        img.data.len(),
        (img.placement.width * img.placement.height * 4) as usize
    );
    assert!(img.data.chunks_exact(4).any(|p| p[3] > 0), "image must have visible pixels");
    // A plain (non-COLR-v1) glyph index returns None so the caller falls back.
    let ck0 = cache_key_for(0, 64.0);
    assert!(render(&test_font(), &ck0, Color::rgb(0, 0, 0)).is_none());
}

#[test]
fn solid_paint_uses_cpal_color() {
    let img = render_char('A', 64.0);
    let visible = img.data.chunks_exact(4).filter(|p| p[3] > 200).count();
    let red = img.data.chunks_exact(4).filter(|p| is_red(p)).count();
    let black = img
        .data
        .chunks_exact(4)
        .filter(|p| p[3] > 200 && p[0] < 40 && p[1] < 40 && p[2] < 40)
        .count();
    assert!(visible > 0);
    assert!(red * 2 > visible, "most opaque pixels should be CPAL red");
    assert!(black * 4 < visible, "must not render as a black mask");
}

#[test]
fn linear_gradient_red_to_blue_left_to_right() {
    let img = render_char('B', 64.0);
    let w = i32::try_from(img.placement.width).expect("width fits i32");
    let (mut rx, mut rn, mut bx, mut bn) = (0i64, 0i64, 0i64, 0i64);
    for (i, px) in img.data.chunks_exact(4).enumerate() {
        let x = i64::from(i as i32 % w);
        if is_red(px) {
            rx += x;
            rn += 1;
        }
        if is_blue(px) {
            bx += x;
            bn += 1;
        }
    }
    assert!(rn > 0 && bn > 0, "linear gradient needs both endpoints");
    let (rmean, bmean) = (rx as f64 / rn as f64, bx as f64 / bn as f64);
    assert!(rmean < bmean, "red ({rmean}) should be left of blue ({bmean})");
}

#[test]
fn radial_gradient_red_center_blue_edge() {
    let img = render_char('C', 64.0);
    let w = i32::try_from(img.placement.width).expect("width fits i32");
    let h = i32::try_from(img.placement.height).expect("height fits i32");
    let (cx, cy) = (f64::from(w) / 2.0, f64::from(h) / 2.0);
    let dist = |i: i32| {
        let x = f64::from(i % w);
        let y = f64::from(i / w);
        ((x - cx).powi(2) + (y - cy).powi(2)).sqrt()
    };
    let (mut rd, mut rn, mut bd, mut bn) = (0f64, 0f64, 0f64, 0f64);
    for (i, px) in img.data.chunks_exact(4).enumerate() {
        if is_red(px) {
            rd += dist(i as i32);
            rn += 1.0;
        }
        if is_blue(px) {
            bd += dist(i as i32);
            bn += 1.0;
        }
    }
    assert!(rn > 0.0 && bn > 0.0, "radial gradient needs both endpoints");
    assert!(rd / rn < bd / bn, "red should be nearer center than blue");
}

#[test]
fn sweep_gradient_is_angular_not_flat() {
    // A sweep contains both endpoint colors at different angles.
    let img = render_char('D', 64.0);
    let red = img.data.chunks_exact(4).filter(|p| is_red(p)).count();
    let blue = img.data.chunks_exact(4).filter(|p| is_blue(p)).count();
    assert!(
        red > 0 && blue > 0,
        "sweep must contain both red and blue (red={red} blue={blue})"
    );
}

#[test]
fn clip_mask_y_orientation() {
    // 'E' is solid red clipped to the TOP half of the em (font y 500..1000).
    // After the Y-flip into pixel space that is the top of the image (small y).
    // A vertical flip in the clip-mask blit would push the red to the bottom or
    // off-buffer, so this guards the placement.top handling in blit_mask_to_full.
    let img = render_char('E', 64.0);
    let w = i32::try_from(img.placement.width).expect("width fits i32");
    let h = i32::try_from(img.placement.height).expect("height fits i32");
    let half = h / 2;
    let (mut top, mut bot) = (0i64, 0i64);
    for (i, px) in img.data.chunks_exact(4).enumerate() {
        if is_red(px) {
            if i as i32 / w < half {
                top += 1;
            } else {
                bot += 1;
            }
        }
    }
    assert!(top > 0, "top-half clip must paint red in the top of the image");
    assert!(
        top > bot * 4,
        "red should be concentrated in the top half (top={top} bot={bot})"
    );
}

#[test]
fn extreme_font_size_returns_none_not_panic() {
    // A pathological font size must not overflow/panic the size computation.
    let font = test_font();
    let ck = cache_key_for(glyph_id_for(&font, 'A'), 1.0e10);
    assert!(render(&font, &ck, Color::rgb(0, 0, 0)).is_none());
}

#[test]
fn weights_lie_on_their_axis() {
    assert_eq!(WEIGHT_AXIS.to_be_bytes(), *b"wght");
}

#[test]
fn palette_comes_in_the_order_of_the_records() {
    let red = Rgba { r: 255, g: 0, b: 0, a: 255 };
    let blue = Rgba { r: 0, g: 0, b: 255, a: 255 };
    assert_eq!(read_palette(&test_font(), 0, 0), vec![red, blue]);
    // An unknown palette begins at the first record.
    assert_eq!(read_palette(&test_font(), 0, 7), vec![red, blue]);
    // There is one face only, and what is not a font has no palette.
    assert!(read_palette(&test_font(), 1, 0).is_empty());
    assert!(read_palette(&[1, 2, 3], 0, 0).is_empty());
}

#[test]
fn palette_entries_without_a_record_are_black() {
    // The second palette begins at the last of three records and has two entries.
    let b = Bytes::new().u16(0).u16(2).u16(2).u16(3).u32(16).u16(0).u16(2);
    let b = b.all(&[1, 2, 3, 4]).all(&[5, 6, 7, 8]).all(&[9, 10, 11, 12]);
    let font = font_of(colr(&paints(), false), b.0);
    let last = Rgba { r: 11, g: 10, b: 9, a: 12 };
    assert_eq!(read_palette(&font, 0, 1), vec![last, Rgba::black()]);
}

#[test]
fn frame_without_a_clip_box_spans_the_em() {
    let font = test_font();
    let key = cache_key_for(1, 50.0);
    let (painter, frame) = begin_glyph(&font, 0, &key, Color::rgb(0, 0, 0)).unwrap();
    // The em is 50 pixels wide and the font 50 high, with a pixel to spare all round.
    assert_eq!((frame.width, frame.height), (52, 52));
    assert_eq!((frame.x_min, frame.y_max), (0, 50));
    let t = painter.current_transform();
    assert_eq!((f(t.xx), f(t.yy), f(t.dx), f(t.dy)), (0.05, -0.05, 1.0, 51.0));
    assert_eq!((frame.placement_left(), frame.placement_top()), (-1, 51));
}

#[test]
fn frame_follows_the_clip_box() {
    let font = font_of(colr(&paints(), true), cpal());
    let key = cache_key_for(2, 20.0);
    let (_, frame) = begin_glyph(&font, 0, &key, Color::rgb(0, 0, 0)).unwrap();
    assert_eq!((frame.width, frame.height), (22, 22));
    // The clip box is painted through: the picture is the same with and without it.
    let with = render(&font, &key, Color::rgb(0, 0, 0)).unwrap();
    let without = render(&test_font(), &key, Color::rgb(0, 0, 0)).unwrap();
    assert_eq!(with.data, without.data);
}

#[test]
fn no_frame_for_nothing() {
    let font = test_font();
    let black = Color::rgb(0, 0, 0);
    for size in [0.0, -5.0, f32::NAN, f32::INFINITY, 8191.0] {
        assert!(begin_glyph(&font, 0, &cache_key_for(1, size), black).is_none());
    }
    assert!(begin_glyph(&font, 1, &cache_key_for(1, 8.0), black).is_none());
    assert!(begin_glyph(&[], 0, &cache_key_for(1, 8.0), black).is_none());
    assert!(begin_glyph(&font, 0, &cache_key_for(6, 8.0), black).is_none());
    let (_, frame) = begin_glyph(&font, 0, &cache_key_for(1, 8190.0), black).unwrap();
    assert_eq!((frame.width, frame.height), (MAX_DIM, MAX_DIM));
}

#[test]
fn text_color_stands_at_its_own_index() {
    let font = font_of(colr(&[clipped_to(EM, &solid(0xffff))], false), cpal());
    let green = Color { r: 0, g: 200, b: 0, a: 255 };
    let img = render(&font, &cache_key_for(1, 16.0), green).unwrap();
    let center = (9 * 18 + 9) * 4;
    assert_eq!(img.data[center..center + 4], [0, 200, 0, 255]);
    // The padding stays empty.
    assert_eq!(img.data[0..4], [0, 0, 0, 0]);
}

#[test]
fn renderings_follow_the_key() {
    let font = test_font();
    for glyph_id in 1..=5 {
        let key = cache_key_for(glyph_id, 24.0);
        let same = CacheKey { glyph_id, font_size_bits: 24.0f32.to_bits(), font_weight: 400 };
        let img = render(&font, &key, Color::rgb(0, 0, 0)).unwrap();
        assert_eq!(img.data, render(&font, &same, Color::rgb(0, 0, 0)).unwrap().data);
        // None of the glyphs asks for the text color.
        assert_eq!(img.data, render(&font, &key, Color::rgb(9, 200, 30)).unwrap().data);
    }
    // One that does shows it.
    let font = font_of(colr(&[clipped_to(EM, &solid(0xffff))], false), cpal());
    let key = cache_key_for(1, 24.0);
    let img = render(&font, &key, Color::rgb(0, 0, 0)).unwrap();
    assert_ne!(img.data, render(&font, &key, Color::rgb(9, 200, 30)).unwrap().data);
}
