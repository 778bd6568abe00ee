//! What painting reads of a font.
use crate::binary32::Binary32;
use crate::canvas::Canvas;
use crate::color::{straight_pixels, Color, Rgba};
use crate::frame::{frame_of, FaceMetrics, Frame};
use crate::painter::{ColorImage, ColrV1Painter};
use crate::path::BoundingBox;
use skrifa::{FontRef, GlyphId, MetadataProvider, Tag};
use skrifa::color::ColorGlyphFormat;
use skrifa::instance::Size;
use skrifa::raw::TableProvider;
use skrifa::setting::VariationSetting;
use vstd::prelude::*;

verus! {

/// A glyph of a font at a size and a weight.
#[derive(Copy, Clone, Debug, PartialEq, Eq, Structural)]
pub struct CacheKey {
    pub glyph_id: u16,
    /// The bits of the size in pixels.
    pub font_size_bits: u32,
    pub font_weight: u16,
}

/// The tag of the weight axis, the four letters `wght`.
pub const WEIGHT_AXIS: u32 = 0x7767_6874;

/// The color records of the palette table of a face, as red, green, blue and alpha; none
/// where the data holds no such face or the face no such records.
pub uninterp spec fn face_color_records(font_data: Seq<u8>, face_index: u32) -> Option<
    Seq<(u8, u8, u8, u8)>,
>;

/// The number of entries of each palette of a face.
pub uninterp spec fn face_palette_entries(font_data: Seq<u8>, face_index: u32) -> Option<u16>;

/// The color record at which each palette of a face begins.
pub uninterp spec fn face_palette_starts(font_data: Seq<u8>, face_index: u32) -> Option<Seq<u16>>;

/// Whether a glyph of a face has a paint graph.
pub uninterp spec fn face_has_paint_graph(
    font_data: Seq<u8>,
    face_index: u32,
    glyph_id: u16,
) -> bool;

/// The units to the em of a face at a place on an axis, and the bits of its ascent and descent
/// in font units; none where the data holds no such face.
pub uninterp spec fn face_metrics(
    font_data: Seq<u8>,
    face_index: u32,
    axis: u32,
    place: u16,
) -> Option<(u16, u32, u32)>;

/// The bits of the sides of the clip box of a glyph of a face at a place on an axis, in font
/// units: left, bottom, right and top.
pub uninterp spec fn face_clip_box(
    font_data: Seq<u8>,
    face_index: u32,
    glyph_id: u16,
    axis: u32,
    place: u16,
) -> Option<(u32, u32, u32, u32)>;

/// Calls `Cpal::color_records_array` of the palette table of the face, and hands out the
/// channels of each record in the order of the records. Its result is named, and depends on
/// the data of the font and the index of the face alone.
#[verifier::external_body]
fn color_records(font_data: &[u8], face_index: u32) -> (r: Option<Vec<(u8, u8, u8, u8)>>)
    ensures
        match r {
            Some(records) => face_color_records(font_data@, face_index) == Some(records@),
            None => face_color_records(font_data@, face_index) is None,
        },
{
    let cpal = FontRef::from_index(font_data, face_index).ok()?.cpal().ok()?;
    let records = cpal.color_records_array()?.ok()?;
    Some(records.iter().map(|r| (r.red(), r.green(), r.blue(), r.alpha())).collect())
}

/// Calls `Cpal::num_palette_entries` of the palette table of the face; there is none without
/// the table. Its result is named, and depends on the data of the font and the index of the
/// face alone.
#[verifier::external_body]
fn palette_entries(font_data: &[u8], face_index: u32) -> (r: Option<u16>)
    ensures
        r == face_palette_entries(font_data@, face_index),
{
    let cpal = FontRef::from_index(font_data, face_index).ok()?.cpal().ok()?;
    Some(cpal.num_palette_entries())
}

/// Calls `Cpal::color_record_indices` of the palette table of the face, and hands out the
/// indices in their order; there are none without the table. Its result is named, and depends on
/// the data of the font and the index of the face alone.
#[verifier::external_body]
fn palette_starts(font_data: &[u8], face_index: u32) -> (r: Option<Vec<u16>>)
    ensures
        match r {
            Some(starts) => face_palette_starts(font_data@, face_index) == Some(starts@),
            None => face_palette_starts(font_data@, face_index) is None,
        },
{
    let cpal = FontRef::from_index(font_data, face_index).ok()?.cpal().ok()?;
    Some(cpal.color_record_indices().iter().map(|index| index.get()).collect())
}

/// Calls `ColorGlyphCollection::get_with_format` for the paint graph format. Whether it finds
/// the glyph is named, and depends on the data of the font, the index of the face and the glyph
/// alone.
#[verifier::external_body]
fn has_paint_graph(font_data: &[u8], face_index: u32, glyph_id: u16) -> (r: bool)
    ensures
        r == face_has_paint_graph(font_data@, face_index, glyph_id),
{
    match FontRef::from_index(font_data, face_index) {
        Ok(font) => font.color_glyphs().get_with_format(
            GlyphId::new(glyph_id as u32),
            ColorGlyphFormat::ColrV1,
        ).is_some(),
        Err(_) => false,
    }
}

/// Calls `MetadataProvider::metrics` for the unscaled size, at the place on the axis of that tag
/// and the default on the others. The units to the em and the bits of ascent and descent are
/// named, and depend on the data of the font, the index of the face, the tag and the place alone.
#[verifier::external_body]
fn metrics(font_data: &[u8], face_index: u32, axis: u32, place: u16) -> (r: Option<
    (u16, u32, u32),
>)
    ensures
        r == face_metrics(font_data@, face_index, axis, place),
{
    let font = FontRef::from_index(font_data, face_index).ok()?;
    let location = font.axes().location([VariationSetting::new(Tag::from_u32(axis), place.into())]);
    let metrics = font.metrics(Size::unscaled(), &location);
    Some((metrics.units_per_em, metrics.ascent.to_bits(), metrics.descent.to_bits()))
}

/// Calls `ColorGlyph::bounding_box` of the paint graph of the glyph for the unscaled size, at the
/// place on the axis of that tag and the default on the others. The bits of the sides are named,
/// and depend on the data of the font, the index of the face, the glyph, the tag and the place
/// alone.
#[verifier::external_body]
fn clip_box(font_data: &[u8], face_index: u32, glyph_id: u16, axis: u32, place: u16) -> (r: Option<
    (u32, u32, u32, u32),
>)
    ensures
        r == face_clip_box(font_data@, face_index, glyph_id, axis, place),
{
    let font = FontRef::from_index(font_data, face_index).ok()?;
    let id = GlyphId::new(glyph_id as u32);
    let glyph = font.color_glyphs().get_with_format(id, ColorGlyphFormat::ColrV1)?;
    let location = font.axes().location([VariationSetting::new(Tag::from_u32(axis), place.into())]);
    let b = glyph.bounding_box(&location, Size::unscaled())?;
    Some((b.x_min.to_bits(), b.y_min.to_bits(), b.x_max.to_bits(), b.y_max.to_bits()))
}

/// The first color record of a palette. A palette whose first record is not told begins at the
/// first of all.
pub open spec fn first_record(starts: Option<Seq<u16>>, palette_index: u16) -> int {
    match starts {
        Some(starts) if palette_index < starts.len() => starts[palette_index as int] as int,
        _ => 0,
    }
}

/// The colors of a palette: as many records as it has entries, from its first one on. Black
/// stands for a record that there is not, and without records there is no palette.
pub open spec fn palette_of(
    records: Option<Seq<(u8, u8, u8, u8)>>,
    entries: Option<u16>,
    starts: Option<Seq<u16>>,
    palette_index: u16,
) -> Seq<Rgba> {
    match (records, entries) {
        (Some(records), Some(entries)) => {
            let first = first_record(starts, palette_index);
            Seq::new(
                entries as nat,
                |i: int|
                    if first + i < records.len() {
                        let (r, g, b, a) = records[first + i];
                        Rgba { r, g, b, a }
                    } else {
                        Rgba::black()
                    },
            )
        },
        _ => Seq::empty(),
    }
}

/// Takes the colors of a palette out of the color records.
pub fn palette_colors(
    records: Option<Vec<(u8, u8, u8, u8)>>,
    entries: Option<u16>,
    starts: Option<Vec<u16>>,
    palette_index: u16,
) -> (palette: Vec<Rgba>)
    ensures
        palette@ == palette_of(
            match records {
                Some(records) => Some(records@),
                None => None,
            },
            entries,
            match starts {
                Some(starts) => Some(starts@),
                None => None,
            },
            palette_index,
        ),
{
    let ghost told: Option<Seq<u16>> = match &starts {
        Some(starts) => Some(starts@),
        None => None,
    };
    let first: usize = match &starts {
        Some(starts) => if (palette_index as usize) < starts.len() {
            starts[palette_index as usize] as usize
        } else {
            0
        },
        None => 0,
    };
    let mut palette: Vec<Rgba> = Vec::new();
    match (records, entries) {
        (Some(records), Some(entries)) => {
            let ghost whole = palette_of(Some(records@), Some(entries), told, palette_index);
            let mut i: usize = 0;
            while i < entries as usize
                invariant
                    i <= entries,
                    first <= u16::MAX,
                    first == first_record(told, palette_index),
                    whole == palette_of(Some(records@), Some(entries), told, palette_index),
                    palette@.len() == i,
                    forall|j: int| 0 <= j < i ==> #[trigger] palette@[j] == whole[j],
                decreases entries - i,
            {
                if first + i < records.len() {
                    let (r, g, b, a) = records[first + i];
                    palette.push(Rgba { r, g, b, a });
                } else {
                    palette.push(Rgba::black());
                }
                i = i + 1;
            }
            assert(palette@ =~= whole);
        },
        _ => {},
    }
    palette
}

/// The colors of a palette of a face.
pub open spec fn face_palette(
    font_data: Seq<u8>,
    face_index: u32,
    palette_index: u16,
) -> Seq<Rgba> {
    palette_of(
        face_color_records(font_data, face_index),
        face_palette_entries(font_data, face_index),
        face_palette_starts(font_data, face_index),
        palette_index,
    )
}

/// Reads the colors of a palette of a face.
pub fn read_palette(font_data: &[u8], face_index: u32, palette_index: u16) -> (palette: Vec<Rgba>)
    ensures
        palette@ == face_palette(font_data@, face_index, palette_index),
{
    let records = color_records(font_data, face_index);
    let entries = palette_entries(font_data, face_index);
    let starts = palette_starts(font_data, face_index);
    palette_colors(records, entries, starts, palette_index)
}

/// The canvas of a glyph, by what the font tells of it. There is none for a glyph without
/// a paint graph or a font without measures.
pub open spec fn told_frame(
    paint_graph: bool,
    measures: Option<(u16, u32, u32)>,
    clip_box: Option<(u32, u32, u32, u32)>,
    font_size: Binary32,
) -> Option<Frame> {
    match measures {
        Some((units_per_em, ascent, descent)) if paint_graph => frame_of(
            FaceMetrics {
                units_per_em,
                ascent: Binary32(ascent),
                descent: Binary32(descent),
            },
            font_size,
            match clip_box {
                Some((x_min, y_min, x_max, y_max)) => Some(
                    BoundingBox {
                        x_min: Binary32(x_min),
                        y_min: Binary32(y_min),
                        x_max: Binary32(x_max),
                        y_max: Binary32(y_max),
                    },
                ),
                None => None,
            },
        ),
        _ => None,
    }
}

/// Lays out the canvas of a glyph, by what the font tells of it.
pub fn frame_from(
    paint_graph: bool,
    measures: Option<(u16, u32, u32)>,
    clip_box: Option<(u32, u32, u32, u32)>,
    font_size: Binary32,
) -> (r: Option<Frame>)
    ensures
        r == told_frame(paint_graph, measures, clip_box, font_size),
        r matches Some(frame) ==> frame.wf(),
{
    if !paint_graph {
        return None;
    }
    match measures {
        Some((units_per_em, ascent, descent)) => {
            let metrics = FaceMetrics {
                units_per_em,
                ascent: Binary32(ascent),
                descent: Binary32(descent),
            };
            let clip_box = match clip_box {
                Some((x_min, y_min, x_max, y_max)) => Some(
                    BoundingBox {
                        x_min: Binary32(x_min),
                        y_min: Binary32(y_min),
                        x_max: Binary32(x_max),
                        y_max: Binary32(y_max),
                    },
                ),
                None => None,
            };
            Frame::new(metrics, font_size, clip_box)
        },
        None => None,
    }
}

/// The canvas of a glyph of a face.
pub open spec fn face_frame(font_data: Seq<u8>, face_index: u32, cache_key: CacheKey) -> Option<
    Frame,
> {
    told_frame(
        face_has_paint_graph(font_data, face_index, cache_key.glyph_id),
        face_metrics(font_data, face_index, WEIGHT_AXIS, cache_key.font_weight),
        face_clip_box(
            font_data,
            face_index,
            cache_key.glyph_id,
            WEIGHT_AXIS,
            cache_key.font_weight,
        ),
        Binary32(cache_key.font_size_bits),
    )
}

/// The transparent canvas of a frame, with the colors to paint it with.
pub open spec fn blank_canvas(frame: Frame, palette: Seq<Rgba>, foreground: Color) -> Canvas {
    Canvas {
        palette,
        foreground: Rgba { r: foreground.r, g: foreground.g, b: foreground.b, a: foreground.a },
        width: frame.width,
        height: frame.height,
        pixels: Seq::new((frame.width * frame.height * 4) as nat, |i: int| 0u8),
        transforms: seq![frame.base_transform],
        clips: Seq::empty(),
        layers: Seq::empty(),
    }
}

/// Begins to paint a glyph: a painter of its transparent canvas, with the first palette of
/// the face. The text color is for the index that stands for it. There is none for a
/// glyph without a paint graph, without extent, or too large.
pub fn begin_glyph(
    font_data: &[u8],
    face_index: u32,
    cache_key: &CacheKey,
    foreground: Color,
) -> (r: Option<(ColrV1Painter, Frame)>)
    ensures
        match r {
            Some((painter, frame)) => {
                &&& face_frame(font_data@, face_index, *cache_key) == Some(frame)
                &&& frame.wf()
                &&& painter@.wf()
                &&& painter@ == blank_canvas(
                    frame,
                    face_palette(font_data@, face_index, 0),
                    foreground,
                )
            },
            None => face_frame(font_data@, face_index, *cache_key) is None,
        },
{
    if !has_paint_graph(font_data, face_index, cache_key.glyph_id) {
        return None;
    }
    let (glyph_id, weight) = (cache_key.glyph_id, cache_key.font_weight);
    let measures = metrics(font_data, face_index, WEIGHT_AXIS, weight);
    let bounds = clip_box(font_data, face_index, glyph_id, WEIGHT_AXIS, weight);
    match frame_from(true, measures, bounds, Binary32(cache_key.font_size_bits)) {
        Some(frame) => {
            let palette = read_palette(font_data, face_index, 0);
            assert(frame.width * frame.height * 4 <= u32::MAX) by (nonlinear_arith)
                requires
                    frame.width <= 8192,
                    frame.height <= 8192,
            ;
            let painter = ColrV1Painter::new(
                palette,
                Rgba::from_color(foreground),
                frame.width,
                frame.height,
                frame.base_transform,
            );
            Some((painter, frame))
        },
        None => None,
    }
}

/// Ends the painting of a glyph: its picture, placed by the canvas.
pub fn end_glyph(painter: ColrV1Painter, frame: &Frame) -> (image: ColorImage)
    requires
        painter@.wf(),
        frame.placed(),
    ensures
        image.placement.left == frame.x_min - 1,
        image.placement.top == frame.y_max + 1,
        image.placement.width == painter@.width,
        image.placement.height == painter@.height,
        image.data@ == straight_pixels(painter@.pixels),
        image.data@.len() == image.placement.width * image.placement.height * 4,
{
    painter.into_image(frame.placement_left(), frame.placement_top())
}

} // verus!
