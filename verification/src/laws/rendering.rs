//! What holds of painting a whole glyph.
use crate::affine::PaintTransform;
use crate::binary32::Binary32;
use crate::blend::CompositeMode;
use crate::canvas::{Canvas, Placement};
use crate::color::{straight_pixels, Color, Rgba};
use crate::font::{blank_canvas, face_frame, face_palette, CacheKey};
use crate::gradient::Brush;
use crate::laws::painting::{text_color_shows_where_it_is_asked_for, uses_text_color};
use vstd::prelude::*;

verus! {

/// A step of painting a glyph.
pub enum Step<'a> {
    PushTransform(PaintTransform),
    PopTransform,
    /// Clips to a placed mask, or to nothing.
    PushClip(Option<(Placement, Seq<u8>)>),
    PopClip,
    PushLayer(CompositeMode),
    PopLayer,
    /// Fills with a brush; a sweep gradient by the angles of the pixels.
    Fill(Brush<'a>, Seq<Binary32>),
}

/// The canvas after a step.
pub open spec fn stepped(canvas: Canvas, step: Step) -> Canvas {
    match step {
        Step::PushTransform(local) => canvas.transformed(local),
        Step::PopTransform => canvas.untransformed(),
        Step::PushClip(Some((placement, mask))) => canvas.clipped(
            canvas.full_mask(placement, mask),
        ),
        Step::PushClip(None) => canvas.clipped(canvas.empty_mask()),
        Step::PopClip => canvas.unclipped(),
        Step::PushLayer(mode) => canvas.layered(mode),
        Step::PopLayer => canvas.merged(),
        Step::Fill(brush, angles) => canvas.brushed(brush, angles),
    }
}

/// The canvas after some steps.
pub open spec fn painted(canvas: Canvas, steps: Seq<Step>) -> Canvas
    decreases steps.len(),
{
    if steps.len() == 0 {
        canvas
    } else {
        stepped(painted(canvas, steps.drop_last()), steps.last())
    }
}

/// Whether a step asks for the text color.
pub open spec fn asks_for_text_color(step: Step) -> bool {
    match step {
        Step::Fill(brush, _) => uses_text_color(brush),
        _ => false,
    }
}

/// What rendering a glyph gives: the left and the top edge of the picture, its width and height,
/// and its straight pixels.
pub open spec fn rendered(
    font_data: Seq<u8>,
    face_index: u32,
    cache_key: CacheKey,
    foreground: Color,
    steps: Seq<Step>,
) -> Option<(int, int, u32, u32, Seq<u8>)> {
    match face_frame(font_data, face_index, cache_key) {
        Some(frame) => {
            let blank = blank_canvas(frame, face_palette(font_data, face_index, 0), foreground);
            let canvas = painted(blank, steps);
            Some(
                (
                    frame.x_min - 1,
                    frame.y_max + 1,
                    canvas.width,
                    canvas.height,
                    straight_pixels(canvas.pixels),
                ),
            )
        },
        None => None,
    }
}

/// A step that does not ask for the text color does the same for every text color.
pub proof fn steps_are_blind_to_the_text_color(canvas: Canvas, step: Step, foreground: Rgba)
    requires
        !asks_for_text_color(step),
    ensures
        stepped(Canvas { foreground, ..canvas }, step) == (Canvas {
            foreground,
            ..stepped(canvas, step)
        }),
{
    let other = Canvas { foreground, ..canvas };
    match step {
        Step::PushClip(Some((placement, mask))) => {
            assert(other.full_mask(placement, mask) =~= canvas.full_mask(placement, mask));
        },
        Step::PushClip(None) => {
            assert(other.empty_mask() =~= canvas.empty_mask());
        },
        Step::PushLayer(mode) => {
            assert(other.layered(mode).pixels =~= canvas.layered(mode).pixels);
        },
        Step::Fill(brush, angles) => {
            text_color_shows_where_it_is_asked_for(canvas, brush, angles, foreground);
        },
        _ => {},
    }
}

/// Two canvases that differ in the text color alone still do so after any steps that do not ask
/// for it.
pub proof fn paintings_are_blind_to_the_text_color(
    canvas: Canvas,
    steps: Seq<Step>,
    foreground: Rgba,
)
    requires
        forall|i: int| 0 <= i < steps.len() ==> !asks_for_text_color(#[trigger] steps[i]),
    ensures
        painted(Canvas { foreground, ..canvas }, steps) == (Canvas {
            foreground,
            ..painted(canvas, steps)
        }),
    decreases steps.len(),
{
    if steps.len() > 0 {
        let before = steps.drop_last();
        assert forall|i: int| 0 <= i < before.len() implies !asks_for_text_color(
            #[trigger] before[i],
        ) by {
            assert(before[i] == steps[i]);
        }
        paintings_are_blind_to_the_text_color(canvas, before, foreground);
        assert(!asks_for_text_color(steps[steps.len() - 1]));
        steps_are_blind_to_the_text_color(painted(canvas, before), steps.last(), foreground);
    }
}

/// Keys of one glyph at one size and weight give one picture, and where no step asks for the text
/// color the picture is the same for every one.
pub proof fn renderings_follow_the_key(
    font_data: Seq<u8>,
    face_index: u32,
    key: CacheKey,
    other: CacheKey,
    foreground: Color,
    another: Color,
    steps: Seq<Step>,
)
    requires
        key.glyph_id == other.glyph_id,
        key.font_size_bits == other.font_size_bits,
        key.font_weight == other.font_weight,
    ensures
        rendered(font_data, face_index, key, foreground, steps) == rendered(
            font_data,
            face_index,
            other,
            foreground,
            steps,
        ),
        (forall|i: int| 0 <= i < steps.len() ==> !asks_for_text_color(#[trigger] steps[i]))
            ==> rendered(font_data, face_index, key, foreground, steps) == rendered(
            font_data,
            face_index,
            other,
            another,
            steps,
        ),
{
    if forall|i: int| 0 <= i < steps.len() ==> !asks_for_text_color(#[trigger] steps[i]) {
        if let Some(frame) = face_frame(font_data, face_index, key) {
            let palette = face_palette(font_data, face_index, 0);
            let blank = blank_canvas(frame, palette, foreground);
            let color = Rgba { r: another.r, g: another.g, b: another.b, a: another.a };
            assert(blank_canvas(frame, palette, another) == (Canvas {
                foreground: color,
                ..blank
            }));
            paintings_are_blind_to_the_text_color(blank, steps, color);
        }
    }
}

} // verus!
