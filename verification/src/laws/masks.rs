//! What holds of masks in their places, and of the outlines of boxes.
use crate::affine::{transform_point, PaintTransform};
use crate::binary32::Binary32;
use crate::canvas::{box_path, mask_at, Canvas, Placement};
use crate::font::palette_of;
use crate::path::{BoundingBox, Command, Vector};
use vstd::arithmetic::div_mod::lemma_fundamental_div_mod_converse;
use vstd::prelude::*;

verus! {

/// A mask that is moved covers the pixels that are moved as far as the mask.
pub proof fn masks_move_with_their_place(
    placement: Placement,
    moved: Placement,
    mask: Seq<u8>,
    x: int,
    y: int,
)
    requires
        moved.width == placement.width,
        moved.height == placement.height,
    ensures
        mask_at(
            moved,
            mask,
            x + (moved.left - placement.left),
            y + (moved.top - placement.top),
        ) == mask_at(placement, mask, x, y),
{
}

/// A mask of its size shows each of its bytes at one pixel, in rows from its top left corner, and
/// nothing anywhere else.
pub proof fn masks_show_each_byte_in_its_place(
    placement: Placement,
    mask: Seq<u8>,
    col: int,
    row: int,
)
    requires
        placement.width < 0x8000_0000,
        placement.height < 0x8000_0000,
        mask.len() == placement.width * placement.height,
    ensures
        ({
            let shown = mask_at(placement, mask, placement.left + col, placement.top + row);
            if 0 <= col < placement.width && 0 <= row < placement.height {
                &&& 0 <= col + placement.width * row < mask.len()
                &&& shown == mask[col + placement.width * row]
            } else {
                shown == 0
            }
        }),
{
    let (w, h) = (placement.width as int, placement.height as int);
    if 0 <= col < w && 0 <= row < h {
        assert(0 <= col + w * row && col + w * row < w * h) by (nonlinear_arith)
            requires
                0 <= col < w,
                0 <= row < h,
        ;
        assert(row * w == w * row) by (nonlinear_arith);
    }
}

/// A mask put on a canvas covers the pixel of a column and a row as the mask does there.
pub proof fn masks_cover_by_column_and_row(
    canvas: Canvas,
    placement: Placement,
    mask: Seq<u8>,
    col: int,
    row: int,
)
    requires
        0 <= col < canvas.width,
        0 <= row < canvas.height,
    ensures
        ({
            let p = row * canvas.width + col;
            &&& 0 <= p < canvas.area()
            &&& canvas.full_mask(placement, mask)[p] == mask_at(placement, mask, col, row)
        }),
{
    let (w, h) = (canvas.width as int, canvas.height as int);
    let p = row * w + col;
    assert(0 <= p && p < w * h) by (nonlinear_arith)
        requires
            p == row * w + col,
            0 <= col < w,
            0 <= row < h,
    ;
    lemma_fundamental_div_mod_converse(p, w, row, col);
}

/// The point that a step of an outline of straight lines goes to.
pub open spec fn goes_to(command: Command) -> Option<Vector> {
    match command {
        Command::MoveTo(at) => Some(at),
        Command::LineTo(at) => Some(at),
        _ => None,
    }
}

/// Whether a point is where a transform takes the corner of a box at two of its sides.
pub open spec fn is_corner(
    at: Option<Vector>,
    t: PaintTransform,
    x: Binary32,
    y: Binary32,
) -> bool {
    match at {
        Some(at) => (at.x, at.y) == transform_point(&t, x, y),
        None => false,
    }
}

/// The outline of a box goes once around: it passes every corner of the box, of two corners that
/// follow each other one side is the same, and it is closed.
pub proof fn outlines_go_around_their_box(t: PaintTransform, b: BoundingBox)
    ensures
        ({
            let path = box_path(t, b);
            &&& path.len() == 5
            &&& path[0] is MoveTo
            &&& path[1] is LineTo && path[2] is LineTo && path[3] is LineTo
            &&& path[4] is Close
            &&& is_corner(goes_to(path[0]), t, b.x_min, b.y_min)
            &&& is_corner(goes_to(path[2]), t, b.x_max, b.y_max)
            &&& is_corner(goes_to(path[1]), t, b.x_max, b.y_min) && is_corner(
                goes_to(path[3]),
                t,
                b.x_min,
                b.y_max,
            ) || is_corner(goes_to(path[1]), t, b.x_min, b.y_max) && is_corner(
                goes_to(path[3]),
                t,
                b.x_max,
                b.y_min,
            )
        }),
{
}

/// Palettes of one face share its color records: where one begins some records after another, its
/// entries are those of the other from that one on.
pub proof fn palettes_share_their_records(
    records: Seq<(u8, u8, u8, u8)>,
    entries: u16,
    starts: Seq<u16>,
    one: u16,
    other: u16,
    i: int,
)
    requires
        one < starts.len(),
        other < starts.len(),
        starts[one as int] <= starts[other as int],
        0 <= i,
        i + (starts[other as int] - starts[one as int]) < entries,
    ensures
        ({
            let further = starts[other as int] - starts[one as int];
            let (a, b) = (
                palette_of(Some(records), Some(entries), Some(starts), one),
                palette_of(Some(records), Some(entries), Some(starts), other),
            );
            &&& a.len() == entries
            &&& b.len() == entries
            &&& b[i] == a[i + further]
        }),
{
}

/// A palette that begins at a record has the channels of the records from there on, and black
/// past the last of them.
pub proof fn palettes_hold_their_records(
    records: Seq<(u8, u8, u8, u8)>,
    entries: u16,
    starts: Option<Seq<u16>>,
    index: u16,
    i: int,
)
    requires
        0 <= i < entries,
    ensures
        ({
            let color = palette_of(Some(records), Some(entries), starts, index)[i];
            let at = i + match starts {
                Some(starts) => if index < starts.len() {
                    starts[index as int] as int
                } else {
                    0
                },
                None => 0,
            };
            if at < records.len() {
                (color.r, color.g, color.b, color.a) == records[at]
            } else {
                (color.r, color.g, color.b, color.a) == (0u8, 0u8, 0u8, 255u8)
            }
        }),
{
}

} // verus!
