//! The outlines of boxes and the parts of them that strokes cover.
use crate::config::{BoxShape, CornerMode, StrokePosition};
use crate::keyer::blobs::Box;
use crate::keyer::select::{height_of, longer_side, width_of};
use vstd::prelude::*;

verus! {

/// The outline of a box, in half pixels.
///
/// `corner_limit` is the largest corner radius that fits, in quarter pixels;
/// round outlines have no corners.
#[derive(Debug, Clone, Copy, PartialEq, Eq, Structural)]
pub struct Geom {
    pub shape: BoxShape,
    pub cx: i64,
    pub cy: i64,
    pub hw: i64,
    pub hh: i64,
    pub min_x: i64,
    pub min_y: i64,
    pub max_x: i64,
    pub max_y: i64,
    pub corner_limit: i64,
}

/// The shape has straight sides.
pub open spec fn has_corners(shape: BoxShape) -> bool {
    shape == BoxShape::Rectangle || shape == BoxShape::Square
}

/// The shape is as wide as it is high.
pub open spec fn is_regular(shape: BoxShape) -> bool {
    shape == BoxShape::Square || shape == BoxShape::Circle
}

/// `g` is the outline of shape `shape` for box `b`.
///
/// A rectangle or ellipse reaches from the first to the last pixel of the box,
/// measured pixel centre to pixel centre. A square or circle is as large as the
/// longer side of the box and lies around the middle of the box.
pub open spec fn is_outline(g: Geom, b: Box, shape: BoxShape) -> bool {
    let side = longer_side(b);
    &&& g.shape == shape
    &&& g.cx == b.min_x + b.max_x + 1
    &&& g.cy == b.min_y + b.max_y + 1
    &&& if is_regular(shape) {
        &&& g.hw == side && g.hh == side
        &&& g.min_x == g.cx - side && g.max_x == g.cx + side
        &&& g.min_y == g.cy - side && g.max_y == g.cy + side
    } else {
        &&& g.hw == width_of(b) && g.hh == height_of(b)
        &&& g.min_x == 2 * b.min_x && g.max_x == 2 * b.max_x
        &&& g.min_y == 2 * b.min_y && g.max_y == 2 * b.max_y
    }
    &&& g.corner_limit == if !has_corners(shape) {
        0
    } else if g.max_x - g.min_x < g.max_y - g.min_y {
        g.max_x - g.min_x
    } else {
        g.max_y - g.min_y
    }
}

/// The outline of a box.
pub fn make_geom(b: &Box, shape: BoxShape) -> (g: Geom)
    ensures
        is_outline(g, *b, shape),
{
    let (x0, x1) = (b.min_x as i64, b.max_x as i64);
    let (y0, y1) = (b.min_y as i64, b.max_y as i64);
    let bw = x1 - x0 + 1;
    let bh = y1 - y0 + 1;
    let cx = x0 + x1 + 1;
    let cy = y0 + y1 + 1;
    let (hw, hh, min_x, min_y, max_x, max_y) = match shape {
        BoxShape::Rectangle | BoxShape::Ellipse => (bw, bh, 2 * x0, 2 * y0, 2 * x1, 2 * y1),
        BoxShape::Square | BoxShape::Circle => {
            let side = if bw < bh {
                bh
            } else {
                bw
            };
            (side, side, cx - side, cy - side, cx + side, cy + side)
        },
    };
    let corner_limit = match shape {
        BoxShape::Rectangle | BoxShape::Square => if max_x - min_x < max_y - min_y {
            max_x - min_x
        } else {
            max_y - min_y
        },
        BoxShape::Ellipse | BoxShape::Circle => 0,
    };
    Geom { shape, cx, cy, hw, hh, min_x, min_y, max_x, max_y, corner_limit }
}

/// The outline of a square or circle is as wide as it is high, holds the whole
/// box and lies around its middle.
pub proof fn law_regular_outline_holds_box(g: Geom, b: Box, shape: BoxShape)
    requires
        is_regular(shape),
        is_outline(g, b, shape),
        b.min_x <= b.max_x,
        b.min_y <= b.max_y,
    ensures
        g.max_x - g.min_x == g.max_y - g.min_y,
        g.min_x <= 2 * b.min_x,
        2 * (b.max_x + 1) <= g.max_x,
        g.min_y <= 2 * b.min_y,
        2 * (b.max_y + 1) <= g.max_y,
        g.min_x + g.max_x == 2 * g.cx,
        g.min_y + g.max_y == 2 * g.cy,
{
}

/// On which side of the outline the middle of a stroke lies: 1 inside, -1
/// outside, 0 on the outline itself.
pub open spec fn stroke_side(position: StrokePosition) -> int {
    match position {
        StrokePosition::Inside => 1,
        StrokePosition::Center => 0,
        StrokePosition::Outside => -1,
    }
}

/// On which side of the outline the middle of a stroke lies.
pub fn stroke_offset(position: StrokePosition) -> (side: i32)
    ensures
        side == stroke_side(position),
{
    match position {
        StrokePosition::Inside => 1,
        StrokePosition::Center => 0,
        StrokePosition::Outside => -1,
    }
}

/// A corner of an outline.
#[derive(Debug, Clone, Copy, PartialEq, Eq, Structural)]
pub enum Corner {
    TopRight,
    BottomRight,
    BottomLeft,
    TopLeft,
}

/// A side of an outline.
#[derive(Debug, Clone, Copy, PartialEq, Eq, Structural)]
pub enum Side {
    Top,
    Right,
    Bottom,
    Left,
}

/// A part of the stroke around a rectangle or square.
#[derive(Debug, Clone, Copy, PartialEq, Eq, Structural)]
pub enum StrokePart {
    /// A rounded corner and as much of both sides as the corner length allows.
    Arc(Corner),
    /// A rounded corner alone.
    Bend(Corner),
    /// The start of a side, as long as a corner.
    SideStart(Side),
    /// The end of a side, as long as a corner.
    SideEnd(Side),
    /// A whole side, dashed like the stroke.
    DashedSide(Side),
    /// A whole side.
    FullSide(Side),
    /// The square where two sides meet.
    Miter(Corner),
}

/// The corners, clockwise.
pub open spec fn corners() -> Seq<Corner> {
    seq![Corner::TopRight, Corner::BottomRight, Corner::BottomLeft, Corner::TopLeft]
}

/// The sides, clockwise.
pub open spec fn sides() -> Seq<Side> {
    seq![Side::Top, Side::Right, Side::Bottom, Side::Left]
}

/// The corner at which a side starts, going clockwise.
pub open spec fn start_of(side: Side) -> Corner {
    match side {
        Side::Top => Corner::TopLeft,
        Side::Right => Corner::TopRight,
        Side::Bottom => Corner::BottomRight,
        Side::Left => Corner::BottomLeft,
    }
}

/// The corner at which a side ends, going clockwise.
pub open spec fn end_of(side: Side) -> Corner {
    match side {
        Side::Top => Corner::TopRight,
        Side::Right => Corner::BottomRight,
        Side::Bottom => Corner::BottomLeft,
        Side::Left => Corner::TopLeft,
    }
}

/// The stroke shows the corner: the left bracket only the top left and bottom
/// right ones, the right bracket the others.
pub open spec fn shows(mode: CornerMode, corner: Corner) -> bool {
    match mode {
        CornerMode::BracketLeft => corner == Corner::BottomRight || corner == Corner::TopLeft,
        CornerMode::BracketRight => corner == Corner::TopRight || corner == Corner::BottomLeft,
        _ => true,
    }
}

/// The whole sides that a bracket is closed by.
pub open spec fn bracket_parts(mode: CornerMode) -> Seq<StrokePart> {
    match mode {
        CornerMode::HorizontalBracket => seq![
            StrokePart::FullSide(Side::Left),
            StrokePart::FullSide(Side::Right),
        ],
        CornerMode::VerticalBracket => seq![
            StrokePart::FullSide(Side::Top),
            StrokePart::FullSide(Side::Bottom),
        ],
        _ => Seq::empty(),
    }
}

/// The shown ones of the first `k` corners, each as the part `part` makes of
/// it.
pub open spec fn corner_parts(
    mode: CornerMode,
    part: spec_fn(Corner) -> StrokePart,
    k: int,
) -> Seq<StrokePart>
    decreases k,
{
    if k <= 0 {
        Seq::empty()
    } else if shows(mode, corners()[k - 1]) {
        corner_parts(mode, part, k - 1).push(part(corners()[k - 1]))
    } else {
        corner_parts(mode, part, k - 1)
    }
}

/// What of the first `k` sides lies at shown corners.
pub open spec fn side_parts(mode: CornerMode, k: int) -> Seq<StrokePart>
    decreases k,
{
    if k <= 0 {
        Seq::empty()
    } else {
        let side = sides()[k - 1];
        let before = side_parts(mode, k - 1);
        if mode == CornerMode::Full {
            before.push(StrokePart::DashedSide(side))
        } else {
            let first = if shows(mode, start_of(side)) {
                before.push(StrokePart::SideStart(side))
            } else {
                before
            };
            if shows(mode, end_of(side)) {
                first.push(StrokePart::SideEnd(side))
            } else {
                first
            }
        }
    }
}

/// The parts of the stroke around a rectangle or square, in drawing order.
pub open spec fn rect_parts(mode: CornerMode, rounded: bool) -> Seq<StrokePart> {
    if !rounded {
        side_parts(mode, 4) + corner_parts(mode, |c: Corner| StrokePart::Miter(c), 4)
            + bracket_parts(mode)
    } else if mode == CornerMode::Full {
        side_parts(mode, 4) + corner_parts(mode, |c: Corner| StrokePart::Bend(c), 4)
    } else {
        corner_parts(mode, |c: Corner| StrokePart::Arc(c), 4) + bracket_parts(mode)
    }
}

fn shows_corner(mode: CornerMode, corner: Corner) -> (r: bool)
    ensures
        r == shows(mode, corner),
{
    match mode {
        CornerMode::BracketLeft => corner == Corner::BottomRight || corner == Corner::TopLeft,
        CornerMode::BracketRight => corner == Corner::TopRight || corner == Corner::BottomLeft,
        _ => true,
    }
}

fn corner_at(i: usize) -> (corner: Corner)
    requires
        i < 4,
    ensures
        corner == corners()[i as int],
{
    if i == 0 {
        Corner::TopRight
    } else if i == 1 {
        Corner::BottomRight
    } else if i == 2 {
        Corner::BottomLeft
    } else {
        Corner::TopLeft
    }
}

fn side_at(i: usize) -> (side: Side)
    requires
        i < 4,
    ensures
        side == sides()[i as int],
{
    if i == 0 {
        Side::Top
    } else if i == 1 {
        Side::Right
    } else if i == 2 {
        Side::Bottom
    } else {
        Side::Left
    }
}

fn corner_started(side: Side) -> (corner: Corner)
    ensures
        corner == start_of(side),
{
    match side {
        Side::Top => Corner::TopLeft,
        Side::Right => Corner::TopRight,
        Side::Bottom => Corner::BottomRight,
        Side::Left => Corner::BottomLeft,
    }
}

fn corner_reached(side: Side) -> (corner: Corner)
    ensures
        corner == end_of(side),
{
    match side {
        Side::Top => Corner::TopRight,
        Side::Right => Corner::BottomRight,
        Side::Bottom => Corner::BottomLeft,
        Side::Left => Corner::TopLeft,
    }
}

/// The parts of the stroke around a rectangle or square, in drawing order.
/// `rounded` tells whether its corners are round.
pub fn rect_strokes(mode: CornerMode, rounded: bool) -> (parts: Vec<StrokePart>)
    ensures
        parts@ == rect_parts(mode, rounded),
{
    let mut parts: Vec<StrokePart> = Vec::new();
    let full = mode == CornerMode::Full;
    if !rounded || full {
        let mut i: usize = 0;
        while i < 4
            invariant
                i <= 4,
                full == (mode == CornerMode::Full),
                parts@ == side_parts(mode, i as int),
            decreases 4 - i,
        {
            let side = side_at(i);
            if full {
                parts.push(StrokePart::DashedSide(side));
            } else {
                if shows_corner(mode, corner_started(side)) {
                    parts.push(StrokePart::SideStart(side));
                }
                if shows_corner(mode, corner_reached(side)) {
                    parts.push(StrokePart::SideEnd(side));
                }
            }
            i = i + 1;
        }
    }
    let ghost before = parts@;
    let ghost part = if !rounded {
        |c: Corner| StrokePart::Miter(c)
    } else if full {
        |c: Corner| StrokePart::Bend(c)
    } else {
        |c: Corner| StrokePart::Arc(c)
    };
    assert(parts@ =~= before + corner_parts(mode, part, 0));
    let mut i: usize = 0;
    while i < 4
        invariant
            i <= 4,
            part == if !rounded {
                |c: Corner| StrokePart::Miter(c)
            } else if full {
                |c: Corner| StrokePart::Bend(c)
            } else {
                |c: Corner| StrokePart::Arc(c)
            },
            parts@ == before + corner_parts(mode, part, i as int),
        decreases 4 - i,
    {
        let corner = corner_at(i);
        if shows_corner(mode, corner) {
            parts.push(
                if !rounded {
                    StrokePart::Miter(corner)
                } else if full {
                    StrokePart::Bend(corner)
                } else {
                    StrokePart::Arc(corner)
                },
            );
            assert(part(corner) == parts@[parts@.len() - 1]);
        }
        i = i + 1;
    }
    let ghost middle = parts@;
    match mode {
        CornerMode::HorizontalBracket => {
            parts.push(StrokePart::FullSide(Side::Left));
            parts.push(StrokePart::FullSide(Side::Right));
        },
        CornerMode::VerticalBracket => {
            parts.push(StrokePart::FullSide(Side::Top));
            parts.push(StrokePart::FullSide(Side::Bottom));
        },
        _ => {},
    }
    assert(parts@ =~= middle + bracket_parts(mode));
    assert(parts@ =~= rect_parts(mode, rounded));
    parts
}

/// A part of the stroke around an ellipse or circle. Angles are eighths of a
/// turn, 0 to the right, going clockwise.
#[derive(Debug, Clone, Copy, PartialEq, Eq, Structural)]
pub enum EllipsePart {
    /// From one angle to another.
    Span { from: u8, to: u8 },
    /// Around an angle, as long as a corner.
    Around { at: u8 },
}

/// The direction in which a corner lies, in eighths of a turn.
pub open spec fn direction(corner: Corner) -> u8 {
    match corner {
        Corner::TopRight => 7,
        Corner::BottomRight => 1,
        Corner::BottomLeft => 3,
        Corner::TopLeft => 5,
    }
}

/// The shown ones of the first `k` corners of an ellipse.
pub open spec fn around_parts(mode: CornerMode, k: int) -> Seq<EllipsePart>
    decreases k,
{
    if k <= 0 {
        Seq::empty()
    } else if shows(mode, corners()[k - 1]) {
        around_parts(mode, k - 1).push(EllipsePart::Around { at: direction(corners()[k - 1]) })
    } else {
        around_parts(mode, k - 1)
    }
}

/// The parts of the stroke around an ellipse or circle, in drawing order.
pub open spec fn ellipse_parts(mode: CornerMode) -> Seq<EllipsePart> {
    match mode {
        CornerMode::Full => seq![EllipsePart::Span { from: 0, to: 8 }],
        CornerMode::HorizontalBracket => seq![
            EllipsePart::Span { from: 3, to: 5 },
            EllipsePart::Span { from: 7, to: 9 },
        ],
        CornerMode::VerticalBracket => seq![
            EllipsePart::Span { from: 5, to: 7 },
            EllipsePart::Span { from: 1, to: 3 },
        ],
        _ => around_parts(mode, 4),
    }
}

/// The parts of the stroke around an ellipse or circle, in drawing order.
pub fn ellipse_strokes(mode: CornerMode) -> (parts: Vec<EllipsePart>)
    ensures
        parts@ == ellipse_parts(mode),
{
    let mut parts: Vec<EllipsePart> = Vec::new();
    match mode {
        CornerMode::Full => {
            parts.push(EllipsePart::Span { from: 0, to: 8 });
        },
        CornerMode::HorizontalBracket => {
            parts.push(EllipsePart::Span { from: 3, to: 5 });
            parts.push(EllipsePart::Span { from: 7, to: 9 });
        },
        CornerMode::VerticalBracket => {
            parts.push(EllipsePart::Span { from: 5, to: 7 });
            parts.push(EllipsePart::Span { from: 1, to: 3 });
        },
        _ => {
            let mut i: usize = 0;
            while i < 4
                invariant
                    i <= 4,
                    parts@ == around_parts(mode, i as int),
                decreases 4 - i,
            {
                let corner = corner_at(i);
                if shows_corner(mode, corner) {
                    let at: u8 = match corner {
                        Corner::TopRight => 7,
                        Corner::BottomRight => 1,
                        Corner::BottomLeft => 3,
                        Corner::TopLeft => 5,
                    };
                    parts.push(EllipsePart::Around { at });
                }
                i = i + 1;
            }
        },
    }
    assert(parts@ =~= ellipse_parts(mode));
    parts
}

/// Whatever the settings, a stroke has parts to draw.
pub proof fn law_every_stroke_has_parts(mode: CornerMode, rounded: bool)
    ensures
        rect_parts(mode, rounded).len() > 0,
        ellipse_parts(mode).len() > 0,
{
    reveal_with_fuel(side_parts, 5);
    reveal_with_fuel(corner_parts, 5);
    reveal_with_fuel(around_parts, 5);
}

/// The two key brackets share the corners between them.
pub proof fn law_key_brackets_complement_each_other(corner: Corner)
    ensures
        shows(CornerMode::BracketLeft, corner) <==> !shows(CornerMode::BracketRight, corner),
{
}

/// The first pixel of the frame from `lo` on.
pub open spec fn first_from(lo: int) -> int {
    if lo < 0 {
        0
    } else {
        lo
    }
}

/// The last pixel up to `hi` of a frame side of length `limit`.
pub open spec fn last_to(hi: int, limit: int) -> int {
    if hi < limit - 1 {
        hi
    } else {
        limit - 1
    }
}

/// The first and the last pixel of a frame side of length `limit` that lie
/// from `lo` to `hi`, if there are any.
pub fn clip(lo: i32, hi: i32, limit: usize) -> (range: Option<(usize, usize)>)
    requires
        limit <= i32::MAX,
    ensures
        match range {
            Some((first, last)) => first == first_from(lo as int) && last == last_to(
                hi as int,
                limit as int,
            ) && first <= last,
            None => first_from(lo as int) > last_to(hi as int, limit as int),
        },
{
    let first: i32 = if lo < 0 {
        0
    } else {
        lo
    };
    let last: i32 = if hi < limit as i32 - 1 {
        hi
    } else {
        limit as i32 - 1
    };
    if first <= last {
        Some((first as usize, last as usize))
    } else {
        None
    }
}

/// Clipping leaves the pixels that lie in the frame, and no others.
pub proof fn law_clipping_keeps_what_is_in_the_frame(lo: int, hi: int, limit: int, k: int)
    ensures
        first_from(lo) <= k <= last_to(hi, limit) <==> 0 <= k < limit && lo <= k <= hi,
{
}

/// An outline lies around the middle of the area that the pixels of its box
/// cover. A rectangle or ellipse reaches to the edges of that area in width and
/// in height, a square or circle as far as the longer of both. No corner radius
/// is larger than the outline is wide or high.
pub proof fn law_outline_fits_its_box(g: Geom, b: Box, shape: BoxShape)
    requires
        is_outline(g, b, shape),
        b.min_x <= b.max_x,
        b.min_y <= b.max_y,
    ensures
        g.shape == shape,
        2 * g.cx == 2 * b.min_x + 2 * (b.max_x + 1),
        2 * g.cy == 2 * b.min_y + 2 * (b.max_y + 1),
        shape == BoxShape::Rectangle || shape == BoxShape::Ellipse ==> {
            &&& g.cx - g.hw == 2 * b.min_x && g.cx + g.hw == 2 * (b.max_x + 1)
            &&& g.cy - g.hh == 2 * b.min_y && g.cy + g.hh == 2 * (b.max_y + 1)
            &&& g.min_x == 2 * b.min_x && g.max_x == 2 * b.max_x
            &&& g.min_y == 2 * b.min_y && g.max_y == 2 * b.max_y
        },
        shape == BoxShape::Square || shape == BoxShape::Circle ==> {
            &&& g.hw == g.hh
            &&& g.cx - g.hw <= 2 * b.min_x && g.cy - g.hh <= 2 * b.min_y
            &&& g.cx - g.hw == 2 * b.min_x || g.cy - g.hh == 2 * b.min_y
            &&& g.min_x == g.cx - g.hw && g.max_x == g.cx + g.hw
            &&& g.min_y == g.cy - g.hh && g.max_y == g.cy + g.hh
        },
        shape == BoxShape::Rectangle || shape == BoxShape::Square ==> {
            &&& g.corner_limit <= g.max_x - g.min_x
            &&& g.corner_limit <= g.max_y - g.min_y
            &&& g.corner_limit == g.max_x - g.min_x || g.corner_limit == g.max_y - g.min_y
        },
        shape == BoxShape::Ellipse || shape == BoxShape::Circle ==> g.corner_limit == 0,
{
}

/// Moving a box moves its outline, and exchanging its axes exchanges those of
/// the outline.
pub proof fn law_outline_moves_and_turns_with_its_box(
    g: Geom,
    moved: Geom,
    turned: Geom,
    b: Box,
    m: Box,
    t: Box,
    shape: BoxShape,
    dx: int,
    dy: int,
)
    requires
        is_outline(g, b, shape),
        is_outline(moved, m, shape),
        is_outline(turned, t, shape),
        m.min_x == b.min_x + dx && m.max_x == b.max_x + dx,
        m.min_y == b.min_y + dy && m.max_y == b.max_y + dy,
        t.min_x == b.min_y && t.max_x == b.max_y,
        t.min_y == b.min_x && t.max_y == b.max_x,
    ensures
        moved.cx == g.cx + 2 * dx && moved.cy == g.cy + 2 * dy,
        moved.min_x == g.min_x + 2 * dx && moved.max_x == g.max_x + 2 * dx,
        moved.min_y == g.min_y + 2 * dy && moved.max_y == g.max_y + 2 * dy,
        moved.hw == g.hw && moved.hh == g.hh && moved.corner_limit == g.corner_limit,
        turned.cx == g.cy && turned.cy == g.cx,
        turned.hw == g.hh && turned.hh == g.hw,
        turned.min_x == g.min_y && turned.max_x == g.max_y,
        turned.min_y == g.min_x && turned.max_y == g.max_x,
        turned.corner_limit == g.corner_limit,
{
}

/// A stroke inside the outline and one outside of it lie on opposite sides of
/// one in the middle, which lies on the outline itself; inside is towards the
/// middle of the box.
pub proof fn law_strokes_lie_on_their_side()
    ensures
        stroke_side(StrokePosition::Center) == 0,
        stroke_side(StrokePosition::Inside) + stroke_side(StrokePosition::Outside) == 0,
        stroke_side(StrokePosition::Outside) < stroke_side(StrokePosition::Center) < stroke_side(
            StrokePosition::Inside,
        ),
        stroke_side(StrokePosition::Inside) == 1,
{
}

/// The corner is one of the upper two.
pub open spec fn is_upper(corner: Corner) -> bool {
    corner == Corner::TopLeft || corner == Corner::TopRight
}

/// The corner is one of the left two.
pub open spec fn is_left(corner: Corner) -> bool {
    corner == Corner::TopLeft || corner == Corner::BottomLeft
}

/// Going clockwise, the top side leads from the left to the right, the right one
/// down, the bottom one from the right to the left and the left one up.
pub proof fn law_sides_lead_clockwise(side: Side)
    ensures
        side == Side::Top || side == Side::Bottom ==> (is_upper(start_of(side)) <==> side
            == Side::Top) && (is_upper(end_of(side)) <==> side == Side::Top) && is_left(
            start_of(side),
        ) == (side == Side::Top) && is_left(end_of(side)) == (side == Side::Bottom),
        side == Side::Left || side == Side::Right ==> (is_left(start_of(side)) <==> side
            == Side::Left) && (is_left(end_of(side)) <==> side == Side::Left) && is_upper(
            start_of(side),
        ) == (side == Side::Right) && is_upper(end_of(side)) == (side == Side::Left),
{
}

/// A corner of an ellipse lies in the quarter of its name, halfway between the
/// axes: angles grow clockwise from the right.
pub proof fn law_corners_lie_in_their_quarters(corner: Corner)
    ensures
        direction(corner) % 2 == 1,
        direction(corner) < 8,
        2 < direction(corner) < 6 <==> is_left(corner),
        direction(corner) < 4 <==> !is_upper(corner),
{
}

/// The corner is drawn: the key brackets draw two opposite corners each, all
/// other modes draw all.
pub open spec fn draws_corner(mode: CornerMode, corner: Corner) -> bool {
    &&& mode == CornerMode::BracketLeft ==> (is_left(corner) <==> is_upper(corner))
    &&& mode == CornerMode::BracketRight ==> (is_left(corner) <==> !is_upper(corner))
}

/// What the stroke around a rectangle consists of, in any order.
///
/// Without rounded corners it has the piece of each side that lies at a drawn
/// corner, and the corners themselves; with them, the arcs of the drawn corners.
/// The whole outline has whole sides instead. Brackets that are open to the top
/// and bottom have the left and right side in addition, those open to the left
/// and right the top and bottom side.
#[verifier::spinoff_prover]
#[verifier::rlimit(40)]
pub proof fn law_parts_of_a_rectangle(mode: CornerMode, rounded: bool, corner: Corner, side: Side)
    ensures
        ({
            let parts = rect_parts(mode, rounded);
            let full = mode == CornerMode::Full;
            &&& parts.contains(StrokePart::DashedSide(side)) <==> full
            &&& parts.contains(StrokePart::SideStart(side)) <==> !full && !rounded && draws_corner(
                mode,
                start_of(side),
            )
            &&& parts.contains(StrokePart::SideEnd(side)) <==> !full && !rounded && draws_corner(
                mode,
                end_of(side),
            )
            &&& parts.contains(StrokePart::Miter(corner)) <==> !rounded && draws_corner(
                mode,
                corner,
            )
            &&& parts.contains(StrokePart::Arc(corner)) <==> !full && rounded && draws_corner(
                mode,
                corner,
            )
            &&& parts.contains(StrokePart::Bend(corner)) <==> full && rounded
            &&& parts.contains(StrokePart::FullSide(side)) <==> {
                ||| mode == CornerMode::HorizontalBracket && (side == Side::Left || side
                    == Side::Right)
                ||| mode == CornerMode::VerticalBracket && (side == Side::Top || side
                    == Side::Bottom)
            }
            &&& parts.no_duplicates()
        }),
{
    lemma_side_parts(mode, side);
    lemma_corner_parts(mode, |c: Corner| StrokePart::Miter(c), corner);
    lemma_corner_parts(mode, |c: Corner| StrokePart::Bend(c), corner);
    lemma_corner_parts(mode, |c: Corner| StrokePart::Arc(c), corner);
    lemma_bracket_parts(mode, side);
    lemma_parts_apart(mode, rounded);
    broadcast use vstd::seq_lib::lemma_seq_concat_contains_all_elements;

    let parts = rect_parts(mode, rounded);
    assert forall|p: StrokePart| #[trigger] parts.contains(p) <==> (if !rounded {
        side_parts(mode, 4).contains(p) || corner_parts(
            mode,
            |c: Corner| StrokePart::Miter(c),
            4,
        ).contains(p) || bracket_parts(mode).contains(p)
    } else if mode == CornerMode::Full {
        side_parts(mode, 4).contains(p) || corner_parts(
            mode,
            |c: Corner| StrokePart::Bend(c),
            4,
        ).contains(p)
    } else {
        corner_parts(mode, |c: Corner| StrokePart::Arc(c), 4).contains(p) || bracket_parts(
            mode,
        ).contains(p)
    }) by {}
}

proof fn lemma_bracket_parts(mode: CornerMode, side: Side)
    ensures
        bracket_parts(mode).contains(StrokePart::FullSide(side)) <==> {
            ||| mode == CornerMode::HorizontalBracket && (side == Side::Left || side == Side::Right)
            ||| mode == CornerMode::VerticalBracket && (side == Side::Top || side == Side::Bottom)
        },
        forall|p: StrokePart| #[trigger] bracket_parts(mode).contains(p) ==> p is FullSide,
{
    let parts = bracket_parts(mode);
    if mode == CornerMode::HorizontalBracket || mode == CornerMode::VerticalBracket {
        assert(parts.len() == 2);
        assert(parts.contains(parts[0]) && parts.contains(parts[1]));
    }
}

proof fn lemma_side_parts(mode: CornerMode, side: Side)
    ensures
        side_parts(mode, 4).contains(StrokePart::DashedSide(side)) <==> mode == CornerMode::Full,
        side_parts(mode, 4).contains(StrokePart::SideStart(side)) <==> mode != CornerMode::Full
            && draws_corner(mode, start_of(side)),
        side_parts(mode, 4).contains(StrokePart::SideEnd(side)) <==> mode != CornerMode::Full
            && draws_corner(mode, end_of(side)),
        forall|p: StrokePart| #[trigger]
            side_parts(mode, 4).contains(p) ==> p is DashedSide || p is SideStart || p is SideEnd,
{
    broadcast use vstd::seq_lib::lemma_seq_contains_after_push;
    broadcast use vstd::seq_lib::lemma_seq_empty_contains_nothing;

    reveal_with_fuel(side_parts, 5);
}

proof fn lemma_corner_parts(mode: CornerMode, part: spec_fn(Corner) -> StrokePart, corner: Corner)
    requires
        forall|a: Corner, b: Corner| #[trigger] part(a) == #[trigger] part(b) ==> a == b,
    ensures
        corner_parts(mode, part, 4).contains(part(corner)) <==> draws_corner(mode, corner),
        forall|p: StrokePart| #[trigger]
            corner_parts(mode, part, 4).contains(p) ==> exists|c: Corner| p == #[trigger] part(c),
{
    broadcast use vstd::seq_lib::lemma_seq_contains_after_push;
    broadcast use vstd::seq_lib::lemma_seq_empty_contains_nothing;

    reveal_with_fuel(corner_parts, 5);
}

#[verifier::spinoff_prover]
#[verifier::rlimit(40)]
proof fn lemma_parts_apart(mode: CornerMode, rounded: bool)
    ensures
        rect_parts(mode, rounded).no_duplicates(),
{
    reveal_with_fuel(side_parts, 5);
    reveal_with_fuel(corner_parts, 5);
    assert(corners().len() == 4 && sides().len() == 4);
}

/// What the stroke around an ellipse consists of: the whole turn; the left and
/// the right arc, or the upper and the lower one, each from corner to corner; or
/// the drawn corners alone.
pub proof fn law_parts_of_an_ellipse(mode: CornerMode, corner: Corner)
    ensures
        mode == CornerMode::Full ==> ellipse_parts(mode) == seq![
            EllipsePart::Span { from: 0, to: 8 },
        ],
        mode == CornerMode::HorizontalBracket ==> ({
            let parts = ellipse_parts(mode);
            let (left, right) = (parts[0], parts[1]);
            &&& parts.len() == 2
            &&& left == EllipsePart::Span {
                from: direction(Corner::BottomLeft),
                to: direction(Corner::TopLeft),
            }
            &&& right == EllipsePart::Span {
                from: direction(Corner::TopRight),
                to: (direction(Corner::BottomRight) + 8) as u8,
            }
        }),
        mode == CornerMode::VerticalBracket ==> ({
            let parts = ellipse_parts(mode);
            let (upper, lower) = (parts[0], parts[1]);
            &&& parts.len() == 2
            &&& upper == EllipsePart::Span {
                from: direction(Corner::TopLeft),
                to: direction(Corner::TopRight),
            }
            &&& lower == EllipsePart::Span {
                from: direction(Corner::BottomRight),
                to: direction(Corner::BottomLeft),
            }
        }),
        ellipse_parts(mode).contains(EllipsePart::Around { at: direction(corner) }) <==> (mode
            == CornerMode::CornerOnly || mode == CornerMode::BracketLeft || mode
            == CornerMode::BracketRight) && draws_corner(mode, corner),
{
    broadcast use vstd::seq_lib::lemma_seq_contains_after_push;
    broadcast use vstd::seq_lib::lemma_seq_empty_contains_nothing;

    reveal_with_fuel(around_parts, 5);
}

} // verus!
