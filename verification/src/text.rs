//! The labels of boxes.
use crate::config::{AlignH, AlignV, FilterConfig, TextReference};
use crate::keyer::blobs::Box;
use crate::rng::{seeded, Rng};
use crate::wildcard::chars::{chars_of, string_of};
use crate::wildcard::eval::BoxContext;
use vstd::prelude::*;

verus! {

/// The seed of the labels' random values.
pub const LABEL_SEED: u64 = 0x9E3779B97F4A7C15;

/// The multiplier that spreads the identifiers of boxes over seeds.
pub const LABEL_SPREAD: u64 = 0x9E3779B1;

/// The template for labels when none is given.
pub fn default_template() -> (text: &'static str)
    ensures
        text@ == "X:$[box_x_position],Y:$[box_y_position]"@,
{
    "X:$[box_x_position],Y:$[box_y_position]"
}

/// The character is white space.
pub open spec fn is_space(c: char) -> bool {
    let n = c as u32;
    ||| 0x9 <= n <= 0xD
    ||| n == 0x20 || n == 0x85 || n == 0xA0 || n == 0x1680
    ||| 0x2000 <= n <= 0x200A
    ||| n == 0x2028 || n == 0x2029 || n == 0x202F || n == 0x205F || n == 0x3000
}

/// The text holds nothing but white space.
pub open spec fn is_blank(text: Seq<char>) -> bool {
    forall|i: int| 0 <= i < text.len() ==> is_space(#[trigger] text[i])
}

/// The template that labels follow: the one set, or the default if that is
/// blank.
pub open spec fn template_of(cfg: FilterConfig) -> Seq<char> {
    if is_blank(cfg.text_content@) {
        "X:$[box_x_position],Y:$[box_y_position]"@
    } else {
        cfg.text_content@
    }
}

fn is_space_char(c: char) -> (r: bool)
    ensures
        r == is_space(c),
{
    let n = c as u32;
    let plain = (0x9 <= n && n <= 0xD) || n == 0x20 || n == 0x85 || n == 0xA0;
    let wide = n == 0x1680 || (0x2000 <= n && n <= 0x200A) || n == 0x202F || n == 0x205F;
    plain || wide || n == 0x2028 || n == 0x2029 || n == 0x3000
}

/// The template that labels follow.
pub fn template(cfg: &FilterConfig) -> (text: String)
    ensures
        text@ == template_of(*cfg),
{
    let chars = chars_of(cfg.text_content.as_str());
    let mut i: usize = 0;
    while i < chars.len()
        invariant
            i <= chars@.len(),
            chars@ == cfg.text_content@,
            forall|k: int| 0 <= k < i ==> is_space(#[trigger] chars@[k]),
        decreases chars@.len() - i,
    {
        if !is_space_char(chars[i]) {
            return string_of(&chars);
        }
        i = i + 1;
    }
    string_of(&chars_of(default_template()))
}

/// A label always has a template.
pub proof fn law_template_is_never_blank(cfg: FilterConfig)
    ensures
        !is_blank(template_of(cfg)),
{
    reveal_strlit("X:$[box_x_position],Y:$[box_y_position]");
    assert(!is_space("X:$[box_x_position],Y:$[box_y_position]"@[0]));
}

/// The numbers of box `b` in a frame of `w` by `h` pixels.
pub open spec fn is_context_of(ctx: BoxContext, b: Box, w: int, h: int) -> bool {
    &&& ctx.x == b.min_x
    &&& ctx.y == b.min_y
    &&& ctx.w == b.max_x - b.min_x + 1
    &&& ctx.h == b.max_y - b.min_y + 1
    &&& ctx.r == b.cr && ctx.g == b.cg && ctx.b == b.cb
    &&& ctx.pixels == b.pixels
    &&& ctx.total_pixels == w * h
    &&& ctx.id == b.id
}

/// The numbers of a box that its label can show.
pub fn box_context(b: &Box, w: usize, h: usize) -> (ctx: BoxContext)
    requires
        w * h <= i64::MAX,
    ensures
        is_context_of(ctx, *b, w as int, h as int),
{
    proof {
        assert(0 <= w * h) by (nonlinear_arith)
            requires
                0 <= w,
                0 <= h,
        ;
    }
    BoxContext {
        x: b.min_x as i64,
        y: b.min_y as i64,
        w: b.max_x as i64 - b.min_x as i64 + 1,
        h: b.max_y as i64 - b.min_y as i64 + 1,
        r: b.cr,
        g: b.cg,
        b: b.cb,
        pixels: b.pixels,
        total_pixels: (w as i128 * h as i128) as i64,
        id: b.id,
    }
}

/// The seed of the random values in the label of the box with an identifier.
pub open spec fn label_seed(id: i32) -> u64 {
    LABEL_SEED ^ (id as u64).wrapping_mul(LABEL_SPREAD)
}

/// The generator for the random values in the label of a box.
pub fn label_rng(b: &Box) -> (rng: Rng)
    ensures
        rng@ == seeded(label_seed(b.id)),
{
    Rng::new(LABEL_SEED ^ (b.id as u64).wrapping_mul(LABEL_SPREAD))
}

/// The place that a label is put at, in half pixels, and how many half markers
/// further right and down it lies.
#[derive(Debug, Clone, Copy, PartialEq, Eq, Structural)]
pub struct Anchor {
    pub x: i64,
    pub y: i64,
    pub markers_x: i32,
    pub markers_y: i32,
}

/// Where a place lies between the two ends of a side: -1, 0 or 1.
pub open spec fn place_h(pos: AlignH) -> int {
    match pos {
        AlignH::Left => -1,
        AlignH::Center => 0,
        AlignH::Right => 1,
    }
}

/// See [`place_h`].
pub open spec fn place_v(pos: AlignV) -> int {
    match pos {
        AlignV::Top => -1,
        AlignV::Middle => 0,
        AlignV::Bottom => 1,
    }
}

/// The place between `lo` and `hi`, in half pixels.
pub open spec fn between(place: int, lo: int, hi: int) -> int {
    if place < 0 {
        2 * lo
    } else if place > 0 {
        2 * hi
    } else {
        lo + hi
    }
}

/// `a` is the place that the label of box `b` is put at.
pub open spec fn is_anchor(a: Anchor, b: Box, cfg: FilterConfig) -> bool {
    if cfg.text_reference == TextReference::Marker {
        &&& a.x == 2 * b.center_x && a.y == 2 * b.center_y
        &&& a.markers_x == place_h(cfg.text_h_pos)
        &&& a.markers_y == place_v(cfg.text_v_pos)
    } else {
        &&& a.x == between(place_h(cfg.text_h_pos), b.min_x as int, b.max_x as int)
        &&& a.y == between(place_v(cfg.text_v_pos), b.min_y as int, b.max_y as int)
        &&& a.markers_x == 0 && a.markers_y == 0
    }
}

/// The place that the label of a box is put at.
pub fn anchor(b: &Box, cfg: &FilterConfig) -> (a: Anchor)
    ensures
        is_anchor(a, *b, *cfg),
{
    let h: i32 = match cfg.text_h_pos {
        AlignH::Left => -1,
        AlignH::Center => 0,
        AlignH::Right => 1,
    };
    let v: i32 = match cfg.text_v_pos {
        AlignV::Top => -1,
        AlignV::Middle => 0,
        AlignV::Bottom => 1,
    };
    if cfg.text_reference == TextReference::Marker {
        return Anchor {
            x: 2 * (b.center_x as i64),
            y: 2 * (b.center_y as i64),
            markers_x: h,
            markers_y: v,
        };
    }
    let (x0, x1) = (b.min_x as i64, b.max_x as i64);
    let (y0, y1) = (b.min_y as i64, b.max_y as i64);
    let x = if h < 0 {
        2 * x0
    } else if h > 0 {
        2 * x1
    } else {
        x0 + x1
    };
    let y = if v < 0 {
        2 * y0
    } else if v > 0 {
        2 * y1
    } else {
        y0 + y1
    };
    Anchor { x, y, markers_x: 0, markers_y: 0 }
}

/// How far before its place a label of the given size begins, in half pixels.
pub open spec fn shift_of(place: int, size: int) -> int {
    if place < 0 {
        0
    } else if place > 0 {
        2 * size
    } else {
        size
    }
}

/// How far left of its place a label of width `width` begins, in half pixels.
pub fn shift_left(align: AlignH, width: i32) -> (shift: i64)
    ensures
        shift == shift_of(place_h(align), width as int),
{
    match align {
        AlignH::Left => 0,
        AlignH::Center => width as i64,
        AlignH::Right => 2 * (width as i64),
    }
}

/// How far above its place a label of height `height` begins, in half pixels.
pub fn shift_up(align: AlignV, height: i32) -> (shift: i64)
    ensures
        shift == shift_of(place_v(align), height as int),
{
    match align {
        AlignV::Top => 0,
        AlignV::Middle => height as i64,
        AlignV::Bottom => 2 * (height as i64),
    }
}

/// The first pixel of a label that is to begin at `start`. A label that would
/// begin outside of the frame is moved to its edge.
pub open spec fn label_first(start: int) -> int {
    if start < 0 {
        0
    } else {
        start
    }
}

/// The last pixel of a label `size` long on a frame side of length `limit`.
pub open spec fn label_last(start: int, size: int, limit: int) -> int {
    let end = label_first(start) + size - 1;
    if end < limit - 1 {
        end
    } else {
        limit - 1
    }
}

/// The first and the last pixel that a label `size` long covers of a frame side
/// of length `limit`, if any.
pub fn label_span(start: i32, size: i32, limit: usize) -> (span: Option<(usize, usize)>)
    requires
        limit <= i32::MAX,
    ensures
        match span {
            Some((first, last)) => first == label_first(start as int) && last == label_last(
                start as int,
                size as int,
                limit as int,
            ) && first <= last,
            None => label_first(start as int) > label_last(
                start as int,
                size as int,
                limit as int,
            ),
        },
{
    let first: i64 = if start < 0 {
        0
    } else {
        start as i64
    };
    let end = first + size as i64 - 1;
    let last = if end < limit as i64 - 1 {
        end
    } else {
        limit as i64 - 1
    };
    if last < first {
        None
    } else {
        Some((first as usize, last as usize))
    }
}

/// A label is drawn neither outside of the frame nor beyond its own size.
pub proof fn law_label_stays_in_the_frame(start: int, size: int, limit: int, k: int)
    requires
        label_first(start) <= k <= label_last(start, size, limit),
    ensures
        0 <= k < limit,
        0 <= k - label_first(start) < size,
{
}

/// The bitmap that a label is rendered into: 4 bytes for each pixel, rows one
/// after the other.
#[derive(Debug, Clone, Copy, PartialEq, Eq, Structural)]
pub struct Bitmap {
    pub width: i32,
    pub height: i32,
    pub row_pitch: usize,
    pub size: usize,
}

/// The greatest extent to the right for which the bytes of a row can be counted.
pub const MAX_RIGHT: i32 = 0x1FFF_FFFE;

/// One pixel more than the extent, and at least one.
pub open spec fn padded(extent: int) -> int {
    if extent + 1 < 1 {
        1
    } else {
        extent + 1
    }
}

/// The bitmap for a label that reaches `right` pixels right and `bottom` pixels
/// down.
pub fn bitmap(right: i32, bottom: i32) -> (m: Bitmap)
    requires
        right <= MAX_RIGHT,
        bottom < i32::MAX,
        4 * padded(right as int) * padded(bottom as int) <= usize::MAX,
    ensures
        m.width == padded(right as int),
        m.height == padded(bottom as int),
        m.row_pitch == 4 * m.width,
        m.size == m.row_pitch * m.height,
{
    let width: i32 = if right < 0 {
        1
    } else {
        right + 1
    };
    let height: i32 = if bottom < 0 {
        1
    } else {
        bottom + 1
    };
    let row_pitch = width as usize * 4;
    Bitmap { width, height, row_pitch, size: row_pitch * height as usize }
}

/// The byte of a bitmap that holds the coverage of the pixel in column `x` of
/// row `y`.
pub fn coverage_index(m: &Bitmap, x: usize, y: usize) -> (i: usize)
    requires
        x < m.width,
        y < m.height,
        m.row_pitch == 4 * m.width,
        m.size == m.row_pitch * m.height,
    ensures
        i == y * m.row_pitch + 4 * x,
        i < m.size,
{
    proof {
        let (p, h) = (m.row_pitch as int, m.height as int);
        assert(y * p + 4 * x < p * h && 0 <= y * p) by (nonlinear_arith)
            requires
                0 <= y < h,
                0 <= 4 * x < p,
        ;
    }
    y * m.row_pitch + x * 4
}

/// Tells whether a coverage byte shows: more than one hundredth.
pub fn is_covered(coverage: u8) -> (r: bool)
    ensures
        r == (100 * coverage > 255),
{
    coverage > 2
}

/// A label follows the text that was set as soon as that holds a character that
/// is no white space.
pub proof fn law_visible_text_is_the_template(cfg: FilterConfig, i: int)
    requires
        0 <= i < cfg.text_content@.len(),
        ({
            let c = cfg.text_content@[i] as u32;
            ||| c <= 0x8 || 0xE <= c <= 0x1F || 0x21 <= c <= 0x84 || 0x86 <= c <= 0x9F
            ||| 0xA1 <= c <= 0x167F || 0x1681 <= c <= 0x1FFF || 0x200B <= c <= 0x2027
            ||| 0x202A <= c <= 0x202E || 0x2030 <= c <= 0x205E || 0x2060 <= c <= 0x2FFF
            ||| 0x3001 <= c
        }),
    ensures
        template_of(cfg) == cfg.text_content@,
{
    assert(!is_space(cfg.text_content@[i]));
}

/// A text of nothing but spaces of any width, tabs and line breaks counts as
/// none.
pub proof fn law_invisible_text_is_no_template(cfg: FilterConfig)
    requires
        forall|i: int|
            0 <= i < cfg.text_content@.len() ==> ({
                let c = #[trigger] cfg.text_content@[i];
                ||| c == ' ' || '\t' <= c <= '\r' || c == '\u{85}' || c == '\u{a0}'
                ||| c == '\u{1680}' || '\u{2000}' <= c <= '\u{200a}' || c == '\u{3000}'
                ||| c == '\u{2028}' || c == '\u{2029}' || c == '\u{202f}' || c == '\u{205f}'
            }),
    ensures
        template_of(cfg) == "X:$[box_x_position],Y:$[box_y_position]"@,
{
    assert forall|i: int| 0 <= i < cfg.text_content@.len() implies is_space(
        #[trigger] cfg.text_content@[i],
    ) by {}
}

/// A label speaks of its own box: of the columns from `x` on, `w` of them, and
/// the rows from `y` on, `h` of them, which are those of the box; of its colour,
/// its pixels and its identifier, and of all pixels of the frame.
pub proof fn law_label_speaks_of_its_box(
    ctx: BoxContext,
    b: Box,
    w: int,
    h: int,
    x: int,
    y: int,
)
    requires
        is_context_of(ctx, b, w, h),
    ensures
        ctx.x <= x < ctx.x + ctx.w <==> b.min_x <= x <= b.max_x,
        ctx.y <= y < ctx.y + ctx.h <==> b.min_y <= y <= b.max_y,
        ctx.x == b.min_x && ctx.y == b.min_y,
        (ctx.r, ctx.g, ctx.b) == (b.cr, b.cg, b.cb),
        ctx.pixels == b.pixels,
        ctx.id == b.id,
        ctx.total_pixels == w * h,
{
}

/// Boxes with different identifiers have labels with different seeds, which
/// differ by the spread of the identifiers alone.
pub proof fn law_labels_have_their_own_seeds(i: i32, j: i32)
    requires
        0 <= i,
        0 <= j,
    ensures
        label_seed(i) == label_seed(j) ==> i == j,
        label_seed(i) ^ 0x9E3779B97F4A7C15u64 == i * 0x9E3779B1,
{
    let (a, b) = (
        (i as u64).wrapping_mul(LABEL_SPREAD),
        (j as u64).wrapping_mul(LABEL_SPREAD),
    );
    vstd::arithmetic::div_mod::lemma_small_mod(
        (i * 0x9E3779B1) as nat,
        0x1_0000_0000_0000_0000,
    );
    vstd::arithmetic::div_mod::lemma_small_mod(
        (j * 0x9E3779B1) as nat,
        0x1_0000_0000_0000_0000,
    );
    assert(a == i * 0x9E3779B1 && b == j * 0x9E3779B1);
    let k = 0x9E3779B97F4A7C15u64;
    assert(k ^ a == k ^ b ==> a == b) by (bit_vector);
    assert((k ^ a) ^ k == a) by (bit_vector);
}

/// Where a label is put along one side. At the start of its box it lies at the
/// first pixel, at the end at the last one, and in the middle halfway between
/// them; at a marker it lies around the centre, half a marker further to the
/// start or to the end. The axes have nothing to do with each other.
pub proof fn law_labels_are_put_at_their_place(a: Anchor, b: Box, cfg: FilterConfig)
    requires
        is_anchor(a, b, cfg),
    ensures
        cfg.text_reference == TextReference::Box ==> {
            &&& a.markers_x == 0 && a.markers_y == 0
            &&& cfg.text_h_pos == AlignH::Left ==> a.x == 2 * b.min_x
            &&& cfg.text_h_pos == AlignH::Right ==> a.x == 2 * b.max_x
            &&& cfg.text_h_pos == AlignH::Center ==> a.x - 2 * b.min_x == 2 * b.max_x - a.x
            &&& cfg.text_v_pos == AlignV::Top ==> a.y == 2 * b.min_y
            &&& cfg.text_v_pos == AlignV::Bottom ==> a.y == 2 * b.max_y
            &&& cfg.text_v_pos == AlignV::Middle ==> a.y - 2 * b.min_y == 2 * b.max_y - a.y
        },
        cfg.text_reference == TextReference::Marker ==> {
            &&& a.x == 2 * b.center_x && a.y == 2 * b.center_y
            &&& cfg.text_h_pos == AlignH::Left ==> a.markers_x == -1
            &&& cfg.text_h_pos == AlignH::Center ==> a.markers_x == 0
            &&& cfg.text_h_pos == AlignH::Right ==> a.markers_x == 1
            &&& cfg.text_v_pos == AlignV::Top ==> a.markers_y == -1
            &&& cfg.text_v_pos == AlignV::Middle ==> a.markers_y == 0
            &&& cfg.text_v_pos == AlignV::Bottom ==> a.markers_y == 1
        },
{
}

/// A label aligned to the left or top begins at its place, one aligned to the
/// right or bottom ends there, and one in the middle reaches as far before its
/// place as behind it. Lengths are in half pixels.
pub proof fn law_labels_are_aligned(at: int, size: int)
    ensures
        at - shift_of(place_h(AlignH::Left), size) == at,
        at - shift_of(place_h(AlignH::Right), size) + 2 * size == at,
        at - (at - shift_of(place_h(AlignH::Center), size)) == (at - shift_of(
            place_h(AlignH::Center),
            size,
        ) + 2 * size) - at,
        shift_of(place_v(AlignV::Top), size) == 0,
        shift_of(place_v(AlignV::Bottom), size) == 2 * size,
        2 * shift_of(place_v(AlignV::Middle), size) == 2 * size,
{
}

/// A label covers the pixels of the frame from where it begins on, as many as it
/// is long; one that would begin before the frame begins at its edge.
pub proof fn law_label_covers_its_length(start: int, size: int, limit: int, k: int)
    ensures
        0 <= start ==> (label_first(start) <= k <= label_last(start, size, limit) <==> start <= k
            < start + size && k < limit),
        start < 0 ==> (label_first(start) <= k <= label_last(start, size, limit) <==> 0 <= k < size
            && k < limit),
{
}

/// The bitmap of a label has a column for every pixel from 0 to its extent, and
/// one at least.
pub proof fn law_bitmap_holds_the_extent(extent: int, k: int)
    ensures
        0 <= k < padded(extent) <==> k == 0 || 0 <= k <= extent,
{
}

} // verus!
