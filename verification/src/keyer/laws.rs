//! What keying, blobs and boxes mean in terms of pixels.
use super::blobs::{
    adjacent, blob, boxes_of_mask, boxes_pixels, connected, is_leader, is_path, keyed, leaders,
    lemma_connected_keyed, lemma_connected_self, lemma_connected_step,
    lemma_leader_of, lemma_leaders, Box,
};
use super::keying::{is_detection, key_mask, search_mask};
use super::mask::{dilated, near_keyed};
use super::select::{
    coloured, disjoint_first, fitting, is_choice, is_filtered, is_ranking,
    law_overlaps_are_removed, law_unfiltered_boxes_all_stay, numbered, overlap, rank, SizeRange,
};
use crate::config::{FilterConfig, KeyingMode, LumaTarget, OverlapMode};
use crate::grid::{column, index_of, lemma_coords, lemma_index, row};
use crate::pixel::RgbaPixel;
use vstd::prelude::*;

verus! {

/// The pixel in column `x` of row `y` lies in the box.
pub open spec fn in_box(b: Box, x: int, y: int) -> bool {
    b.min_x <= x <= b.max_x && b.min_y <= y <= b.max_y
}

/// Some pixel lies in both boxes.
pub open spec fn share_a_pixel(a: Box, b: Box) -> bool {
    exists|x: int, y: int| #[trigger] in_box(a, x, y) && in_box(b, x, y)
}

/// The box has pixels.
pub open spec fn is_proper(b: Box) -> bool {
    b.min_x <= b.max_x && b.min_y <= b.max_y
}

/// Two boxes overlap where some pixel lies in both, and nowhere else.
pub proof fn law_overlapping_is_sharing_a_pixel(a: Box, b: Box)
    requires
        is_proper(a),
        is_proper(b),
    ensures
        overlap(a, b) <==> exists|x: int, y: int|
            a.min_x <= x <= a.max_x && a.min_y <= y <= a.max_y && b.min_x <= x <= b.max_x && b.min_y
                <= y <= b.max_y && #[trigger] in_box(a, x, y),
        overlap(a, b) <==> share_a_pixel(a, b),
{
    if overlap(a, b) {
        let x = if a.min_x < b.min_x {
            b.min_x as int
        } else {
            a.min_x as int
        };
        let y = if a.min_y < b.min_y {
            b.min_y as int
        } else {
            a.min_y as int
        };
        assert(in_box(a, x, y) && in_box(b, x, y));
    }
}

/// A box that shares no pixel with any other is never removed for an overlap.
pub proof fn law_box_apart_from_the_others_stays(
    chosen: Seq<Box>,
    boxes: Seq<Box>,
    mode: OverlapMode,
    k: int,
)
    requires
        is_choice(chosen, boxes, mode),
        forall|j: int| 0 <= j < boxes.len() ==> is_proper(#[trigger] boxes[j]),
        0 <= k < boxes.len(),
        forall|j: int, x: int, y: int|
            0 <= j < boxes.len() && j != k && #[trigger] in_box(boxes[j], x, y) ==> !(
            boxes[k].min_x <= x <= boxes[k].max_x && boxes[k].min_y <= y <= boxes[k].max_y),
    ensures
        chosen.contains(boxes[k]),
{
    if mode != OverlapMode::Keep {
        law_overlaps_are_removed(chosen, boxes, mode);
        if !chosen.contains(boxes[k]) {
            let i = choose|i: int|
                0 <= i < chosen.len() && overlap(boxes[k], #[trigger] chosen[i]) && rank(
                    chosen[i],
                    mode,
                ) <= rank(boxes[k], mode);
            assert(boxes.contains(chosen[i]));
            let j = choose|j: int| 0 <= j < boxes.len() && boxes[j] == chosen[i];
            if j == k {
                assert(chosen[i] == boxes[k]);
            }
            law_overlapping_is_sharing_a_pixel(boxes[k], boxes[j]);
            let (x, y) = choose|x: int, y: int| #[trigger]
                in_box(boxes[k], x, y) && in_box(boxes[j], x, y);
            assert(in_box(boxes[j], x, y));
        }
    }
}

/// The number of pixels of a box: its width times its height.
pub open spec fn box_size(b: Box) -> int {
    (b.max_x - b.min_x + 1) * (b.max_y - b.min_y + 1)
}

/// Where overlapping boxes are removed, no two boxes left share a pixel. A box
/// that goes shares a pixel with one that stays, which has more pixels where
/// the smaller are to go and fewer where the bigger are, or as many and stood
/// before it.
pub proof fn law_removed_box_gives_way(
    chosen: Seq<Box>,
    boxes: Seq<Box>,
    mode: OverlapMode,
    k: int,
)
    requires
        mode != OverlapMode::Keep,
        is_choice(chosen, boxes, mode),
        forall|j: int| 0 <= j < boxes.len() ==> is_proper(#[trigger] boxes[j]),
        0 <= k < boxes.len(),
    ensures
        forall|i: int, j: int|
            0 <= i < j < chosen.len() ==> !share_a_pixel(#[trigger] chosen[i], #[trigger] chosen[j]),
        chosen.contains(boxes[k]) || exists|j: int|
            0 <= j < boxes.len() && chosen.contains(#[trigger] boxes[j]) && share_a_pixel(
                boxes[k],
                boxes[j],
            ) && {
                ||| mode == OverlapMode::RemoveSmaller && box_size(boxes[j]) > box_size(boxes[k])
                ||| mode == OverlapMode::RemoveBigger && box_size(boxes[j]) < box_size(boxes[k])
                ||| box_size(boxes[j]) == box_size(boxes[k]) && j < k
            },
{
    law_overlaps_are_removed(chosen, boxes, mode);
    assert forall|i: int, j: int| 0 <= i < j < chosen.len() implies !share_a_pixel(
        #[trigger] chosen[i],
        #[trigger] chosen[j],
    ) by {
        assert(boxes.contains(chosen[i]) && boxes.contains(chosen[j]));
        law_overlapping_is_sharing_a_pixel(chosen[i], chosen[j]);
    }
    if !chosen.contains(boxes[k]) {
        let ranked = choose|ranked: Seq<Box>| #[trigger]
            is_ranking(ranked, boxes, mode) && chosen == disjoint_first(ranked);
        let j = super::select::lemma_removed_for(ranked, boxes, mode, k);
        law_overlapping_is_sharing_a_pixel(boxes[k], boxes[j]);
        assert(chosen.contains(boxes[j]));
    }
}

/// The size filter keeps a box if one of its sides at least is long enough and
/// neither is too long, and keeps no other.
pub proof fn law_size_filter_looks_at_both_sides(boxes: Seq<Box>, range: SizeRange, b: Box)
    ensures
        fitting(boxes, Some(range)).contains(b) <==> boxes.contains(b) && {
            let width = b.max_x - b.min_x + 1;
            let height = b.max_y - b.min_y + 1;
            &&& width >= range.min_side || height >= range.min_side
            &&& width <= range.max_side && height <= range.max_side
        },
        fitting(boxes, None).contains(b) <==> boxes.contains(b),
{
    super::select::law_size_filter(boxes, Some(range), b);
    super::select::law_size_filter(boxes, None, b);
}

/// A box takes the colour that the frame has at the centre of the box, and
/// keeps all else. Where the centre lies outside of the frame, the pixel of the
/// frame that is nearest in either direction counts.
pub proof fn law_colour_is_the_one_at_the_centre(
    before: Seq<Box>,
    after: Seq<Box>,
    img: Seq<RgbaPixel>,
    w: int,
    h: int,
    i: int,
    x: int,
    y: int,
)
    requires
        after == before.map_values(|b: Box| coloured(b, img, w, h)),
        0 <= i < before.len(),
        0 <= x < w,
        0 <= y < h,
        before[i].center_x == x || x == 0 && before[i].center_x < 0 || x == w - 1
            && before[i].center_x >= w,
        before[i].center_y == y || y == 0 && before[i].center_y < 0 || y == h - 1
            && before[i].center_y >= h,
    ensures
        after.len() == before.len(),
        after[i].cr == img[y * w + x].r,
        after[i].cg == img[y * w + x].g,
        after[i].cb == img[y * w + x].b,
        after[i] == (Box {
            cr: after[i].cr,
            cg: after[i].cg,
            cb: after[i].cb,
            ..before[i]
        }),
{
}

/// Boxes with the same centre get the same colour, wherever their sides are.
pub proof fn law_same_centre_same_colour(
    a: Box,
    b: Box,
    img: Seq<RgbaPixel>,
    w: int,
    h: int,
)
    requires
        a.center_x == b.center_x,
        a.center_y == b.center_y,
    ensures
        coloured(a, img, w, h).cr == coloured(b, img, w, h).cr,
        coloured(a, img, w, h).cg == coloured(b, img, w, h).cg,
        coloured(a, img, w, h).cb == coloured(b, img, w, h).cb,
{
}

/// Which pixels are keyed. By brightness: those that reach the threshold, from
/// above or from below as the target says. By colour: those nearer to the key
/// colour than the threshold. By motion: those that changed by the threshold or
/// more, against an earlier frame of the same size.
pub proof fn law_keyed_pixels_pass_the_threshold(
    img: Seq<RgbaPixel>,
    n: int,
    cfg: FilterConfig,
    prev: Option<&[RgbaPixel]>,
    levels: Seq<i32>,
    limit: int,
    p: int,
)
    requires
        0 <= p < n,
    ensures
        ({
            let mask = key_mask(img, n, cfg, prev, levels, limit);
            let level = levels[p];
            &&& mask.len() == n
            &&& mask[p] == 0 || mask[p] == 1
            &&& cfg.key_mode == KeyingMode::Luminance && cfg.luma_target == LumaTarget::Brighter
                ==> (mask[p] == 1 <==> level >= limit)
            &&& cfg.key_mode == KeyingMode::Luminance && cfg.luma_target == LumaTarget::Darker
                ==> (mask[p] == 1 <==> level <= limit)
            &&& cfg.key_mode == KeyingMode::Color ==> (mask[p] == 1 <==> level < limit)
            &&& cfg.key_mode == KeyingMode::MotionDetection && prev is None ==> mask[p] == 0
            &&& cfg.key_mode == KeyingMode::MotionDetection && prev is Some ==> (mask[p] == 1
                <==> (prev->0)@.len() == img.len() && level >= limit)
        }),
{
}

/// Keying the brighter and keying the darker pixels takes every pixel between
/// them, and only those right at the threshold twice.
pub proof fn law_brighter_and_darker_meet_at_the_threshold(
    img: Seq<RgbaPixel>,
    n: int,
    brighter: FilterConfig,
    darker: FilterConfig,
    levels: Seq<i32>,
    limit: int,
    p: int,
)
    requires
        0 <= p < n,
        brighter.key_mode == KeyingMode::Luminance,
        brighter.luma_target == LumaTarget::Brighter,
        darker.key_mode == KeyingMode::Luminance,
        darker.luma_target == LumaTarget::Darker,
    ensures
        ({
            let a = key_mask(img, n, brighter, None, levels, limit);
            let b = key_mask(img, n, darker, None, levels, limit);
            &&& a[p] == 1 || b[p] == 1
            &&& a[p] == 1 && b[p] == 1 <==> levels[p] == limit
            &&& forall|q: int|
                0 <= q < n && a[p] == 1 && levels[p] <= #[trigger] levels[q] ==> a[q] == 1
            &&& forall|q: int|
                0 <= q < n && b[p] == 1 && levels[p] >= #[trigger] levels[q] ==> b[q] == 1
        }),
{
}

/// Growing a mask by `r` keys a pixel if and only if a keyed pixel lies within
/// `r` columns and `r` rows of it.
pub proof fn law_grown_pixels_are_near_keyed_ones(
    mask: Seq<u8>,
    w: int,
    h: int,
    r: int,
    x: int,
    y: int,
)
    requires
        0 <= x < w,
        0 <= y < h,
    ensures
        dilated(mask, w, h, r).len() == w * h,
        dilated(mask, w, h, r)[y * w + x] != 0 <==> exists|dx: int, dy: int|
            -r <= dx <= r && -r <= dy <= r && 0 <= x + dx < w && 0 <= y + dy < h && #[trigger] lit(
                mask,
                w,
                x + dx,
                y + dy,
            ),
{
    lemma_index(w, h, x, y);
    let p = index_of(w, x, y);
    if near_keyed(mask, w, h, r, p) {
        let q = choose|q: int| #[trigger]
            keyed(mask, w, h, q) && -r <= column(w, q) - x <= r && -r <= row(w, q) - y <= r;
        lemma_coords(w, h, q);
        let (dx, dy) = (column(w, q) - x, row(w, q) - y);
        assert(x + dx == column(w, q) && y + dy == row(w, q));
        assert(lit(mask, w, x + dx, y + dy));
    }
    if exists|dx: int, dy: int|
        -r <= dx <= r && -r <= dy <= r && 0 <= x + dx < w && 0 <= y + dy < h && #[trigger] lit(
            mask,
            w,
            x + dx,
            y + dy,
        ) {
        let (dx, dy) = choose|dx: int, dy: int|
            -r <= dx <= r && -r <= dy <= r && 0 <= x + dx < w && 0 <= y + dy < h && #[trigger] lit(
                mask,
                w,
                x + dx,
                y + dy,
            );
        lemma_index(w, h, x + dx, y + dy);
        assert(keyed(mask, w, h, index_of(w, x + dx, y + dy)));
    }
}

/// The pixel in column `x` of row `y` is set in the mask.
pub open spec fn lit(mask: Seq<u8>, w: int, x: int, y: int) -> bool {
    mask[y * w + x] != 0
}

/// Keyed pixels that share an edge belong to one blob.
pub proof fn law_edge_neighbours_belong_together(mask: Seq<u8>, w: int, h: int, x: int, y: int)
    requires
        0 <= x < w,
        0 <= y < h,
        lit(mask, w, x, y),
    ensures
        x + 1 < w && lit(mask, w, x + 1, y) ==> connected(
            mask,
            w,
            h,
            y * w + x,
            y * w + (x + 1),
        ),
        y + 1 < h && lit(mask, w, x, y + 1) ==> connected(
            mask,
            w,
            h,
            y * w + x,
            (y + 1) * w + x,
        ),
{
    let p = index_of(w, x, y);
    lemma_index(w, h, x, y);
    lemma_connected_self(mask, w, h, p);
    if x + 1 < w && lit(mask, w, x + 1, y) {
        lemma_index(w, h, x + 1, y);
        lemma_connected_step(mask, w, h, p, p, index_of(w, x + 1, y));
    }
    if y + 1 < h && lit(mask, w, x, y + 1) {
        lemma_index(w, h, x, y + 1);
        lemma_connected_step(mask, w, h, p, p, index_of(w, x, y + 1));
    }
}

/// A keyed pixel with no keyed pixel at its edges is a blob of its own, whatever
/// lies at its corners.
pub proof fn law_pixel_without_edge_neighbours_is_alone(
    mask: Seq<u8>,
    w: int,
    h: int,
    x: int,
    y: int,
    q: int,
)
    requires
        0 <= x < w,
        0 <= y < h,
        x > 0 ==> !lit(mask, w, x - 1, y),
        x + 1 < w ==> !lit(mask, w, x + 1, y),
        y > 0 ==> !lit(mask, w, x, y - 1),
        y + 1 < h ==> !lit(mask, w, x, y + 1),
        connected(mask, w, h, y * w + x, q),
    ensures
        q == y * w + x,
{
    let p = index_of(w, x, y);
    lemma_index(w, h, x, y);
    let path = choose|path: Seq<int>| #[trigger]
        is_path(mask, w, h, path) && path[0] == p && path[path.len() - 1] == q;
    if path.len() > 1 {
        let n = path[1];
        assert(keyed(mask, w, h, n));
        assert(adjacent(w, path[0], path[1]));
        lemma_coords(w, h, n);
        assert(n == index_of(w, column(w, n), row(w, n)));
        assert(lit(mask, w, column(w, n), row(w, n)));
    }
}

/// The pixel in column `x` of row `y` lies in the frame and belongs to the blob
/// of pixel `p`.
pub open spec fn in_blob(mask: Seq<u8>, w: int, h: int, p: int, x: int, y: int) -> bool {
    0 <= x < w && 0 <= y < h && connected(mask, w, h, p, y * w + x)
}

/// `b` is the box of the blob that pixel `p` belongs to: it holds the blob,
/// each of its sides touches it, and it counts its pixels.
pub open spec fn is_box_of_blob(b: Box, mask: Seq<u8>, w: int, h: int, p: int) -> bool {
    &&& forall|x: int, y: int| #[trigger]
        in_blob(mask, w, h, p, x, y) ==> b.min_x <= x <= b.max_x && b.min_y <= y <= b.max_y
    &&& column_meets(mask, w, h, p, b.min_x as int)
    &&& column_meets(mask, w, h, p, b.max_x as int)
    &&& row_meets(mask, w, h, p, b.min_y as int)
    &&& row_meets(mask, w, h, p, b.max_y as int)
    &&& b.pixels == blob_size(mask, w, h, p)
}

/// Column `x` holds a pixel of the blob of pixel `p`.
pub open spec fn column_meets(mask: Seq<u8>, w: int, h: int, p: int, x: int) -> bool {
    exists|y: int| #[trigger] in_blob(mask, w, h, p, x, y)
}

/// Row `y` holds a pixel of the blob of pixel `p`.
pub open spec fn row_meets(mask: Seq<u8>, w: int, h: int, p: int, y: int) -> bool {
    exists|x: int| #[trigger] in_blob(mask, w, h, p, x, y)
}

/// How many pixels the blob of pixel `p` has.
pub open spec fn blob_size(mask: Seq<u8>, w: int, h: int, p: int) -> nat {
    Set::new(|q: int| connected(mask, w, h, p, q)).len()
}

proof fn lemma_box_of_blob(b: Box, mask: Seq<u8>, w: int, h: int, p: int)
    requires
        0 < w,
        boxes_pixels(b, blob(mask, w, h, p), w),
    ensures
        is_box_of_blob(b, mask, w, h, p),
{
    let s = blob(mask, w, h, p);
    assert forall|x: int, y: int| #[trigger] in_blob(mask, w, h, p, x, y) implies b.min_x <= x
        <= b.max_x && b.min_y <= y <= b.max_y by {
        lemma_index(w, h, x, y);
        assert(s.contains(index_of(w, x, y)));
    }
    let left = choose|q: int| #[trigger] s.contains(q) && column(w, q) == b.min_x;
    let right = choose|q: int| #[trigger] s.contains(q) && column(w, q) == b.max_x;
    let top = choose|q: int| #[trigger] s.contains(q) && row(w, q) == b.min_y;
    let bottom = choose|q: int| #[trigger] s.contains(q) && row(w, q) == b.max_y;
    lemma_connected_keyed(mask, w, h, p, left);
    lemma_connected_keyed(mask, w, h, p, right);
    lemma_connected_keyed(mask, w, h, p, top);
    lemma_connected_keyed(mask, w, h, p, bottom);
    lemma_coords(w, h, left);
    lemma_coords(w, h, right);
    lemma_coords(w, h, top);
    lemma_coords(w, h, bottom);
    assert(in_blob(mask, w, h, p, b.min_x as int, row(w, left)));
    assert(in_blob(mask, w, h, p, b.max_x as int, row(w, right)));
    assert(in_blob(mask, w, h, p, column(w, top), b.min_y as int));
    assert(in_blob(mask, w, h, p, column(w, bottom), b.max_y as int));
}

/// The boxes are those of the blobs: pixel `firsts[i]` is the first of the blob
/// of box `i`, no two boxes have the same blob, no keyed pixel is left out, and
/// the boxes come in the order of their first pixels.
pub open spec fn are_boxes_of_blobs(
    boxes: Seq<Box>,
    firsts: Seq<int>,
    mask: Seq<u8>,
    w: int,
    h: int,
) -> bool {
    &&& boxes.len() == firsts.len()
    &&& forall|i: int|
        0 <= i < boxes.len() ==> is_box_of_blob(boxes[i], mask, w, h, #[trigger] firsts[i])
    &&& forall|i: int, j: int|
        0 <= i < j < firsts.len() ==> (#[trigger] firsts[i]) < (#[trigger] firsts[j])
            && !connected(mask, w, h, firsts[i], firsts[j])
    &&& forall|p: int| 0 <= p < w * h && mask[p] != 0 ==> #[trigger] belongs(firsts, mask, w, h, p)
}

/// Pixel `p` belongs to the blob of one of the pixels `firsts`, none of which
/// lies behind it.
pub open spec fn belongs(firsts: Seq<int>, mask: Seq<u8>, w: int, h: int, p: int) -> bool {
    exists|i: int|
        0 <= i < firsts.len() && (#[trigger] firsts[i]) <= p && connected(mask, w, h, firsts[i], p)
}

/// A mask has one box for each of its blobs.
#[verifier::spinoff_prover]
#[verifier::rlimit(40)]
pub proof fn law_each_blob_has_one_box(
    boxes: Seq<Box>,
    mask: Seq<u8>,
    w: int,
    h: int,
) -> (firsts: Seq<int>)
    requires
        0 < w,
        boxes_of_mask(boxes, mask, w, h, w * h),
    ensures
        are_boxes_of_blobs(boxes, firsts, mask, w, h),
{
    let firsts = leaders(mask, w, h, w * h);
    lemma_leaders(mask, w, h, w * h);
    assert forall|i: int| 0 <= i < boxes.len() implies is_box_of_blob(
        boxes[i],
        mask,
        w,
        h,
        #[trigger] firsts[i],
    ) by {
        assert(boxes_pixels(boxes[i], blob(mask, w, h, firsts[i]), w));
        lemma_box_of_blob(boxes[i], mask, w, h, firsts[i]);
    }
    assert forall|i: int, j: int| 0 <= i < j < firsts.len() implies (#[trigger] firsts[i]) < (
    #[trigger] firsts[j]) && !connected(mask, w, h, firsts[i], firsts[j]) by {
        assert(is_leader(mask, w, h, firsts[i]) && is_leader(mask, w, h, firsts[j]));
    }
    assert forall|p: int| 0 <= p < w * h && mask[p] != 0 implies #[trigger] belongs(
        firsts,
        mask,
        w,
        h,
        p,
    ) by {
        assert(keyed(mask, w, h, p));
        let l = lemma_leader_of(mask, w, h, p);
        assert(firsts.contains(l));
        let i = choose|i: int| 0 <= i < firsts.len() && firsts[i] == l;
        assert(connected(mask, w, h, firsts[i], p));
    }
    firsts
}

/// Blobs are the same in masks that key the same pixels.
proof fn lemma_connected_in_alike(a: Seq<u8>, b: Seq<u8>, w: int, h: int, p: int, q: int)
    requires
        forall|i: int| 0 <= i < w * h ==> (#[trigger] a[i] != 0 <==> b[i] != 0),
    ensures
        connected(a, w, h, p, q) <==> connected(b, w, h, p, q),
{
    assert forall|i: int| #[trigger] keyed(a, w, h, i) <==> keyed(b, w, h, i) by {
        if 0 <= i < w * h {
            assert(a[i] != 0 <==> b[i] != 0);
        }
    }
    if connected(a, w, h, p, q) {
        let path = choose|path: Seq<int>| #[trigger]
            is_path(a, w, h, path) && path[0] == p && path[path.len() - 1] == q;
        assert forall|i: int| 0 <= i < path.len() implies keyed(b, w, h, #[trigger] path[i]) by {
            assert(keyed(a, w, h, path[i]));
        }
        assert(is_path(b, w, h, path));
    }
    if connected(b, w, h, p, q) {
        let path = choose|path: Seq<int>| #[trigger]
            is_path(b, w, h, path) && path[0] == p && path[path.len() - 1] == q;
        assert forall|i: int| 0 <= i < path.len() implies keyed(a, w, h, #[trigger] path[i]) by {
            assert(keyed(b, w, h, path[i]));
        }
        assert(is_path(a, w, h, path));
    }
}

#[verifier::spinoff_prover]
#[verifier::rlimit(40)]
proof fn lemma_box_in_alike(c: Box, a: Seq<u8>, b: Seq<u8>, w: int, h: int, p: int)
    requires
        is_box_of_blob(c, a, w, h, p),
        forall|i: int| 0 <= i < w * h ==> (#[trigger] a[i] != 0 <==> b[i] != 0),
    ensures
        is_box_of_blob(c, b, w, h, p),
{
    assert forall|x: int, y: int| #[trigger] in_blob(a, w, h, p, x, y) <==> in_blob(
        b,
        w,
        h,
        p,
        x,
        y,
    ) by {
        lemma_connected_in_alike(a, b, w, h, p, y * w + x);
    }
    assert(blob_size(a, w, h, p) == blob_size(b, w, h, p)) by {
        assert forall|q: int| connected(a, w, h, p, q) <==> connected(b, w, h, p, q) by {
            lemma_connected_in_alike(a, b, w, h, p, q);
        }
        assert(Set::new(|q: int| connected(a, w, h, p, q)) =~= Set::new(
            |q: int| connected(b, w, h, p, q),
        ));
    }
    assert forall|x: int| #[trigger] column_meets(a, w, h, p, x) implies column_meets(
        b,
        w,
        h,
        p,
        x,
    ) by {
        let y = choose|y: int| #[trigger] in_blob(a, w, h, p, x, y);
        assert(in_blob(b, w, h, p, x, y));
    }
    assert forall|y: int| #[trigger] row_meets(a, w, h, p, y) implies row_meets(
        b,
        w,
        h,
        p,
        y,
    ) by {
        let x = choose|x: int| #[trigger] in_blob(a, w, h, p, x, y);
        assert(in_blob(b, w, h, p, x, y));
    }
    assert forall|x: int, y: int| #[trigger] in_blob(b, w, h, p, x, y) implies c.min_x <= x
        <= c.max_x && c.min_y <= y <= c.max_y by {
        assert(in_blob(a, w, h, p, x, y));
    }
}

#[verifier::spinoff_prover]
#[verifier::rlimit(40)]
proof fn lemma_boxes_in_alike(
    boxes: Seq<Box>,
    firsts: Seq<int>,
    a: Seq<u8>,
    b: Seq<u8>,
    w: int,
    h: int,
)
    requires
        are_boxes_of_blobs(boxes, firsts, a, w, h),
        forall|i: int| 0 <= i < w * h ==> (#[trigger] a[i] != 0 <==> b[i] != 0),
    ensures
        are_boxes_of_blobs(boxes, firsts, b, w, h),
{
    assert forall|i: int| 0 <= i < boxes.len() implies is_box_of_blob(
        boxes[i],
        b,
        w,
        h,
        #[trigger] firsts[i],
    ) by {
        lemma_box_in_alike(boxes[i], a, b, w, h, firsts[i]);
    }
    assert forall|i: int, j: int| 0 <= i < j < firsts.len() implies (#[trigger] firsts[i]) < (
    #[trigger] firsts[j]) && !connected(b, w, h, firsts[i], firsts[j]) by {
        lemma_connected_in_alike(a, b, w, h, firsts[i], firsts[j]);
    }
    assert forall|p: int| 0 <= p < w * h && b[p] != 0 implies #[trigger] belongs(
        firsts,
        b,
        w,
        h,
        p,
    ) by {
        assert(a[p] != 0);
        assert(belongs(firsts, a, w, h, p));
        let i = choose|i: int|
            0 <= i < firsts.len() && (#[trigger] firsts[i]) <= p && connected(
                a,
                w,
                h,
                firsts[i],
                p,
            );
        lemma_connected_in_alike(a, b, w, h, firsts[i], p);
    }
}

/// Without a size filter and with overlaps kept, the boxes detected in a frame
/// are those of the blobs of `seen`: of the keyed pixels themselves, and only
/// where motion is detected of the pixels within 2 columns and 2 rows of keyed
/// ones. They are numbered from 1 on and have the colour of the frame at their
/// centre.
#[verifier::spinoff_prover]
#[verifier::rlimit(40)]
pub proof fn law_detected_boxes_are_those_of_the_blobs(
    boxes: Seq<Box>,
    img: Seq<RgbaPixel>,
    mask: Seq<u8>,
    seen: Seq<u8>,
    w: int,
    h: int,
    cfg: FilterConfig,
) -> (firsts: Seq<int>)
    requires
        0 < w,
        cfg.overlap_mode == OverlapMode::Keep,
        is_detection(boxes, img, mask, w, h, cfg, None),
        cfg.key_mode != KeyingMode::MotionDetection ==> forall|p: int|
            0 <= p < w * h ==> (#[trigger] seen[p] != 0 <==> mask[p] != 0),
        cfg.key_mode == KeyingMode::MotionDetection ==> forall|x: int, y: int|
            0 <= x < w && 0 <= y < h ==> (#[trigger] lit(seen, w, x, y) <==> exists|
                dx: int,
                dy: int,
            |
                -2 <= dx <= 2 && -2 <= dy <= 2 && 0 <= x + dx < w && 0 <= y + dy < h
                    && #[trigger] lit(mask, w, x + dx, y + dy)),
    ensures
        are_boxes_of_blobs(boxes, firsts, seen, w, h),
        forall|i: int|
            0 <= i < boxes.len() && i < i32::MAX ==> (#[trigger] boxes[i]).id == i + 1,
        forall|i: int|
            0 <= i < boxes.len() ==> ({
                let b = #[trigger] boxes[i];
                let p = img[b.center_y * w + b.center_x];
                b.cr == p.r && b.cg == p.g && b.cb == p.b
            }),
        forall|i: int| 0 <= i < boxes.len() ==> lies_in_the_middle(#[trigger] boxes[i]),
{
    let search = search_mask(mask, w, h, cfg);
    let sizes: Option<SizeRange> = None;
    let (found, chosen) = choose|found: Seq<Box>, chosen: Seq<Box>|
        #![trigger boxes_of_mask(found, search, w, h, w * h),
            is_choice(chosen, fitting(found, sizes), cfg.overlap_mode)]
        boxes_of_mask(found, search, w, h, w * h) && is_choice(
            chosen,
            fitting(found, sizes),
            cfg.overlap_mode,
        ) && boxes == numbered(chosen).map_values(|b: Box| coloured(b, img, w, h));
    law_unfiltered_boxes_all_stay(chosen, found);
    let left = numbered(chosen);
    lemma_seen(mask, seen, w, h, cfg);
    let firsts = lemma_blobs_seen(found, search, seen, w, h);
    assert forall|i: int| 0 <= i < left.len() implies 0 <= (#[trigger] left[i]).center_x < w && 0
        <= left[i].center_y < h && lies_in_the_middle(left[i]) by {
        assert(lies_in_the_middle(found[i]));
    }
    lemma_coloured(left, boxes, img, w, h);
    lemma_same_places(found, boxes, firsts, seen, w, h);
    assert forall|i: int| 0 <= i < boxes.len() implies lies_in_the_middle(#[trigger] boxes[i]) by {
        assert(same_place(boxes[i], left[i]));
    }
    firsts
}

/// Which blobs boxes belong to depends on their places alone.
#[verifier::spinoff_prover]
#[verifier::rlimit(40)]
proof fn lemma_same_places(
    found: Seq<Box>,
    boxes: Seq<Box>,
    firsts: Seq<int>,
    mask: Seq<u8>,
    w: int,
    h: int,
)
    requires
        are_boxes_of_blobs(found, firsts, mask, w, h),
        boxes.len() == found.len(),
        forall|i: int| 0 <= i < boxes.len() ==> same_place(#[trigger] boxes[i], found[i]),
    ensures
        are_boxes_of_blobs(boxes, firsts, mask, w, h),
{
    assert forall|i: int| 0 <= i < boxes.len() implies is_box_of_blob(
        boxes[i],
        mask,
        w,
        h,
        #[trigger] firsts[i],
    ) by {
        assert(is_box_of_blob(found[i], mask, w, h, firsts[i]));
        assert(same_place(boxes[i], found[i]));
        lemma_box_by_place(found[i], boxes[i], mask, w, h, firsts[i]);
    }
}

proof fn lemma_centre(boxes: Seq<Box>, mask: Seq<u8>, w: int, h: int, i: int)
    requires
        0 < w,
        boxes_of_mask(boxes, mask, w, h, w * h),
        0 <= i < boxes.len(),
    ensures
        ({
            let b = boxes[i];
            &&& 0 <= b.center_x < w
            &&& 0 <= b.center_y < h
            &&& b.min_x + b.max_x <= 2 * b.center_x <= b.min_x + b.max_x + 1
            &&& b.min_y + b.max_y <= 2 * b.center_y <= b.min_y + b.max_y + 1
        }),
{
    assert(boxes_pixels(boxes[i], blob(mask, w, h, leaders(mask, w, h, w * h)[i]), w));
    super::blobs::law_boxes_lie_in_the_frame(boxes, mask, w, h, i);
}

proof fn lemma_box_by_place(a: Box, b: Box, mask: Seq<u8>, w: int, h: int, p: int)
    requires
        is_box_of_blob(a, mask, w, h, p),
        same_place(b, a),
    ensures
        is_box_of_blob(b, mask, w, h, p),
{
}

/// The boxes of a mask come from the top down: none begins above the one before
/// it.
pub proof fn law_boxes_come_from_the_top_down(
    boxes: Seq<Box>,
    mask: Seq<u8>,
    w: int,
    h: int,
    i: int,
    j: int,
)
    requires
        0 < w,
        boxes_of_mask(boxes, mask, w, h, w * h),
        0 <= i < j < boxes.len(),
    ensures
        boxes[i].min_y <= boxes[j].min_y,
{
    let all = leaders(mask, w, h, w * h);
    lemma_leaders(mask, w, h, w * h);
    let (a, b) = (all[i], all[j]);
    let t = blob(mask, w, h, b);
    assert(boxes_pixels(boxes[i], blob(mask, w, h, a), w));
    assert(boxes_pixels(boxes[j], t, w));
    assert(is_leader(mask, w, h, a) && is_leader(mask, w, h, b));
    lemma_connected_self(mask, w, h, a);
    assert(blob(mask, w, h, a).contains(a));
    let top = choose|q: int| #[trigger] t.contains(q) && row(w, q) == boxes[j].min_y;
    lemma_connected_keyed(mask, w, h, b, top);
    super::blobs::lemma_connected_symmetric(mask, w, h, b, top);
    assert(top >= b);
    lemma_coords(w, h, a);
    lemma_coords(w, h, top);
    let (ra, rt) = (row(w, a), row(w, top));
    assert(ra <= rt) by (nonlinear_arith)
        requires
            a < top,
            a == ra * w + column(w, a),
            top == rt * w + column(w, top),
            0 <= column(w, a),
            0 <= column(w, top) < w,
            0 < w,
    ;
}

/// A keyed pixel that has no keyed pixel at its edges has a box of its own that
/// holds that pixel and no other.
pub proof fn law_lone_pixel_has_its_own_box(
    boxes: Seq<Box>,
    mask: Seq<u8>,
    w: int,
    h: int,
    x: int,
    y: int,
) -> (i: int)
    requires
        boxes_of_mask(boxes, mask, w, h, w * h),
        0 <= x < w,
        0 <= y < h,
        lit(mask, w, x, y),
        x > 0 ==> !lit(mask, w, x - 1, y),
        x + 1 < w ==> !lit(mask, w, x + 1, y),
        y > 0 ==> !lit(mask, w, x, y - 1),
        y + 1 < h ==> !lit(mask, w, x, y + 1),
    ensures
        0 <= i < boxes.len(),
        boxes[i].min_x == x && boxes[i].max_x == x && boxes[i].center_x == x,
        boxes[i].min_y == y && boxes[i].max_y == y && boxes[i].center_y == y,
        boxes[i].pixels == 1,
{
    let p = index_of(w, x, y);
    lemma_index(w, h, x, y);
    assert(keyed(mask, w, h, p));
    lemma_leaders(mask, w, h, w * h);
    let all = leaders(mask, w, h, w * h);
    let l = lemma_leader_of(mask, w, h, p);
    super::blobs::lemma_connected_symmetric(mask, w, h, l, p);
    law_pixel_without_edge_neighbours_is_alone(mask, w, h, x, y, l);
    assert(all.contains(l));
    let i = choose|i: int| 0 <= i < all.len() && all[i] == l;
    let s = blob(mask, w, h, all[i]);
    assert(boxes_pixels(boxes[i], s, w));
    lemma_connected_self(mask, w, h, p);
    assert(s =~= set![p]) by {
        assert forall|q: int| s.contains(q) implies q == p by {
            law_pixel_without_edge_neighbours_is_alone(mask, w, h, x, y, q);
        }
    }
    i
}

/// The boxes have the same sides, centre and pixels.
pub open spec fn same_place(a: Box, b: Box) -> bool {
    &&& a.min_x == b.min_x && a.max_x == b.max_x && a.min_y == b.min_y && a.max_y == b.max_y
    &&& a.center_x == b.center_x && a.center_y == b.center_y
    &&& a.pixels == b.pixels
}

/// A side of the box is long enough, and neither is too long.
pub open spec fn has_size(b: Box, sizes: Option<SizeRange>) -> bool {
    sizes is Some ==> {
        let width = b.max_x - b.min_x + 1;
        let height = b.max_y - b.min_y + 1;
        &&& width >= (sizes->0).min_side || height >= (sizes->0).min_side
        &&& width <= (sizes->0).max_side && height <= (sizes->0).max_side
    }
}

/// The boxes are the same but for their identifiers.
pub open spec fn is_numbered(a: Box, b: Box) -> bool {
    same_place(a, b) && a.cr == b.cr && a.cg == b.cg && a.cb == b.cb
}

/// The box is one of `boxes`, but for its identifier.
pub open spec fn comes_from(b: Box, boxes: Seq<Box>) -> bool {
    exists|k: int| 0 <= k < boxes.len() && is_numbered(#[trigger] boxes[k], b)
}

/// What filtering leaves: the boxes left are among those before and have a size
/// that is allowed, are numbered from 1 on, and no two of them share a pixel
/// where overlaps are removed. A box of an allowed size goes only where overlaps
/// are removed, and only for one that is left and shares a pixel with it: never
/// for one that the size filter took.
#[verifier::spinoff_prover]
#[verifier::rlimit(40)]
pub proof fn law_filtering_keeps_what_fits(
    before: Seq<Box>,
    after: Seq<Box>,
    sizes: Option<SizeRange>,
    mode: OverlapMode,
)
    requires
        is_filtered(before, after, sizes, mode),
        forall|j: int| 0 <= j < before.len() ==> is_proper(#[trigger] before[j]),
    ensures
        forall|i: int|
            0 <= i < after.len() ==> has_size(#[trigger] after[i], sizes) && comes_from(
                after[i],
                before,
            ),
        forall|i: int| 0 <= i < after.len() && i < i32::MAX ==> (#[trigger] after[i]).id == i + 1,
        mode != OverlapMode::Keep ==> forall|i: int, j: int|
            0 <= i < j < after.len() ==> !share_a_pixel(#[trigger] after[i], #[trigger] after[j]),
        forall|k: int|
            0 <= k < before.len() && has_size(#[trigger] before[k], sizes) ==> exists|i: int|
                0 <= i < after.len() && (same_place(#[trigger] after[i], before[k]) || mode
                    != OverlapMode::Keep && share_a_pixel(before[k], after[i])),
{
    let fit = fitting(before, sizes);
    let chosen = choose|chosen: Seq<Box>| #[trigger]
        is_choice(chosen, fit, mode) && after == numbered(chosen);
    assert forall|b: Box| #[trigger] fit.contains(b) <==> before.contains(b) && has_size(
        b,
        sizes,
    ) by {
        if let Some(range) = sizes {
            law_size_filter_looks_at_both_sides(before, range, b);
        } else {
            law_size_filter_looks_at_both_sides(
                before,
                SizeRange { min_side: 0, max_side: 0 },
                b,
            );
        }
    }
    assert forall|j: int| 0 <= j < fit.len() implies is_proper(#[trigger] fit[j]) by {
        assert(fit.contains(fit[j]));
        let k = choose|k: int| 0 <= k < before.len() && before[k] == fit[j];
        assert(is_proper(before[k]));
    }
    assert forall|i: int| 0 <= i < chosen.len() implies fit.contains(#[trigger] chosen[i]) by {
        if mode != OverlapMode::Keep {
            law_overlaps_are_removed(chosen, fit, mode);
        }
    }
    assert forall|i: int| 0 <= i < after.len() implies has_size(#[trigger] after[i], sizes)
        && comes_from(after[i], before) by {
        assert(fit.contains(chosen[i]));
        let k = choose|k: int| 0 <= k < before.len() && before[k] == chosen[i];
        assert(is_numbered(before[k], after[i]));
        assert(has_size(chosen[i], sizes));
    }
    if mode != OverlapMode::Keep {
        assert forall|i: int, j: int| 0 <= i < j < after.len() implies !share_a_pixel(
            #[trigger] after[i],
            #[trigger] after[j],
        ) by {
            assert(fit.contains(chosen[i]));
            let k = choose|k: int| 0 <= k < fit.len() && fit[k] == chosen[i];
            law_removed_box_gives_way(chosen, fit, mode, k);
            assert(!share_a_pixel(chosen[i], chosen[j]));
            lemma_shares_by_sides(chosen[i], chosen[j], after[i], after[j]);
        }
    }
    assert forall|k: int| 0 <= k < before.len() && has_size(#[trigger] before[k], sizes) implies exists|
        i: int,
    |
        0 <= i < after.len() && (same_place(#[trigger] after[i], before[k]) || mode
            != OverlapMode::Keep && share_a_pixel(before[k], after[i])) by {
        assert(fit.contains(before[k]));
        let m = choose|m: int| 0 <= m < fit.len() && fit[m] == before[k];
        if chosen.contains(before[k]) {
            let i = choose|i: int| 0 <= i < chosen.len() && chosen[i] == before[k];
            assert(same_place(after[i], before[k]));
        } else {
            assert(mode != OverlapMode::Keep) by {
                if mode == OverlapMode::Keep {
                    assert(chosen[m] == before[k]);
                }
            }
            law_removed_box_gives_way(chosen, fit, mode, m);
            let j = choose|j: int|
                0 <= j < fit.len() && chosen.contains(#[trigger] fit[j]) && share_a_pixel(
                    fit[m],
                    fit[j],
                );
            let i = choose|i: int| 0 <= i < chosen.len() && chosen[i] == fit[j];
            lemma_shares_by_sides(fit[m], fit[j], before[k], after[i]);
            assert(share_a_pixel(before[k], after[i]));
        }
    }
}

/// Whether boxes share a pixel depends on their sides alone.
proof fn lemma_shares_by_sides(a: Box, b: Box, c: Box, d: Box)
    requires
        a.min_x == c.min_x && a.max_x == c.max_x && a.min_y == c.min_y && a.max_y == c.max_y,
        b.min_x == d.min_x && b.max_x == d.max_x && b.min_y == d.min_y && b.max_y == d.max_y,
    ensures
        share_a_pixel(a, b) <==> share_a_pixel(c, d),
{
    if share_a_pixel(a, b) {
        let (x, y) = choose|x: int, y: int| #[trigger] in_box(a, x, y) && in_box(b, x, y);
        assert(in_box(c, x, y) && in_box(d, x, y));
    }
    if share_a_pixel(c, d) {
        let (x, y) = choose|x: int, y: int| #[trigger] in_box(c, x, y) && in_box(d, x, y);
        assert(in_box(a, x, y) && in_box(b, x, y));
    }
}

/// Detection finds the boxes of the blobs of the keyed pixels, grown where motion
/// is detected, filters them, and gives each the colour of the frame at its
/// centre.
#[verifier::spinoff_prover]
#[verifier::rlimit(40)]
pub proof fn law_detection_finds_filters_and_colours(
    boxes: Seq<Box>,
    img: Seq<RgbaPixel>,
    mask: Seq<u8>,
    seen: Seq<u8>,
    w: int,
    h: int,
    cfg: FilterConfig,
    sizes: Option<SizeRange>,
) -> (r: (Seq<Box>, Seq<int>, Seq<Box>))
    requires
        0 < w,
        is_detection(boxes, img, mask, w, h, cfg, sizes),
        cfg.key_mode != KeyingMode::MotionDetection ==> forall|p: int|
            0 <= p < w * h ==> (#[trigger] seen[p] != 0 <==> mask[p] != 0),
        cfg.key_mode == KeyingMode::MotionDetection ==> forall|x: int, y: int|
            0 <= x < w && 0 <= y < h ==> (#[trigger] lit(seen, w, x, y) <==> exists|
                dx: int,
                dy: int,
            |
                -2 <= dx <= 2 && -2 <= dy <= 2 && 0 <= x + dx < w && 0 <= y + dy < h
                    && #[trigger] lit(mask, w, x + dx, y + dy)),
    ensures
        ({
            let (found, firsts, left) = r;
            &&& are_boxes_of_blobs(found, firsts, seen, w, h)
            &&& forall|i: int| 0 <= i < found.len() ==> is_proper(#[trigger] found[i])
            &&& is_filtered(found, left, sizes, cfg.overlap_mode)
            &&& boxes.len() == left.len()
            &&& forall|i: int|
                0 <= i < boxes.len() ==> {
                    let b = #[trigger] boxes[i];
                    &&& same_place(b, left[i])
                    &&& b.id == left[i].id
                    &&& 0 <= b.center_x < w && 0 <= b.center_y < h
                    &&& b.cr == img[b.center_y * w + b.center_x].r
                    &&& b.cg == img[b.center_y * w + b.center_x].g
                    &&& b.cb == img[b.center_y * w + b.center_x].b
                }
        }),
{
    let search = search_mask(mask, w, h, cfg);
    let (found, chosen) = choose|found: Seq<Box>, chosen: Seq<Box>|
        #![trigger boxes_of_mask(found, search, w, h, w * h),
            is_choice(chosen, fitting(found, sizes), cfg.overlap_mode)]
        boxes_of_mask(found, search, w, h, w * h) && is_choice(
            chosen,
            fitting(found, sizes),
            cfg.overlap_mode,
        ) && boxes == numbered(chosen).map_values(|b: Box| coloured(b, img, w, h));
    let left = numbered(chosen);
    lemma_seen(mask, seen, w, h, cfg);
    let firsts = lemma_blobs_seen(found, search, seen, w, h);
    assert(is_filtered(found, left, sizes, cfg.overlap_mode));
    law_filtering_keeps_what_fits(found, left, sizes, cfg.overlap_mode);
    assert forall|i: int| 0 <= i < left.len() implies 0 <= (#[trigger] left[i]).center_x < w && 0
        <= left[i].center_y < h by {
        assert(comes_from(left[i], found));
        let k = choose|k: int| 0 <= k < found.len() && is_numbered(#[trigger] found[k], left[i]);
        assert(0 <= found[k].center_x < w);
    }
    lemma_coloured(left, boxes, img, w, h);
    (found, firsts, left)
}

/// The boxes of a mask are those of any mask that keys the same pixels.
#[verifier::spinoff_prover]
#[verifier::rlimit(40)]
proof fn lemma_blobs_seen(
    found: Seq<Box>,
    search: Seq<u8>,
    seen: Seq<u8>,
    w: int,
    h: int,
) -> (firsts: Seq<int>)
    requires
        0 < w,
        boxes_of_mask(found, search, w, h, w * h),
        forall|p: int| 0 <= p < w * h ==> (#[trigger] search[p] != 0 <==> seen[p] != 0),
    ensures
        are_boxes_of_blobs(found, firsts, seen, w, h),
        forall|i: int|
            0 <= i < found.len() ==> is_proper(#[trigger] found[i]) && 0 <= found[i].center_x < w
                && 0 <= found[i].center_y < h && lies_in_the_middle(found[i]),
{
    let firsts = law_each_blob_has_one_box(found, search, w, h);
    lemma_boxes_in_alike(found, firsts, search, seen, w, h);
    assert forall|i: int| 0 <= i < found.len() implies is_proper(#[trigger] found[i]) && 0
        <= found[i].center_x < w && 0 <= found[i].center_y < h && lies_in_the_middle(found[i]) by {
        lemma_centre(found, search, w, h, i);
        super::blobs::law_boxes_lie_in_the_frame(found, search, w, h, i);
    }
    firsts
}

/// The centre of the box lies in the middle of its sides, or half a pixel behind
/// it.
pub open spec fn lies_in_the_middle(b: Box) -> bool {
    &&& b.min_x + b.max_x <= 2 * b.center_x <= b.min_x + b.max_x + 1
    &&& b.min_y + b.max_y <= 2 * b.center_y <= b.min_y + b.max_y + 1
}

/// What colouring does to boxes with their centres in the frame.
proof fn lemma_coloured(left: Seq<Box>, boxes: Seq<Box>, img: Seq<RgbaPixel>, w: int, h: int)
    requires
        boxes == left.map_values(|b: Box| coloured(b, img, w, h)),
        forall|i: int|
            0 <= i < left.len() ==> 0 <= (#[trigger] left[i]).center_x < w && 0
                <= left[i].center_y < h,
    ensures
        boxes.len() == left.len(),
        forall|i: int|
            0 <= i < boxes.len() ==> {
                let b = #[trigger] boxes[i];
                &&& same_place(b, left[i])
                &&& b.id == left[i].id
                &&& 0 <= b.center_x < w && 0 <= b.center_y < h
                &&& b.cr == img[b.center_y * w + b.center_x].r
                &&& b.cg == img[b.center_y * w + b.center_x].g
                &&& b.cb == img[b.center_y * w + b.center_x].b
            },
{
    assert forall|i: int| 0 <= i < boxes.len() implies {
        let b = #[trigger] boxes[i];
        &&& same_place(b, left[i])
        &&& b.id == left[i].id
        &&& 0 <= b.center_x < w && 0 <= b.center_y < h
        &&& b.cr == img[b.center_y * w + b.center_x].r
        &&& b.cg == img[b.center_y * w + b.center_x].g
        &&& b.cb == img[b.center_y * w + b.center_x].b
    } by {
        assert(0 <= left[i].center_x < w);
    }
}

/// The mask that blobs are looked for in keys what is seen.
proof fn lemma_seen(mask: Seq<u8>, seen: Seq<u8>, w: int, h: int, cfg: FilterConfig)
    requires
        0 < w,
        cfg.key_mode != KeyingMode::MotionDetection ==> forall|p: int|
            0 <= p < w * h ==> (#[trigger] seen[p] != 0 <==> mask[p] != 0),
        cfg.key_mode == KeyingMode::MotionDetection ==> forall|x: int, y: int|
            0 <= x < w && 0 <= y < h ==> (#[trigger] lit(seen, w, x, y) <==> exists|
                dx: int,
                dy: int,
            |
                -2 <= dx <= 2 && -2 <= dy <= 2 && 0 <= x + dx < w && 0 <= y + dy < h
                    && #[trigger] lit(mask, w, x + dx, y + dy)),
    ensures
        forall|p: int|
            0 <= p < w * h ==> (#[trigger] search_mask(mask, w, h, cfg)[p] != 0 <==> seen[p] != 0),
{
    let search = search_mask(mask, w, h, cfg);
    assert forall|p: int| 0 <= p < w * h implies (#[trigger] search[p] != 0 <==> seen[p] != 0) by {
        if cfg.key_mode == KeyingMode::MotionDetection {
            lemma_coords(w, h, p);
            let (x, y) = (column(w, p), row(w, p));
            assert(p == y * w + x);
            law_grown_pixels_are_near_keyed_ones(mask, w, h, 2, x, y);
            assert(lit(seen, w, x, y) <==> seen[p] != 0);
        }
    }
}

/// The centre of a box lies in the middle of its sides; where there is no pixel
/// in the middle, it is the one behind it.
pub proof fn law_centre_is_the_middle(boxes: Seq<Box>, mask: Seq<u8>, w: int, h: int, i: int)
    requires
        0 < w,
        boxes_of_mask(boxes, mask, w, h, w * h),
        0 <= i < boxes.len(),
    ensures
        ({
            let b = boxes[i];
            let (left, right) = (b.center_x - b.min_x, b.max_x - b.center_x);
            let (above, below) = (b.center_y - b.min_y, b.max_y - b.center_y);
            &&& left == right || left == right + 1
            &&& above == below || above == below + 1
        }),
{
    lemma_centre(boxes, mask, w, h, i);
}

} // verus!
