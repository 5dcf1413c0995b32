//! Choosing, numbering and colouring boxes.
use super::blobs::Box;
use crate::config::{FilterConfig, OverlapMode};
use crate::grid::{index_of, lemma_index};
use crate::order::{
    is_stable_order, law_sorted_keys_stay, lemma_permutation_reaches,
    lemma_stable_order_is_permutation, precedes, stable_order,
};
use crate::pixel::RgbaPixel;
use vstd::prelude::*;

verus! {

/// The lengths that the longer side of a box may have, both ends included.
#[derive(Debug, Clone, Copy)]
pub struct SizeRange {
    pub min_side: i64,
    pub max_side: i64,
}

/// The width of a box in pixels.
pub open spec fn width_of(b: Box) -> int {
    b.max_x - b.min_x + 1
}

/// The height of a box in pixels.
pub open spec fn height_of(b: Box) -> int {
    b.max_y - b.min_y + 1
}

/// The length of the longer side of a box.
pub open spec fn longer_side(b: Box) -> int {
    if width_of(b) < height_of(b) {
        height_of(b)
    } else {
        width_of(b)
    }
}

/// The area of a box.
pub open spec fn area_of(b: Box) -> int {
    width_of(b) * height_of(b)
}

/// Two boxes have a pixel in common.
pub open spec fn overlap(a: Box, b: Box) -> bool {
    a.min_x <= b.max_x && b.min_x <= a.max_x && a.min_y <= b.max_y && b.min_y <= a.max_y
}

/// The size filter lets a box pass.
pub open spec fn fits(b: Box, sizes: Option<SizeRange>) -> bool {
    match sizes {
        Some(range) => range.min_side <= longer_side(b) <= range.max_side,
        None => true,
    }
}

/// The boxes that the size filter lets pass, in their order.
pub open spec fn fitting(boxes: Seq<Box>, sizes: Option<SizeRange>) -> Seq<Box> {
    boxes.filter(|b: Box| fits(b, sizes))
}

/// The key by which overlap removal ranks a box: bigger boxes first where the
/// smaller are to go, smaller boxes first where the bigger are.
pub open spec fn rank(b: Box, mode: OverlapMode) -> int {
    match mode {
        OverlapMode::Keep => 0,
        OverlapMode::RemoveSmaller => -area_of(b),
        OverlapMode::RemoveBigger => area_of(b),
    }
}

/// `ranked` is `boxes` sorted by rank, boxes of equal rank in their own order.
pub open spec fn is_ranking(ranked: Seq<Box>, boxes: Seq<Box>, mode: OverlapMode) -> bool {
    exists|keys: Seq<i128>, order: Seq<usize>| #[trigger]
        is_stable_order(keys, order) && keys.len() == boxes.len() && (forall|i: int|
            0 <= i < keys.len() ==> #[trigger] keys[i] == rank(boxes[i], mode)) && ranked
            == Seq::new(order.len(), |i: int| boxes[order[i] as int])
}

/// Going through `boxes` in order, the boxes that overlap none kept before.
pub open spec fn disjoint_first(boxes: Seq<Box>) -> Seq<Box>
    decreases boxes.len(),
{
    if boxes.len() == 0 {
        Seq::empty()
    } else {
        let kept = disjoint_first(boxes.drop_last());
        if exists|i: int| 0 <= i < kept.len() && overlap(boxes.last(), #[trigger] kept[i]) {
            kept
        } else {
            kept.push(boxes.last())
        }
    }
}

/// `chosen` is what overlap removal leaves of `boxes`.
pub open spec fn is_choice(chosen: Seq<Box>, boxes: Seq<Box>, mode: OverlapMode) -> bool {
    match mode {
        OverlapMode::Keep => chosen == boxes,
        _ => exists|ranked: Seq<Box>| #[trigger]
            is_ranking(ranked, boxes, mode) && chosen == disjoint_first(ranked),
    }
}

/// The boxes with the identifiers 1, 2, 3 and so on, which wrap around behind
/// the largest `i32`.
pub open spec fn numbered(boxes: Seq<Box>) -> Seq<Box> {
    Seq::new(boxes.len(), |i: int| Box { id: (i + 1) as i32, ..boxes[i] })
}

/// `after` is what the size filter and the overlap setting leave of `before`,
/// numbered.
pub open spec fn is_filtered(
    before: Seq<Box>,
    after: Seq<Box>,
    sizes: Option<SizeRange>,
    mode: OverlapMode,
) -> bool {
    exists|chosen: Seq<Box>| #[trigger]
        is_choice(chosen, fitting(before, sizes), mode) && after == numbered(chosen)
}

/// Tells whether two boxes have a pixel in common.
pub fn boxes_overlap(a: &Box, b: &Box) -> (r: bool)
    ensures
        r == overlap(*a, *b),
{
    a.min_x <= b.max_x && b.min_x <= a.max_x && a.min_y <= b.max_y && b.min_y <= a.max_y
}

/// The length of the longer side of a box.
pub fn long_side(b: &Box) -> (side: i64)
    ensures
        side == longer_side(*b),
{
    let width = b.max_x as i64 - b.min_x as i64 + 1;
    let height = b.max_y as i64 - b.min_y as i64 + 1;
    if width < height {
        height
    } else {
        width
    }
}

/// The area of a box in pixels.
pub fn area(b: &Box) -> (r: i128)
    ensures
        r == area_of(*b),
{
    let width = b.max_x as i128 - b.min_x as i128 + 1;
    let height = b.max_y as i128 - b.min_y as i128 + 1;
    assert(-0x1_0000_0000_0000_0000 <= width * height <= 0x1_0000_0000_0000_0000)
        by (nonlinear_arith)
        requires
            -0x1_0000_0000 <= width <= 0x1_0000_0000,
            -0x1_0000_0000 <= height <= 0x1_0000_0000,
    ;
    width * height
}

/// Keeps the boxes that the size filter lets pass.
fn keep_fitting(boxes: &Vec<Box>, sizes: Option<SizeRange>) -> (out: Vec<Box>)
    ensures
        out@ == fitting(boxes@, sizes),
{
    let ghost pred = |b: Box| fits(b, sizes);
    let mut out: Vec<Box> = Vec::new();
    let mut i: usize = 0;
    assert(boxes@.take(0).filter(pred) =~= Seq::<Box>::empty()) by {
        reveal(Seq::filter);
    }
    while i < boxes.len()
        invariant
            i <= boxes@.len(),
            pred == (|b: Box| fits(b, sizes)),
            out@ == boxes@.take(i as int).filter(pred),
        decreases boxes@.len() - i,
    {
        let b = boxes[i];
        proof {
            reveal(Seq::filter);
            assert(boxes@.take(i + 1).drop_last() =~= boxes@.take(i as int));
        }
        let keep = match sizes {
            Some(range) => {
                let side = long_side(&b);
                range.min_side <= side && side <= range.max_side
            },
            None => true,
        };
        if keep {
            out.push(b);
        }
        i = i + 1;
    }
    assert(boxes@.take(boxes@.len() as int) =~= boxes@);
    out
}

/// Sorts boxes by their rank in overlap removal.
fn ranked_boxes(boxes: &Vec<Box>, mode: OverlapMode) -> (out: Vec<Box>)
    ensures
        is_ranking(out@, boxes@, mode),
{
    let mut keys: Vec<i128> = Vec::new();
    let mut i: usize = 0;
    while i < boxes.len()
        invariant
            i <= boxes@.len(),
            keys@.len() == i,
            forall|k: int| 0 <= k < i ==> #[trigger] keys@[k] == rank(boxes@[k], mode),
        decreases boxes@.len() - i,
    {
        let size = area(&boxes[i]);
        proof {
            let b = boxes@[i as int];
            let (width, height) = (width_of(b), height_of(b));
            assert(-0x1_0000_0000_0000_0000 <= width * height <= 0x1_0000_0000_0000_0000)
                by (nonlinear_arith)
                requires
                    -0x1_0000_0000 <= width <= 0x1_0000_0000,
                    -0x1_0000_0000 <= height <= 0x1_0000_0000,
            ;
        }
        let key = match mode {
            OverlapMode::Keep => 0,
            OverlapMode::RemoveSmaller => 0 - size,
            OverlapMode::RemoveBigger => size,
        };
        keys.push(key);
        i = i + 1;
    }
    let order = stable_order(&keys);
    let mut out: Vec<Box> = Vec::new();
    let mut j: usize = 0;
    while j < order.len()
        invariant
            j <= order@.len(),
            is_stable_order(keys@, order@),
            keys@.len() == boxes@.len(),
            out@.len() == j,
            forall|k: int| 0 <= k < j ==> #[trigger] out@[k] == boxes@[order@[k] as int],
        decreases order@.len() - j,
    {
        out.push(boxes[order[j]]);
        j = j + 1;
    }
    assert(out@ =~= Seq::new(order@.len(), |k: int| boxes@[order@[k] as int]));
    out
}

/// Goes through boxes in order and keeps those that overlap none kept before.
fn keep_disjoint(boxes: &Vec<Box>) -> (kept: Vec<Box>)
    ensures
        kept@ == disjoint_first(boxes@),
{
    let mut kept: Vec<Box> = Vec::new();
    let mut i: usize = 0;
    while i < boxes.len()
        invariant
            i <= boxes@.len(),
            kept@ == disjoint_first(boxes@.take(i as int)),
        decreases boxes@.len() - i,
    {
        let b = boxes[i];
        let mut clash = false;
        let mut j: usize = 0;
        while j < kept.len()
            invariant
                j <= kept@.len(),
                clash <==> exists|k: int| 0 <= k < j && overlap(b, #[trigger] kept@[k]),
            decreases kept@.len() - j,
        {
            if boxes_overlap(&b, &kept[j]) {
                clash = true;
            }
            j = j + 1;
        }
        assert(boxes@.take(i + 1).drop_last() =~= boxes@.take(i as int));
        if !clash {
            kept.push(b);
        }
        i = i + 1;
    }
    assert(boxes@.take(boxes@.len() as int) =~= boxes@);
    kept
}

/// Applies the size filter and the overlap setting to boxes and numbers those
/// that remain from 1 on.
pub fn filter_boxes(boxes: &mut Vec<Box>, sizes: Option<SizeRange>, cfg: &FilterConfig)
    ensures
        exists|chosen: Seq<Box>| #[trigger]
            is_choice(chosen, fitting(old(boxes)@, sizes), cfg.overlap_mode) && final(boxes)@
                == numbered(chosen),
        is_filtered(old(boxes)@, final(boxes)@, sizes, cfg.overlap_mode),
        forall|i: int|
            0 <= i < final(boxes)@.len() && i < i32::MAX ==> (#[trigger] final(boxes)@[i]).id == i
                + 1,
{
    let fit = keep_fitting(boxes, sizes);
    let mut chosen = match cfg.overlap_mode {
        OverlapMode::Keep => fit,
        _ => {
            let ranked = ranked_boxes(&fit, cfg.overlap_mode);
            keep_disjoint(&ranked)
        },
    };
    let ghost before = chosen@;
    assert(is_choice(before, fitting(old(boxes)@, sizes), cfg.overlap_mode));
    let mut i: usize = 0;
    while i < chosen.len()
        invariant
            i <= chosen@.len(),
            chosen@.len() == before.len(),
            forall|k: int|
                0 <= k < chosen@.len() ==> #[trigger] chosen@[k] == if k < i {
                    numbered(before)[k]
                } else {
                    before[k]
                },
        decreases chosen@.len() - i,
    {
        let mut b = chosen[i];
        b.id = (i + 1) as i32;
        chosen.set(i, b);
        i = i + 1;
    }
    assert(chosen@ =~= numbered(before));
    *boxes = chosen;
}

proof fn lemma_disjoint_first_len(boxes: Seq<Box>)
    ensures
        disjoint_first(boxes).len() <= boxes.len(),
    decreases boxes.len(),
{
    if boxes.len() > 0 {
        lemma_disjoint_first_len(boxes.drop_last());
    }
}

/// Overlap removal adds no boxes.
pub proof fn lemma_choice_len(chosen: Seq<Box>, boxes: Seq<Box>, mode: OverlapMode)
    requires
        is_choice(chosen, boxes, mode),
    ensures
        chosen.len() <= boxes.len(),
{
    if mode != OverlapMode::Keep {
        let ranked = choose|ranked: Seq<Box>| #[trigger]
            is_ranking(ranked, boxes, mode) && chosen == disjoint_first(ranked);
        lemma_disjoint_first_len(ranked);
    }
}

/// What is kept of boxes in order: no two of them overlap, and what is not kept
/// overlaps one that was kept before it.
proof fn lemma_disjoint_first(boxes: Seq<Box>)
    ensures
        forall|i: int, j: int|
            0 <= i < j < disjoint_first(boxes).len() ==> !overlap(
                #[trigger] disjoint_first(boxes)[i],
                #[trigger] disjoint_first(boxes)[j],
            ),
        forall|i: int|
            0 <= i < disjoint_first(boxes).len() ==> boxes.contains(
                #[trigger] disjoint_first(boxes)[i],
            ),
        forall|k: int|
            0 <= k < boxes.len() ==> disjoint_first(boxes).contains(#[trigger] boxes[k])
                || exists|p: int|
                0 <= p < k && disjoint_first(boxes).contains(#[trigger] boxes[p]) && overlap(
                    boxes[k],
                    boxes[p],
                ),
    decreases boxes.len(),
{
    if boxes.len() > 0 {
        let before = boxes.drop_last();
        let last = boxes.last();
        let m = before.len() as int;
        let part = disjoint_first(before);
        let kept = disjoint_first(boxes);
        lemma_disjoint_first(before);
        assert forall|i: int, j: int| 0 <= i < j < kept.len() implies !overlap(
            #[trigger] kept[i],
            #[trigger] kept[j],
        ) by {
            assert(kept[i] == part[i]);
            if j < part.len() {
                assert(kept[j] == part[j]);
            } else {
                assert(!overlap(last, part[i]));
            }
        }
        assert forall|i: int| 0 <= i < kept.len() implies boxes.contains(#[trigger] kept[i]) by {
            if i < part.len() {
                assert(before.contains(part[i]));
                let k = choose|k: int| 0 <= k < before.len() && before[k] == part[i];
                assert(boxes[k] == kept[i]);
            } else {
                assert(boxes[m] == kept[i]);
            }
        }
        assert forall|b: Box| part.contains(b) implies kept.contains(b) by {
            let i = choose|i: int| 0 <= i < part.len() && part[i] == b;
            assert(kept[i] == b);
        }
        assert forall|k: int| 0 <= k < boxes.len() implies kept.contains(#[trigger] boxes[k])
            || exists|p: int|
            0 <= p < k && kept.contains(#[trigger] boxes[p]) && overlap(boxes[k], boxes[p]) by {
            if k < m {
                assert(before[k] == boxes[k]);
                if !part.contains(before[k]) {
                    let p = choose|p: int|
                        0 <= p < k && part.contains(#[trigger] before[p]) && overlap(
                            before[k],
                            before[p],
                        );
                    assert(boxes[p] == before[p]);
                }
            } else if kept.len() > part.len() {
                assert(kept[part.len() as int] == boxes[k]);
            } else {
                let i = choose|i: int| 0 <= i < part.len() && overlap(last, #[trigger] part[i]);
                assert(before.contains(part[i]));
                let p = choose|p: int| 0 <= p < before.len() && before[p] == part[i];
                assert(boxes[p] == part[i]);
                assert(part.contains(part[i]));
            }
        }
    }
}

/// Where overlapping boxes are removed, no two of the boxes left overlap, and a
/// box goes only for one that it overlaps and that ranks no lower.
pub proof fn law_overlaps_are_removed(chosen: Seq<Box>, boxes: Seq<Box>, mode: OverlapMode)
    requires
        mode != OverlapMode::Keep,
        is_choice(chosen, boxes, mode),
    ensures
        forall|i: int, j: int|
            0 <= i < j < chosen.len() ==> !overlap(#[trigger] chosen[i], #[trigger] chosen[j]),
        forall|i: int| 0 <= i < chosen.len() ==> boxes.contains(#[trigger] chosen[i]),
        forall|k: int|
            0 <= k < boxes.len() ==> chosen.contains(#[trigger] boxes[k]) || exists|i: int|
                0 <= i < chosen.len() && overlap(boxes[k], #[trigger] chosen[i]) && rank(
                    chosen[i],
                    mode,
                ) <= rank(boxes[k], mode),
{
    let ranked = choose|ranked: Seq<Box>| #[trigger]
        is_ranking(ranked, boxes, mode) && chosen == disjoint_first(ranked);
    let (keys, order) = choose|keys: Seq<i128>, order: Seq<usize>| #[trigger]
        is_stable_order(keys, order) && keys.len() == boxes.len() && (forall|i: int|
            0 <= i < keys.len() ==> #[trigger] keys[i] == rank(boxes[i], mode)) && ranked
            == Seq::new(order.len(), |i: int| boxes[order[i] as int]);
    lemma_disjoint_first(ranked);
    lemma_stable_order_is_permutation(keys, order);
    assert forall|i: int| 0 <= i < chosen.len() implies boxes.contains(#[trigger] chosen[i]) by {
        assert(ranked.contains(chosen[i]));
        let k = choose|k: int| 0 <= k < ranked.len() && ranked[k] == chosen[i];
        assert(boxes[order[k] as int] == chosen[i]);
    }
    assert forall|k: int| 0 <= k < boxes.len() implies chosen.contains(#[trigger] boxes[k])
        || exists|i: int|
        0 <= i < chosen.len() && overlap(boxes[k], #[trigger] chosen[i]) && rank(chosen[i], mode)
            <= rank(boxes[k], mode) by {
        let r = lemma_permutation_reaches(order, boxes.len() as int, k);
        assert(ranked[r] == boxes[k]);
        if !chosen.contains(ranked[r]) {
            let p = choose|p: int|
                0 <= p < r && chosen.contains(#[trigger] ranked[p]) && overlap(
                    ranked[r],
                    ranked[p],
                );
            assert(precedes(keys, order[p] as int, order[r] as int));
            let i = choose|i: int| 0 <= i < chosen.len() && chosen[i] == ranked[p];
            assert(overlap(boxes[k], chosen[i]));
            assert(keys[order[p] as int] == rank(boxes[order[p] as int], mode));
            assert(keys[k] == rank(boxes[k], mode));
        }
    }
}

/// The box for which box `k` is removed: it stays, overlaps that box, and ranks
/// before it or stands before it.
pub proof fn lemma_removed_for(
    ranked: Seq<Box>,
    boxes: Seq<Box>,
    mode: OverlapMode,
    k: int,
) -> (j: int)
    requires
        is_ranking(ranked, boxes, mode),
        0 <= k < boxes.len(),
        !disjoint_first(ranked).contains(boxes[k]),
    ensures
        0 <= j < boxes.len(),
        disjoint_first(ranked).contains(boxes[j]),
        overlap(boxes[k], boxes[j]),
        rank(boxes[j], mode) < rank(boxes[k], mode) || rank(boxes[j], mode) == rank(boxes[k], mode)
            && j < k,
{
    let chosen = disjoint_first(ranked);
    let (keys, order) = choose|keys: Seq<i128>, order: Seq<usize>| #[trigger]
        is_stable_order(keys, order) && keys.len() == boxes.len() && (forall|i: int|
            0 <= i < keys.len() ==> #[trigger] keys[i] == rank(boxes[i], mode)) && ranked
            == Seq::new(order.len(), |i: int| boxes[order[i] as int]);
    lemma_disjoint_first(ranked);
    lemma_stable_order_is_permutation(keys, order);
    let r = lemma_permutation_reaches(order, boxes.len() as int, k);
    assert(ranked[r] == boxes[k]);
    let p = choose|p: int|
        0 <= p < r && chosen.contains(#[trigger] ranked[p]) && overlap(ranked[r], ranked[p]);
    assert(precedes(keys, order[p] as int, order[r] as int));
    let j = order[p] as int;
    assert(boxes[j] == ranked[p]);
    assert(keys[j] == rank(boxes[j], mode));
    assert(keys[k] == rank(boxes[k], mode));
    j
}

/// Without a size filter, and where overlapping boxes are kept, no box goes.
pub proof fn law_unfiltered_boxes_all_stay(chosen: Seq<Box>, boxes: Seq<Box>)
    requires
        is_choice(chosen, fitting(boxes, None), OverlapMode::Keep),
    ensures
        chosen == boxes,
{
    lemma_all_fit(boxes, None);
}

/// The size filter leaves boxes that all fit as they are.
proof fn lemma_all_fit(boxes: Seq<Box>, sizes: Option<SizeRange>)
    requires
        forall|i: int| 0 <= i < boxes.len() ==> fits(#[trigger] boxes[i], sizes),
    ensures
        fitting(boxes, sizes) == boxes,
    decreases boxes.len(),
{
    reveal(Seq::filter);
    if boxes.len() > 0 {
        lemma_all_fit(boxes.drop_last(), sizes);
        assert(boxes.drop_last().push(boxes.last()) =~= boxes);
    }
}

/// The size filter keeps the boxes whose longer side it allows, and no others.
pub proof fn law_size_filter(boxes: Seq<Box>, sizes: Option<SizeRange>, b: Box)
    ensures
        fitting(boxes, sizes).contains(b) <==> boxes.contains(b) && fits(b, sizes),
{
    let pred = |b: Box| fits(b, sizes);
    let kept = boxes.filter(pred);
    if kept.contains(b) {
        let i = choose|i: int| 0 <= i < kept.len() && kept[i] == b;
        boxes.lemma_filter_pred(pred, i);
        boxes.lemma_filter_contains_rev(pred, b);
    }
    if boxes.contains(b) && fits(b, sizes) {
        let i = choose|i: int| 0 <= i < boxes.len() && boxes[i] == b;
        boxes.lemma_filter_contains(pred, i);
    }
}

/// The boxes that remain are numbered 1, 2, 3 and so on, and keep what else
/// they have.
pub proof fn law_boxes_are_numbered(boxes: Seq<Box>, i: int)
    requires
        boxes.len() <= i32::MAX,
        0 <= i < boxes.len(),
    ensures
        numbered(boxes).len() == boxes.len(),
        numbered(boxes)[i].id == i + 1,
        numbered(boxes)[i] == (Box { id: numbered(boxes)[i].id, ..boxes[i] }),
{
}

/// `boxes` come in the order of their ranks.
spec fn rises(boxes: Seq<Box>, mode: OverlapMode) -> bool {
    forall|i: int, j: int|
        0 <= i < j < boxes.len() ==> rank(#[trigger] boxes[i], mode) <= rank(
            #[trigger] boxes[j],
            mode,
        )
}

/// No two of `boxes` overlap.
spec fn disjoint(boxes: Seq<Box>) -> bool {
    forall|i: int, j: int|
        0 <= i < j < boxes.len() ==> !overlap(#[trigger] boxes[i], #[trigger] boxes[j])
}

proof fn lemma_ranking_rises(ranked: Seq<Box>, boxes: Seq<Box>, mode: OverlapMode)
    requires
        is_ranking(ranked, boxes, mode),
    ensures
        rises(ranked, mode),
{
    let (keys, order) = choose|keys: Seq<i128>, order: Seq<usize>| #[trigger]
        is_stable_order(keys, order) && keys.len() == boxes.len() && (forall|i: int|
            0 <= i < keys.len() ==> #[trigger] keys[i] == rank(boxes[i], mode)) && ranked
            == Seq::new(order.len(), |i: int| boxes[order[i] as int]);
    assert forall|i: int, j: int| 0 <= i < j < ranked.len() implies rank(
        #[trigger] ranked[i],
        mode,
    ) <= rank(#[trigger] ranked[j], mode) by {
        assert(precedes(keys, order[i] as int, order[j] as int));
    }
}

/// Boxes that come in the order of their ranks are their own ranking.
proof fn lemma_risen_ranking(ranked: Seq<Box>, boxes: Seq<Box>, mode: OverlapMode)
    requires
        rises(boxes, mode),
        is_ranking(ranked, boxes, mode),
    ensures
        ranked == boxes,
{
    let (keys, order) = choose|keys: Seq<i128>, order: Seq<usize>| #[trigger]
        is_stable_order(keys, order) && keys.len() == boxes.len() && (forall|i: int|
            0 <= i < keys.len() ==> #[trigger] keys[i] == rank(boxes[i], mode)) && ranked
            == Seq::new(order.len(), |i: int| boxes[order[i] as int]);
    assert forall|i: int| 0 <= i < ranked.len() implies ranked[i] == boxes[i] by {
        law_sorted_keys_stay(keys, order, i);
    }
    assert(ranked =~= boxes);
}

/// What is kept of boxes in the order of their ranks is in that order too.
proof fn lemma_kept_rises(boxes: Seq<Box>, mode: OverlapMode)
    requires
        rises(boxes, mode),
    ensures
        rises(disjoint_first(boxes), mode),
    decreases boxes.len(),
{
    if boxes.len() > 0 {
        let before = boxes.drop_last();
        let part = disjoint_first(before);
        let kept = disjoint_first(boxes);
        lemma_kept_rises(before, mode);
        lemma_disjoint_first(before);
        assert forall|i: int, j: int| 0 <= i < j < kept.len() implies rank(
            #[trigger] kept[i],
            mode,
        ) <= rank(#[trigger] kept[j], mode) by {
            assert(kept[i] == part[i]);
            if j < part.len() {
                assert(kept[j] == part[j]);
            } else {
                assert(before.contains(part[i]));
                let k = choose|k: int| 0 <= k < before.len() && before[k] == part[i];
                assert(boxes[k] == kept[i]);
                assert(boxes[boxes.len() - 1] == kept[j]);
            }
        }
    }
}

/// Of boxes of which no two overlap all are kept.
proof fn lemma_disjoint_all_kept(boxes: Seq<Box>)
    requires
        disjoint(boxes),
    ensures
        disjoint_first(boxes) == boxes,
    decreases boxes.len(),
{
    if boxes.len() > 0 {
        let before = boxes.drop_last();
        lemma_disjoint_all_kept(before);
        assert forall|i: int| 0 <= i < before.len() implies !overlap(
            boxes.last(),
            #[trigger] before[i],
        ) by {
            assert(!overlap(boxes[i], boxes[boxes.len() - 1]));
        }
        assert(before.push(boxes.last()) =~= boxes);
    }
}

/// Filtering what a filtering has left, with the same settings, changes
/// nothing: the same boxes stay, in the same order, with the same identifiers.
pub proof fn law_filtering_twice_changes_nothing(
    boxes: Seq<Box>,
    first: Seq<Box>,
    second: Seq<Box>,
    sizes: Option<SizeRange>,
    mode: OverlapMode,
)
    requires
        is_choice(first, fitting(boxes, sizes), mode),
        is_choice(second, fitting(numbered(first), sizes), mode),
    ensures
        numbered(second) == numbered(first),
{
    let fit = fitting(boxes, sizes);
    let once = numbered(first);
    if mode != OverlapMode::Keep {
        law_overlaps_are_removed(first, fit, mode);
    }
    assert forall|i: int| 0 <= i < once.len() implies fits(#[trigger] once[i], sizes) by {
        assert(fit.contains(first[i]));
        law_size_filter(boxes, sizes, first[i]);
    }
    lemma_all_fit(once, sizes);
    if mode != OverlapMode::Keep {
        let ranked = choose|ranked: Seq<Box>| #[trigger]
            is_ranking(ranked, fit, mode) && first == disjoint_first(ranked);
        lemma_ranking_rises(ranked, fit, mode);
        lemma_kept_rises(ranked, mode);
        assert(rises(once, mode)) by {
            assert forall|i: int, j: int| 0 <= i < j < once.len() implies rank(
                #[trigger] once[i],
                mode,
            ) <= rank(#[trigger] once[j], mode) by {
                assert(rank(first[i], mode) <= rank(first[j], mode));
            }
        }
        assert(disjoint(once)) by {
            assert forall|i: int, j: int| 0 <= i < j < once.len() implies !overlap(
                #[trigger] once[i],
                #[trigger] once[j],
            ) by {
                assert(!overlap(first[i], first[j]));
            }
        }
        let again = choose|ranked: Seq<Box>| #[trigger]
            is_ranking(ranked, once, mode) && second == disjoint_first(ranked);
        lemma_risen_ranking(again, once, mode);
        lemma_disjoint_all_kept(once);
    }
    assert(numbered(once) =~= once);
}

/// The coordinate of the frame side of length `limit` that is nearest to `c`.
pub open spec fn clamped(c: int, limit: int) -> int {
    if c < 0 {
        0
    } else if c > limit - 1 {
        limit - 1
    } else {
        c
    }
}

/// The box with the colour that the frame has at its centre.
pub open spec fn coloured(b: Box, img: Seq<RgbaPixel>, w: int, h: int) -> Box {
    let p = img[index_of(w, clamped(b.center_x as int, w), clamped(b.center_y as int, h))];
    Box { cr: p.r, cg: p.g, cb: p.b, ..b }
}

/// Moves a coordinate into the frame.
fn clamp_coord(c: i32, limit: usize) -> (r: usize)
    requires
        0 < limit <= i32::MAX,
    ensures
        r == clamped(c as int, limit as int),
{
    if c < 0 {
        0
    } else if c as usize > limit - 1 {
        limit - 1
    } else {
        c as usize
    }
}

/// Gives every box the colour that the frame has at its centre.
pub fn sample_box_colors(img: &[RgbaPixel], w: usize, h: usize, boxes: &mut [Box])
    requires
        old(boxes)@.len() > 0 ==> 0 < w <= i32::MAX && 0 < h <= i32::MAX,
        w * h <= img@.len(),
    ensures
        final(boxes)@ == old(boxes)@.map_values(
            |b: Box| coloured(b, img@, w as int, h as int),
        ),
        forall|i: int|
            0 <= i < final(boxes)@.len() && 0 <= (#[trigger] final(boxes)@[i]).center_x < w && 0
                <= final(boxes)@[i].center_y < h ==> ({
                let b = final(boxes)@[i];
                let p = img@[b.center_y * w + b.center_x];
                b.cr == p.r && b.cg == p.g && b.cb == p.b
            }),
{
    let ghost before = boxes@;
    let mut i: usize = 0;
    while i < boxes.len()
        invariant
            before.len() > 0 ==> 0 < w <= i32::MAX && 0 < h <= i32::MAX,
            w * h <= img@.len(),
            i <= boxes@.len(),
            boxes@.len() == before.len(),
            forall|k: int|
                0 <= k < boxes@.len() ==> #[trigger] boxes@[k] == if k < i {
                    coloured(before[k], img@, w as int, h as int)
                } else {
                    before[k]
                },
        decreases boxes@.len() - i,
    {
        let mut b = boxes[i];
        let x = clamp_coord(b.center_x, w);
        let y = clamp_coord(b.center_y, h);
        let n = img.len();
        proof {
            lemma_index(w as int, h as int, x as int, y as int);
            assert(0 <= y * w) by (nonlinear_arith)
                requires
                    0 <= y,
                    0 <= w,
            ;
        }
        let p = img[y * w + x];
        b.cr = p.r;
        b.cg = p.g;
        b.cb = p.b;
        boxes[i] = b;
        i = i + 1;
    }
    assert(boxes@ =~= before.map_values(|b: Box| coloured(b, img@, w as int, h as int)));
}

} // verus!
