//! From a frame to the boxes of what is keyed in it.
use super::blobs::{boxes_of_mask, find_boxes, keyed, law_blank_mask_has_no_boxes, Box};
use super::mask::{dilate_mask, dilated, near_keyed};
use super::select::{
    coloured, filter_boxes, fits, fitting, is_choice, lemma_choice_len, numbered,
    sample_box_colors, SizeRange,
};
use crate::config::{FilterConfig, KeyingMode, LumaTarget};
use crate::pixel::RgbaPixel;
use vstd::prelude::*;

verus! {

/// How far what moved is grown, so that its fragments run together.
pub const MOTION_GROWTH: usize = 2;

/// A pixel whose measured level is `level` is keyed.
pub open spec fn passes(cfg: FilterConfig, level: int, limit: int) -> bool {
    match cfg.key_mode {
        KeyingMode::Luminance => if cfg.luma_target == LumaTarget::Brighter {
            level >= limit
        } else {
            level <= limit
        },
        KeyingMode::Color => level < limit,
        KeyingMode::MotionDetection => level >= limit,
    }
}

/// There is nothing to see the motion against: no earlier frame, or one of
/// another size.
pub open spec fn lacks_motion(
    cfg: FilterConfig,
    img: Seq<RgbaPixel>,
    prev: Option<&[RgbaPixel]>,
) -> bool {
    cfg.key_mode == KeyingMode::MotionDetection && match prev {
        Some(frame) => frame@.len() != img.len(),
        None => true,
    }
}

/// The mask of the first `n` pixels: 1 for keyed pixels, 0 for the others.
pub open spec fn key_mask(
    img: Seq<RgbaPixel>,
    n: int,
    cfg: FilterConfig,
    prev: Option<&[RgbaPixel]>,
    levels: Seq<i32>,
    limit: int,
) -> Seq<u8> {
    Seq::new(
        n as nat,
        |p: int|
            if !lacks_motion(cfg, img, prev) && passes(cfg, levels[p] as int, limit) {
                1u8
            } else {
                0u8
            },
    )
}

/// Keys a frame by the measured levels of its pixels.
///
/// `levels` ranks for each pixel what the keying mode looks at: its brightness,
/// its distance from the key colour, or its change against the earlier frame
/// `prev`. `limit` is the rank of the threshold.
pub fn compute_key_mask(
    img: &[RgbaPixel],
    w: usize,
    h: usize,
    cfg: &FilterConfig,
    prev: Option<&[RgbaPixel]>,
    levels: &[i32],
    limit: i32,
) -> (mask: Vec<u8>)
    requires
        w * h <= usize::MAX,
        !lacks_motion(*cfg, img@, prev) ==> w * h <= levels@.len(),
    ensures
        mask@ == key_mask(img@, w * h, *cfg, prev, levels@, limit as int),
{
    let ghost all = key_mask(img@, w * h, *cfg, prev, levels@, limit as int);
    proof {
        assert(0 <= w * h) by (nonlinear_arith)
            requires
                0 <= w,
                0 <= h,
        ;
    }
    let n = w * h;
    let blank = cfg.key_mode == KeyingMode::MotionDetection && match prev {
        Some(frame) => frame.len() != img.len(),
        None => true,
    };
    let mut mask: Vec<u8> = Vec::with_capacity(n);
    let mut i: usize = 0;
    while i < n
        invariant
            i <= n,
            blank == lacks_motion(*cfg, img@, prev),
            !blank ==> n <= levels@.len(),
            all == key_mask(img@, n as int, *cfg, prev, levels@, limit as int),
            mask@ == all.take(i as int),
        decreases n - i,
    {
        let on = !blank && {
            let level = levels[i];
            match cfg.key_mode {
                KeyingMode::Luminance => if cfg.luma_target == LumaTarget::Brighter {
                    level >= limit
                } else {
                    level <= limit
                },
                KeyingMode::Color => level < limit,
                KeyingMode::MotionDetection => level >= limit,
            }
        };
        mask.push(if on { 1 } else { 0 });
        i = i + 1;
    }
    assert(mask@ =~= all);
    mask
}

/// The mask in which blobs are looked for: what moved is grown first.
pub open spec fn search_mask(mask: Seq<u8>, w: int, h: int, cfg: FilterConfig) -> Seq<u8> {
    if cfg.key_mode == KeyingMode::MotionDetection {
        dilated(mask, w, h, MOTION_GROWTH as int)
    } else {
        mask
    }
}

/// `boxes` are the boxes of a frame with the given mask: those of its blobs
/// that the settings let pass, numbered, with the frame's colours.
pub open spec fn is_detection(
    boxes: Seq<Box>,
    img: Seq<RgbaPixel>,
    mask: Seq<u8>,
    w: int,
    h: int,
    cfg: FilterConfig,
    sizes: Option<SizeRange>,
) -> bool {
    exists|found: Seq<Box>, chosen: Seq<Box>|
        #![trigger boxes_of_mask(found, search_mask(mask, w, h, cfg), w, h, w * h),
            is_choice(chosen, fitting(found, sizes), cfg.overlap_mode)]
        boxes_of_mask(found, search_mask(mask, w, h, cfg), w, h, w * h) && is_choice(
            chosen,
            fitting(found, sizes),
            cfg.overlap_mode,
        ) && boxes == numbered(chosen).map_values(|b: Box| coloured(b, img, w, h))
}

/// Finds the boxes of what is keyed in a frame.
pub fn detect_boxes(
    img: &[RgbaPixel],
    w: usize,
    h: usize,
    cfg: &FilterConfig,
    prev: Option<&[RgbaPixel]>,
    levels: &[i32],
    limit: i32,
    sizes: Option<SizeRange>,
) -> (boxes: Vec<Box>)
    requires
        w <= i32::MAX,
        h <= i32::MAX,
        (w + 1) * (h + 1) <= usize::MAX,
        w * h <= img@.len(),
        !lacks_motion(*cfg, img@, prev) ==> w * h <= levels@.len(),
    ensures
        is_detection(
            boxes@,
            img@,
            key_mask(img@, w * h, *cfg, prev, levels@, limit as int),
            w as int,
            h as int,
            *cfg,
            sizes,
        ),
{
    proof {
        assert(0 <= w * h <= (w + 1) * (h + 1)) by (nonlinear_arith)
            requires
                0 <= w,
                0 <= h,
        ;
    }
    let mut mask = compute_key_mask(img, w, h, cfg, prev, levels, limit);
    let ghost keys = mask@;
    if cfg.key_mode == KeyingMode::MotionDetection {
        mask = dilate_mask(&mask, w, h, MOTION_GROWTH);
    }
    let mut boxes = find_boxes(&mask, w, h);
    let ghost found = boxes@;
    filter_boxes(&mut boxes, sizes, cfg);
    let ghost chosen = choose|chosen: Seq<Box>| #[trigger]
        is_choice(chosen, fitting(found, sizes), cfg.overlap_mode) && boxes@ == numbered(chosen);
    proof {
        if w == 0 || h == 0 {
            assert(w * h == 0) by (nonlinear_arith)
                requires
                    w == 0 || h == 0,
            ;
            assert(found.len() == 0);
            lemma_choice_len(chosen, fitting(found, sizes), cfg.overlap_mode);
            found.lemma_filter_len(|b: Box| fits(b, sizes));
        }
    }
    sample_box_colors(img, w, h, &mut boxes);
    proof {
        let (wi, hi) = (w as int, h as int);
        assert(boxes_of_mask(found, search_mask(keys, wi, hi, *cfg), wi, hi, wi * hi));
        assert(boxes@ =~= numbered(chosen).map_values(|b: Box| coloured(b, img@, wi, hi)));
    }
    boxes
}

/// The mask of `n` pixels in which nothing is keyed.
pub open spec fn blank_mask(n: int) -> Seq<u8> {
    Seq::new(n as nat, |p: int| 0u8)
}

/// For motion the order of two frames of one size does not matter: with the
/// frames exchanged and the same measured change, the same pixels are keyed.
pub proof fn law_motion_is_symmetric(
    a: &[RgbaPixel],
    b: &[RgbaPixel],
    n: int,
    cfg: FilterConfig,
    levels: Seq<i32>,
    limit: int,
)
    requires
        cfg.key_mode == KeyingMode::MotionDetection,
        a@.len() == b@.len(),
    ensures
        key_mask(a@, n, cfg, Some(b), levels, limit) == key_mask(
            b@,
            n,
            cfg,
            Some(a),
            levels,
            limit,
        ),
{
    assert(key_mask(a@, n, cfg, Some(b), levels, limit) =~= key_mask(
        b@,
        n,
        cfg,
        Some(a),
        levels,
        limit,
    ));
}

/// Where every change stays below the threshold, nothing is seen to move.
pub proof fn law_small_changes_are_no_motion(
    img: Seq<RgbaPixel>,
    n: int,
    cfg: FilterConfig,
    prev: Option<&[RgbaPixel]>,
    levels: Seq<i32>,
    limit: int,
)
    requires
        0 <= n,
        cfg.key_mode == KeyingMode::MotionDetection,
        forall|p: int| 0 <= p < n ==> #[trigger] levels[p] < limit,
    ensures
        key_mask(img, n, cfg, prev, levels, limit) == blank_mask(n),
{
    assert(key_mask(img, n, cfg, prev, levels, limit) =~= blank_mask(n));
}

/// An earlier frame of another size counts for motion as none at all, and with
/// neither is anything keyed, whatever the levels.
pub proof fn law_frame_of_another_size_shows_no_motion(
    img: Seq<RgbaPixel>,
    n: int,
    cfg: FilterConfig,
    prev: &[RgbaPixel],
    levels: Seq<i32>,
    limit: int,
)
    requires
        cfg.key_mode == KeyingMode::MotionDetection,
        prev@.len() != img.len(),
    ensures
        key_mask(img, n, cfg, Some(prev), levels, limit) == blank_mask(n),
        key_mask(img, n, cfg, None, levels, limit) == blank_mask(n),
{
    assert(key_mask(img, n, cfg, Some(prev), levels, limit) =~= blank_mask(n));
    assert(key_mask(img, n, cfg, None, levels, limit) =~= blank_mask(n));
}

/// Without an earlier frame of the same size nothing is seen to move.
pub proof fn law_nothing_moves_without_an_earlier_frame(
    boxes: Seq<Box>,
    img: Seq<RgbaPixel>,
    w: int,
    h: int,
    cfg: FilterConfig,
    prev: Option<&[RgbaPixel]>,
    levels: Seq<i32>,
    limit: int,
    sizes: Option<SizeRange>,
)
    requires
        lacks_motion(cfg, img, prev),
        is_detection(
            boxes,
            img,
            key_mask(img, w * h, cfg, prev, levels, limit),
            w,
            h,
            cfg,
            sizes,
        ),
    ensures
        boxes.len() == 0,
{
    let mask = key_mask(img, w * h, cfg, prev, levels, limit);
    let search = search_mask(mask, w, h, cfg);
    let (found, chosen) = choose|found: Seq<Box>, chosen: Seq<Box>|
        #![trigger boxes_of_mask(found, search, w, h, w * h),
            is_choice(chosen, fitting(found, sizes), cfg.overlap_mode)]
        boxes_of_mask(found, search, w, h, w * h) && is_choice(
            chosen,
            fitting(found, sizes),
            cfg.overlap_mode,
        ) && boxes == numbered(chosen).map_values(|b: Box| coloured(b, img, w, h));
    assert forall|p: int| !#[trigger] keyed(search, w, h, p) by {
        if keyed(search, w, h, p) {
            assert(near_keyed(mask, w, h, MOTION_GROWTH as int, p));
        }
    }
    law_blank_mask_has_no_boxes(found, search, w, h);
    found.lemma_filter_len(|b: Box| fits(b, sizes));
    lemma_choice_len(chosen, fitting(found, sizes), cfg.overlap_mode);
}

} // verus!
