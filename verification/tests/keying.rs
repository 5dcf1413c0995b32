//! Keying, with the levels measured as the effect measures them.
use hl_blobox::config::{
    FillMode, FilterConfig, KeyingMode, LineOrder, LineType, LumaTarget, OverlapMode,
};
use hl_blobox::keyer::{
    compute_key_mask, detect_boxes, dilate_mask, filter_boxes, find_boxes, sample_box_colors, Box,
    SizeRange,
};
use hl_blobox::overlay::fill::{paint, Paint};
use hl_blobox::overlay::lines::connection_lines;
use hl_blobox::overlay::plan::{overlay_steps, Step};
use hl_blobox::pixel::RgbaPixel;

fn solid(w: usize, h: usize, rgb: (u8, u8, u8)) -> Vec<RgbaPixel> {
    (0..w * h)
        .map(|_| RgbaPixel {
            r: rgb.0,
            g: rgb.1,
            b: rgb.2,
            a: 255,
        })
        .collect()
}

fn draw_rect(
    img: &mut [RgbaPixel],
    w: usize,
    x0: usize,
    y0: usize,
    x1: usize,
    y1: usize,
    rgb: (u8, u8, u8),
) {
    for y in y0..y1 {
        for x in x0..x1 {
            img[y * w + x] = RgbaPixel {
                r: rgb.0,
                g: rgb.1,
                b: rgb.2,
                a: 255,
            };
        }
    }
}

/// The rank of a number among all numbers.
fn rank(v: f32) -> i32 {
    if v == 0.0 {
        return 0;
    }
    let bits = v.to_bits() as i32;
    if bits < 0 {
        bits ^ 0x7FFF_FFFF
    } else {
        bits
    }
}

fn luma(p: &RgbaPixel) -> f32 {
    (0.299 * p.r as f32 + 0.587 * p.g as f32 + 0.114 * p.b as f32) / 255.0
}

/// The mean of `value` over the pixels within `r` of each pixel.
fn blurred(
    img: &[RgbaPixel],
    w: usize,
    h: usize,
    r: usize,
    value: fn(&RgbaPixel) -> f32,
) -> Vec<f32> {
    let ww = w + 1;
    let mut s = vec![0f32; ww * (h + 1)];
    for y in 0..h {
        let mut row = 0f32;
        for x in 0..w {
            row += value(&img[y * w + x]);
            s[(y + 1) * ww + (x + 1)] = s[y * ww + (x + 1)] + row;
        }
    }
    let mut out = Vec::with_capacity(w * h);
    for y in 0..h {
        for x in 0..w {
            if r == 0 {
                out.push(value(&img[y * w + x]));
                continue;
            }
            let (x0, y0) = (x.saturating_sub(r), y.saturating_sub(r));
            let (x1, y1) = ((x + r + 1).min(w), (y + r + 1).min(h));
            let sum = s[y1 * ww + x1] - s[y0 * ww + x1] - s[y1 * ww + x0] + s[y0 * ww + x0];
            out.push(sum / ((x1 - x0) * (y1 - y0)) as f32);
        }
    }
    out
}

fn luma_levels(img: &[RgbaPixel], w: usize, h: usize, r: usize) -> Vec<i32> {
    blurred(img, w, h, r, luma).iter().map(|&v| rank(v)).collect()
}

fn color_levels(img: &[RgbaPixel], w: usize, h: usize, r: usize, key: (u8, u8, u8)) -> Vec<i32> {
    let red = blurred(img, w, h, r, |p| p.r as f32 / 255.0);
    let green = blurred(img, w, h, r, |p| p.g as f32 / 255.0);
    let blue = blurred(img, w, h, r, |p| p.b as f32 / 255.0);
    (0..w * h)
        .map(|i| {
            let dr = red[i] - key.0 as f32 / 255.0;
            let dg = green[i] - key.1 as f32 / 255.0;
            let db = blue[i] - key.2 as f32 / 255.0;
            rank(dr.abs() + dg.abs() + db.abs())
        })
        .collect()
}

fn motion_levels(
    img: &[RgbaPixel],
    prev: &[RgbaPixel],
    w: usize,
    h: usize,
    r: usize,
) -> Vec<i32> {
    let now = blurred(img, w, h, r, luma);
    let then = blurred(prev, w, h, r, luma);
    (0..w * h).map(|i| rank((now[i] - then[i]).abs())).collect()
}

fn limit(threshold: f64) -> i32 {
    rank((threshold / 255.0) as f32)
}

fn color_limit(threshold: f64) -> i32 {
    rank((threshold / 255.0) as f32 * 3.0)
}

#[test]
fn test_luminance_keying_finds_blob() {
    let w = 64usize;
    let h = 64usize;
    let mut img = solid(w, h, (10, 10, 10));
    draw_rect(&mut img, w, 16, 16, 48, 48, (255, 255, 255));

    let mut cfg = FilterConfig::default();
    cfg.key_mode = KeyingMode::Luminance;
    cfg.luma_target = LumaTarget::Brighter;

    let levels = luma_levels(&img, w, h, 0);
    let mask = compute_key_mask(&img, w, h, &cfg, None, &levels, limit(50.0));
    assert!(mask.iter().any(|&v| v == 1), "mask should contain keyed pixels");
    let mut boxes = find_boxes(&mask, w, h);
    filter_boxes(&mut boxes, None, &cfg);
    assert_eq!(boxes.len(), 1, "expected exactly one box");
    assert!(boxes[0].min_x >= 16 && boxes[0].max_x <= 47);
    assert!(boxes[0].min_y >= 16 && boxes[0].max_y <= 47);
}

#[test]
fn test_blurred_luminance_keying() {
    let w = 64usize;
    let h = 64usize;
    let mut img = solid(w, h, (0, 0, 0));
    draw_rect(&mut img, w, 16, 16, 48, 48, (200, 200, 200));

    let mut cfg = FilterConfig::default();
    cfg.key_mode = KeyingMode::Luminance;
    cfg.luma_target = LumaTarget::Brighter;

    let levels = luma_levels(&img, w, h, 2);
    let mask = compute_key_mask(&img, w, h, &cfg, None, &levels, limit(100.0));
    let mut boxes = find_boxes(&mask, w, h);
    filter_boxes(&mut boxes, None, &cfg);
    assert_eq!(boxes.len(), 1);
}

#[test]
fn test_color_keying() {
    let w = 64usize;
    let h = 64usize;
    let mut img = solid(w, h, (0, 0, 0));
    draw_rect(&mut img, w, 8, 8, 24, 24, (255, 0, 0));

    let mut cfg = FilterConfig::default();
    cfg.key_mode = KeyingMode::Color;

    let levels = color_levels(&img, w, h, 1, (255, 0, 0));
    let mask = compute_key_mask(&img, w, h, &cfg, None, &levels, color_limit(40.0));
    let mut boxes = find_boxes(&mask, w, h);
    filter_boxes(&mut boxes, None, &cfg);
    sample_box_colors(&img, w, h, &mut boxes);
    assert_eq!(boxes.len(), 1);
    assert_eq!(boxes[0].cr, 255);
    assert_eq!(boxes[0].cg, 0);
    assert_eq!(boxes[0].cb, 0);
}

#[test]
fn test_motion_detection() {
    let w = 64usize;
    let h = 64usize;
    let frame1 = solid(w, h, (0, 0, 0));
    let mut frame2 = frame1.clone();
    draw_rect(&mut frame2, w, 16, 16, 32, 32, (255, 255, 255));

    let mut cfg = FilterConfig::default();
    cfg.key_mode = KeyingMode::MotionDetection;

    // Nothing to compare with.
    let mask = compute_key_mask(&frame2, w, h, &cfg, None, &[], limit(50.0));
    assert!(mask.iter().all(|&v| v == 0));

    // What changed is found.
    let levels = motion_levels(&frame2, &frame1, w, h, 1);
    let mask = compute_key_mask(&frame2, w, h, &cfg, Some(&frame1), &levels, limit(50.0));
    assert!(mask.iter().any(|&v| v == 1));
}

#[test]
fn motion_against_a_frame_of_another_size_is_blank() {
    let (w, h) = (8usize, 8usize);
    let frame = solid(w, h, (255, 255, 255));
    let other = solid(w, h - 1, (0, 0, 0));
    let mut cfg = FilterConfig::default();
    cfg.key_mode = KeyingMode::MotionDetection;
    let mask = compute_key_mask(&frame, w, h, &cfg, Some(&other), &[], 0);
    assert_eq!(mask, vec![0u8; w * h]);
    let boxes = detect_boxes(&frame, w, h, &cfg, Some(&other), &[], 0, None);
    assert!(boxes.is_empty());
}

#[test]
fn exchanged_frames_move_alike() {
    let (w, h) = (16usize, 12usize);
    let still = solid(w, h, (0, 0, 0));
    let mut moved = still.clone();
    draw_rect(&mut moved, w, 3, 3, 9, 8, (255, 255, 255));
    let mut cfg = FilterConfig::default();
    cfg.key_mode = KeyingMode::MotionDetection;
    let levels = motion_levels(&moved, &still, w, h, 0);
    assert_eq!(levels, motion_levels(&still, &moved, w, h, 0));
    let forth = compute_key_mask(&moved, w, h, &cfg, Some(&still), &levels, limit(50.0));
    let back = compute_key_mask(&still, w, h, &cfg, Some(&moved), &levels, limit(50.0));
    assert_eq!(forth, back);
    assert_eq!(forth.iter().filter(|&&v| v == 1).count(), 30);
}

#[test]
fn small_changes_are_no_motion() {
    let (w, h) = (5usize, 4usize);
    let dark = solid(w, h, (100, 100, 100));
    let light = solid(w, h, (140, 140, 140));
    let mut cfg = FilterConfig::default();
    cfg.key_mode = KeyingMode::MotionDetection;
    let levels = motion_levels(&light, &dark, w, h, 0);
    let mask = compute_key_mask(&light, w, h, &cfg, Some(&dark), &levels, limit(50.0));
    assert_eq!(mask, vec![0u8; w * h]);
    let mask = compute_key_mask(&light, w, h, &cfg, Some(&dark), &levels, limit(30.0));
    assert_eq!(mask, vec![1u8; w * h]);
}

#[test]
fn test_overlap_removal() {
    let w = 64usize;
    let h = 64usize;
    let mut img = solid(w, h, (0, 0, 0));
    draw_rect(&mut img, w, 8, 8, 56, 56, (255, 255, 255));

    let mut cfg = FilterConfig::default();
    cfg.key_mode = KeyingMode::Luminance;
    cfg.luma_target = LumaTarget::Brighter;
    cfg.overlap_mode = OverlapMode::RemoveSmaller;

    let levels = luma_levels(&img, w, h, 1);
    let mask = compute_key_mask(&img, w, h, &cfg, None, &levels, limit(50.0));
    let mut boxes = find_boxes(&mask, w, h);
    filter_boxes(&mut boxes, None, &cfg);
    assert!(boxes.len() <= 1, "overlapping boxes should be removed");
}

#[test]
fn each_mode_has_its_side_of_the_limit() {
    let img = solid(3, 1, (0, 0, 0));
    let levels = [4, 5, 6];
    let mut cfg = FilterConfig::default();
    assert_eq!(compute_key_mask(&img, 3, 1, &cfg, None, &levels, 5), [0, 1, 1]);
    cfg.luma_target = LumaTarget::Darker;
    assert_eq!(compute_key_mask(&img, 3, 1, &cfg, None, &levels, 5), [1, 1, 0]);
    cfg.key_mode = KeyingMode::Color;
    assert_eq!(compute_key_mask(&img, 3, 1, &cfg, None, &levels, 5), [1, 0, 0]);
    cfg.key_mode = KeyingMode::MotionDetection;
    let prev = img.clone();
    assert_eq!(
        compute_key_mask(&img, 3, 1, &cfg, Some(&prev), &levels, 5),
        [0, 1, 1]
    );
}

#[test]
fn boxes_of_a_frame_are_detected_in_one_go() {
    let (w, h) = (16usize, 12usize);
    let mut img = solid(w, h, (0, 0, 0));
    draw_rect(&mut img, w, 1, 1, 4, 3, (255, 10, 20));
    draw_rect(&mut img, w, 8, 6, 9, 7, (255, 255, 255));
    let levels = luma_levels(&img, w, h, 0);
    let cfg = FilterConfig::default();
    let boxes = detect_boxes(&img, w, h, &cfg, None, &levels, limit(50.0), None);
    assert_eq!(boxes.len(), 2);
    let b = boxes[0];
    assert_eq!((b.min_x, b.min_y, b.max_x, b.max_y), (1, 1, 3, 2));
    assert_eq!((b.center_x, b.center_y), (2, 2));
    assert_eq!((b.pixels, b.id), (6, 1));
    assert_eq!((b.cr, b.cg, b.cb), (255, 10, 20));
    assert_eq!((boxes[1].pixels, boxes[1].id), (1, 2));
    assert_eq!((boxes[1].center_x, boxes[1].center_y), (8, 6));
}

#[test]
fn what_moved_is_grown_before_boxes_are_found() {
    let (w, h) = (20usize, 5usize);
    let before = solid(w, h, (0, 0, 0));
    let mut now = before.clone();
    draw_rect(&mut now, w, 5, 2, 6, 3, (255, 255, 255));
    draw_rect(&mut now, w, 9, 2, 10, 3, (255, 255, 255));
    let levels = motion_levels(&now, &before, w, h, 0);
    let mut cfg = FilterConfig::default();
    cfg.key_mode = KeyingMode::MotionDetection;
    let boxes = detect_boxes(&now, w, h, &cfg, Some(&before), &levels, limit(50.0), None);
    assert_eq!(boxes.len(), 1);
    assert_eq!((boxes[0].min_x, boxes[0].max_x), (3, 11));
    assert_eq!((boxes[0].min_y, boxes[0].max_y), (0, 4));
}

fn plain_box(min_x: i32, min_y: i32, max_x: i32, max_y: i32) -> Box {
    Box {
        min_x,
        min_y,
        max_x,
        max_y,
        center_x: (min_x + max_x + 1) / 2,
        center_y: (min_y + max_y + 1) / 2,
        pixels: 1,
        cr: 0,
        cg: 0,
        cb: 0,
        id: 1,
    }
}

#[test]
fn size_filter_looks_at_the_longer_side() {
    let cfg = FilterConfig::default();
    let mut boxes = vec![
        plain_box(0, 0, 1, 9),
        plain_box(20, 0, 24, 2),
        plain_box(40, 0, 40, 0),
    ];
    let sizes = SizeRange {
        min_side: 5,
        max_side: 9,
    };
    filter_boxes(&mut boxes, Some(sizes), &cfg);
    assert_eq!(boxes.len(), 1);
    assert_eq!((boxes[0].min_x, boxes[0].id), (20, 1));
}

#[test]
fn overlap_modes_keep_the_bigger_or_the_smaller() {
    let all = vec![
        plain_box(0, 0, 4, 4),
        plain_box(3, 3, 20, 20),
        plain_box(30, 30, 31, 31),
    ];
    let mut cfg = FilterConfig::default();

    let mut boxes = all.clone();
    filter_boxes(&mut boxes, None, &cfg);
    assert_eq!(boxes.iter().map(|b| b.id).collect::<Vec<_>>(), [1, 2, 3]);

    cfg.overlap_mode = OverlapMode::RemoveSmaller;
    let mut boxes = all.clone();
    filter_boxes(&mut boxes, None, &cfg);
    let kept: Vec<_> = boxes.iter().map(|b| (b.min_x, b.id)).collect();
    assert_eq!(kept, [(3, 1), (30, 2)]);

    cfg.overlap_mode = OverlapMode::RemoveBigger;
    let mut boxes = all.clone();
    filter_boxes(&mut boxes, None, &cfg);
    let kept: Vec<_> = boxes.iter().map(|b| (b.min_x, b.id)).collect();
    assert_eq!(kept, [(30, 1), (0, 2)]);
}

#[test]
fn filtering_twice_changes_nothing() {
    let all = vec![
        plain_box(0, 0, 4, 4),
        plain_box(3, 3, 20, 20),
        plain_box(19, 0, 22, 5),
        plain_box(30, 30, 31, 31),
        plain_box(40, 40, 90, 41),
        plain_box(60, 60, 61, 61),
    ];
    let sizes = SizeRange {
        min_side: 2,
        max_side: 40,
    };
    let show = |boxes: &[Box]| -> Vec<_> {
        boxes
            .iter()
            .map(|b| (b.id, b.min_x, b.min_y, b.max_x, b.max_y, b.pixels))
            .collect()
    };
    let mut cfg = FilterConfig::default();
    for (mode, left) in [
        (OverlapMode::Keep, 5),
        (OverlapMode::RemoveSmaller, 3),
        (OverlapMode::RemoveBigger, 4),
    ] {
        cfg.overlap_mode = mode;
        let mut boxes = all.clone();
        filter_boxes(&mut boxes, Some(sizes), &cfg);
        assert_eq!(boxes.len(), left);
        let once = show(&boxes);
        filter_boxes(&mut boxes, Some(sizes), &cfg);
        assert_eq!(show(&boxes), once);
    }
}

#[test]
fn colors_are_sampled_inside_the_frame() {
    let (w, h) = (4usize, 3usize);
    let mut img = solid(w, h, (1, 2, 3));
    img[2 * w + 3] = RgbaPixel {
        r: 9,
        g: 8,
        b: 7,
        a: 255,
    };
    let mut boxes = vec![plain_box(-4, -4, -4, -4), plain_box(90, 90, 90, 90)];
    sample_box_colors(&img, w, h, &mut boxes);
    assert_eq!((boxes[0].cr, boxes[0].cg, boxes[0].cb), (1, 2, 3));
    assert_eq!((boxes[1].cr, boxes[1].cg, boxes[1].cb), (9, 8, 7));
}

#[test]
fn a_frame_without_pixels_has_no_boxes() {
    let cfg = FilterConfig::default();
    assert!(detect_boxes(&[], 0, 0, &cfg, None, &[], 0, None).is_empty());
    assert!(detect_boxes(&[], 0, 7, &cfg, None, &[], 0, None).is_empty());
    assert!(dilate_mask(&[], 0, 7, 2).is_empty());
}

/// The boxes of what is brighter than 50.
fn bright_boxes(img: &[RgbaPixel], w: usize, h: usize, cfg: &FilterConfig) -> Vec<Box> {
    let levels = luma_levels(img, w, h, 0);
    let mask = compute_key_mask(img, w, h, cfg, None, &levels, limit(50.0));
    let mut boxes = find_boxes(&mask, w, h);
    filter_boxes(&mut boxes, None, cfg);
    sample_box_colors(img, w, h, &mut boxes);
    boxes
}

#[test]
fn test_fill_binarize() {
    let w = 64usize;
    let h = 64usize;
    let mut img = solid(w, h, (0, 0, 0));
    draw_rect(&mut img, w, 16, 16, 48, 48, (128, 128, 128));

    let mut cfg = FilterConfig::default();
    cfg.key_mode = KeyingMode::Luminance;
    cfg.luma_target = LumaTarget::Brighter;
    cfg.fill_enabled = true;
    cfg.fill_mode = FillMode::Binarize;

    let boxes = bright_boxes(&img, w, h, &cfg);
    assert_eq!(boxes.len(), 1);
    assert!(boxes[0].min_x <= 32 && 32 <= boxes[0].max_x);
    assert!(boxes[0].min_y <= 32 && 32 <= boxes[0].max_y);
    assert!(overlay_steps(boxes.len(), &cfg).contains(&Step::Fill {
        index: 0,
        source: None
    }));
    let here = img[32 * w + 32];
    let painted = paint(&cfg, 32, 32, here, rank(luma(&here)), limit(100.0), None);
    assert_eq!(
        painted,
        Paint::Color {
            r: 255,
            g: 255,
            b: 255
        }
    );
}

#[test]
fn test_fill_noise_modes() {
    let w = 64usize;
    let h = 64usize;
    let mut img = solid(w, h, (0, 0, 0));
    draw_rect(&mut img, w, 16, 16, 48, 48, (255, 255, 255));

    let mut cfg = FilterConfig::default();
    cfg.key_mode = KeyingMode::Luminance;
    cfg.luma_target = LumaTarget::Brighter;
    cfg.fill_enabled = true;

    for mode in [FillMode::ColorNoise, FillMode::Noise] {
        cfg.fill_mode = mode;
        let boxes = bright_boxes(&img, w, h, &cfg);
        assert_eq!(boxes.len(), 1);
        assert!(overlay_steps(boxes.len(), &cfg).contains(&Step::Fill {
            index: 0,
            source: None
        }));
        let here = img[32 * w + 32];
        match paint(&cfg, 32, 32, here, rank(luma(&here)), limit(128.0), None) {
            Paint::Color { r, g, b } => assert!(r != 255 || g != 255 || b != 255),
            other => panic!("{other:?}"),
        }
    }
}

#[test]
fn test_fill_random() {
    let w = 64usize;
    let h = 64usize;
    let mut img = solid(w, h, (0, 0, 0));
    draw_rect(&mut img, w, 8, 8, 24, 24, (255, 255, 255));
    draw_rect(&mut img, w, 40, 40, 56, 56, (128, 128, 128));

    let mut cfg = FilterConfig::default();
    cfg.key_mode = KeyingMode::Luminance;
    cfg.luma_target = LumaTarget::Brighter;
    cfg.fill_enabled = true;
    cfg.fill_mode = FillMode::Random;

    let levels = luma_levels(&img, w, h, 0);
    let mask = compute_key_mask(&img, w, h, &cfg, None, &levels, limit(50.0));
    let mut boxes = find_boxes(&mask, w, h);
    filter_boxes(&mut boxes, None, &cfg);
    assert!(boxes.len() >= 2);
    sample_box_colors(&img, w, h, &mut boxes);
    let source = Some(1);
    assert_eq!(
        overlay_steps(boxes.len(), &cfg)[0],
        Step::Fill { index: 0, source }
    );
}

#[test]
fn test_line_modes_smoke() {
    let w = 64usize;
    let h = 64usize;
    let mut img = solid(w, h, (0, 0, 0));
    draw_rect(&mut img, w, 8, 8, 20, 20, (255, 255, 255));
    draw_rect(&mut img, w, 30, 30, 42, 42, (255, 255, 255));
    draw_rect(&mut img, w, 30, 8, 42, 20, (255, 255, 255));

    let mut cfg = FilterConfig::default();
    cfg.key_mode = KeyingMode::Luminance;
    cfg.luma_target = LumaTarget::Brighter;
    cfg.line_enabled = true;
    cfg.arrow_enabled = true;

    for line_type in [
        LineType::Sequential,
        LineType::ConnectAll,
        LineType::MinimumSpanningTree,
    ] {
        cfg.line_type = line_type;
        for order in [
            LineOrder::TopToBottom,
            LineOrder::DistanceFromCenter,
            LineOrder::NearestNeighbor,
            LineOrder::PolarSweep,
        ] {
            cfg.line_order = order;
            cfg.line_connect_limit = true;
            cfg.line_connect_max = 2;
            cfg.line_curve = order == LineOrder::NearestNeighbor;
            let levels = luma_levels(&img, w, h, 0);
            let mask = compute_key_mask(&img, w, h, &cfg, None, &levels, limit(50.0));
            let mut boxes = find_boxes(&mask, w, h);
            filter_boxes(&mut boxes, None, &cfg);
            sample_box_colors(&img, w, h, &mut boxes);
            let lines = connection_lines(&boxes, w, h, &cfg, &[0, 1, 2]);
            let expected = if line_type == LineType::Sequential { 1 } else { 2 };
            assert_eq!(lines.len(), expected);
        }
    }
}
