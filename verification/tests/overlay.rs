use hl_blobox::config::{
    BoxShape, CornerMode, FillMode, FilterConfig, LineOrder, LineType, StrokePosition,
};
use hl_blobox::keyer::Box;
use hl_blobox::overlay::dash::dashes;
use hl_blobox::overlay::fill::{fill_sources, paint, shuffle, Paint, FILL_SEED};
use hl_blobox::overlay::geometry::{
    clip, ellipse_strokes, make_geom, rect_strokes, stroke_offset, Corner, EllipsePart, Side,
    StrokePart,
};
use hl_blobox::overlay::lines::{
    connect_all, connection_lines, every_line, lines_by_length, spanning_tree, visiting_order,
    Point,
};
use hl_blobox::overlay::path::{curve_points, is_smooth, nearest, segment_at};
use hl_blobox::overlay::plan::{overlay_steps, Step};
use hl_blobox::pixel::RgbaPixel;
use hl_blobox::wildcard::Rng;

fn plain_box(min_x: i32, min_y: i32, max_x: i32, max_y: i32) -> Box {
    Box {
        min_x,
        min_y,
        max_x,
        max_y,
        center_x: (min_x + max_x + 1) / 2,
        center_y: (min_y + max_y + 1) / 2,
        pixels: 1,
        cr: 0,
        cg: 0,
        cb: 0,
        id: 1,
    }
}

const MODES: [CornerMode; 6] = [
    CornerMode::Full,
    CornerMode::CornerOnly,
    CornerMode::HorizontalBracket,
    CornerMode::VerticalBracket,
    CornerMode::BracketLeft,
    CornerMode::BracketRight,
];

#[test]
fn outlines_are_measured_in_half_pixels() {
    let b = plain_box(10, 20, 13, 29);
    let g = make_geom(&b, BoxShape::Rectangle);
    assert_eq!((g.cx, g.cy, g.hw, g.hh), (24, 50, 4, 10));
    assert_eq!((g.min_x, g.min_y, g.max_x, g.max_y), (20, 40, 26, 58));
    assert_eq!(g.corner_limit, 6);
    let g = make_geom(&b, BoxShape::Square);
    assert_eq!((g.cx, g.cy, g.hw, g.hh), (24, 50, 10, 10));
    assert_eq!((g.min_x, g.min_y, g.max_x, g.max_y), (14, 40, 34, 60));
    assert_eq!(g.corner_limit, 20);
    assert_eq!(make_geom(&b, BoxShape::Ellipse).corner_limit, 0);
    let g = make_geom(&b, BoxShape::Circle);
    assert_eq!(g.max_x - g.min_x, g.max_y - g.min_y);
    assert_eq!(g.corner_limit, 0);
}

#[test]
fn strokes_lie_inside_on_or_outside() {
    assert_eq!(stroke_offset(StrokePosition::Inside), 1);
    assert_eq!(stroke_offset(StrokePosition::Center), 0);
    assert_eq!(stroke_offset(StrokePosition::Outside), -1);
}

#[test]
fn every_mode_has_something_to_stroke() {
    for mode in MODES {
        assert!(!rect_strokes(mode, false).is_empty());
        assert!(!rect_strokes(mode, true).is_empty());
        assert!(!ellipse_strokes(mode).is_empty());
    }
}

#[test]
fn key_brackets_show_opposite_corners() {
    assert_eq!(
        rect_strokes(CornerMode::BracketLeft, true),
        [StrokePart::Arc(Corner::BottomRight), StrokePart::Arc(Corner::TopLeft)]
    );
    assert_eq!(
        rect_strokes(CornerMode::BracketRight, true),
        [StrokePart::Arc(Corner::TopRight), StrokePart::Arc(Corner::BottomLeft)]
    );
    assert_eq!(
        rect_strokes(CornerMode::BracketLeft, false),
        [
            StrokePart::SideStart(Side::Top),
            StrokePart::SideEnd(Side::Right),
            StrokePart::SideStart(Side::Bottom),
            StrokePart::SideEnd(Side::Left),
            StrokePart::Miter(Corner::BottomRight),
            StrokePart::Miter(Corner::TopLeft),
        ]
    );
}

#[test]
fn brackets_close_two_sides() {
    let parts = rect_strokes(CornerMode::HorizontalBracket, true);
    assert_eq!(parts.len(), 6);
    assert_eq!(
        &parts[4..],
        &[StrokePart::FullSide(Side::Left), StrokePart::FullSide(Side::Right)]
    );
    let parts = rect_strokes(CornerMode::VerticalBracket, false);
    assert_eq!(parts.len(), 8 + 4 + 2);
    assert_eq!(
        &parts[12..],
        &[StrokePart::FullSide(Side::Top), StrokePart::FullSide(Side::Bottom)]
    );
    assert_eq!(rect_strokes(CornerMode::Full, false).len(), 8);
    assert_eq!(rect_strokes(CornerMode::CornerOnly, false).len(), 12);
}

#[test]
fn round_strokes_go_in_eighths_of_a_turn() {
    assert_eq!(
        ellipse_strokes(CornerMode::Full),
        [EllipsePart::Span { from: 0, to: 8 }]
    );
    assert_eq!(
        ellipse_strokes(CornerMode::HorizontalBracket),
        [
            EllipsePart::Span { from: 3, to: 5 },
            EllipsePart::Span { from: 7, to: 9 },
        ]
    );
    assert_eq!(
        ellipse_strokes(CornerMode::VerticalBracket),
        [
            EllipsePart::Span { from: 5, to: 7 },
            EllipsePart::Span { from: 1, to: 3 },
        ]
    );
    assert_eq!(
        ellipse_strokes(CornerMode::CornerOnly),
        [
            EllipsePart::Around { at: 7 },
            EllipsePart::Around { at: 1 },
            EllipsePart::Around { at: 3 },
            EllipsePart::Around { at: 5 },
        ]
    );
}

#[test]
fn clipping_keeps_what_is_in_the_frame() {
    assert_eq!(clip(-5, 3, 10), Some((0, 3)));
    assert_eq!(clip(4, 30, 10), Some((4, 9)));
    assert_eq!(clip(10, 30, 10), None);
    assert_eq!(clip(-9, -1, 10), None);
    assert_eq!(clip(i32::MIN, i32::MAX, 1), Some((0, 0)));
    assert_eq!(clip(0, 5, 0), None);
}

fn pixel(r: u8, g: u8, b: u8) -> RgbaPixel {
    RgbaPixel { r, g, b, a: 255 }
}

#[test]
fn each_fill_has_its_paint() {
    let mut cfg = FilterConfig::default();
    let here = pixel(10, 20, 30);
    let there = pixel(7, 8, 9);
    let mut show = |mode: FillMode, source: Option<RgbaPixel>| {
        cfg.fill_mode = mode;
        paint(&cfg, 32, 32, here, 5, 5, source)
    };
    assert_eq!(show(FillMode::Solid, None), Paint::Solid);
    assert_eq!(show(FillMode::Gradient, None), Paint::Gradient);
    assert_eq!(show(FillMode::Hatch, None), Paint::Hatch);
    let inverse = Paint::Inverse { r: 10, g: 20, b: 30 };
    assert_eq!(show(FillMode::Invert, None), inverse);
    assert_eq!(show(FillMode::Random, None), Paint::Nothing);
    let source = Paint::Color { r: 7, g: 8, b: 9 };
    assert_eq!(show(FillMode::Random, Some(there)), source);
    let color = Paint::Color { r: 170, g: 59, b: 156 };
    assert_eq!(show(FillMode::ColorNoise, None), color);
    let grey = Paint::Color { r: 170, g: 170, b: 170 };
    assert_eq!(show(FillMode::Noise, None), grey);
}

#[test]
fn binarizing_splits_at_the_limit() {
    let mut cfg = FilterConfig::default();
    cfg.fill_mode = FillMode::Binarize;
    let white = Paint::Color { r: 255, g: 255, b: 255 };
    let black = Paint::Color { r: 0, g: 0, b: 0 };
    let p = pixel(1, 2, 3);
    assert_eq!(paint(&cfg, 0, 0, p, 5, 5, None), white);
    assert_eq!(paint(&cfg, 0, 0, p, 4, 5, None), black);
    cfg.fill_binarize_invert = true;
    assert_eq!(paint(&cfg, 0, 0, p, 5, 5, None), black);
    assert_eq!(paint(&cfg, 0, 0, p, 4, 5, None), white);
}

#[test]
fn boxes_swap_contents_at_random() {
    assert_eq!(shuffle(5, &mut Rng::new(FILL_SEED)), [2, 3, 0, 1, 4]);
    assert!(shuffle(0, &mut Rng::new(FILL_SEED)).is_empty());
    let mut cfg = FilterConfig::default();
    assert_eq!(fill_sources(2, &cfg), [None, None]);
    cfg.fill_enabled = true;
    cfg.fill_mode = FillMode::Random;
    assert_eq!(
        fill_sources(5, &cfg),
        [Some(2), Some(3), Some(0), Some(1), Some(4)]
    );
    cfg.fill_random_only = true;
    cfg.fill_random_probability = 50;
    assert_eq!(fill_sources(5, &cfg), [None, None, Some(0), None, None]);
    cfg.fill_random_probability = 79;
    assert_eq!(fill_sources(5, &cfg), [None, None, Some(0), Some(1), None]);
    cfg.fill_random_probability = 100;
    assert!(fill_sources(5, &cfg).iter().all(|s| s.is_some()));
    cfg.fill_random_probability = 0;
    assert!(fill_sources(5, &cfg).iter().all(|s| s.is_none()));
}

#[test]
fn overlays_are_drawn_step_by_step() {
    let mut cfg = FilterConfig::default();
    assert!(overlay_steps(0, &cfg).is_empty());
    assert_eq!(
        overlay_steps(2, &cfg),
        [Step::StrokeRect { index: 0 }, Step::StrokeRect { index: 1 }]
    );
    cfg.box_shape = BoxShape::Circle;
    cfg.fill_enabled = true;
    cfg.marker_enabled = true;
    cfg.line_enabled = true;
    cfg.text_enabled = true;
    assert_eq!(
        overlay_steps(1, &cfg),
        [
            Step::Fill {
                index: 0,
                source: None
            },
            Step::StrokeEllipse { index: 0 },
            Step::Marker { index: 0 },
            Step::Text,
        ]
    );
    let steps = overlay_steps(2, &cfg);
    assert_eq!(&steps[6..], &[Step::Lines, Step::Text]);
    cfg.box_enabled = false;
    cfg.marker_enabled = false;
    cfg.line_enabled = false;
    cfg.text_enabled = false;
    assert!(overlay_steps(2, &cfg).is_empty());
}

#[test]
fn dashes_are_the_runs_of_samples_that_are_on() {
    assert!(dashes(&[]).is_empty());
    assert!(dashes(&[false, false]).is_empty());
    assert_eq!(dashes(&[true]), [(0, 0)]);
    assert_eq!(
        dashes(&[true, true, false, true, false, false, true, true]),
        [(0, 1), (3, 3), (6, 7)]
    );
}

#[test]
fn places_along_a_path_are_found() {
    assert_eq!(segment_at(&[2, 5, 9], 0), 0);
    assert_eq!(segment_at(&[2, 5, 9], 2), 0);
    assert_eq!(segment_at(&[2, 5, 9], 3), 1);
    assert_eq!(segment_at(&[2, 5, 9], 99), 2);
    assert_eq!(nearest(&[4, 1, 7, 1]), 1);
    assert_eq!(nearest(&[3]), 0);
    assert_eq!(curve_points(0, 4), (0, 0, 1, 2));
    assert_eq!(curve_points(1, 4), (0, 1, 2, 3));
    assert_eq!(curve_points(2, 4), (1, 2, 3, 3));
    let mut cfg = FilterConfig::default();
    assert!(!is_smooth(&cfg, 3));
    cfg.line_curve = true;
    assert!(is_smooth(&cfg, 3));
    assert!(!is_smooth(&cfg, 2));
    cfg.line_type = LineType::ConnectAll;
    assert!(!is_smooth(&cfg, 3));
}

fn points(list: &[(i32, i32)]) -> Vec<Point> {
    list.iter().map(|&(x, y)| Point { x, y }).collect()
}

#[test]
fn centres_are_visited_in_the_order_set() {
    let p = points(&[(5, 9), (1, 2), (8, 2), (5, 5)]);
    let order = |o: LineOrder| visiting_order(&p, 10, 10, o, &[3, 1, 2, 1]);
    assert_eq!(order(LineOrder::TopToBottom), [1, 2, 3, 0]);
    assert_eq!(order(LineOrder::BottomToTop), [0, 3, 1, 2]);
    assert_eq!(order(LineOrder::LeftToRight), [1, 0, 3, 2]);
    assert_eq!(order(LineOrder::RightToLeft), [2, 0, 3, 1]);
    assert_eq!(order(LineOrder::DistanceFromCenter), [3, 0, 2, 1]);
    assert_eq!(order(LineOrder::NearestNeighbor), [0, 3, 2, 1]);
    assert_eq!(order(LineOrder::PolarSweep), [1, 3, 2, 0]);
    let none: Vec<usize> = visiting_order(&[], 10, 10, LineOrder::NearestNeighbor, &[]);
    assert!(none.is_empty());
}

#[test]
fn each_pair_of_centres_has_one_line() {
    assert_eq!(
        every_line(4),
        [(0, 1), (0, 2), (0, 3), (1, 2), (1, 3), (2, 3)]
    );
    assert!(every_line(1).is_empty());
    let p = points(&[(0, 0), (10, 0), (1, 0)]);
    assert_eq!(lines_by_length(&p), [(0, 2), (1, 2), (0, 1)]);
}

#[test]
fn a_limit_keeps_the_shortest_lines() {
    let p = points(&[(0, 0), (10, 0), (1, 0), (1, 1)]);
    assert_eq!(connect_all(&p, None).len(), 6);
    assert_eq!(connect_all(&p, Some(6)).len(), 6);
    assert_eq!(connect_all(&p, Some(3)), [(0, 2), (2, 3), (0, 3)]);
    assert!(connect_all(&p, Some(0)).is_empty());
}

#[test]
fn the_shortest_tree_joins_all_centres() {
    let p = points(&[(0, 0), (10, 0), (1, 0), (1, 1), (9, 1)]);
    let tree = spanning_tree(&p);
    assert_eq!(tree, [(0, 2), (2, 3), (1, 4), (3, 4)]);
    let length: i64 = tree
        .iter()
        .map(|&(a, b)| {
            let (dx, dy) = ((p[a].x - p[b].x) as i64, (p[a].y - p[b].y) as i64);
            dx * dx + dy * dy
        })
        .sum();
    assert_eq!(length, 1 + 1 + 2 + 64);
    assert!(spanning_tree(&p[..1]).is_empty());
}

#[test]
fn lines_connect_two_boxes_or_more() {
    let mut cfg = FilterConfig::default();
    let boxes = [plain_box(0, 0, 1, 1), plain_box(10, 0, 11, 1)];
    assert!(connection_lines(&boxes, 20, 20, &cfg, &[]).is_empty());
    cfg.line_enabled = true;
    assert!(connection_lines(&boxes[..1], 20, 20, &cfg, &[]).is_empty());
    cfg.line_order = LineOrder::RightToLeft;
    assert_eq!(
        connection_lines(&boxes, 20, 20, &cfg, &[]),
        [points(&[(11, 1), (1, 1)])]
    );
    cfg.line_type = LineType::ConnectAll;
    cfg.line_connect_limit = true;
    cfg.line_connect_max = 0;
    assert_eq!(connection_lines(&boxes, 20, 20, &cfg, &[]).len(), 1);
}
