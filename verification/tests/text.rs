use hl_blobox::config::{AlignH, AlignV, FilterConfig, FontName, TextReference};
use hl_blobox::keyer::Box;
use hl_blobox::text::{
    anchor, bitmap, box_context, coverage_index, default_template, is_covered, label_rng,
    label_span, shift_left, shift_up, template,
};
use hl_blobox::wildcard::expand_wildcards;

fn sample() -> Box {
    Box {
        min_x: 10,
        min_y: 20,
        max_x: 13,
        max_y: 29,
        center_x: 12,
        center_y: 25,
        pixels: 33,
        cr: 1,
        cg: 2,
        cb: 3,
        id: 2,
    }
}

#[test]
fn a_blank_template_gives_way_to_the_default() {
    let mut cfg = FilterConfig::default();
    assert_eq!(template(&cfg), default_template());
    for blank in ["", " ", "\t\r\n", "\u{3000}\u{a0}\u{85}"] {
        cfg.text_content = blank.to_string();
        assert_eq!(template(&cfg), "X:$[box_x_position],Y:$[box_y_position]");
    }
    cfg.text_content = "  a ".to_string();
    assert_eq!(template(&cfg), "  a ");
}

#[test]
fn white_space_is_what_a_trim_takes_away() {
    let mut cfg = FilterConfig::default();
    for n in 0..=0x10FFFFu32 {
        let Some(c) = char::from_u32(n) else {
            continue;
        };
        if c.is_whitespace() || n < 0x3100 {
            cfg.text_content = c.to_string();
            let blank = template(&cfg) == default_template();
            assert_eq!(blank, c.is_whitespace(), "{:x}", n);
        }
    }
}

#[test]
fn labels_show_the_numbers_of_their_box() {
    let b = sample();
    let ctx = box_context(&b, 64, 32);
    assert_eq!((ctx.x, ctx.y, ctx.w, ctx.h), (10, 20, 4, 10));
    assert_eq!((ctx.r, ctx.g, ctx.b), (1, 2, 3));
    assert_eq!((ctx.pixels, ctx.total_pixels, ctx.id), (33, 2048, 2));
    let mut rng = label_rng(&b);
    let out = expand_wildcards(default_template(), &ctx, &mut rng).out;
    assert_eq!(out, "X:10,Y:20");
}

#[test]
fn each_box_has_its_own_random_values() {
    let mut first = sample();
    first.id = 1;
    assert_eq!(label_rng(&first).next_u32(), 203720349);
    assert_eq!(label_rng(&sample()).next_u32(), 1153342337);
}

#[test]
fn labels_are_anchored_at_the_box_or_the_marker() {
    let b = sample();
    let mut cfg = FilterConfig::default();
    let a = anchor(&b, &cfg);
    assert_eq!((a.x, a.y, a.markers_x, a.markers_y), (23, 49, 0, 0));
    cfg.text_h_pos = AlignH::Left;
    cfg.text_v_pos = AlignV::Bottom;
    let a = anchor(&b, &cfg);
    assert_eq!((a.x, a.y, a.markers_x, a.markers_y), (20, 58, 0, 0));
    cfg.text_h_pos = AlignH::Right;
    cfg.text_v_pos = AlignV::Top;
    let a = anchor(&b, &cfg);
    assert_eq!((a.x, a.y), (26, 40));
    cfg.text_reference = TextReference::Marker;
    let a = anchor(&b, &cfg);
    assert_eq!((a.x, a.y, a.markers_x, a.markers_y), (24, 50, 1, -1));
}

#[test]
fn labels_are_aligned_in_half_pixels() {
    assert_eq!(shift_left(AlignH::Left, 7), 0);
    assert_eq!(shift_left(AlignH::Center, 7), 7);
    assert_eq!(shift_left(AlignH::Right, 7), 14);
    assert_eq!(shift_up(AlignV::Top, 5), 0);
    assert_eq!(shift_up(AlignV::Middle, 5), 5);
    assert_eq!(shift_up(AlignV::Bottom, 5), 10);
}

#[test]
fn labels_stay_in_the_frame() {
    assert_eq!(label_span(3, 4, 10), Some((3, 6)));
    assert_eq!(label_span(8, 4, 10), Some((8, 9)));
    assert_eq!(label_span(-8, 4, 10), Some((0, 3)));
    assert_eq!(label_span(10, 4, 10), None);
    assert_eq!(label_span(i32::MAX, i32::MAX, 10), None);
}

#[test]
fn bitmaps_hold_four_bytes_for_each_pixel() {
    let m = bitmap(9, 4);
    assert_eq!((m.width, m.height, m.row_pitch, m.size), (10, 5, 40, 200));
    assert_eq!(coverage_index(&m, 3, 2), 92);
    assert_eq!(coverage_index(&m, 9, 4), 196);
    let m = bitmap(-3, -1);
    assert_eq!((m.width, m.height, m.size), (1, 1, 4));
}

#[test]
fn faint_coverage_does_not_show() {
    for c in 0..=255u8 {
        assert_eq!(is_covered(c), !(c as f32 / 255.0 <= 0.01));
    }
}

#[test]
fn fonts_have_their_names() {
    assert_eq!(FontName::MeiryoUi.as_str(), "Meiryo UI");
    assert_eq!(FontName::ComicSansMs.as_str(), "Comic Sans MS");
    assert_eq!(FontName::Consolas.as_str(), "Consolas");
}
