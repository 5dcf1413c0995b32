use hl_blobox::keyer::{dilate_mask, find_boxes, window};

#[test]
fn test_dilate_mask_connects() {
    let w = 10usize;
    let h = 10usize;
    let mut mask = vec![0u8; w * h];
    mask[4 * w + 5] = 1;
    mask[5 * w + 5] = 1;
    mask[6 * w + 5] = 1;
    let dilated = dilate_mask(&mask, w, h, 1);
    assert!(dilated[4 * w + 4] == 1);
    assert!(dilated[3 * w + 5] == 1);
    assert!(dilated[5 * w + 5] == 1);
    assert!(dilated[0] == 0);
}

#[test]
fn growing_keeps_grows_and_adds_up() {
    let (w, h) = (9usize, 7usize);
    let mut mask = vec![0u8; w * h];
    mask[3 * w + 4] = 1;
    mask[0] = 1;
    assert_eq!(dilate_mask(&mask, w, h, 0), mask);
    let one = dilate_mask(&mask, w, h, 1);
    assert_eq!(one.iter().filter(|&&v| v == 1).count(), 9 + 4);
    assert!(mask.iter().zip(&one).all(|(&m, &d)| m <= d));
    let two = dilate_mask(&one, w, h, 1);
    assert_eq!(two, dilate_mask(&mask, w, h, 2));
    assert_eq!(dilate_mask(&mask, w, h, 1000), vec![1u8; w * h]);
}

#[test]
fn growing_joins_neighbours() {
    let (w, h) = (20usize, 9usize);
    let mut mask = vec![0u8; w * h];
    mask[4 * w + 4] = 1;
    mask[4 * w + 8] = 1;
    assert_eq!(find_boxes(&mask, w, h).len(), 2);
    assert_eq!(find_boxes(&dilate_mask(&mask, w, h, 1), w, h).len(), 2);
    assert_eq!(find_boxes(&dilate_mask(&mask, w, h, 2), w, h).len(), 1);
}

#[test]
fn growing_adds_no_boxes() {
    let (w, h) = (23usize, 17usize);
    let mut mask = vec![0u8; w * h];
    for (x, y) in [(0, 0), (3, 1), (7, 7), (8, 8), (14, 3), (22, 16), (20, 12), (1, 15)] {
        mask[y * w + x] = 1;
    }
    let mut before = find_boxes(&mask, w, h).len();
    assert_eq!(before, 8);
    for r in 1..8 {
        let after = find_boxes(&dilate_mask(&mask, w, h, r), w, h).len();
        assert!(after <= before);
        before = after;
    }
    assert_eq!(before, 1);
}

#[test]
fn neighbours_share_a_box() {
    let (w, h) = (20usize, 16usize);
    let mut mask = vec![0u8; w * h];
    let (p, q) = ((4, 3), (8, 7));
    mask[p.1 * w + p.0] = 1;
    mask[q.1 * w + q.0] = 1;
    let boxes = find_boxes(&dilate_mask(&mask, w, h, 2), w, h);
    assert!(boxes.iter().any(|b| [p, q].iter().all(|&(x, y)| {
        b.min_x <= x as i32 && x as i32 <= b.max_x && b.min_y <= y as i32 && y as i32 <= b.max_y
    })));
}

#[test]
fn blobs_touch_at_edges_not_at_corners() {
    let (w, h) = (4usize, 3usize);
    let mask = [
        1, 0, 1, 1, //
        0, 1, 0, 1, //
        0, 1, 0, 0,
    ];
    let boxes = find_boxes(&mask, w, h);
    assert_eq!(boxes.len(), 3);
    let sides: Vec<_> = boxes
        .iter()
        .map(|b| (b.min_x, b.min_y, b.max_x, b.max_y, b.pixels))
        .collect();
    assert_eq!(sides, [(0, 0, 0, 0, 1), (2, 0, 3, 1, 3), (1, 1, 1, 2, 2)]);
    let keyed = mask.iter().filter(|&&v| v != 0).count() as i64;
    assert_eq!(boxes.iter().map(|b| b.pixels).sum::<i64>(), keyed);
}

#[test]
fn a_ring_has_one_box() {
    let (w, h) = (5usize, 5usize);
    let mut mask = vec![1u8; w * h];
    mask[2 * w + 2] = 0;
    let boxes = find_boxes(&mask, w, h);
    assert_eq!(boxes.len(), 1);
    assert_eq!(boxes[0].pixels, 24);
    assert_eq!((boxes[0].center_x, boxes[0].center_y), (2, 2));
}

#[test]
fn a_blank_mask_has_no_boxes() {
    assert!(find_boxes(&[0u8; 12], 4, 3).is_empty());
    assert!(find_boxes(&[], 0, 3).is_empty());
}

#[test]
fn windows_end_at_the_frame() {
    assert_eq!(window(0, 2, 10), (0, 3));
    assert_eq!(window(5, 2, 10), (3, 8));
    assert_eq!(window(9, 2, 10), (7, 10));
    assert_eq!(window(5, usize::MAX, 10), (0, 10));
}

#[test]
fn boxes_hold_their_pixels_and_their_centre() {
    let (w, h) = (31usize, 17usize);
    let mask: Vec<u8> = (0..w * h).map(|i| (i * i % 7 < 3) as u8).collect();
    let boxes = find_boxes(&mask, w, h);
    for b in &boxes {
        assert!(0 <= b.min_x && b.min_x <= b.center_x && b.center_x <= b.max_x);
        assert!(0 <= b.min_y && b.min_y <= b.center_y && b.center_y <= b.max_y);
        assert!(b.max_x < w as i32 && b.max_y < h as i32);
        assert!(b.pixels >= 1);
        assert!(b.pixels <= ((b.max_x - b.min_x + 1) * (b.max_y - b.min_y + 1)) as i64);
    }
    let keyed = mask.iter().filter(|&&v| v != 0).count() as i64;
    assert_eq!(boxes.iter().map(|b| b.pixels).sum::<i64>(), keyed);
}
