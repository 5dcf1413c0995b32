use hl_blobox::motion::MOTION_CACHE_FRAMES;
use hl_blobox::{BloboxUserdata, RgbaPixel};

fn img(v: u8) -> Vec<RgbaPixel> {
    let mut px = vec![RgbaPixel::default(); 16];
    for p in px.iter_mut() {
        *p = RgbaPixel {
            r: v,
            g: v,
            b: v,
            a: 255,
        };
    }
    px
}

#[test]
fn test_motion_cache_survives_rerender() {
    let mut ud = BloboxUserdata::new(0);
    let id = 7i64;

    assert!(ud.get_prev_frame(id, 0).is_none());
    ud.store_frame(id, 0, img(0));
    assert!(ud.get_prev_frame(id, 0).is_none());
    ud.store_frame(id, 0, img(0));

    assert!(ud.get_prev_frame(id, 1).is_some());
    ud.store_frame(id, 1, img(1));
    assert!(
        ud.get_prev_frame(id, 1).is_some(),
        "再レンダリングで直前フレームが失われると、フレーム毎にしか検出できない"
    );
    ud.store_frame(id, 1, img(1));

    assert!(ud.get_prev_frame(id, 2).is_some());
    ud.store_frame(id, 2, img(2));
    assert!(ud.get_prev_frame(id, 2).is_some());
    ud.store_frame(id, 2, img(2));

    assert!(ud.cached_frames(id) <= MOTION_CACHE_FRAMES as usize + 1);
}

#[test]
fn test_motion_cache_clears_stale_frames() {
    let mut ud = BloboxUserdata::new(0);
    let id = 9i64;

    // Frames 100 to 103 are left from an earlier run.
    ud.store_frame(id, 100, img(100));
    ud.store_frame(id, 101, img(101));
    ud.store_frame(id, 102, img(102));
    ud.store_frame(id, 103, img(103));

    // The frames are rendered again from frame 0 on.
    assert!(ud.get_prev_frame(id, 0).is_none());
    ud.store_frame(id, 0, img(0));
    // With the remains gone, frame 1 can be compared with frame 0.
    assert!(
        ud.get_prev_frame(id, 1).is_some(),
        "再レンダリング時に古いフレームの残骸が残り、モーション検出が止まっている"
    );
    ud.store_frame(id, 1, img(1));
    assert!(ud.get_prev_frame(id, 2).is_some());
}

#[test]
fn the_newest_earlier_frame_is_found() {
    let mut ud = BloboxUserdata::new(3);
    for frame in 10..=14u32 {
        ud.store_frame(1, frame, img(frame as u8));
    }
    assert_eq!(ud.get_prev_frame(1, 15), Some(img(14)));
    assert_eq!(ud.get_prev_frame(1, 14), Some(img(13)));
    assert_eq!(ud.get_prev_frame(1, 12), Some(img(11)));
    assert_eq!(ud.get_prev_frame(1, 10), None);
    assert_eq!(ud.cached_frames(1), MOTION_CACHE_FRAMES as usize + 1);
    ud.store_frame(1, 15, img(15));
    assert_eq!(ud.cached_frames(1), MOTION_CACHE_FRAMES as usize + 1);
    assert_eq!(ud.get_prev_frame(1, 11), None);
}

#[test]
fn a_frame_stored_again_is_replaced() {
    let mut ud = BloboxUserdata::new(0);
    ud.store_frame(1, 5, img(1));
    ud.store_frame(1, 5, img(2));
    assert_eq!(ud.get_prev_frame(1, 6), Some(img(2)));
    assert_eq!(ud.cached_frames(1), 1);
}

#[test]
fn objects_do_not_share_frames() {
    let mut ud = BloboxUserdata::new(0);
    ud.store_frame(1, 5, img(1));
    ud.store_frame(-2, 5, img(2));
    assert_eq!(ud.get_prev_frame(1, 6), Some(img(1)));
    assert_eq!(ud.get_prev_frame(-2, 6), Some(img(2)));
    assert_eq!(ud.get_prev_frame(3, 6), None);
    assert_eq!(ud.cached_frames(3), 0);
}
