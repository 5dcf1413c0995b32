//! The frames that motion detection compares with.
use crate::pixel::RgbaPixel;
use std::collections::HashMap;
use vstd::prelude::*;
use vstd::set_lib::{lemma_int_range, lemma_len_subset, set_int_range};

verus! {

/// How many frames before the current one are kept.
///
/// A host may render a frame more than once, so the frame before the current
/// one has to survive a few stores.
pub const MOTION_CACHE_FRAMES: u32 = 4;

/// The cached frames of one object, by frame number.
pub type Frames = Map<u32, Seq<RgbaPixel>>;

/// Frame numbers that a store of frame `frame` keeps.
pub open spec fn recent(frame: u32) -> Set<u32> {
    Set::new(|f: u32| frame - MOTION_CACHE_FRAMES <= f <= frame)
}

/// The cached frames of an object after `image` was stored as frame `frame`:
/// the image replaces or joins what was there, and frames later than it or too
/// far back are dropped.
pub open spec fn stored(frames: Frames, frame: u32, image: Seq<RgbaPixel>) -> Frames {
    frames.insert(frame, image).restrict(recent(frame))
}

/// `f` is the newest cached frame before frame `current`.
pub open spec fn newest_before(frames: Frames, current: u32, f: u32) -> bool {
    &&& frames.contains_key(f)
    &&& f < current
    &&& forall|g: u32| #[trigger] frames.contains_key(g) && g < current ==> g <= f
}

/// The frames that a list of frames holds.
spec fn listed(list: Seq<(u32, Vec<RgbaPixel>)>) -> Frames {
    Map::new(
        |f: u32| exists|i: int| 0 <= i < list.len() && (#[trigger] list[i]).0 == f,
        |f: u32| list[choose|i: int| 0 <= i < list.len() && (#[trigger] list[i]).0 == f].1@,
    )
}

/// A list of frames goes from the newest to the oldest.
spec fn newest_first(list: Seq<(u32, Vec<RgbaPixel>)>) -> bool {
    forall|i: int, j: int|
        0 <= i < j < list.len() ==> (#[trigger] list[i]).0 > (#[trigger] list[j]).0
}

/// The frames kept for motion detection, for each object.
pub struct BloboxUserdata {
    prev_frames: HashMap<i64, Vec<(u32, Vec<RgbaPixel>)>>,
}

impl View for BloboxUserdata {
    type V = Map<i64, Frames>;

    closed spec fn view(&self) -> Map<i64, Frames> {
        Map::new(
            |id: i64| self.prev_frames@.contains_key(id),
            |id: i64| listed(self.prev_frames@[id]@),
        )
    }
}

impl BloboxUserdata {
    /// Every list of frames is in order.
    pub closed spec fn wf(&self) -> bool {
        forall|id: i64| #[trigger]
            self.prev_frames@.contains_key(id) ==> newest_first(self.prev_frames@[id]@)
    }

    /// The cached frames of an object.
    pub open spec fn frames_of(&self, object_id: i64) -> Frames {
        if self@.contains_key(object_id) {
            self@[object_id]
        } else {
            Map::empty()
        }
    }

    /// Keeps no frames yet, whatever effect it is for.
    pub fn new(_effect_id: i64) -> (cache: Self)
        ensures
            cache.wf(),
            cache@ == Map::<i64, Frames>::empty(),
    {
        broadcast use vstd::std_specs::hash::group_hash_axioms;

        let cache = BloboxUserdata { prev_frames: HashMap::new() };
        assert(cache@ =~= Map::<i64, Frames>::empty());
        cache
    }

    /// How many frames of an object are cached.
    pub fn cached_frames(&self, object_id: i64) -> (n: usize)
        requires
            self.wf(),
        ensures
            self.frames_of(object_id).dom().finite(),
            n == self.frames_of(object_id).len(),
    {
        broadcast use vstd::std_specs::hash::group_hash_axioms;

        match self.prev_frames.get(&object_id) {
            Some(list) => {
                proof {
                    lemma_listed_len(list@);
                }
                list.len()
            },
            None => {
                assert(self.frames_of(object_id) =~= Map::<u32, Seq<RgbaPixel>>::empty());
                0
            },
        }
    }

    /// The newest cached image of an object from before frame `current_frame`.
    pub fn get_prev_frame(&self, object_id: i64, current_frame: u32) -> (r: Option<
        Vec<RgbaPixel>,
    >)
        requires
            self.wf(),
        ensures
            match r {
                Some(image) => exists|f: u32| #[trigger]
                    newest_before(self.frames_of(object_id), current_frame, f)
                        && self.frames_of(object_id)[f] == image@,
                None => forall|f: u32| #[trigger]
                    self.frames_of(object_id).contains_key(f) ==> f >= current_frame,
            },
    {
        broadcast use vstd::std_specs::hash::group_hash_axioms;

        match self.prev_frames.get(&object_id) {
            Some(list) => {
                let ghost frames = self.frames_of(object_id);
                assert(frames == listed(list@));
                let mut i: usize = 0;
                while i < list.len()
                    invariant
                        i <= list@.len(),
                        newest_first(list@),
                        frames == listed(list@),
                        frames == self.frames_of(object_id),
                        forall|k: int| 0 <= k < i ==> (#[trigger] list@[k]).0 >= current_frame,
                    decreases list@.len() - i,
                {
                    if list[i].0 < current_frame {
                        proof {
                            lemma_listed(list@, i as int);
                            let f = list@[i as int].0;
                            assert forall|g: u32| #[trigger]
                                frames.contains_key(g) && g < current_frame implies g <= f by {
                                let k = choose|k: int|
                                    0 <= k < list@.len() && (#[trigger] list@[k]).0 == g;
                                assert(k >= i);
                            }
                            assert(newest_before(frames, current_frame, f));
                        }
                        return Some(copy_image(&list[i].1));
                    }
                    i = i + 1;
                }
                None
            },
            None => None,
        }
    }

    /// Caches the image of an object at frame `frame`.
    pub fn store_frame(&mut self, object_id: i64, frame: u32, image: Vec<RgbaPixel>)
        requires
            old(self).wf(),
        ensures
            final(self).wf(),
            final(self)@ == old(self)@.insert(
                object_id,
                stored(old(self).frames_of(object_id), frame, image@),
            ),
    {
        broadcast use vstd::std_specs::hash::group_hash_axioms;

        let ghost before = self.frames_of(object_id);
        let ghost all = self@;
        let old_list = match self.prev_frames.remove(&object_id) {
            Some(list) => list,
            None => Vec::new(),
        };
        assert(before =~= listed(old_list@));
        let list = refresh(old_list, frame, image);
        self.prev_frames.insert(object_id, list);
        assert(self@ =~= all.insert(object_id, stored(before, frame, image@)));
    }
}

fn copy_image(image: &Vec<RgbaPixel>) -> (r: Vec<RgbaPixel>)
    ensures
        r@ == image@,
{
    let mut r: Vec<RgbaPixel> = Vec::with_capacity(image.len());
    let mut i: usize = 0;
    while i < image.len()
        invariant
            i <= image@.len(),
            r@ == image@.take(i as int),
        decreases image@.len() - i,
    {
        assert(image@.take(i + 1) =~= image@.take(i as int).push(image@[i as int]));
        r.push(image[i]);
        i = i + 1;
    }
    assert(image@.take(image@.len() as int) =~= image@);
    r
}

proof fn lemma_listed(list: Seq<(u32, Vec<RgbaPixel>)>, i: int)
    requires
        newest_first(list),
        0 <= i < list.len(),
    ensures
        listed(list).contains_key(list[i].0),
        listed(list)[list[i].0] == list[i].1@,
{
    let k = choose|k: int| 0 <= k < list.len() && (#[trigger] list[k]).0 == list[i].0;
    assert(k == i) by {
        if k < i {
            assert(list[k].0 > list[i].0);
        } else if i < k {
            assert(list[i].0 > list[k].0);
        }
    }
}

proof fn lemma_listed_len(list: Seq<(u32, Vec<RgbaPixel>)>)
    requires
        newest_first(list),
    ensures
        listed(list).dom().finite(),
        listed(list).len() == list.len(),
{
    let numbers = list.map_values(|e: (u32, Vec<RgbaPixel>)| e.0);
    assert(numbers.no_duplicates()) by {
        assert forall|i: int, j: int|
            0 <= i < numbers.len() && 0 <= j < numbers.len() && i != j implies numbers[i]
            != numbers[j] by {
            assert(list[i].0 == numbers[i] && list[j].0 == numbers[j]);
        }
    }
    numbers.unique_seq_to_set();
    assert(numbers.to_set() =~= listed(list).dom()) by {
        assert forall|f: u32| numbers.to_set().contains(f) <==> listed(list).dom().contains(
            f,
        ) by {
            if numbers.to_set().contains(f) {
                let i = choose|i: int| 0 <= i < numbers.len() && numbers[i] == f;
                assert(list[i].0 == f);
            }
            if listed(list).dom().contains(f) {
                let i = choose|i: int| 0 <= i < list.len() && (#[trigger] list[i]).0 == f;
                assert(numbers[i] == f);
            }
        }
    }
    vstd::seq_lib::seq_to_set_is_finite(numbers);
}

/// The list of frames after an image was stored.
fn refresh(list: Vec<(u32, Vec<RgbaPixel>)>, frame: u32, image: Vec<RgbaPixel>) -> (out: Vec<
    (u32, Vec<RgbaPixel>),
>)
    requires
        newest_first(list@),
    ensures
        newest_first(out@),
        listed(out@) == stored(listed(list@), frame, image@),
{
    let lo = frame.saturating_sub(MOTION_CACHE_FRAMES);
    let ghost shot = image@;
    let ghost source = list@;
    let mut out: Vec<(u32, Vec<RgbaPixel>)> = Vec::new();
    out.push((frame, image));
    let mut i: usize = 0;
    while i < list.len()
        invariant
            i <= list@.len(),
            source == list@,
            newest_first(source),
            newest_first(out@),
            lo == if frame < MOTION_CACHE_FRAMES {
                0
            } else {
                frame - MOTION_CACHE_FRAMES
            },
            out@.len() > 0,
            out@[0].0 == frame && out@[0].1@ == shot,
            forall|k: int, l: int|
                0 < k < out@.len() && i <= l < source.len() ==> (#[trigger] out@[k]).0 > (
                #[trigger] source[l]).0,
            forall|k: int|
                0 < k < out@.len() ==> lo <= (#[trigger] out@[k]).0 < frame && exists|l: int|
                    0 <= l < i && (#[trigger] source[l]).0 == out@[k].0 && source[l].1@
                        == out@[k].1@,
            forall|l: int|
                0 <= l < i && lo <= (#[trigger] source[l]).0 < frame ==> exists|k: int|
                    0 < k < out@.len() && (#[trigger] out@[k]).0 == source[l].0,
        decreases list@.len() - i,
    {
        let f = list[i].0;
        let ghost before = out@;
        if lo <= f && f < frame {
            out.push((f, copy_image(&list[i].1)));
            assert forall|k: int| 0 < k < out@.len() implies lo <= (#[trigger] out@[k]).0 < frame
                && exists|l: int|
                0 <= l < i + 1 && (#[trigger] source[l]).0 == out@[k].0 && source[l].1@
                    == out@[k].1@ by {
                if k < before.len() {
                    assert(out@[k] == before[k]);
                } else {
                    assert(source[i as int].0 == out@[k].0);
                }
            }
            assert forall|l: int|
                0 <= l < i + 1 && lo <= (#[trigger] source[l]).0 < frame implies exists|k: int|
                0 < k < out@.len() && (#[trigger] out@[k]).0 == source[l].0 by {
                if l < i {
                    let k = choose|k: int|
                        0 < k < before.len() && (#[trigger] before[k]).0 == source[l].0;
                    assert(out@[k] == before[k]);
                } else {
                    assert(out@[before.len() as int].0 == source[l].0);
                }
            }
        }
        i = i + 1;
    }
    proof {
        let want = stored(listed(source), frame, shot);
        assert forall|f: u32| listed(out@).contains_key(f) <==> #[trigger] want.contains_key(f) by {
            if listed(out@).contains_key(f) {
                let k = choose|k: int| 0 <= k < out@.len() && (#[trigger] out@[k]).0 == f;
                if k > 0 {
                    let l = choose|l: int|
                        0 <= l < i && (#[trigger] source[l]).0 == out@[k].0 && source[l].1@
                            == out@[k].1@;
                    lemma_listed(source, l);
                }
            }
            if want.contains_key(f) {
                if f == frame {
                    assert(out@[0].0 == f);
                } else {
                    let l = choose|l: int| 0 <= l < source.len() && (#[trigger] source[l]).0 == f;
                    assert(lo <= source[l].0 < frame);
                    let k = choose|k: int|
                        0 < k < out@.len() && (#[trigger] out@[k]).0 == source[l].0;
                    assert(out@[k].0 == f);
                }
            }
        }
        assert forall|f: u32| #[trigger] want.contains_key(f) implies listed(out@)[f] == want[f] by {
            let k = choose|k: int| 0 <= k < out@.len() && (#[trigger] out@[k]).0 == f;
            lemma_listed(out@, k);
            if k > 0 {
                let l = choose|l: int|
                    0 <= l < i && (#[trigger] source[l]).0 == out@[k].0 && source[l].1@
                        == out@[k].1@;
                lemma_listed(source, l);
            }
        }
        assert(listed(out@) =~= want);
    }
    out
}

/// What was stored last is what any later frame compares with.
pub proof fn law_later_frame_sees_stored(
    frames: Frames,
    frame: u32,
    image: Seq<RgbaPixel>,
    later: u32,
)
    requires
        frame < later,
    ensures
        newest_before(stored(frames, frame, image), later, frame),
        stored(frames, frame, image)[frame] == image,
{
}

/// Rendering a frame again does not change what it is compared with.
pub proof fn law_rerender_keeps_previous(
    frames: Frames,
    frame: u32,
    first: Seq<RgbaPixel>,
    second: Seq<RgbaPixel>,
    f: u32,
)
    ensures
        newest_before(stored(stored(frames, frame, first), frame, second), frame, f)
            <==> newest_before(stored(frames, frame, first), frame, f),
        newest_before(stored(frames, frame, first), frame, f) ==> stored(
            stored(frames, frame, first),
            frame,
            second,
        )[f] == stored(frames, frame, first)[f],
{
    let once = stored(frames, frame, first);
    let twice = stored(once, frame, second);
    assert(once.dom() =~= twice.dom());
    assert(newest_before(twice, frame, f) ==> newest_before(once, frame, f)) by {
        assert forall|g: u32| #[trigger] once.contains_key(g) implies twice.contains_key(g) by {}
    }
    assert(newest_before(once, frame, f) ==> newest_before(twice, frame, f)) by {
        assert forall|g: u32| #[trigger] twice.contains_key(g) implies once.contains_key(g) by {}
    }
}

/// After a store no frame later than it or too far back is left, and the
/// frames in between are those that were there.
pub proof fn law_stale_frames_are_dropped(
    frames: Frames,
    frame: u32,
    image: Seq<RgbaPixel>,
    f: u32,
)
    ensures
        stored(frames, frame, image).contains_key(f) ==> frame - MOTION_CACHE_FRAMES <= f <= frame,
        frame - MOTION_CACHE_FRAMES <= f < frame ==> (stored(frames, frame, image).contains_key(f)
            <==> frames.contains_key(f)),
{
}

/// An object never keeps more than the current frame and the frames before it
/// that are to be kept.
pub proof fn law_cache_is_bounded(frames: Frames, frame: u32, image: Seq<RgbaPixel>)
    ensures
        stored(frames, frame, image).dom().finite(),
        stored(frames, frame, image).len() <= MOTION_CACHE_FRAMES + 1,
{
    let keys = stored(frames, frame, image).dom();
    let lo = frame - MOTION_CACHE_FRAMES;
    let ints = keys.map(|f: u32| f as int);
    lemma_int_range(lo, frame + 1);
    assert(ints.subset_of(set_int_range(lo, frame + 1)));
    vstd::set_lib::lemma_set_subset_finite(set_int_range(lo, frame + 1), ints);
    lemma_len_subset(ints, set_int_range(lo, frame + 1));
    let back = ints.map(|i: int| i as u32);
    ints.lemma_map_finite(|i: int| i as u32);
    assert(back =~= keys) by {
        assert forall|f: u32| keys.contains(f) implies back.contains(f) by {
            assert(ints.contains(f as int));
        }
    }
    vstd::set_lib::lemma_map_size(keys, ints, |f: u32| f as int);
}

/// After a store the frame itself is there with the new image, and of the frames
/// that were there, those of the four numbers before it, as they were.
pub proof fn law_store_keeps_four_frames_back(
    frames: Frames,
    frame: u32,
    image: Seq<RgbaPixel>,
    f: u32,
)
    ensures
        stored(frames, frame, image).contains_key(f) <==> f == frame || frames.contains_key(f) && f
            < frame && frame <= f + 4,
        stored(frames, frame, image).contains_key(f) ==> stored(frames, frame, image)[f] == if f
            == frame {
            image
        } else {
            frames[f]
        },
{
}

/// The frame that a frame is compared with comes before it, is there, and no
/// frame that is there lies between them. There is at most one such frame.
pub proof fn law_previous_frame_is_the_closest(frames: Frames, current: u32, f: u32, g: u32)
    requires
        newest_before(frames, current, f),
    ensures
        f < current,
        frames.contains_key(f),
        f < g < current ==> !frames.contains_key(g),
        newest_before(frames, current, g) ==> g == f,
{
}

/// Frames rendered in turn are each compared with the one just before.
pub proof fn law_frames_in_turn_see_each_other(
    frames: Frames,
    frame: u32,
    first: Seq<RgbaPixel>,
    second: Seq<RgbaPixel>,
)
    requires
        frame < u32::MAX,
    ensures
        ({
            let next = (frame + 1) as u32;
            let both = stored(stored(frames, frame, first), next, second);
            &&& newest_before(stored(frames, frame, first), next, frame)
            &&& newest_before(both, next, frame)
            &&& both[frame] == first
            &&& both[next] == second
        }),
{
    let next = (frame + 1) as u32;
    let once = stored(frames, frame, first);
    law_store_keeps_four_frames_back(frames, frame, first, frame);
    law_store_keeps_four_frames_back(once, next, second, frame);
    law_store_keeps_four_frames_back(once, next, second, next);
}

} // verus!
