//! Connected components of a mask and their bounding boxes.
use crate::grid::{column, index_of, lemma_coords, lemma_index, row};
use vstd::prelude::*;
use vstd::set_lib::{lemma_int_range, lemma_len_subset, set_int_range};

verus! {

/// The bounding box of a detected blob.
#[derive(Debug, Clone, Copy)]
pub struct Box {
    pub min_x: i32,
    pub min_y: i32,
    pub max_x: i32,
    pub max_y: i32,
    pub center_x: i32,
    pub center_y: i32,
    pub pixels: i64,
    pub cr: u8,
    pub cg: u8,
    pub cb: u8,
    pub id: i32,
}

/// Pixel `p` lies in the frame and is keyed.
pub open spec fn keyed(mask: Seq<u8>, w: int, h: int, p: int) -> bool {
    0 <= p < w * h && mask[p] != 0
}

/// Pixels `p` and `q` share an edge.
pub open spec fn adjacent(w: int, p: int, q: int) -> bool {
    ||| row(w, p) == row(w, q) && (column(w, p) + 1 == column(w, q) || column(w, q) + 1 == column(
        w,
        p,
    ))
    ||| column(w, p) == column(w, q) && (row(w, p) + 1 == row(w, q) || row(w, q) + 1 == row(w, p))
}

/// `path` walks over keyed pixels from edge neighbour to edge neighbour.
pub open spec fn is_path(mask: Seq<u8>, w: int, h: int, path: Seq<int>) -> bool {
    &&& path.len() > 0
    &&& forall|i: int| 0 <= i < path.len() ==> keyed(mask, w, h, #[trigger] path[i])
    &&& forall|i: int, j: int|
        0 <= i && j == i + 1 && j < path.len() ==> adjacent(
            w,
            #[trigger] path[i],
            #[trigger] path[j],
        )
}

/// Pixels `p` and `q` belong to the same blob.
pub open spec fn connected(mask: Seq<u8>, w: int, h: int, p: int, q: int) -> bool {
    exists|path: Seq<int>| #[trigger]
        is_path(mask, w, h, path) && path[0] == p && path[path.len() - 1] == q
}

/// The blob of pixel `p`.
pub open spec fn blob(mask: Seq<u8>, w: int, h: int, p: int) -> Set<int> {
    Set::new(|q: int| connected(mask, w, h, p, q))
}

/// Pixel `p` is the first of its blob in row-major order.
pub open spec fn is_leader(mask: Seq<u8>, w: int, h: int, p: int) -> bool {
    &&& keyed(mask, w, h, p)
    &&& forall|q: int| 0 <= q < p ==> !#[trigger] connected(mask, w, h, q, p)
}

/// The leaders among the first `n` pixels, in row-major order.
pub open spec fn leaders(mask: Seq<u8>, w: int, h: int, n: int) -> Seq<int>
    decreases n,
{
    if n <= 0 {
        Seq::empty()
    } else if is_leader(mask, w, h, n - 1) {
        leaders(mask, w, h, n - 1).push(n - 1)
    } else {
        leaders(mask, w, h, n - 1)
    }
}

/// `x0..=x1` by `y0..=y1` is the smallest rectangle around the pixels `s`.
pub open spec fn encloses(s: Set<int>, w: int, x0: int, y0: int, x1: int, y1: int) -> bool {
    &&& forall|q: int| #[trigger]
        s.contains(q) ==> x0 <= column(w, q) <= x1 && y0 <= row(w, q) <= y1
    &&& exists|q: int| #[trigger] s.contains(q) && column(w, q) == x0
    &&& exists|q: int| #[trigger] s.contains(q) && column(w, q) == x1
    &&& exists|q: int| #[trigger] s.contains(q) && row(w, q) == y0
    &&& exists|q: int| #[trigger] s.contains(q) && row(w, q) == y1
}

/// `b` is the fresh box of the pixels `s`: its sides touch them, its centre is
/// the middle of its sides rounded up, it counts them, and neither a colour
/// nor an identifier has been given to it.
pub open spec fn boxes_pixels(b: Box, s: Set<int>, w: int) -> bool {
    &&& encloses(s, w, b.min_x as int, b.min_y as int, b.max_x as int, b.max_y as int)
    &&& s.finite()
    &&& b.pixels == s.len()
    &&& b.center_x == (b.min_x + b.max_x + 1) / 2
    &&& b.center_y == (b.min_y + b.max_y + 1) / 2
    &&& b.cr == 0 && b.cg == 0 && b.cb == 0
    &&& b.id == 1
}

/// `boxes` holds the box of every blob, in the order of the blobs' leaders.
pub open spec fn boxes_of_mask(boxes: Seq<Box>, mask: Seq<u8>, w: int, h: int, n: int) -> bool {
    &&& boxes.len() == leaders(mask, w, h, n).len()
    &&& forall|i: int|
        0 <= i < boxes.len() ==> boxes_pixels(
            #[trigger] boxes[i],
            blob(mask, w, h, leaders(mask, w, h, n)[i]),
            w,
        )
}

/// A keyed pixel is in its own blob.
pub proof fn lemma_connected_self(mask: Seq<u8>, w: int, h: int, p: int)
    requires
        keyed(mask, w, h, p),
    ensures
        connected(mask, w, h, p, p),
{
    let path = seq![p];
    assert(is_path(mask, w, h, path));
    assert(path[0] == p && path[path.len() - 1] == p);
}

/// Only keyed pixels belong to blobs.
pub proof fn lemma_connected_keyed(mask: Seq<u8>, w: int, h: int, p: int, q: int)
    requires
        connected(mask, w, h, p, q),
    ensures
        keyed(mask, w, h, p),
        keyed(mask, w, h, q),
{
}

/// Belonging to the same blob is symmetric.
pub proof fn lemma_connected_symmetric(mask: Seq<u8>, w: int, h: int, p: int, q: int)
    requires
        connected(mask, w, h, p, q),
    ensures
        connected(mask, w, h, q, p),
{
    let path = choose|path: Seq<int>| #[trigger]
        is_path(mask, w, h, path) && path[0] == p && path[path.len() - 1] == q;
    let back = path.reverse();
    assert forall|i: int, j: int| 0 <= i && j == i + 1 && j < back.len() implies adjacent(
        w,
        #[trigger] back[i],
        #[trigger] back[j],
    ) by {
        assert(back[i] == path[path.len() - 1 - i]);
        assert(back[j] == path[path.len() - 1 - j]);
        assert(adjacent(w, path[path.len() - 1 - j], path[path.len() - 1 - i]));
    }
    assert(is_path(mask, w, h, back));
    assert(back[0] == q && back[back.len() - 1] == p);
}

/// Belonging to the same blob is transitive.
pub proof fn lemma_connected_transitive(
    mask: Seq<u8>,
    w: int,
    h: int,
    p: int,
    q: int,
    r: int,
)
    requires
        connected(mask, w, h, p, q),
        connected(mask, w, h, q, r),
    ensures
        connected(mask, w, h, p, r),
{
    let a = choose|path: Seq<int>| #[trigger]
        is_path(mask, w, h, path) && path[0] == p && path[path.len() - 1] == q;
    let b = choose|path: Seq<int>| #[trigger]
        is_path(mask, w, h, path) && path[0] == q && path[path.len() - 1] == r;
    let c = a + b.drop_first();
    assert forall|i: int| 0 <= i < c.len() implies keyed(mask, w, h, #[trigger] c[i]) by {
        if i >= a.len() {
            assert(c[i] == b[i - a.len() + 1]);
        } else {
            assert(c[i] == a[i]);
        }
    }
    assert forall|i: int, j: int| 0 <= i && j == i + 1 && j < c.len() implies adjacent(
        w,
        #[trigger] c[i],
        #[trigger] c[j],
    ) by {
        if j < a.len() {
            assert(c[i] == a[i] && c[j] == a[j]);
            assert(adjacent(w, a[i], a[j]));
        } else {
            let k = j - a.len() + 1;
            assert(c[j] == b[k]);
            assert(c[i] == b[k - 1]);
            assert(adjacent(w, b[k - 1], b[k]));
        }
    }
    assert(is_path(mask, w, h, c));
    assert(c[0] == p);
    assert(c[c.len() - 1] == r);
}

/// A keyed pixel beside a pixel of a blob belongs to that blob.
pub proof fn lemma_connected_step(mask: Seq<u8>, w: int, h: int, p: int, q: int, r: int)
    requires
        connected(mask, w, h, p, q),
        keyed(mask, w, h, r),
        adjacent(w, q, r),
    ensures
        connected(mask, w, h, p, r),
{
    let path = seq![q, r];
    assert(is_path(mask, w, h, path));
    assert(path[0] == q && path[path.len() - 1] == r);
    lemma_connected_transitive(mask, w, h, p, q, r);
}

/// A set that holds `p` and with each pixel its keyed neighbours holds the
/// whole blob of `p`.
proof fn lemma_closed_set_holds_blob(mask: Seq<u8>, w: int, h: int, p: int, s: Set<int>, q: int)
    requires
        s.contains(p),
        forall|a: int, b: int|
            s.contains(a) && keyed(mask, w, h, b) && #[trigger] adjacent(w, a, b) ==> s.contains(b),
        connected(mask, w, h, p, q),
    ensures
        s.contains(q),
{
    let path = choose|path: Seq<int>| #[trigger]
        is_path(mask, w, h, path) && path[0] == p && path[path.len() - 1] == q;
    lemma_walk_stays(mask, w, h, path, s, path.len() - 1);
}

proof fn lemma_walk_stays(mask: Seq<u8>, w: int, h: int, path: Seq<int>, s: Set<int>, i: int)
    requires
        is_path(mask, w, h, path),
        s.contains(path[0]),
        forall|a: int, b: int|
            s.contains(a) && keyed(mask, w, h, b) && #[trigger] adjacent(w, a, b) ==> s.contains(b),
        0 <= i < path.len(),
    ensures
        s.contains(path[i]),
    decreases i,
{
    if i > 0 {
        lemma_walk_stays(mask, w, h, path, s, i - 1);
        assert(adjacent(w, path[i - 1], path[i]));
    }
}

/// The edge neighbours of a pixel are the pixels one step left, right, up and
/// down of it, where the frame has them.
pub proof fn lemma_neighbours(w: int, h: int, p: int, q: int)
    requires
        0 < w,
        0 <= p < w * h,
        0 <= q < w * h,
    ensures
        adjacent(w, p, q) <==> {
            ||| column(w, p) > 0 && q == p - 1
            ||| column(w, p) + 1 < w && q == p + 1
            ||| row(w, p) > 0 && q == p - w
            ||| row(w, p) + 1 < h && q == p + w
        },
{
    lemma_coords(w, h, p);
    lemma_coords(w, h, q);
    let x = column(w, p);
    let y = row(w, p);
    if x > 0 {
        lemma_index(w, h, x - 1, y);
    }
    if x + 1 < w {
        lemma_index(w, h, x + 1, y);
    }
    if y > 0 {
        lemma_index(w, h, x, y - 1);
        assert(index_of(w, x, y - 1) == p - w) by (nonlinear_arith)
            requires
                p == y * w + x,
                index_of(w, x, y - 1) == (y - 1) * w + x,
        ;
    }
    if y + 1 < h {
        lemma_index(w, h, x, y + 1);
        assert(index_of(w, x, y + 1) == p + w) by (nonlinear_arith)
            requires
                p == y * w + x,
                index_of(w, x, y + 1) == (y + 1) * w + x,
        ;
    }
}

/// What holds while a blob is flooded from `start`: `seen` tells which pixels
/// were visited before, `done` holds the pixels that left the stack.
spec fn flood_state(
    mask: Seq<u8>,
    w: int,
    h: int,
    start: int,
    seen: Seq<bool>,
    visited: Seq<bool>,
    stack: Seq<usize>,
    done: Set<int>,
) -> bool {
    &&& seen.len() == visited.len()
    &&& w * h <= visited.len() <= usize::MAX
    &&& forall|p: int|
        0 <= p < w * h ==> (#[trigger] visited[p] <==> seen[p] || done.contains(p)
            || stack.contains(p as usize))
    &&& stack.no_duplicates()
    &&& forall|i: int|
        0 <= i < stack.len() ==> connected(mask, w, h, start, #[trigger] stack[i] as int)
            && !done.contains(stack[i] as int)
    &&& forall|p: int| #[trigger] done.contains(p) ==> connected(mask, w, h, start, p)
}

/// Marks the keyed pixel `q` and puts it on the stack, unless it was visited.
fn discover(mask: &[u8], visited: &mut Vec<bool>, stack: &mut Vec<usize>, q: usize)
    requires
        q < mask@.len(),
        q < old(visited)@.len(),
    ensures
        final(visited)@.len() == old(visited)@.len(),
        ({
            let fresh = mask@[q as int] != 0 && !old(visited)@[q as int];
            &&& fresh ==> final(visited)@ == old(visited)@.update(q as int, true) && final(stack)@
                == old(stack)@.push(q)
            &&& !fresh ==> final(visited)@ == old(visited)@ && final(stack)@ == old(stack)@
        }),
{
    if mask[q] != 0 && !visited[q] {
        visited.set(q, true);
        stack.push(q);
    }
}

/// Discovering a neighbour of a pixel of the blob keeps the state of the flood.
proof fn lemma_discover(
    mask: Seq<u8>,
    w: int,
    h: int,
    start: int,
    seen: Seq<bool>,
    visited: Seq<bool>,
    stack: Seq<usize>,
    done: Set<int>,
    p: int,
    q: usize,
)
    requires
        flood_state(mask, w, h, start, seen, visited, stack, done),
        connected(mask, w, h, start, p),
        adjacent(w, p, q as int),
        keyed(mask, w, h, q as int),
        !visited[q as int],
    ensures
        flood_state(
            mask,
            w,
            h,
            start,
            seen,
            visited.update(q as int, true),
            stack.push(q),
            done,
        ),
{
    lemma_connected_step(mask, w, h, start, p, q as int);
    let v = visited.update(q as int, true);
    let s = stack.push(q);
    assert(!stack.contains(q) && !done.contains(q as int));
    assert(s[stack.len() as int] == q);
    assert forall|r: int| 0 <= r < w * h implies (#[trigger] v[r] <==> seen[r] || done.contains(r)
        || s.contains(r as usize)) by {
        if r == q {
        } else if stack.contains(r as usize) {
            let k = choose|k: int| 0 <= k < stack.len() && stack[k] == r as usize;
            assert(s[k] == r as usize);
        } else if s.contains(r as usize) {
            let k = choose|k: int| 0 <= k < s.len() && s[k] == r as usize;
            assert(k < stack.len() ==> stack[k] == r as usize);
        }
    }
}

/// Taking the top of the stack into `done` keeps the state of the flood.
proof fn lemma_popped(
    mask: Seq<u8>,
    w: int,
    h: int,
    start: int,
    seen: Seq<bool>,
    visited: Seq<bool>,
    stack: Seq<usize>,
    done: Set<int>,
)
    requires
        flood_state(mask, w, h, start, seen, visited, stack, done),
        stack.len() > 0,
    ensures
        flood_state(
            mask,
            w,
            h,
            start,
            seen,
            visited,
            stack.drop_last(),
            done.insert(stack.last() as int),
        ),
        connected(mask, w, h, start, stack.last() as int),
        !done.contains(stack.last() as int),
{
    let rest = stack.drop_last();
    let top = stack.last();
    assert forall|p: int| 0 <= p < w * h implies (#[trigger] visited[p] <==> seen[p]
        || done.insert(top as int).contains(p) || rest.contains(p as usize)) by {
        if stack.contains(p as usize) {
            let k = choose|k: int| 0 <= k < stack.len() && stack[k] == p as usize;
            if k < rest.len() {
                assert(rest[k] == p as usize);
            } else {
                lemma_connected_keyed(mask, w, h, start, top as int);
                assert(p as usize == top);
            }
        }
        if rest.contains(p as usize) {
            let k = choose|k: int| 0 <= k < rest.len() && rest[k] == p as usize;
            assert(stack[k] == p as usize);
        }
    }
    assert forall|i: int| 0 <= i < rest.len() implies connected(
        mask,
        w,
        h,
        start,
        #[trigger] rest[i] as int,
    ) && !done.insert(top as int).contains(rest[i] as int) by {
        assert(rest[i] == stack[i]);
        assert(stack[i] != stack[stack.len() - 1]);
    }
}

/// No more pixels can be done than the frame has.
proof fn lemma_done_bound(mask: Seq<u8>, w: int, h: int, start: int, done: Set<int>)
    requires
        0 <= w * h,
        done.finite(),
        forall|p: int| #[trigger] done.contains(p) ==> connected(mask, w, h, start, p),
    ensures
        done.len() <= w * h,
{
    lemma_int_range(0, w * h);
    assert forall|p: int| done.contains(p) implies set_int_range(0, w * h).contains(p) by {
        lemma_connected_keyed(mask, w, h, start, p);
    }
    lemma_len_subset(done, set_int_range(0, w * h));
}

/// Taking one more pixel in widens the smallest rectangle just enough.
proof fn lemma_encloses_grows(s: Set<int>, w: int, p: int)
    ensures
        forall|x0: int, y0: int, x1: int, y1: int| #[trigger]
            encloses(s, w, x0, y0, x1, y1) ==> {
                let x = column(w, p);
                let y = row(w, p);
                encloses(
                    s.insert(p),
                    w,
                    if x < x0 { x } else { x0 },
                    if y < y0 { y } else { y0 },
                    if x > x1 { x } else { x1 },
                    if y > y1 { y } else { y1 },
                )
            },
{
    assert forall|x0: int, y0: int, x1: int, y1: int| #[trigger]
        encloses(s, w, x0, y0, x1, y1) implies {
        let x = column(w, p);
        let y = row(w, p);
        encloses(
            s.insert(p),
            w,
            if x < x0 { x } else { x0 },
            if y < y0 { y } else { y0 },
            if x > x1 { x } else { x1 },
            if y > y1 { y } else { y1 },
        )
    } by {
        let t = s.insert(p);
        assert(t.contains(p));
        let a = choose|q: int| #[trigger] s.contains(q) && column(w, q) == x0;
        let b = choose|q: int| #[trigger] s.contains(q) && column(w, q) == x1;
        let c = choose|q: int| #[trigger] s.contains(q) && row(w, q) == y0;
        let d = choose|q: int| #[trigger] s.contains(q) && row(w, q) == y1;
        assert(t.contains(a) && t.contains(b) && t.contains(c) && t.contains(d));
    }
}

/// The pixel right of one that is not in the last column is in the frame.
proof fn lemma_right(w: int, h: int, p: int)
    requires
        0 < w,
        0 <= p < w * h,
        column(w, p) + 1 < w,
    ensures
        p + 1 < w * h,
{
    lemma_coords(w, h, p);
    lemma_index(w, h, column(w, p) + 1, row(w, p));
}

/// The pixel above one that is not in the first row is in the frame.
proof fn lemma_up(w: int, h: int, p: int)
    requires
        0 < w,
        0 <= p < w * h,
        row(w, p) > 0,
    ensures
        0 <= p - w,
{
    lemma_coords(w, h, p);
    lemma_index(w, h, column(w, p), row(w, p) - 1);
    let y = row(w, p);
    assert((y - 1) * w == y * w - w) by (nonlinear_arith);
}

/// The pixel below one that is not in the last row is in the frame.
proof fn lemma_down(w: int, h: int, p: int)
    requires
        0 < w,
        0 <= p < w * h,
        row(w, p) + 1 < h,
    ensures
        p + w < w * h,
{
    lemma_coords(w, h, p);
    lemma_index(w, h, column(w, p), row(w, p) + 1);
    let y = row(w, p);
    assert((y + 1) * w == y * w + w) by (nonlinear_arith);
}

/// Visits the blob of the keyed pixel `start` and returns its box.
fn flood(mask: &[u8], w: usize, h: usize, start: usize, visited: &mut Vec<bool>) -> (b: Box)
    requires
        0 < w <= 0x8000_0000,
        h <= 0x8000_0000,
        w * h <= mask@.len(),
        old(visited)@.len() == mask@.len(),
        keyed(mask@, w as int, h as int, start as int),
        forall|p: int|
            0 <= p < w * h && #[trigger] old(visited)@[p] ==> !connected(
                mask@,
                w as int,
                h as int,
                start as int,
                p,
            ),
    ensures
        final(visited)@.len() == mask@.len(),
        forall|p: int|
            0 <= p < w * h ==> (#[trigger] final(visited)@[p] <==> old(visited)@[p] || connected(
                mask@,
                w as int,
                h as int,
                start as int,
                p,
            )),
        boxes_pixels(b, blob(mask@, w as int, h as int, start as int), w as int),
{
    let ghost m = mask@;
    let ghost wi = w as int;
    let ghost hi = h as int;
    let ghost n = wi * hi;
    let ghost seen = visited@;
    let ghost mut done: Set<int> = Set::empty();
    proof {
        lemma_connected_self(m, wi, hi, start as int);
        lemma_coords(wi, hi, start as int);
        lemma_int_range(0, n);
    }
    let total = mask.len();
    proof {
        assert(wi * hi <= 0x4000_0000_0000_0000) by (nonlinear_arith)
            requires
                0 < wi <= 0x8000_0000,
                0 <= hi <= 0x8000_0000,
        ;
    }
    let x0 = start % w;
    let y0 = start / w;
    let mut min_x: usize = x0;
    let mut max_x: usize = x0;
    let mut min_y: usize = y0;
    let mut max_y: usize = y0;
    let mut pixels: i64 = 0;
    let mut stack: Vec<usize> = Vec::new();
    stack.push(start);
    visited.set(start, true);
    proof {
        assert(stack@[0] == start);
        assert(flood_state(m, wi, hi, start as int, seen, visited@, stack@, done));
        assert(done.insert(start as int).contains(start as int));
        assert(encloses(
            done.insert(start as int),
            wi,
            min_x as int,
            min_y as int,
            max_x as int,
            max_y as int,
        ));
    }
    while stack.len() > 0
        invariant
            m == mask@,
            wi == w as int,
            hi == h as int,
            n == wi * hi,
            0 < w <= 0x8000_0000,
            h <= 0x8000_0000,
            n <= mask@.len() <= usize::MAX,
            n <= 0x4000_0000_0000_0000,
            visited@.len() == mask@.len(),
            keyed(m, wi, hi, start as int),
            forall|p: int|
                0 <= p < n && #[trigger] seen[p] ==> !connected(m, wi, hi, start as int, p),
            flood_state(m, wi, hi, start as int, seen, visited@, stack@, done),
            visited@[start as int],
            forall|a: int, b: int|
                done.contains(a) && keyed(m, wi, hi, b) && #[trigger] adjacent(wi, a, b)
                    ==> visited@[b],
            done.finite(),
            done.len() == pixels,
            encloses(
                done.insert(start as int),
                wi,
                min_x as int,
                min_y as int,
                max_x as int,
                max_y as int,
            ),
            min_x <= max_x < w,
            min_y <= max_y < h,
        decreases n - done.len(),
    {
        let ghost before = stack@;
        let ghost old_done = done;
        let idx = stack.pop().unwrap();
        let ghost p = idx as int;
        proof {
            assert(before[before.len() - 1] == idx);
            done = done.insert(p);
            lemma_popped(m, wi, hi, start as int, seen, visited@, before, old_done);
            lemma_done_bound(m, wi, hi, start as int, done);
            lemma_coords(wi, hi, p);
        }
        let x = idx % w;
        let y = idx / w;
        pixels = pixels + 1;
        if x < min_x {
            min_x = x;
        }
        if x > max_x {
            max_x = x;
        }
        if y < min_y {
            min_y = y;
        }
        if y > max_y {
            max_y = y;
        }
        proof {
            lemma_encloses_grows(old_done.insert(start as int), wi, p);
            assert(done.insert(start as int) =~= old_done.insert(start as int).insert(p));
        }
        let ghost v0 = visited@;
        if x > 0 {
            proof {
                lemma_neighbours(wi, hi, p, p - 1);
                if keyed(m, wi, hi, p - 1) && !visited@[p - 1] {
                    lemma_discover(m, wi, hi, start as int, seen, visited@, stack@, done, p, (p
                        - 1) as usize);
                }
            }
            discover(mask, visited, &mut stack, idx - 1);
        }
        if x + 1 < w {
            proof {
                lemma_right(wi, hi, p);
                lemma_neighbours(wi, hi, p, p + 1);
                if keyed(m, wi, hi, p + 1) && !visited@[p + 1] {
                    lemma_discover(m, wi, hi, start as int, seen, visited@, stack@, done, p, (p
                        + 1) as usize);
                }
            }
            discover(mask, visited, &mut stack, idx + 1);
        }
        if y > 0 {
            proof {
                lemma_up(wi, hi, p);
                lemma_neighbours(wi, hi, p, p - wi);
                if keyed(m, wi, hi, p - wi) && !visited@[p - wi] {
                    lemma_discover(m, wi, hi, start as int, seen, visited@, stack@, done, p, (p
                        - wi) as usize);
                }
            }
            discover(mask, visited, &mut stack, idx - w);
        }
        if y + 1 < h {
            proof {
                lemma_down(wi, hi, p);
                lemma_neighbours(wi, hi, p, p + wi);
                if keyed(m, wi, hi, p + wi) && !visited@[p + wi] {
                    lemma_discover(m, wi, hi, start as int, seen, visited@, stack@, done, p, (p
                        + wi) as usize);
                }
            }
            discover(mask, visited, &mut stack, idx + w);
        }
        proof {
            assert forall|a: int, b: int|
                done.contains(a) && keyed(m, wi, hi, b) && #[trigger] adjacent(wi, a, b) implies
                visited@[b] by {
                if a == p {
                    lemma_neighbours(wi, hi, p, b);
                } else {
                    assert(v0[b]);
                }
            }
        }
    }
    proof {
        assert(done.contains(start as int));
        assert forall|q: int| connected(m, wi, hi, start as int, q) implies done.contains(q) by {
            assert forall|a: int, b: int|
                done.contains(a) && keyed(m, wi, hi, b) && #[trigger] adjacent(wi, a, b) implies
                done.contains(b) by {
                lemma_connected_step(m, wi, hi, start as int, a, b);
                assert(visited@[b]);
            }
            lemma_closed_set_holds_blob(m, wi, hi, start as int, done, q);
        }
        assert(done =~= blob(m, wi, hi, start as int));
        assert(done.insert(start as int) =~= done);
    }
    let center_x = ((min_x as u64 + max_x as u64 + 1) / 2) as i32;
    let center_y = ((min_y as u64 + max_y as u64 + 1) / 2) as i32;
    Box {
        min_x: min_x as i32,
        min_y: min_y as i32,
        max_x: max_x as i32,
        max_y: max_y as i32,
        center_x,
        center_y,
        pixels,
        cr: 0,
        cg: 0,
        cb: 0,
        id: 1,
    }
}

/// Finds the 4-connected blobs of a mask and returns their boxes, in the order
/// in which a row-major scan meets the blobs.
pub fn find_boxes(mask: &[u8], w: usize, h: usize) -> (boxes: Vec<Box>)
    requires
        w <= 0x8000_0000,
        h <= 0x8000_0000,
        w * h <= mask@.len(),
    ensures
        boxes_of_mask(boxes@, mask@, w as int, h as int, w * h),
{
    let ghost m = mask@;
    let ghost wi = w as int;
    let ghost hi = h as int;
    let mut visited: Vec<bool> = vec![false; mask.len()];
    let mut boxes: Vec<Box> = Vec::new();
    proof {
        assert(0 <= wi * hi) by (nonlinear_arith)
            requires
                0 <= wi,
                0 <= hi,
        ;
    }
    let count: usize = w * h;
    let mut start: usize = 0;
    while start < count
        invariant
            m == mask@,
            wi == w as int,
            hi == h as int,
            count == wi * hi,
            w <= 0x8000_0000,
            h <= 0x8000_0000,
            count <= mask@.len(),
            start <= count,
            visited@.len() == mask@.len(),
            forall|p: int|
                0 <= p < count ==> (#[trigger] visited@[p] <==> exists|q: int|
                    0 <= q < start && #[trigger] connected(m, wi, hi, q, p)),
            boxes_of_mask(boxes@, m, wi, hi, start as int),
        decreases count - start,
    {
        let ghost before = visited@;
        proof {
            assert(0 < wi) by (nonlinear_arith)
                requires
                    0 <= start < wi * hi,
                    0 <= wi,
            ;
        }
        if mask[start] != 0 && !visited[start] {
            proof {
                assert(is_leader(m, wi, hi, start as int));
                assert forall|p: int| 0 <= p < wi * hi && #[trigger] visited@[p] implies !connected(
                    m,
                    wi,
                    hi,
                    start as int,
                    p,
                ) by {
                    if connected(m, wi, hi, start as int, p) {
                        let q = choose|q: int|
                            0 <= q < start && #[trigger] connected(m, wi, hi, q, p);
                        lemma_connected_symmetric(m, wi, hi, start as int, p);
                        lemma_connected_transitive(m, wi, hi, q, p, start as int);
                        assert(visited@[start as int]);
                    }
                }
            }
            let b = flood(mask, w, h, start, &mut visited);
            boxes.push(b);
            proof {
                assert(leaders(m, wi, hi, start + 1) == leaders(m, wi, hi, start as int).push(
                    start as int,
                ));
            }
        } else {
            proof {
                if keyed(m, wi, hi, start as int) {
                    let q = choose|q: int|
                        0 <= q < start && #[trigger] connected(m, wi, hi, q, start as int);
                    assert(!is_leader(m, wi, hi, start as int));
                    assert forall|p: int| #[trigger]
                        connected(m, wi, hi, start as int, p) implies exists|r: int|
                        0 <= r < start && #[trigger] connected(m, wi, hi, r, p) by {
                        lemma_connected_transitive(m, wi, hi, q, start as int, p);
                    }
                }
                assert(leaders(m, wi, hi, start + 1) == leaders(m, wi, hi, start as int));
            }
        }
        proof {
            assert forall|p: int| 0 <= p < count implies (#[trigger] visited@[p] <==> exists|q: int|
                0 <= q < start + 1 && #[trigger] connected(m, wi, hi, q, p)) by {
                assert(before[p] == exists|q: int|
                    0 <= q < start && #[trigger] connected(m, wi, hi, q, p));
            }
        }
        start = start + 1;
    }
    boxes
}

/// The leaders are keyed, come in row-major order, and none is left out.
pub proof fn lemma_leaders(mask: Seq<u8>, w: int, h: int, n: int)
    ensures
        forall|i: int|
            0 <= i < leaders(mask, w, h, n).len() ==> 0 <= (#[trigger] leaders(
                mask,
                w,
                h,
                n,
            )[i]) < n && is_leader(mask, w, h, leaders(mask, w, h, n)[i]),
        forall|i: int, j: int|
            0 <= i < j < leaders(mask, w, h, n).len() ==> (#[trigger] leaders(mask, w, h, n)[i]) < (
            #[trigger] leaders(mask, w, h, n)[j]),
        forall|p: int|
            0 <= p < n && #[trigger] is_leader(mask, w, h, p) ==> leaders(mask, w, h, n).contains(
                p,
            ),
    decreases n,
{
    if n > 0 {
        lemma_leaders(mask, w, h, n - 1);
        let before = leaders(mask, w, h, n - 1);
        let all = leaders(mask, w, h, n);
        assert forall|p: int| 0 <= p < n && #[trigger] is_leader(mask, w, h, p) implies all.contains(
            p,
        ) by {
            if p < n - 1 {
                assert(before.contains(p));
                let i = choose|i: int| 0 <= i < before.len() && before[i] == p;
                assert(all[i] == p);
            } else {
                assert(all[all.len() - 1] == p);
            }
        }
    }
}

/// The first pixel of the blob of `p`.
pub proof fn lemma_leader_of(mask: Seq<u8>, w: int, h: int, p: int) -> (l: int)
    requires
        keyed(mask, w, h, p),
    ensures
        0 <= l <= p,
        is_leader(mask, w, h, l),
        connected(mask, w, h, l, p),
    decreases p,
{
    lemma_connected_self(mask, w, h, p);
    if is_leader(mask, w, h, p) {
        p
    } else {
        let q = choose|q: int| 0 <= q < p && #[trigger] connected(mask, w, h, q, p);
        lemma_connected_keyed(mask, w, h, q, p);
        let l = lemma_leader_of(mask, w, h, q);
        lemma_connected_transitive(mask, w, h, l, q, p);
        l
    }
}

/// Every keyed pixel belongs to one box, and lies inside it.
pub proof fn law_keyed_pixel_has_one_box(
    boxes: Seq<Box>,
    mask: Seq<u8>,
    w: int,
    h: int,
    p: int,
) -> (i: int)
    requires
        boxes_of_mask(boxes, mask, w, h, w * h),
        keyed(mask, w, h, p),
    ensures
        0 <= i < boxes.len(),
        blob(mask, w, h, leaders(mask, w, h, w * h)[i]).contains(p),
        boxes[i].min_x <= column(w, p) <= boxes[i].max_x,
        boxes[i].min_y <= row(w, p) <= boxes[i].max_y,
        forall|j: int|
            0 <= j < boxes.len() && j != i ==> !blob(
                mask,
                w,
                h,
                #[trigger] leaders(mask, w, h, w * h)[j],
            ).contains(p),
{
    let all = leaders(mask, w, h, w * h);
    lemma_leaders(mask, w, h, w * h);
    let l = lemma_leader_of(mask, w, h, p);
    assert(all.contains(l));
    let i = choose|i: int| 0 <= i < all.len() && all[i] == l;
    assert(boxes_pixels(boxes[i], blob(mask, w, h, all[i]), w));
    assert forall|j: int| 0 <= j < boxes.len() && j != i implies !blob(
        mask,
        w,
        h,
        #[trigger] all[j],
    ).contains(p) by {
        if connected(mask, w, h, all[j], p) {
            lemma_blobs_apart(mask, w, h, all[i], all[j], p);
        }
    }
    i
}

/// Leaders of the same blob are the same.
pub proof fn lemma_blobs_apart(mask: Seq<u8>, w: int, h: int, a: int, b: int, p: int)
    requires
        is_leader(mask, w, h, a),
        is_leader(mask, w, h, b),
        connected(mask, w, h, a, p),
        connected(mask, w, h, b, p),
    ensures
        a == b,
{
    lemma_connected_symmetric(mask, w, h, a, p);
    lemma_connected_symmetric(mask, w, h, b, p);
    lemma_connected_transitive(mask, w, h, a, p, b);
    lemma_connected_transitive(mask, w, h, b, p, a);
    if a < b {
        assert(!connected(mask, w, h, a, b));
    } else if b < a {
        assert(!connected(mask, w, h, b, a));
    }
}

/// The pixels that boxes count, together.
pub open spec fn total_pixels(boxes: Seq<Box>) -> int
    decreases boxes.len(),
{
    if boxes.len() == 0 {
        0
    } else {
        total_pixels(boxes.drop_last()) + boxes.last().pixels
    }
}

/// The keyed pixels of the first `k` blobs.
spec fn boxed(mask: Seq<u8>, w: int, h: int, k: int) -> Set<int> {
    Set::new(
        |p: int|
            exists|i: int|
                0 <= i < k && connected(mask, w, h, #[trigger] leaders(mask, w, h, w * h)[i], p),
    )
}

proof fn lemma_boxed_count(boxes: Seq<Box>, mask: Seq<u8>, w: int, h: int, k: int)
    requires
        boxes_of_mask(boxes, mask, w, h, w * h),
        0 <= k <= boxes.len(),
    ensures
        boxed(mask, w, h, k).finite(),
        boxed(mask, w, h, k).len() == total_pixels(boxes.take(k)),
    decreases k,
{
    let all = leaders(mask, w, h, w * h);
    if k == 0 {
        assert(boxed(mask, w, h, 0) =~= Set::<int>::empty());
    } else {
        lemma_boxed_count(boxes, mask, w, h, k - 1);
        lemma_leaders(mask, w, h, w * h);
        let before = boxed(mask, w, h, k - 1);
        let last = blob(mask, w, h, all[k - 1]);
        assert(boxes_pixels(boxes[k - 1], last, w));
        assert(boxed(mask, w, h, k) =~= before.union(last)) by {
            assert forall|p: int| before.union(last).contains(p) implies boxed(
                mask,
                w,
                h,
                k,
            ).contains(p) by {
                if last.contains(p) {
                    assert(connected(mask, w, h, all[k - 1], p));
                } else {
                    let i = choose|i: int|
                        0 <= i < k - 1 && connected(mask, w, h, #[trigger] all[i], p);
                    assert(connected(mask, w, h, all[i], p));
                }
            }
        }
        assert(before.disjoint(last)) by {
            assert forall|p: int| before.contains(p) implies !last.contains(p) by {
                let i = choose|i: int|
                    0 <= i < k - 1 && connected(mask, w, h, #[trigger] all[i], p);
                if connected(mask, w, h, all[k - 1], p) {
                    lemma_blobs_apart(mask, w, h, all[i], all[k - 1], p);
                }
            }
        }
        vstd::set_lib::lemma_set_disjoint_lens(before, last);
        assert(boxes.take(k).drop_last() =~= boxes.take(k - 1));
    }
}

/// Together the boxes count every keyed pixel once.
pub proof fn law_pixel_counts_add_up(boxes: Seq<Box>, mask: Seq<u8>, w: int, h: int)
    requires
        boxes_of_mask(boxes, mask, w, h, w * h),
    ensures
        Set::new(|p: int| keyed(mask, w, h, p)).finite(),
        Set::new(|p: int| keyed(mask, w, h, p)).len() == total_pixels(boxes),
{
    let all = leaders(mask, w, h, w * h);
    let k = boxes.len() as int;
    lemma_boxed_count(boxes, mask, w, h, k);
    lemma_leaders(mask, w, h, w * h);
    assert(Set::new(|p: int| keyed(mask, w, h, p)) =~= boxed(mask, w, h, k)) by {
        assert forall|p: int| keyed(mask, w, h, p) implies boxed(mask, w, h, k).contains(p) by {
            let i = law_keyed_pixel_has_one_box(boxes, mask, w, h, p);
            assert(connected(mask, w, h, all[i], p));
        }
    }
    assert(boxes.take(k) =~= boxes);
}

/// Every box lies inside the frame and holds its own centre and at least one
/// pixel.
pub proof fn law_boxes_lie_in_the_frame(
    boxes: Seq<Box>,
    mask: Seq<u8>,
    w: int,
    h: int,
    i: int,
)
    requires
        0 < w,
        boxes_of_mask(boxes, mask, w, h, w * h),
        0 <= i < boxes.len(),
    ensures
        0 <= boxes[i].min_x <= boxes[i].center_x <= boxes[i].max_x < w,
        0 <= boxes[i].min_y <= boxes[i].center_y <= boxes[i].max_y < h,
        boxes[i].pixels > 0,
{
    let s = blob(mask, w, h, leaders(mask, w, h, w * h)[i]);
    let b = boxes[i];
    assert(boxes_pixels(b, s, w));
    let left = choose|q: int| #[trigger] s.contains(q) && column(w, q) == b.min_x;
    let right = choose|q: int| #[trigger] s.contains(q) && column(w, q) == b.max_x;
    let top = choose|q: int| #[trigger] s.contains(q) && row(w, q) == b.min_y;
    let bottom = choose|q: int| #[trigger] s.contains(q) && row(w, q) == b.max_y;
    lemma_coords(w, h, left);
    lemma_coords(w, h, right);
    lemma_coords(w, h, top);
    lemma_coords(w, h, bottom);
    if s.len() == 0 {
        assert(s =~= Set::<int>::empty());
        assert(s.contains(left));
    }
}

/// A mask in which nothing is keyed has no boxes.
pub proof fn law_blank_mask_has_no_boxes(boxes: Seq<Box>, mask: Seq<u8>, w: int, h: int)
    requires
        boxes_of_mask(boxes, mask, w, h, w * h),
        forall|p: int| !#[trigger] keyed(mask, w, h, p),
    ensures
        boxes.len() == 0,
{
    lemma_leaders(mask, w, h, w * h);
    if boxes.len() > 0 {
        assert(is_leader(mask, w, h, leaders(mask, w, h, w * h)[0]));
    }
}

} // verus!
