//! Masks of keyed pixels.
use super::blobs::{
    blob, boxes_of_mask, boxes_pixels, connected, is_leader, is_path, keyed,
    law_keyed_pixel_has_one_box, leaders, lemma_blobs_apart, lemma_connected_self,
    lemma_connected_step, lemma_connected_symmetric, lemma_connected_transitive, lemma_leader_of,
    lemma_leaders, Box,
};
use crate::grid::{column, index_of, lemma_coords, lemma_index, row};
use vstd::prelude::*;
use vstd::set_lib::lemma_len_subset;

verus! {

/// The pixels of row `y` from column `x0` up to `x1` that are keyed, counted.
spec fn row_count(mask: Seq<u8>, w: int, y: int, x0: int, x1: int) -> nat
    decreases x1 - x0,
{
    if x1 <= x0 {
        0
    } else {
        row_count(mask, w, y, x0, x1 - 1) + if mask[index_of(w, x1 - 1, y)] != 0 {
            1nat
        } else {
            0nat
        }
    }
}

/// The pixels of rows `y0` up to `y1` and columns `x0` up to `x1` that are
/// keyed, counted.
spec fn area_count(mask: Seq<u8>, w: int, x0: int, x1: int, y0: int, y1: int) -> nat
    decreases y1 - y0,
{
    if y1 <= y0 {
        0
    } else {
        area_count(mask, w, x0, x1, y0, y1 - 1) + row_count(mask, w, y1 - 1, x0, x1)
    }
}

proof fn lemma_row_split(mask: Seq<u8>, w: int, y: int, x0: int, x1: int, x2: int)
    requires
        x0 <= x1 <= x2,
    ensures
        row_count(mask, w, y, x0, x2) == row_count(mask, w, y, x0, x1) + row_count(
            mask,
            w,
            y,
            x1,
            x2,
        ),
    decreases x2 - x1,
{
    if x1 < x2 {
        lemma_row_split(mask, w, y, x0, x1, x2 - 1);
    }
}

proof fn lemma_area_split_rows(
    mask: Seq<u8>,
    w: int,
    x0: int,
    x1: int,
    y0: int,
    y1: int,
    y2: int,
)
    requires
        y0 <= y1 <= y2,
    ensures
        area_count(mask, w, x0, x1, y0, y2) == area_count(mask, w, x0, x1, y0, y1) + area_count(
            mask,
            w,
            x0,
            x1,
            y1,
            y2,
        ),
    decreases y2 - y1,
{
    if y1 < y2 {
        lemma_area_split_rows(mask, w, x0, x1, y0, y1, y2 - 1);
    }
}

proof fn lemma_area_split_columns(
    mask: Seq<u8>,
    w: int,
    x0: int,
    x1: int,
    x2: int,
    y0: int,
    y1: int,
)
    requires
        x0 <= x1 <= x2,
    ensures
        area_count(mask, w, x0, x2, y0, y1) == area_count(mask, w, x0, x1, y0, y1) + area_count(
            mask,
            w,
            x1,
            x2,
            y0,
            y1,
        ),
    decreases y1 - y0,
{
    if y0 < y1 {
        lemma_area_split_columns(mask, w, x0, x1, x2, y0, y1 - 1);
        lemma_row_split(mask, w, y1 - 1, x0, x1, x2);
    }
}

proof fn lemma_row_bound(mask: Seq<u8>, w: int, y: int, x0: int, x1: int)
    requires
        x0 <= x1,
    ensures
        row_count(mask, w, y, x0, x1) <= x1 - x0,
    decreases x1 - x0,
{
    if x0 < x1 {
        lemma_row_bound(mask, w, y, x0, x1 - 1);
    }
}

proof fn lemma_area_bound(mask: Seq<u8>, w: int, x0: int, x1: int, y0: int, y1: int)
    requires
        x0 <= x1,
        y0 <= y1,
    ensures
        area_count(mask, w, x0, x1, y0, y1) <= (x1 - x0) * (y1 - y0),
    decreases y1 - y0,
{
    if y0 < y1 {
        lemma_area_bound(mask, w, x0, x1, y0, y1 - 1);
        lemma_row_bound(mask, w, y1 - 1, x0, x1);
        assert((x1 - x0) * (y1 - y0) == (x1 - x0) * (y1 - 1 - y0) + (x1 - x0)) by (nonlinear_arith);
    } else {
        assert((x1 - x0) * (y1 - y0) == 0) by (nonlinear_arith)
            requires
                y0 == y1,
        ;
    }
}

proof fn lemma_row_positive(mask: Seq<u8>, w: int, y: int, x0: int, x1: int)
    ensures
        row_count(mask, w, y, x0, x1) > 0 <==> exists|x: int|
            x0 <= x < x1 && mask[#[trigger] index_of(w, x, y)] != 0,
    decreases x1 - x0,
{
    if x0 < x1 {
        lemma_row_positive(mask, w, y, x0, x1 - 1);
        if row_count(mask, w, y, x0, x1) > 0 {
            if mask[index_of(w, x1 - 1, y)] == 0 {
                let x = choose|x: int|
                    x0 <= x < x1 - 1 && mask[#[trigger] index_of(w, x, y)] != 0;
                assert(mask[index_of(w, x, y)] != 0);
            }
        }
    }
}

proof fn lemma_area_positive(mask: Seq<u8>, w: int, x0: int, x1: int, y0: int, y1: int)
    ensures
        area_count(mask, w, x0, x1, y0, y1) > 0 <==> exists|x: int, y: int|
            x0 <= x < x1 && y0 <= y < y1 && mask[#[trigger] index_of(w, x, y)] != 0,
    decreases y1 - y0,
{
    if y0 < y1 {
        lemma_area_positive(mask, w, x0, x1, y0, y1 - 1);
        lemma_row_positive(mask, w, y1 - 1, x0, x1);
        if area_count(mask, w, x0, x1, y0, y1) > 0 {
            if row_count(mask, w, y1 - 1, x0, x1) > 0 {
                let x = choose|x: int|
                    x0 <= x < x1 && mask[#[trigger] index_of(w, x, y1 - 1)] != 0;
                assert(mask[index_of(w, x, y1 - 1)] != 0);
            } else {
                let (x, y) = choose|x: int, y: int|
                    x0 <= x < x1 && y0 <= y < y1 - 1 && mask[#[trigger] index_of(w, x, y)] != 0;
                assert(mask[index_of(w, x, y)] != 0);
            }
        }
    }
}

/// The half-open range of coordinates within `r` of `x`, cut off at `limit`.
pub open spec fn window_start(x: int, r: int) -> int {
    if x < r {
        0
    } else {
        x - r
    }
}

/// See [`window_start`].
pub open spec fn window_end(x: int, r: int, limit: int) -> int {
    if x + r + 1 < limit {
        x + r + 1
    } else {
        limit
    }
}

/// The coordinates below `limit` that lie within `r` of `x`, as a half-open
/// range.
pub fn window(x: usize, r: usize, limit: usize) -> (range: (usize, usize))
    requires
        x < limit,
    ensures
        range.0 == window_start(x as int, r as int),
        range.1 == window_end(x as int, r as int, limit as int),
        forall|k: int|
            range.0 <= k < range.1 <==> 0 <= k < limit && -(r as int) <= #[trigger] (k - x) <= r,
{
    let start = x.saturating_sub(r);
    let reach = x.saturating_add(r);
    let end = if reach < limit - 1 {
        reach + 1
    } else {
        limit
    };
    (start, end)
}

/// A keyed pixel lies within `r` columns and `r` rows of pixel `p`.
pub open spec fn near_keyed(mask: Seq<u8>, w: int, h: int, r: int, p: int) -> bool {
    exists|q: int| #[trigger]
        keyed(mask, w, h, q) && -r <= column(w, q) - column(w, p) <= r && -r <= row(w, q) - row(
            w,
            p,
        ) <= r
}

/// The mask with every keyed region grown by `r` pixels.
pub open spec fn dilated(mask: Seq<u8>, w: int, h: int, r: int) -> Seq<u8> {
    Seq::new(
        (w * h) as nat,
        |p: int|
            if near_keyed(mask, w, h, r, p) {
                1u8
            } else {
                0u8
            },
    )
}

proof fn lemma_near_keyed_is_window(mask: Seq<u8>, w: int, h: int, r: int, x: int, y: int)
    requires
        0 <= x < w,
        0 <= y < h,
        0 <= r,
    ensures
        near_keyed(mask, w, h, r, index_of(w, x, y)) <==> area_count(
            mask,
            w,
            window_start(x, r),
            window_end(x, r, w),
            window_start(y, r),
            window_end(y, r, h),
        ) > 0,
{
    let p = index_of(w, x, y);
    let x0 = window_start(x, r);
    let x1 = window_end(x, r, w);
    let y0 = window_start(y, r);
    let y1 = window_end(y, r, h);
    lemma_index(w, h, x, y);
    lemma_area_positive(mask, w, x0, x1, y0, y1);
    if near_keyed(mask, w, h, r, p) {
        let q = choose|q: int| #[trigger]
            keyed(mask, w, h, q) && -r <= column(w, q) - column(w, p) <= r && -r <= row(w, q)
                - row(w, p) <= r;
        lemma_coords(w, h, q);
        assert(mask[index_of(w, column(w, q), row(w, q))] != 0);
    }
    if area_count(mask, w, x0, x1, y0, y1) > 0 {
        let (a, b) = choose|a: int, b: int|
            x0 <= a < x1 && y0 <= b < y1 && mask[#[trigger] index_of(w, a, b)] != 0;
        lemma_index(w, h, a, b);
        assert(keyed(mask, w, h, index_of(w, a, b)));
    }
}

/// The table of counts: entry `y * (w + 1) + x` counts the keyed pixels above
/// row `y` and left of column `x`.
spec fn is_table(s: Seq<usize>, mask: Seq<u8>, w: int, h: int) -> bool {
    &&& s.len() == (w + 1) * (h + 1)
    &&& forall|x: int, y: int|
        0 <= x <= w && 0 <= y <= h ==> s[#[trigger] index_of(w + 1, x, y)] == area_count(
            mask,
            w,
            0,
            x,
            0,
            y,
        )
}

/// Counts the keyed pixels above and left of every grid point.
fn count_table(mask: &[u8], w: usize, h: usize) -> (s: Vec<usize>)
    requires
        w * h <= mask@.len(),
        (w + 1) * (h + 1) <= usize::MAX,
        0 < w,
        0 < h,
    ensures
        is_table(s@, mask@, w as int, h as int),
{
    let ghost m = mask@;
    let ghost wi = w as int;
    let ghost hi = h as int;
    proof {
        assert(wi + 1 <= (wi + 1) * (hi + 1) && hi + 1 <= (wi + 1) * (hi + 1) && wi * hi <= (wi + 1)
            * (hi + 1)) by (nonlinear_arith)
            requires
                0 <= wi,
                0 <= hi,
        ;
    }
    let ww = w + 1;
    let hh = h + 1;
    let mut s: Vec<usize> = vec![0; ww * hh];
    assert forall|x: int| 0 <= x <= w implies s@[#[trigger] index_of(wi + 1, x, 0)] == area_count(
        m,
        wi,
        0,
        x,
        0,
        0,
    ) by {
        lemma_index(wi + 1, hi + 1, x, 0);
    }
    assert forall|v: int| 0 <= v <= h implies s@[#[trigger] index_of(wi + 1, 0, v)] == 0 by {
        lemma_index(wi + 1, hi + 1, 0, v);
    }
    let mut y: usize = 0;
    while y < h
        invariant
            m == mask@,
            wi == w as int,
            hi == h as int,
            ww == w + 1,
            w * h <= mask@.len(),
            (wi + 1) * (hi + 1) <= usize::MAX,
            wi * hi <= usize::MAX,
            y <= h,
            s@.len() == (wi + 1) * (hi + 1),
            forall|x: int, v: int|
                0 <= x <= w && 0 <= v <= y ==> s@[#[trigger] index_of(wi + 1, x, v)] == area_count(
                    m,
                    wi,
                    0,
                    x,
                    0,
                    v,
                ),
            forall|v: int| 0 <= v <= h ==> s@[#[trigger] index_of(wi + 1, 0, v)] == 0,
        decreases h - y,
    {
        let mut run: usize = 0;
        let mut x: usize = 0;
        proof {
            lemma_column_zero(m, wi, y + 1);
        }
        while x < w
            invariant
                m == mask@,
                wi == w as int,
                hi == h as int,
                ww == w + 1,
                w * h <= mask@.len(),
                (wi + 1) * (hi + 1) <= usize::MAX,
                wi * hi <= usize::MAX,
                y < h,
                x <= w,
                run == row_count(m, wi, y as int, 0, x as int),
                s@.len() == (wi + 1) * (hi + 1),
                forall|u: int, v: int|
                    0 <= u <= w && 0 <= v <= y ==> s@[#[trigger] index_of(wi + 1, u, v)]
                        == area_count(m, wi, 0, u, 0, v),
                forall|u: int|
                    0 <= u <= x ==> s@[#[trigger] index_of(wi + 1, u, y + 1)] == area_count(
                        m,
                        wi,
                        0,
                        u,
                        0,
                        y + 1,
                    ),
                forall|v: int| 0 <= v <= h ==> s@[#[trigger] index_of(wi + 1, 0, v)] == 0,
            decreases w - x,
        {
            let ghost before = s@;
            proof {
                lemma_index(wi, hi, x as int, y as int);
                lemma_index(wi + 1, hi + 1, x + 1, y as int);
                lemma_index(wi + 1, hi + 1, x + 1, y + 1);
                lemma_row_bound(m, wi, y as int, 0, x + 1);
                lemma_area_bound(m, wi, 0, x + 1, 0, y + 1);
                let a = x + 1;
                let b = y + 1;
                assert((a - 0) * (b - 0) <= (wi + 1) * (hi + 1)) by (nonlinear_arith)
                    requires
                        0 <= a <= wi,
                        0 <= b <= hi,
                ;
                assert(y * ww + x + 1 <= (y + 1) * ww + x + 1 && y * ww <= y * ww + x + 1 && (y + 1)
                    * ww <= (y + 1) * ww + x + 1) by (nonlinear_arith)
                    requires
                        0 <= x,
                        0 <= y,
                        0 <= ww,
                ;
                assert(0 <= y * w <= y * w + x) by (nonlinear_arith)
                    requires
                        0 <= x,
                        0 <= y,
                        0 <= w,
                ;
            }
            if mask[y * w + x] != 0 {
                run = run + 1;
            }
            let above = s[y * ww + (x + 1)];
            s.set((y + 1) * ww + (x + 1), above + run);
            proof {
                let k = index_of(wi + 1, x + 1, y + 1);
                assert(s@ == before.update(k, (above + run) as usize));
                assert forall|u: int, v: int| 0 <= u <= w && 0 <= v <= y implies s@[
                    #[trigger] index_of(wi + 1, u, v)] == area_count(m, wi, 0, u, 0, v) by {
                    lemma_index(wi + 1, hi + 1, u, v);
                }
                assert forall|u: int| 0 <= u <= x + 1 implies s@[
                    #[trigger] index_of(wi + 1, u, y + 1)] == area_count(m, wi, 0, u, 0, y + 1) by {
                    lemma_index(wi + 1, hi + 1, u, y + 1);
                    assert(before[index_of(wi + 1, x + 1, y as int)] == area_count(
                        m,
                        wi,
                        0,
                        x + 1,
                        0,
                        y as int,
                    ));
                }
                assert forall|v: int| 0 <= v <= h implies s@[#[trigger] index_of(wi + 1, 0, v)]
                    == 0 by {
                    lemma_index(wi + 1, hi + 1, 0, v);
                }
            }
            x = x + 1;
        }
        y = y + 1;
    }
    s
}

proof fn lemma_column_zero(mask: Seq<u8>, w: int, y: int)
    ensures
        area_count(mask, w, 0, 0, 0, y) == 0,
    decreases y,
{
    if 0 < y {
        lemma_column_zero(mask, w, y - 1);
    }
}

/// Grows every keyed region of a mask by `r` pixels in each direction. Keyed
/// pixels of the result are 1, the others 0.
pub fn dilate_mask(mask: &[u8], w: usize, h: usize, r: usize) -> (out: Vec<u8>)
    requires
        w * h <= mask@.len(),
        (w + 1) * (h + 1) <= usize::MAX,
    ensures
        out@ == dilated(mask@, w as int, h as int, r as int),
{
    let ghost m = mask@;
    let ghost wi = w as int;
    let ghost hi = h as int;
    let ghost ri = r as int;
    if w == 0 || h == 0 {
        assert(wi * hi == 0) by (nonlinear_arith)
            requires
                wi == 0 || hi == 0,
        ;
        return Vec::new();
    }
    let s = count_table(mask, w, h);
    proof {
        assert(wi + 1 <= (wi + 1) * (hi + 1) && 0 <= wi * hi <= (wi + 1) * (hi + 1))
            by (nonlinear_arith)
            requires
                0 <= wi,
                0 <= hi,
        ;
    }
    let ww = w + 1;
    let mut out: Vec<u8> = vec![0; w * h];
    let mut y: usize = 0;
    while y < h
        invariant
            m == mask@,
            wi == w as int,
            hi == h as int,
            ri == r as int,
            ww == w + 1,
            0 < w,
            (wi + 1) * (hi + 1) <= usize::MAX,
            wi * hi <= usize::MAX,
            is_table(s@, m, wi, hi),
            y <= h,
            out@.len() == wi * hi,
            forall|p: int|
                0 <= p < wi * hi ==> #[trigger] out@[p] == if row(wi, p) < y && near_keyed(
                    m,
                    wi,
                    hi,
                    ri,
                    p,
                ) {
                    1u8
                } else {
                    0u8
                },
        decreases h - y,
    {
        let mut x: usize = 0;
        while x < w
            invariant
                m == mask@,
                wi == w as int,
                hi == h as int,
                ri == r as int,
                ww == w + 1,
                0 < w,
                (wi + 1) * (hi + 1) <= usize::MAX,
                wi * hi <= usize::MAX,
                is_table(s@, m, wi, hi),
                y < h,
                x <= w,
                out@.len() == wi * hi,
                forall|p: int|
                    0 <= p < wi * hi ==> #[trigger] out@[p] == if (row(wi, p) < y || row(wi, p) == y
                        && column(wi, p) < x) && near_keyed(m, wi, hi, ri, p) {
                        1u8
                    } else {
                        0u8
                    },
            decreases w - x,
        {
            let (x0, x1) = window(x, r, w);
            let (y0, y1) = window(y, r, h);
            let ghost p = index_of(wi, x as int, y as int);
            proof {
                lemma_index(wi, hi, x as int, y as int);
                lemma_near_keyed_is_window(m, wi, hi, ri, x as int, y as int);
                lemma_index(wi + 1, hi + 1, x0 as int, y0 as int);
                lemma_index(wi + 1, hi + 1, x0 as int, y1 as int);
                lemma_index(wi + 1, hi + 1, x1 as int, y0 as int);
                lemma_index(wi + 1, hi + 1, x1 as int, y1 as int);
                lemma_area_split_columns(m, wi, 0, x0 as int, x1 as int, 0, y1 as int);
                lemma_area_split_columns(m, wi, 0, x0 as int, x1 as int, 0, y0 as int);
                lemma_area_split_rows(m, wi, x0 as int, x1 as int, 0, y0 as int, y1 as int);
                assert(0 <= y1 * ww && 0 <= y0 * ww && 0 <= y * w) by (nonlinear_arith)
                    requires
                        0 <= y1,
                        0 <= y0,
                        0 <= ww,
                        0 <= y,
                        0 <= w,
                ;
            }
            let sum = (s[y1 * ww + x1] - s[y1 * ww + x0]) - (s[y0 * ww + x1] - s[y0 * ww + x0]);
            let ghost before = out@;
            if sum > 0 {
                out.set(y * w + x, 1);
            }
            proof {
                assert forall|q: int| 0 <= q < wi * hi implies #[trigger] out@[q] == if (row(wi, q)
                    < y || row(wi, q) == y && column(wi, q) < x + 1) && near_keyed(
                    m,
                    wi,
                    hi,
                    ri,
                    q,
                ) {
                    1u8
                } else {
                    0u8
                } by {
                    lemma_coords(wi, hi, q);
                    if q != p {
                        assert(out@[q] == before[q]);
                        assert(!(row(wi, q) == y && column(wi, q) == x));
                    }
                }
            }
            x = x + 1;
        }
        proof {
            assert forall|q: int| 0 <= q < wi * hi implies #[trigger] out@[q] == if row(wi, q) < y
                + 1 && near_keyed(m, wi, hi, ri, q) {
                1u8
            } else {
                0u8
            } by {
                lemma_coords(wi, hi, q);
            }
        }
        y = y + 1;
    }
    proof {
        assert forall|q: int| 0 <= q < wi * hi implies out@[q] == dilated(m, wi, hi, ri)[q] by {
            lemma_coords(wi, hi, q);
        }
        assert(out@ =~= dilated(m, wi, hi, ri));
    }
    out
}

/// Growing a mask keeps what is keyed.
pub proof fn law_growing_keeps_keyed(mask: Seq<u8>, w: int, h: int, r: int, p: int)
    requires
        0 <= r,
        keyed(mask, w, h, p),
    ensures
        keyed(dilated(mask, w, h, r), w, h, p),
{
    assert(near_keyed(mask, w, h, r, p));
}

/// Growing a mask by nothing keys what was keyed and nothing else.
pub proof fn law_growing_by_nothing(mask: Seq<u8>, w: int, h: int, p: int)
    requires
        0 < w,
    ensures
        keyed(dilated(mask, w, h, 0), w, h, p) <==> keyed(mask, w, h, p),
{
    if keyed(mask, w, h, p) {
        law_growing_keeps_keyed(mask, w, h, 0, p);
    }
    if keyed(dilated(mask, w, h, 0), w, h, p) {
        let q = choose|q: int| #[trigger]
            keyed(mask, w, h, q) && 0 <= column(w, q) - column(w, p) <= 0 && 0 <= row(w, q) - row(
                w,
                p,
            ) <= 0;
        lemma_coords(w, h, p);
        lemma_coords(w, h, q);
    }
}

/// Growing further, or growing more, keys no less.
pub proof fn law_growing_is_monotone(
    mask: Seq<u8>,
    more: Seq<u8>,
    w: int,
    h: int,
    r: int,
    s: int,
    p: int,
)
    requires
        r <= s,
        forall|q: int| #[trigger] keyed(mask, w, h, q) ==> keyed(more, w, h, q),
        keyed(dilated(mask, w, h, r), w, h, p),
    ensures
        keyed(dilated(more, w, h, s), w, h, p),
{
    assert(near_keyed(mask, w, h, r, p));
    let q = choose|q: int| #[trigger]
        keyed(mask, w, h, q) && -r <= column(w, q) - column(w, p) <= r && -r <= row(w, q) - row(
            w,
            p,
        ) <= r;
    assert(keyed(more, w, h, q));
    assert(near_keyed(more, w, h, s, p));
}

/// The value of `a..=b` or `b..=a` nearest to `c`.
spec fn between(a: int, b: int, c: int) -> int {
    let (low, high) = if a <= b {
        (a, b)
    } else {
        (b, a)
    };
    if c < low {
        low
    } else if c > high {
        high
    } else {
        c
    }
}

/// Growing twice is growing by the sum.
pub proof fn law_growing_adds_up(mask: Seq<u8>, w: int, h: int, r: int, s: int, p: int)
    requires
        0 < w,
        0 <= r,
        0 <= s,
        0 <= p < w * h,
    ensures
        keyed(dilated(dilated(mask, w, h, r), w, h, s), w, h, p) <==> keyed(
            dilated(mask, w, h, r + s),
            w,
            h,
            p,
        ),
{
    let once = dilated(mask, w, h, r);
    let (x, y) = (column(w, p), row(w, p));
    lemma_coords(w, h, p);
    if keyed(dilated(once, w, h, s), w, h, p) {
        assert(near_keyed(once, w, h, s, p));
        let m = choose|q: int| #[trigger]
            keyed(once, w, h, q) && -s <= column(w, q) - x <= s && -s <= row(w, q) - y <= s;
        assert(near_keyed(mask, w, h, r, m));
        let q = choose|q: int| #[trigger]
            keyed(mask, w, h, q) && -r <= column(w, q) - column(w, m) <= r && -r <= row(w, q) - row(
                w,
                m,
            ) <= r;
        assert(keyed(mask, w, h, q));
        assert(near_keyed(mask, w, h, r + s, p));
    }
    if keyed(dilated(mask, w, h, r + s), w, h, p) {
        assert(near_keyed(mask, w, h, r + s, p));
        let q = choose|q: int| #[trigger]
            keyed(mask, w, h, q) && -(r + s) <= column(w, q) - x <= r + s && -(r + s) <= row(w, q)
                - y <= r + s;
        lemma_coords(w, h, q);
        let mx = between(x, column(w, q), if column(w, q) > x { x + s } else { x - s });
        let my = between(y, row(w, q), if row(w, q) > y { y + s } else { y - s });
        lemma_index(w, h, mx, my);
        let m = index_of(w, mx, my);
        assert(near_keyed(mask, w, h, r, m)) by {
            assert(keyed(mask, w, h, q));
        }
        assert(keyed(once, w, h, m));
        assert(near_keyed(once, w, h, s, p));
    }
}

/// Pixels of a rectangle that is keyed all over belong to one blob.
proof fn lemma_rectangle_connected(
    mask: Seq<u8>,
    w: int,
    h: int,
    ax: int,
    ay: int,
    bx: int,
    by: int,
)
    requires
        0 <= ax < w,
        0 <= bx < w,
        0 <= ay < h,
        0 <= by < h,
        forall|x: int, y: int|
            0 <= x < w && 0 <= y < h && (ax <= x <= bx || bx <= x <= ax) && (ay <= y <= by || by <= y
                <= ay) ==> keyed(mask, w, h, #[trigger] index_of(w, x, y)),
    ensures
        connected(mask, w, h, index_of(w, ax, ay), index_of(w, bx, by)),
    decreases (if ax < bx { bx - ax } else { ax - bx }) + (if ay < by { by - ay } else { ay - by }),
{
    let p = index_of(w, ax, ay);
    assert(keyed(mask, w, h, p));
    lemma_connected_self(mask, w, h, p);
    if ax != bx || ay != by {
        let (nx, ny) = if ax < bx {
            (bx - 1, by)
        } else if bx < ax {
            (bx + 1, by)
        } else if ay < by {
            (bx, by - 1)
        } else {
            (bx, by + 1)
        };
        lemma_rectangle_connected(mask, w, h, ax, ay, nx, ny);
        lemma_index(w, h, nx, ny);
        lemma_index(w, h, bx, by);
        lemma_connected_step(mask, w, h, p, index_of(w, nx, ny), index_of(w, bx, by));
    }
}

/// Keyed pixels whose surroundings meet belong to one blob once the mask has
/// grown.
pub proof fn law_growing_joins_neighbours(
    mask: Seq<u8>,
    w: int,
    h: int,
    r: int,
    p: int,
    q: int,
)
    requires
        0 < w,
        0 <= r,
        keyed(mask, w, h, p),
        keyed(mask, w, h, q),
        -2 * r <= column(w, q) - column(w, p) <= 2 * r,
        -2 * r <= row(w, q) - row(w, p) <= 2 * r,
    ensures
        connected(dilated(mask, w, h, r), w, h, p, q),
{
    let grown = dilated(mask, w, h, r);
    lemma_coords(w, h, p);
    lemma_coords(w, h, q);
    let (px, py) = (column(w, p), row(w, p));
    let (qx, qy) = (column(w, q), row(w, q));
    let mx = between(px, qx, if qx > px { px + r } else { px - r });
    let my = between(py, qy, if qy > py { py + r } else { py - r });
    assert forall|x: int, y: int|
        0 <= x < w && 0 <= y < h && (px <= x <= mx || mx <= x <= px) && (py <= y <= my || my <= y
            <= py) implies keyed(grown, w, h, #[trigger] index_of(w, x, y)) by {
        lemma_index(w, h, x, y);
        assert(keyed(mask, w, h, p));
        assert(near_keyed(mask, w, h, r, index_of(w, x, y)));
    }
    lemma_rectangle_connected(grown, w, h, px, py, mx, my);
    assert forall|x: int, y: int|
        0 <= x < w && 0 <= y < h && (mx <= x <= qx || qx <= x <= mx) && (my <= y <= qy || qy <= y
            <= my) implies keyed(grown, w, h, #[trigger] index_of(w, x, y)) by {
        lemma_index(w, h, x, y);
        assert(keyed(mask, w, h, q));
        assert(near_keyed(mask, w, h, r, index_of(w, x, y)));
    }
    lemma_rectangle_connected(grown, w, h, mx, my, qx, qy);
    lemma_connected_transitive(grown, w, h, p, index_of(w, mx, my), q);
}

/// Keyed pixels whose surroundings meet lie in one box once the mask has grown.
pub proof fn law_neighbours_share_a_box(
    boxes: Seq<Box>,
    mask: Seq<u8>,
    w: int,
    h: int,
    r: int,
    p: int,
    q: int,
) -> (i: int)
    requires
        0 < w,
        0 <= r,
        boxes_of_mask(boxes, dilated(mask, w, h, r), w, h, w * h),
        keyed(mask, w, h, p),
        keyed(mask, w, h, q),
        -2 * r <= column(w, q) - column(w, p) <= 2 * r,
        -2 * r <= row(w, q) - row(w, p) <= 2 * r,
    ensures
        0 <= i < boxes.len(),
        boxes[i].min_x <= column(w, p) <= boxes[i].max_x,
        boxes[i].min_y <= row(w, p) <= boxes[i].max_y,
        boxes[i].min_x <= column(w, q) <= boxes[i].max_x,
        boxes[i].min_y <= row(w, q) <= boxes[i].max_y,
{
    let grown = dilated(mask, w, h, r);
    let all = leaders(grown, w, h, w * h);
    law_growing_keeps_keyed(mask, w, h, r, p);
    law_growing_joins_neighbours(mask, w, h, r, p, q);
    let i = law_keyed_pixel_has_one_box(boxes, grown, w, h, p);
    lemma_connected_transitive(grown, w, h, all[i], p, q);
    assert(boxes_pixels(boxes[i], blob(grown, w, h, all[i]), w));
    assert(blob(grown, w, h, all[i]).contains(q));
    i
}

/// What belongs together still does once the mask has grown.
proof fn lemma_growing_keeps_connected(mask: Seq<u8>, w: int, h: int, r: int, p: int, q: int)
    requires
        0 <= r,
        connected(mask, w, h, p, q),
    ensures
        connected(dilated(mask, w, h, r), w, h, p, q),
{
    let grown = dilated(mask, w, h, r);
    let path = choose|path: Seq<int>| #[trigger]
        is_path(mask, w, h, path) && path[0] == p && path[path.len() - 1] == q;
    assert(is_path(grown, w, h, path)) by {
        assert forall|i: int| 0 <= i < path.len() implies keyed(grown, w, h, #[trigger] path[i]) by {
            law_growing_keeps_keyed(mask, w, h, r, path[i]);
        }
    }
}

/// Pixel `l` leads a blob that goes into the blob of `p` when the mask has
/// grown to `grown`.
spec fn is_source(mask: Seq<u8>, grown: Seq<u8>, w: int, h: int, p: int, l: int) -> bool {
    is_leader(mask, w, h, l) && connected(grown, w, h, p, l)
}

/// Every blob of a grown mask has grown out of a blob of the mask.
proof fn lemma_grown_blob_has_source(mask: Seq<u8>, w: int, h: int, r: int, p: int) -> (l: int)
    requires
        0 < w,
        0 <= r,
        keyed(dilated(mask, w, h, r), w, h, p),
    ensures
        is_source(mask, dilated(mask, w, h, r), w, h, p, l),
{
    let grown = dilated(mask, w, h, r);
    let (px, py) = (column(w, p), row(w, p));
    assert(near_keyed(mask, w, h, r, p));
    let q = choose|q: int| #[trigger]
        keyed(mask, w, h, q) && -r <= column(w, q) - px <= r && -r <= row(w, q) - py <= r;
    let (qx, qy) = (column(w, q), row(w, q));
    lemma_coords(w, h, p);
    lemma_coords(w, h, q);
    assert forall|x: int, y: int|
        0 <= x < w && 0 <= y < h && (px <= x <= qx || qx <= x <= px) && (py <= y <= qy || qy <= y
            <= py) implies keyed(grown, w, h, #[trigger] index_of(w, x, y)) by {
        lemma_index(w, h, x, y);
        assert(keyed(mask, w, h, q));
        assert(near_keyed(mask, w, h, r, index_of(w, x, y)));
    }
    lemma_rectangle_connected(grown, w, h, px, py, qx, qy);
    let l = lemma_leader_of(mask, w, h, q);
    lemma_growing_keeps_connected(mask, w, h, r, l, q);
    lemma_connected_symmetric(grown, w, h, l, q);
    lemma_connected_transitive(grown, w, h, p, q, l);
    l
}

/// Growing a mask joins boxes and adds none: there are never more of them
/// afterwards than there were before.
pub proof fn law_growing_adds_no_boxes(
    before: Seq<Box>,
    after: Seq<Box>,
    mask: Seq<u8>,
    w: int,
    h: int,
    r: int,
)
    requires
        0 <= w,
        0 <= r,
        boxes_of_mask(before, mask, w, h, w * h),
        boxes_of_mask(after, dilated(mask, w, h, r), w, h, w * h),
    ensures
        after.len() <= before.len(),
{
    if w == 0 {
        assert(w * h == 0) by (nonlinear_arith)
            requires
                w == 0,
        ;
    } else {
        let grown = dilated(mask, w, h, r);
        let old_leaders = leaders(mask, w, h, w * h);
        let new_leaders = leaders(grown, w, h, w * h);
        lemma_leaders(mask, w, h, w * h);
        lemma_leaders(grown, w, h, w * h);
        let sources = Seq::new(
            new_leaders.len(),
            |i: int| choose|l: int| is_source(mask, grown, w, h, new_leaders[i], l),
        );
        assert forall|i: int| 0 <= i < sources.len() implies is_source(
            mask,
            grown,
            w,
            h,
            new_leaders[i],
            #[trigger] sources[i],
        ) by {
            let l = lemma_grown_blob_has_source(mask, w, h, r, new_leaders[i]);
            assert(is_source(mask, grown, w, h, new_leaders[i], l));
        }
        assert forall|i: int, j: int|
            0 <= i < sources.len() && 0 <= j < sources.len() && i != j implies sources[i]
            != sources[j] by {
            if sources[i] == sources[j] {
                lemma_blobs_apart(grown, w, h, new_leaders[i], new_leaders[j], sources[i]);
            }
        }
        assert forall|l: int| sources.to_set().contains(l) implies old_leaders.to_set().contains(
            l,
        ) by {
            let i = choose|i: int| 0 <= i < sources.len() && sources[i] == l;
            assert(is_leader(mask, w, h, sources[i]));
        }
        assert(old_leaders.no_duplicates());
        sources.unique_seq_to_set();
        old_leaders.unique_seq_to_set();
        lemma_len_subset(sources.to_set(), old_leaders.to_set());
    }
}

} // verus!
