//! Row-major indexing of a `w` by `h` frame.
use vstd::arithmetic::div_mod::{
    lemma_fundamental_div_mod, lemma_fundamental_div_mod_converse, lemma_mod_bound,
};
use vstd::prelude::*;

verus! {

/// The index of the pixel in column `x` of row `y`.
pub open spec fn index_of(w: int, x: int, y: int) -> int {
    y * w + x
}

/// The column of the pixel with index `p`.
pub open spec fn column(w: int, p: int) -> int {
    p % w
}

/// The row of the pixel with index `p`.
pub open spec fn row(w: int, p: int) -> int {
    p / w
}

/// A column and a row inside the frame give an index inside the frame, from
/// which they can be read back.
pub proof fn lemma_index(w: int, h: int, x: int, y: int)
    requires
        0 <= x < w,
        0 <= y < h,
    ensures
        0 <= index_of(w, x, y) < w * h,
        column(w, index_of(w, x, y)) == x,
        row(w, index_of(w, x, y)) == y,
{
    assert(y * w + x < w * h && 0 <= y * w + x) by (nonlinear_arith)
        requires
            0 <= x < w,
            0 <= y < h,
    ;
    lemma_fundamental_div_mod_converse(y * w + x, w, y, x);
}

/// An index inside the frame has a column and a row inside the frame, and is
/// the index of the pixel there.
pub proof fn lemma_coords(w: int, h: int, p: int)
    requires
        0 < w,
        0 <= p < w * h,
    ensures
        0 <= column(w, p) < w,
        0 <= row(w, p) < h,
        index_of(w, column(w, p), row(w, p)) == p,
{
    lemma_fundamental_div_mod(p, w);
    lemma_mod_bound(p, w);
    let y = p / w;
    let x = p % w;
    assert(w * y == y * w) by (nonlinear_arith);
    assert(0 <= y < h) by (nonlinear_arith)
        requires
            0 <= p < w * h,
            p == w * y + x,
            0 <= x < w,
    ;
}

} // verus!
