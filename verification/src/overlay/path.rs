//! Places along a polyline.
//!
//! Distances along a polyline are given by their ranks.
use crate::config::{FilterConfig, LineType};
use vstd::prelude::*;

verus! {

/// The segment in which the place of rank `s` lies: the first that does not
/// end before it, or the last one.
pub open spec fn is_segment_of(ends: Seq<i64>, s: int, i: int) -> bool {
    &&& 0 <= i < ends.len()
    &&& forall|k: int| 0 <= k < i ==> #[trigger] ends[k] < s
    &&& ends[i] >= s || i == ends.len() - 1
}

/// The segment in which a place lies. `ends` ranks the ends of the segments.
pub fn segment_at(ends: &[i64], s: i64) -> (i: usize)
    requires
        ends@.len() > 0,
    ensures
        is_segment_of(ends@, s as int, i as int),
{
    let mut i: usize = 0;
    while i < ends.len() - 1 && ends[i] < s
        invariant
            i < ends@.len(),
            forall|k: int| 0 <= k < i ==> #[trigger] ends@[k] < s,
        decreases ends@.len() - i,
    {
        i = i + 1;
    }
    i
}

/// The first of the smallest ranks.
pub open spec fn is_first_smallest(ranks: Seq<i64>, i: int) -> bool {
    &&& 0 <= i < ranks.len()
    &&& forall|k: int|
        0 <= k < ranks.len() ==> ranks[i] < #[trigger] ranks[k] || ranks[i] == ranks[k] && i <= k
}

/// The position of the first of the smallest ranks.
pub fn nearest(ranks: &[i64]) -> (i: usize)
    requires
        ranks@.len() > 0,
    ensures
        is_first_smallest(ranks@, i as int),
{
    let mut best: usize = 0;
    let mut i: usize = 1;
    while i < ranks.len()
        invariant
            1 <= i <= ranks@.len(),
            is_first_smallest(ranks@.take(i as int), best as int),
        decreases ranks@.len() - i,
    {
        let ghost before = ranks@.take(i as int);
        let ghost old_best = best;
        assert(forall|k: int| 0 <= k < i ==> before[k] == ranks@[k]);
        if ranks[i] < ranks[best] {
            best = i;
        }
        proof {
            let after = ranks@.take(i + 1);
            assert forall|k: int| 0 <= k < after.len() implies after[best as int]
                < #[trigger] after[k] || after[best as int] == after[k] && best <= k by {
                if k < i {
                    assert(after[k] == before[k]);
                    assert(before[old_best as int] < before[k] || before[old_best as int]
                        == before[k] && old_best <= k);
                }
            }
        }
        i = i + 1;
    }
    assert(ranks@.take(ranks@.len() as int) =~= ranks@);
    best
}

/// The four points that shape a smooth curve from point `i` to the next of `n`
/// points: one before, both ends, one behind, as far as there are any.
pub fn curve_points(i: usize, n: usize) -> (points: (usize, usize, usize, usize))
    requires
        i + 1 < n,
    ensures
        points.0 == if i == 0 {
            0
        } else {
            i - 1
        },
        points.1 == i,
        points.2 == i + 1,
        points.3 == if i + 2 < n {
            i + 2
        } else {
            n - 1
        },
{
    let before = if i == 0 {
        0
    } else {
        i - 1
    };
    let behind = if i + 1 < n - 1 {
        i + 2
    } else {
        n - 1
    };
    (before, i, i + 1, behind)
}

/// Tells whether a polyline of `n` points is drawn as a smooth curve.
pub fn is_smooth(cfg: &FilterConfig, n: usize) -> (r: bool)
    ensures
        r == (cfg.line_type == LineType::Sequential && cfg.line_curve && n > 2),
{
    cfg.line_type == LineType::Sequential && cfg.line_curve && n > 2
}

/// A place lies behind the ends of all segments before its own, and not behind
/// the end of its own unless that is the last.
pub proof fn law_place_lies_in_its_segment(ends: Seq<i64>, s: int, i: int, k: int)
    requires
        is_segment_of(ends, s, i),
        0 <= k < ends.len(),
    ensures
        k < i ==> ends[k] < s,
        i < ends.len() - 1 ==> s <= ends[i],
{
}

/// Nothing is nearer than the nearest, and nothing before it is as near.
pub proof fn law_nothing_is_nearer(ranks: Seq<i64>, i: int, k: int)
    requires
        is_first_smallest(ranks, i),
        0 <= k < ranks.len(),
    ensures
        ranks[i] <= ranks[k],
        k < i ==> ranks[i] < ranks[k],
{
}

} // verus!
