//! Dashes along a line that is sampled step by step.
use vstd::prelude::*;

verus! {

/// The samples from `first` to `last` are on, and the dash reaches as far as it
/// can.
pub open spec fn is_dash(on: Seq<bool>, first: int, last: int) -> bool {
    &&& 0 <= first <= last < on.len()
    &&& forall|k: int| first <= k <= last ==> #[trigger] on[k]
    &&& first == 0 || !on[first - 1]
    &&& last == on.len() - 1 || !on[last + 1]
}

/// `dashes` lists the dashes of the samples, from the start to the end.
pub open spec fn is_dashing(on: Seq<bool>, dashes: Seq<(usize, usize)>) -> bool {
    &&& forall|d: int|
        0 <= d < dashes.len() ==> is_dash(
            on,
            (#[trigger] dashes[d]).0 as int,
            dashes[d].1 as int,
        )
    &&& forall|c: int, d: int|
        0 <= c < d < dashes.len() ==> (#[trigger] dashes[c]).1 < (#[trigger] dashes[d]).0
    &&& forall|k: int|
        0 <= k < on.len() && #[trigger] on[k] ==> exists|d: int|
            0 <= d < dashes.len() && (#[trigger] dashes[d]).0 <= k <= dashes[d].1
}

/// The dashes of a line, as the first and the last sample of each. `on` tells
/// for each sample whether a dash covers it.
pub fn dashes(on: &[bool]) -> (out: Vec<(usize, usize)>)
    ensures
        is_dashing(on@, out@),
{
    let mut out: Vec<(usize, usize)> = Vec::new();
    let mut open = false;
    let mut first: usize = 0;
    let mut i: usize = 0;
    while i < on.len()
        invariant
            i <= on@.len(),
            open ==> first < i && (first == 0 || !on@[first - 1]) && forall|k: int|
                first <= k < i ==> #[trigger] on@[k],
            !open && i > 0 ==> !on@[i - 1],
            forall|d: int|
                0 <= d < out@.len() ==> is_dash(on@, (#[trigger] out@[d]).0 as int, out@[d].1 as int)
                    && out@[d].1 < i && (open ==> out@[d].1 < first),
            forall|c: int, d: int|
                0 <= c < d < out@.len() ==> (#[trigger] out@[c]).1 < (#[trigger] out@[d]).0,
            forall|k: int|
                0 <= k < i && #[trigger] on@[k] && !(open && first <= k) ==> exists|d: int|
                    0 <= d < out@.len() && (#[trigger] out@[d]).0 <= k <= out@[d].1,
        decreases on@.len() - i,
    {
        let ghost before = out@;
        let ghost was_open = open;
        if on[i] && !open {
            open = true;
            first = i;
        } else if !on[i] && open {
            assert(is_dash(on@, first as int, i - 1));
            out.push((first, i - 1));
            open = false;
            proof {
                assert forall|k: int|
                    0 <= k < i + 1 && #[trigger] on@[k] && !(open && first
                        <= k) implies exists|d: int|
                    0 <= d < out@.len() && (#[trigger] out@[d]).0 <= k <= out@[d].1 by {
                    if first <= k {
                        assert(out@[before.len() as int].0 <= k);
                    } else {
                        let d = choose|d: int|
                            0 <= d < before.len() && (#[trigger] before[d]).0 <= k <= before[d].1;
                        assert(out@[d] == before[d]);
                    }
                }
            }
        }
        i = i + 1;
    }
    let ghost before = out@;
    if open {
        let last = on.len() - 1;
        assert(is_dash(on@, first as int, last as int));
        out.push((first, last));
        proof {
            assert forall|k: int| 0 <= k < on@.len() && #[trigger] on@[k] implies exists|d: int|
                0 <= d < out@.len() && (#[trigger] out@[d]).0 <= k <= out@[d].1 by {
                if first <= k {
                    assert(out@[before.len() as int].0 <= k);
                } else {
                    let d = choose|d: int|
                        0 <= d < before.len() && (#[trigger] before[d]).0 <= k <= before[d].1;
                    assert(out@[d] == before[d]);
                }
            }
        }
    }
    out
}

/// A sample is covered by a dash if and only if it is on, and by one dash only.
pub proof fn law_dashes_cover_what_is_on(on: Seq<bool>, dashes: Seq<(usize, usize)>, k: int)
    requires
        is_dashing(on, dashes),
        0 <= k < on.len(),
    ensures
        on[k] <==> exists|d: int|
            0 <= d < dashes.len() && (#[trigger] dashes[d]).0 <= k <= dashes[d].1,
        forall|c: int, d: int|
            0 <= c < dashes.len() && 0 <= d < dashes.len() && (#[trigger] dashes[c]).0 <= k
                <= dashes[c].1 && (#[trigger] dashes[d]).0 <= k <= dashes[d].1 ==> c == d,
{
    if exists|d: int| 0 <= d < dashes.len() && (#[trigger] dashes[d]).0 <= k <= dashes[d].1 {
        let d = choose|d: int|
            0 <= d < dashes.len() && (#[trigger] dashes[d]).0 <= k <= dashes[d].1;
        assert(is_dash(on, dashes[d].0 as int, dashes[d].1 as int));
    }
    assert forall|c: int, d: int|
        0 <= c < dashes.len() && 0 <= d < dashes.len() && (#[trigger] dashes[c]).0 <= k
            <= dashes[c].1 && (#[trigger] dashes[d]).0 <= k <= dashes[d].1 implies c == d by {
        if c < d {
            assert(dashes[c].1 < dashes[d].0);
        } else if d < c {
            assert(dashes[d].1 < dashes[c].0);
        }
    }
}

/// Between two dashes there is a sample that no dash covers, so no dash is cut
/// in two.
pub proof fn law_dashes_are_apart(on: Seq<bool>, dashes: Seq<(usize, usize)>, c: int, d: int)
    requires
        is_dashing(on, dashes),
        0 <= c < d < dashes.len(),
    ensures
        dashes[c].0 <= dashes[c].1,
        dashes[c].1 + 1 < dashes[d].0,
        !on[dashes[c].1 + 1],
{
    assert(is_dash(on, dashes[c].0 as int, dashes[c].1 as int));
    assert(is_dash(on, dashes[d].0 as int, dashes[d].1 as int));
    assert(dashes[c].1 < dashes[d].0);
}

} // verus!
