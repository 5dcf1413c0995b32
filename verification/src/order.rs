//! Stable sorting by integer keys.
use vstd::prelude::*;
use vstd::set_lib::{lemma_int_range, lemma_subset_equality, set_int_range};

verus! {

/// Position `a` comes before position `b` when sorting by `keys`: by key, and
/// by position where the keys are equal.
pub open spec fn precedes(keys: Seq<i128>, a: int, b: int) -> bool {
    keys[a] < keys[b] || keys[a] == keys[b] && a < b
}

/// `order` lists positions of `keys`, each before those that follow it.
pub open spec fn is_ordered(keys: Seq<i128>, order: Seq<usize>) -> bool {
    forall|i: int, j: int|
        0 <= i < j < order.len() ==> precedes(
            keys,
            #[trigger] order[i] as int,
            #[trigger] order[j] as int,
        )
}

/// `order` lists every position of `keys` once, sorted by key, positions with
/// equal keys in their own order.
pub open spec fn is_stable_order(keys: Seq<i128>, order: Seq<usize>) -> bool {
    &&& order.len() == keys.len()
    &&& forall|i: int| 0 <= i < order.len() ==> #[trigger] order[i] < keys.len()
    &&& is_ordered(keys, order)
}

/// `order` lists the numbers below `n`, each once.
pub open spec fn is_permutation(order: Seq<usize>, n: int) -> bool {
    &&& order.len() == n
    &&& order.no_duplicates()
    &&& forall|i: int| 0 <= i < order.len() ==> #[trigger] order[i] < n
}

/// A permutation of the numbers below `n` lists every one of them.
pub proof fn lemma_permutation_reaches(order: Seq<usize>, n: int, k: int) -> (i: int)
    requires
        is_permutation(order, n),
        0 <= k < n,
    ensures
        0 <= i < order.len(),
        order[i] == k,
{
    let nums = order.map_values(|x: usize| x as int);
    assert(nums.no_duplicates());
    nums.unique_seq_to_set();
    lemma_int_range(0, n);
    assert forall|x: int| nums.to_set().contains(x) implies set_int_range(0, n).contains(x) by {
        let i = choose|i: int| 0 <= i < nums.len() && nums[i] == x;
        assert(order[i] == x);
    }
    lemma_subset_equality(nums.to_set(), set_int_range(0, n));
    assert(set_int_range(0, n).contains(k));
    assert(nums.to_set().contains(k));
    choose|i: int| 0 <= i < nums.len() && nums[i] == k
}

/// A permutation of the numbers below `n` contains every one of them.
pub proof fn lemma_permutation_lists_all(order: Seq<usize>, n: int, k: usize)
    requires
        is_permutation(order, n),
        k < n,
    ensures
        order.contains(k),
{
    let i = lemma_permutation_reaches(order, n, k as int);
    assert(order[i] == k);
}

/// A stable order is a permutation of the positions.
pub proof fn lemma_stable_order_is_permutation(keys: Seq<i128>, order: Seq<usize>)
    requires
        is_stable_order(keys, order),
    ensures
        is_permutation(order, keys.len() as int),
{
    assert forall|i: int, j: int|
        0 <= i < order.len() && 0 <= j < order.len() && i != j implies order[i] != order[j] by {
        if i < j {
            assert(precedes(keys, order[i] as int, order[j] as int));
        } else {
            assert(precedes(keys, order[j] as int, order[i] as int));
        }
    }
}

/// Keys have one stable order only.
pub proof fn law_stable_order_unique(keys: Seq<i128>, a: Seq<usize>, b: Seq<usize>)
    requires
        is_stable_order(keys, a),
        is_stable_order(keys, b),
    ensures
        a == b,
{
    lemma_stable_order_is_permutation(keys, a);
    lemma_stable_order_is_permutation(keys, b);
    assert forall|i: int| 0 <= i < a.len() implies a[i] == b[i] by {
        lemma_stable_prefix(keys, a, b, i);
    }
    assert(a =~= b);
}

/// Keys that are sorted already stay where they are.
pub proof fn law_sorted_keys_stay(keys: Seq<i128>, order: Seq<usize>, i: int)
    requires
        is_stable_order(keys, order),
        forall|a: int, b: int|
            0 <= a < b < keys.len() ==> #[trigger] keys[a] <= #[trigger] keys[b],
        0 <= i < order.len(),
    ensures
        order[i] == i,
{
    assert forall|a: int, b: int| 0 <= a < b < order.len() implies #[trigger] order[a]
        < #[trigger] order[b] by {
        assert(precedes(keys, order[a] as int, order[b] as int));
    }
    lemma_rising_above(order, i);
    lemma_rising_below(order, i);
}

/// Numbers that rise from one place to the next are at least their places.
proof fn lemma_rising_above(order: Seq<usize>, i: int)
    requires
        forall|a: int, b: int|
            0 <= a < b < order.len() ==> #[trigger] order[a] < #[trigger] order[b],
        0 <= i < order.len(),
    ensures
        i <= order[i],
    decreases i,
{
    if i > 0 {
        lemma_rising_above(order, i - 1);
    }
}

/// Numbers that rise from one place to the next and stay below the number of
/// places are at most their places.
proof fn lemma_rising_below(order: Seq<usize>, i: int)
    requires
        forall|a: int, b: int|
            0 <= a < b < order.len() ==> #[trigger] order[a] < #[trigger] order[b],
        forall|a: int| 0 <= a < order.len() ==> #[trigger] order[a] < order.len(),
        0 <= i < order.len(),
    ensures
        order[i] <= i,
    decreases order.len() - i,
{
    if i + 1 < order.len() {
        lemma_rising_below(order, i + 1);
    }
}

proof fn lemma_stable_prefix(keys: Seq<i128>, a: Seq<usize>, b: Seq<usize>, i: int)
    requires
        is_stable_order(keys, a),
        is_stable_order(keys, b),
        is_permutation(a, keys.len() as int),
        is_permutation(b, keys.len() as int),
        0 <= i < a.len(),
    ensures
        a[i] == b[i],
    decreases i,
{
    assert forall|k: int| 0 <= k < i implies a[k] == b[k] by {
        lemma_stable_prefix(keys, a, b, k);
    }
    if a[i] != b[i] {
        lemma_permutation_lists_all(b, keys.len() as int, a[i]);
        lemma_permutation_lists_all(a, keys.len() as int, b[i]);
        let j = choose|j: int| 0 <= j < b.len() && b[j] == a[i];
        let k = choose|k: int| 0 <= k < a.len() && a[k] == b[i];
        if j < i {
            assert(a[j] == a[i]);
        }
        if k < i {
            assert(b[k] == b[i]);
        }
        assert(precedes(keys, b[i] as int, b[j] as int));
        assert(precedes(keys, a[i] as int, a[k] as int));
    }
}

/// Merges two ordered lists of positions, those of `a` below `mid` and those of
/// `b` from `mid` on.
fn merge(keys: &[i128], a: &[usize], b: &[usize], lo: usize, mid: usize, hi: usize) -> (out: Vec<
    usize,
>)
    requires
        lo <= mid <= hi <= keys@.len(),
        is_ordered(keys@, a@),
        is_ordered(keys@, b@),
        forall|i: int| 0 <= i < a@.len() ==> lo <= #[trigger] a@[i] < mid,
        forall|i: int| 0 <= i < b@.len() ==> mid <= #[trigger] b@[i] < hi,
        a@.len() == mid - lo,
        b@.len() == hi - mid,
    ensures
        is_ordered(keys@, out@),
        out@.len() == hi - lo,
        forall|i: int| 0 <= i < out@.len() ==> lo <= #[trigger] out@[i] < hi,
{
    let mut out: Vec<usize> = Vec::with_capacity(hi - lo);
    let mut i: usize = 0;
    let mut j: usize = 0;
    while i < a.len() || j < b.len()
        invariant
            lo <= mid <= hi <= keys@.len(),
            is_ordered(keys@, a@),
            is_ordered(keys@, b@),
            forall|k: int| 0 <= k < a@.len() ==> lo <= #[trigger] a@[k] < mid,
            forall|k: int| 0 <= k < b@.len() ==> mid <= #[trigger] b@[k] < hi,
            a@.len() == mid - lo,
            b@.len() == hi - mid,
            i <= a@.len(),
            j <= b@.len(),
            out@.len() == i + j,
            is_ordered(keys@, out@),
            forall|k: int| 0 <= k < out@.len() ==> lo <= #[trigger] out@[k] < hi,
            forall|k: int, l: int|
                0 <= k < out@.len() && i <= l < a@.len() ==> precedes(
                    keys@,
                    #[trigger] out@[k] as int,
                    #[trigger] a@[l] as int,
                ),
            forall|k: int, l: int|
                0 <= k < out@.len() && j <= l < b@.len() ==> precedes(
                    keys@,
                    #[trigger] out@[k] as int,
                    #[trigger] b@[l] as int,
                ),
        decreases a@.len() - i + b@.len() - j,
    {
        let from_a = if i == a.len() {
            false
        } else if j == b.len() {
            true
        } else {
            keys[a[i]] <= keys[b[j]]
        };
        if from_a {
            out.push(a[i]);
            i = i + 1;
        } else {
            out.push(b[j]);
            j = j + 1;
        }
    }
    out
}

/// Orders the positions from `lo` up to `hi`.
fn order_range(keys: &[i128], lo: usize, hi: usize) -> (out: Vec<usize>)
    requires
        lo <= hi <= keys@.len(),
    ensures
        is_ordered(keys@, out@),
        out@.len() == hi - lo,
        forall|i: int| 0 <= i < out@.len() ==> lo <= #[trigger] out@[i] < hi,
    decreases hi - lo,
{
    if hi - lo < 2 {
        let mut out: Vec<usize> = Vec::new();
        if lo < hi {
            out.push(lo);
        }
        return out;
    }
    let mid = lo + (hi - lo) / 2;
    let a = order_range(keys, lo, mid);
    let b = order_range(keys, mid, hi);
    merge(keys, &a, &b, lo, mid, hi)
}

/// The stable order of `keys`: the positions sorted by key, positions with
/// equal keys in their own order.
pub fn stable_order(keys: &[i128]) -> (order: Vec<usize>)
    ensures
        is_stable_order(keys@, order@),
{
    order_range(keys, 0, keys.len())
}

/// What a stable order is: every position once, from the least key to the
/// greatest, and positions with the same key from the front to the back.
pub proof fn law_order_goes_from_least_to_greatest(
    keys: Seq<i128>,
    order: Seq<usize>,
    i: int,
    j: int,
)
    requires
        is_stable_order(keys, order),
        0 <= i < j < order.len(),
    ensures
        order.len() == keys.len(),
        order[i] < keys.len() && order[j] < keys.len(),
        order[i] != order[j],
        keys[order[i] as int] <= keys[order[j] as int],
        keys[order[i] as int] == keys[order[j] as int] ==> order[i] < order[j],
{
    assert(precedes(keys, order[i] as int, order[j] as int));
}

} // verus!
