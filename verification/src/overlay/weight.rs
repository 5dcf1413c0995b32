//! The trees that weigh least.
use crate::overlay::tree::{
    is_forest, joined, law_no_forest_is_larger, lemma_joined_grows, lemma_line_joins, tree_lines,
    within, Line,
};
use vstd::prelude::*;

verus! {

/// The lines come in order of weight.
pub open spec fn by_weight(lines: Seq<Line>, weight: spec_fn(Line) -> int) -> bool {
    forall|i: int, j: int|
        0 <= i <= j < lines.len() ==> weight(#[trigger] lines[i]) <= weight(#[trigger] lines[j])
}

/// The lines that weigh at most `d`.
pub open spec fn light(lines: Seq<Line>, weight: spec_fn(Line) -> int, d: int) -> Seq<Line>
    decreases lines.len(),
{
    if lines.len() == 0 {
        Seq::empty()
    } else {
        let before = light(lines.drop_last(), weight, d);
        if weight(lines.last()) <= d {
            before.push(lines.last())
        } else {
            before
        }
    }
}

/// What the lines weigh together.
pub open spec fn total_weight(lines: Seq<Line>, weight: spec_fn(Line) -> int) -> int
    decreases lines.len(),
{
    if lines.len() == 0 {
        0
    } else {
        total_weight(lines.drop_last(), weight) + weight(lines.last())
    }
}

proof fn lemma_forest_prefix(lines: Seq<Line>)
    requires
        is_forest(lines),
        lines.len() > 0,
    ensures
        is_forest(lines.drop_last()),
        !joined(lines.drop_last(), lines.last().0, lines.last().1),
{
    let before = lines.drop_last();
    assert forall|k: int| 0 <= k < before.len() implies !joined(
        before.take(k),
        (#[trigger] before[k]).0,
        before[k].1,
    ) by {
        assert(before[k] == lines[k]);
        assert(before.take(k) =~= lines.take(k));
    }
    assert(lines.take(lines.len() - 1) =~= before);
    assert(!joined(lines.take(lines.len() - 1), lines[lines.len() - 1].0, lines[lines.len() - 1].1));
}

proof fn lemma_forest_push(lines: Seq<Line>, line: Line)
    requires
        is_forest(lines),
        !joined(lines, line.0, line.1),
    ensures
        is_forest(lines.push(line)),
{
    let more = lines.push(line);
    assert forall|k: int| 0 <= k < more.len() implies !joined(
        more.take(k),
        (#[trigger] more[k]).0,
        more[k].1,
    ) by {
        if k < lines.len() {
            assert(more[k] == lines[k]);
            assert(more.take(k) =~= lines.take(k));
        } else {
            assert(more.take(k) =~= lines);
        }
    }
}

/// The light lines of a forest are a forest, and are among its lines.
proof fn lemma_light(lines: Seq<Line>, weight: spec_fn(Line) -> int, d: int)
    ensures
        light(lines, weight, d).len() <= lines.len(),
        forall|i: int|
            0 <= i < light(lines, weight, d).len() ==> weight(
                #[trigger] light(lines, weight, d)[i],
            ) <= d && lines.contains(light(lines, weight, d)[i]),
        is_forest(lines) ==> is_forest(light(lines, weight, d)),
    decreases lines.len(),
{
    if lines.len() > 0 {
        let before = lines.drop_last();
        let part = light(before, weight, d);
        let all = light(lines, weight, d);
        lemma_light(before, weight, d);
        assert forall|i: int| 0 <= i < all.len() implies weight(#[trigger] all[i]) <= d
            && lines.contains(all[i]) by {
            if i < part.len() {
                assert(all[i] == part[i]);
                assert(before.contains(part[i]));
                let j = choose|j: int| 0 <= j < before.len() && before[j] == part[i];
                assert(lines[j] == all[i]);
            } else {
                assert(lines[lines.len() - 1] == all[i]);
            }
        }
        if is_forest(lines) {
            lemma_forest_prefix(lines);
            if weight(lines.last()) <= d {
                if joined(part, lines.last().0, lines.last().1) {
                    assert forall|i: int| 0 <= i < part.len() implies joined(
                        before,
                        (#[trigger] part[i]).0,
                        part[i].1,
                    ) by {
                        assert(before.contains(part[i]));
                        let j = choose|j: int| 0 <= j < before.len() && before[j] == part[i];
                        lemma_line_joins(before, j);
                    }
                    lemma_joined_grows(part, before, lines.last().0, lines.last().1);
                }
                lemma_forest_push(part, lines.last());
            }
        }
    }
}

/// Where the light lines of an ordered list end.
proof fn lemma_light_end(lines: Seq<Line>, weight: spec_fn(Line) -> int, d: int) -> (k: nat)
    requires
        by_weight(lines, weight),
    ensures
        k <= lines.len(),
        forall|i: int| 0 <= i < lines.len() ==> (weight(#[trigger] lines[i]) <= d <==> i < k),
    decreases lines.len(),
{
    if lines.len() == 0 {
        0
    } else {
        let before = lines.drop_last();
        assert forall|i: int, j: int| 0 <= i <= j < before.len() implies weight(
            #[trigger] before[i],
        ) <= weight(#[trigger] before[j]) by {
            assert(before[i] == lines[i] && before[j] == lines[j]);
        }
        let k = lemma_light_end(before, weight, d);
        let r = if weight(lines.last()) <= d {
            lines.len()
        } else {
            k
        };
        assert forall|i: int| 0 <= i < lines.len() implies (weight(#[trigger] lines[i]) <= d <==> i
            < r) by {
            assert(weight(lines[i]) <= weight(lines[lines.len() - 1]));
            if i < before.len() {
                assert(before[i] == lines[i]);
            }
        }
        r
    }
}

/// The light lines of the tree are those taken from the light lines.
proof fn lemma_light_tree(
    lines: Seq<Line>,
    weight: spec_fn(Line) -> int,
    d: int,
    end: nat,
    k: nat,
)
    requires
        end <= lines.len(),
        k <= lines.len(),
        forall|i: int| 0 <= i < lines.len() ==> (weight(#[trigger] lines[i]) <= d <==> i < end),
    ensures
        light(tree_lines(lines, k), weight, d) == tree_lines(
            lines,
            if k <= end {
                k
            } else {
                end
            },
        ),
    decreases k,
{
    if k > 0 {
        lemma_light_tree(lines, weight, d, end, (k - 1) as nat);
        let before = tree_lines(lines, (k - 1) as nat);
        let line = lines[k - 1];
        assert(before.push(line).drop_last() =~= before);
        assert(before.push(line).last() == line);
    }
}

/// However heavy a line may be, no forest has more lines up to that weight
/// than the tree that takes the lines in order of weight.
pub proof fn law_tree_takes_light_lines(
    lines: Seq<Line>,
    n: usize,
    weight: spec_fn(Line) -> int,
    forest: Seq<Line>,
    d: int,
)
    requires
        within(lines, n as int),
        by_weight(lines, weight),
        is_forest(forest),
        forall|i: int| 0 <= i < forest.len() ==> lines.contains(#[trigger] forest[i]),
    ensures
        light(forest, weight, d).len() <= light(
            tree_lines(lines, lines.len()),
            weight,
            d,
        ).len(),
{
    let end = lemma_light_end(lines, weight, d);
    lemma_light_tree(lines, weight, d, end, lines.len());
    let part = light(forest, weight, d);
    lemma_light(forest, weight, d);
    let first = lines.take(end as int);
    assert forall|i: int| 0 <= i < part.len() implies joined(
        first,
        (#[trigger] part[i]).0,
        part[i].1,
    ) && part[i].0 < n && part[i].1 < n by {
        assert(forest.contains(part[i]));
        let j = choose|j: int| 0 <= j < forest.len() && forest[j] == part[i];
        assert(lines.contains(forest[j]));
        let l = choose|l: int| 0 <= l < lines.len() && lines[l] == forest[j];
        assert(l < end);
        assert(first[l] == part[i]);
        lemma_line_joins(first, l);
    }
    law_no_forest_is_larger(lines, end, part, n);
}

/// Removing the line at `i` takes its weight away.
proof fn lemma_total_remove(lines: Seq<Line>, weight: spec_fn(Line) -> int, i: int)
    requires
        0 <= i < lines.len(),
    ensures
        total_weight(lines, weight) == total_weight(lines.remove(i), weight) + weight(lines[i]),
    decreases lines.len(),
{
    let rest = lines.remove(i);
    if i == lines.len() - 1 {
        assert(rest =~= lines.drop_last());
    } else {
        lemma_total_remove(lines.drop_last(), weight, i);
        assert(rest.drop_last() =~= lines.drop_last().remove(i));
        assert(rest.last() == lines.last());
    }
}

/// Removing the line at `i` takes at most that line from the light ones.
proof fn lemma_light_remove(lines: Seq<Line>, weight: spec_fn(Line) -> int, d: int, i: int)
    requires
        0 <= i < lines.len(),
    ensures
        light(lines, weight, d).len() == light(lines.remove(i), weight, d).len() + if weight(
            lines[i],
        ) <= d {
            1int
        } else {
            0int
        },
    decreases lines.len(),
{
    let rest = lines.remove(i);
    if i == lines.len() - 1 {
        assert(rest =~= lines.drop_last());
    } else {
        lemma_light_remove(lines.drop_last(), weight, d, i);
        assert(rest.drop_last() =~= lines.drop_last().remove(i));
        assert(rest.last() == lines.last());
    }
}

proof fn lemma_all_light(lines: Seq<Line>, weight: spec_fn(Line) -> int, d: int)
    requires
        forall|i: int| 0 <= i < lines.len() ==> weight(#[trigger] lines[i]) <= d,
    ensures
        light(lines, weight, d) == lines,
    decreases lines.len(),
{
    if lines.len() > 0 {
        let before = lines.drop_last();
        assert forall|i: int| 0 <= i < before.len() implies weight(#[trigger] before[i]) <= d by {
            assert(before[i] == lines[i]);
        }
        lemma_all_light(before, weight, d);
        assert(weight(lines[lines.len() - 1]) <= d);
        assert(before.push(lines.last()) =~= lines);
    }
}

/// Lines of which at every weight at least as many are light weigh less in
/// all.
proof fn lemma_lighter(a: Seq<Line>, b: Seq<Line>, weight: spec_fn(Line) -> int)
    requires
        a.len() == b.len(),
        by_weight(a, weight),
        forall|d: int| #[trigger] light(b, weight, d).len() <= light(a, weight, d).len(),
    ensures
        total_weight(a, weight) <= total_weight(b, weight),
    decreases a.len(),
{
    if a.len() > 0 {
        let m = a.len() - 1;
        let top = weight(a[m]);
        lemma_light(a, weight, top - 1);
        lemma_light_remove(a, weight, top - 1, m);
        assert(a.remove(m) =~= a.drop_last());
        lemma_light(a.drop_last(), weight, top - 1);
        if forall|i: int| 0 <= i < b.len() ==> weight(#[trigger] b[i]) <= top - 1 {
            lemma_all_light(b, weight, top - 1);
            assert(light(b, weight, top - 1).len() <= light(a, weight, top - 1).len());
            assert(false);
        }
        let i = choose|i: int| 0 <= i < b.len() && weight(#[trigger] b[i]) > top - 1;
        let fewer_a = a.drop_last();
        let fewer_b = b.remove(i);
        assert forall|d: int| #[trigger] light(fewer_b, weight, d).len() <= light(
            fewer_a,
            weight,
            d,
        ).len() by {
            lemma_light_remove(b, weight, d, i);
            lemma_light_remove(a, weight, d, m);
            assert(light(b, weight, d).len() <= light(a, weight, d).len());
            if d >= top {
                assert forall|j: int| 0 <= j < fewer_a.len() implies weight(#[trigger] fewer_a[j])
                    <= d by {
                    assert(fewer_a[j] == a[j]);
                    assert(weight(a[j]) <= weight(a[m]));
                }
                lemma_all_light(fewer_a, weight, d);
                lemma_light(fewer_b, weight, d);
            }
        }
        assert(by_weight(fewer_a, weight)) by {
            assert forall|j: int, l: int| 0 <= j <= l < fewer_a.len() implies weight(
                #[trigger] fewer_a[j],
            ) <= weight(#[trigger] fewer_a[l]) by {
                assert(fewer_a[j] == a[j] && fewer_a[l] == a[l]);
            }
        }
        lemma_lighter(fewer_a, fewer_b, weight);
        lemma_total_remove(b, weight, i);
    }
}

/// The lines of the tree come in order of weight.
proof fn lemma_tree_by_weight(lines: Seq<Line>, weight: spec_fn(Line) -> int, k: nat)
    requires
        k <= lines.len(),
        by_weight(lines, weight),
    ensures
        by_weight(tree_lines(lines, k), weight),
        forall|i: int|
            0 <= i < tree_lines(lines, k).len() ==> exists|j: int|
                0 <= j < k && lines[j] == #[trigger] tree_lines(lines, k)[i],
    decreases k,
{
    if k > 0 {
        lemma_tree_by_weight(lines, weight, (k - 1) as nat);
        let before = tree_lines(lines, (k - 1) as nat);
        let tree = tree_lines(lines, k);
        assert forall|i: int| 0 <= i < tree.len() implies exists|j: int|
            0 <= j < k && lines[j] == #[trigger] tree[i] by {
            if i < before.len() {
                assert(tree[i] == before[i]);
                let j = choose|j: int| 0 <= j < k - 1 && lines[j] == before[i];
                assert(lines[j] == tree[i]);
            } else {
                assert(lines[k - 1] == tree[i]);
            }
        }
        assert forall|i: int, j: int| 0 <= i <= j < tree.len() implies weight(#[trigger] tree[i])
            <= weight(#[trigger] tree[j]) by {
            if j < before.len() {
                assert(tree[i] == before[i] && tree[j] == before[j]);
            } else if i < before.len() {
                assert(tree[i] == before[i]);
                let l = choose|l: int| 0 <= l < k - 1 && lines[l] == before[i];
                assert(weight(lines[l]) <= weight(lines[k - 1]));
            }
        }
    }
}

/// No other tree that joins as much weighs less than the tree that takes the
/// lines in order of weight, whatever the weight is.
pub proof fn law_tree_weighs_least(
    lines: Seq<Line>,
    n: usize,
    weight: spec_fn(Line) -> int,
    other: Seq<Line>,
)
    requires
        within(lines, n as int),
        by_weight(lines, weight),
        is_forest(other),
        forall|i: int| 0 <= i < other.len() ==> lines.contains(#[trigger] other[i]),
        other.len() == tree_lines(lines, lines.len()).len(),
    ensures
        total_weight(tree_lines(lines, lines.len()), weight) <= total_weight(other, weight),
{
    let tree = tree_lines(lines, lines.len());
    lemma_tree_by_weight(lines, weight, lines.len());
    assert forall|d: int| #[trigger] light(other, weight, d).len() <= light(tree, weight, d).len() by {
        law_tree_takes_light_lines(lines, n, weight, other, d);
    }
    lemma_lighter(tree, other, weight);
}

} // verus!
