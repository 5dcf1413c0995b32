//! Trees of connection lines.
use vstd::prelude::*;
use vstd::set_lib::{lemma_int_range, lemma_len_subset, set_int_range};

verus! {

/// A line between two points, given by their positions in a list.
pub type Line = (usize, usize);

/// No line leads out of or into the set of points `s`.
pub open spec fn unbroken(lines: Seq<Line>, s: Set<usize>) -> bool {
    forall|i: int|
        0 <= i < lines.len() ==> (s.contains((#[trigger] lines[i]).0) <==> s.contains(lines[i].1))
}

/// Points `a` and `b` are joined by lines: a set of points that no line leaves
/// holds `b` if it holds `a`.
pub open spec fn joined(lines: Seq<Line>, a: usize, b: usize) -> bool {
    forall|s: Set<usize>| #[trigger] unbroken(lines, s) && s.contains(a) ==> s.contains(b)
}

/// The lines of a tree among the first `k` of `lines`: those whose ends were
/// not joined by the lines taken before.
pub open spec fn tree_lines(lines: Seq<Line>, k: nat) -> Seq<Line>
    decreases k,
{
    if k == 0 {
        Seq::empty()
    } else {
        let before = tree_lines(lines, (k - 1) as nat);
        let line = lines[k - 1];
        if joined(before, line.0, line.1) {
            before
        } else {
            before.push(line)
        }
    }
}

/// No line of a forest joins points that the lines before it have joined, so
/// the lines close no circle.
pub open spec fn is_forest(lines: Seq<Line>) -> bool {
    forall|k: int|
        0 <= k < lines.len() ==> !joined(lines.take(k), (#[trigger] lines[k]).0, lines[k].1)
}

/// The ends of the lines are among the first `n` points.
pub open spec fn within(lines: Seq<Line>, n: int) -> bool {
    forall|i: int|
        0 <= i < lines.len() ==> (#[trigger] lines[i]).0 < n && lines[i].1 < n
}

/// A point is joined to itself.
pub proof fn lemma_joined_to_itself(lines: Seq<Line>, a: usize)
    ensures
        joined(lines, a, a),
{
}

/// Points are joined in both directions.
pub proof fn lemma_joined_symmetric(lines: Seq<Line>, a: usize, b: usize)
    requires
        joined(lines, a, b),
    ensures
        joined(lines, b, a),
{
    assert forall|s: Set<usize>| #[trigger]
        unbroken(lines, s) && s.contains(b) implies s.contains(a) by {
        if !s.contains(a) {
            let other = s.complement();
            assert(unbroken(lines, other));
            assert(other.contains(b));
        }
    }
}

/// Points joined to a common point are joined.
pub proof fn lemma_joined_transitive(lines: Seq<Line>, a: usize, b: usize, c: usize)
    requires
        joined(lines, a, b),
        joined(lines, b, c),
    ensures
        joined(lines, a, c),
{
}

/// A line joins its ends.
pub proof fn lemma_line_joins(lines: Seq<Line>, i: int)
    requires
        0 <= i < lines.len(),
    ensures
        joined(lines, lines[i].0, lines[i].1),
{
}

/// What one more line joins.
pub proof fn lemma_joined_push(lines: Seq<Line>, line: Line, a: usize, b: usize)
    ensures
        joined(lines.push(line), a, b) <==> joined(lines, a, b) || joined(lines, a, line.0)
            && joined(lines, line.1, b) || joined(lines, a, line.1) && joined(lines, line.0, b),
{
    let more = lines.push(line);
    let (u, v) = line;
    assert forall|s: Set<usize>| #[trigger] unbroken(more, s) implies unbroken(lines, s) && (
    s.contains(u) <==> s.contains(v)) by {
        assert(more[lines.len() as int] == line);
        assert forall|i: int| 0 <= i < lines.len() implies (s.contains((#[trigger] lines[i]).0)
            <==> s.contains(lines[i].1)) by {
            assert(more[i] == lines[i]);
        }
    }
    if joined(more, a, b) {
        let s = Set::new(
            |x: usize|
                joined(lines, a, x) || joined(lines, a, u) && joined(lines, v, x) || joined(
                    lines,
                    a,
                    v,
                ) && joined(lines, u, x),
        );
        lemma_joined_to_itself(lines, a);
        lemma_joined_to_itself(lines, u);
        lemma_joined_to_itself(lines, v);
        assert forall|i: int| 0 <= i < more.len() implies (s.contains((#[trigger] more[i]).0)
            <==> s.contains(more[i].1)) by {
            if i < lines.len() {
                assert(more[i] == lines[i]);
                lemma_line_joins(lines, i);
                lemma_joined_symmetric(lines, lines[i].0, lines[i].1);
            }
        }
        assert(unbroken(more, s));
        assert(s.contains(a));
    }
}

/// Lines that were there before still join what they joined.
pub proof fn lemma_joined_grows(lines: Seq<Line>, more: Seq<Line>, a: usize, b: usize)
    requires
        joined(lines, a, b),
        forall|i: int| 0 <= i < lines.len() ==> joined(more, (#[trigger] lines[i]).0, lines[i].1),
    ensures
        joined(more, a, b),
{
    assert forall|s: Set<usize>| #[trigger]
        unbroken(more, s) && s.contains(a) implies s.contains(b) by {
        assert forall|i: int| 0 <= i < lines.len() implies (s.contains((#[trigger] lines[i]).0)
            <==> s.contains(lines[i].1)) by {
            lemma_joined_symmetric(more, lines[i].0, lines[i].1);
        }
        assert(unbroken(lines, s));
    }
}

/// The sets of joined points, as pointers to a point of each set.
///
/// `roots` is the point that stands for each point's set, and `rank` grows
/// along the pointers.
spec fn linked(parent: Seq<usize>, roots: Seq<usize>, rank: Seq<nat>, bound: nat) -> bool {
    let n = parent.len();
    &&& roots.len() == n
    &&& rank.len() == n
    &&& forall|i: int|
        0 <= i < n ==> {
            &&& (#[trigger] parent[i]) < n
            &&& roots[i] < n
            &&& roots[parent[i] as int] == roots[i]
            &&& parent[roots[i] as int] == roots[i]
            &&& parent[i] == i ==> roots[i] == i
            &&& parent[i] != i ==> rank[i] < rank[parent[i] as int]
            &&& rank[i] < bound
        }
}

/// The point that stands for the set of `x`; the pointers on the way to it are
/// shortened.
fn find(
    parent: &mut Vec<usize>,
    x: usize,
    Ghost(roots): Ghost<Seq<usize>>,
    Ghost(rank): Ghost<Seq<nat>>,
    Ghost(bound): Ghost<nat>,
) -> (root: usize)
    requires
        linked(old(parent)@, roots, rank, bound),
        x < old(parent)@.len(),
    ensures
        linked(final(parent)@, roots, rank, bound),
        final(parent)@.len() == old(parent)@.len(),
        root == roots[x as int],
        root == x || rank[x as int] < rank[root as int],
    decreases bound - rank[x as int],
{
    let next = parent[x];
    if next == x {
        return x;
    }
    assert(rank[x as int] < rank[next as int]);
    let ghost before = parent@;
    assert(before[next as int] < before.len());
    let root = find(parent, next, Ghost(roots), Ghost(rank), Ghost(bound));
    let ghost middle = parent@;
    assert(middle[x as int] < middle.len());
    parent.set(x, root);
    proof {
        assert forall|i: int| 0 <= i < parent@.len() implies {
            &&& (#[trigger] parent@[i]) < parent@.len()
            &&& roots[i] < parent@.len()
            &&& roots[parent@[i] as int] == roots[i]
            &&& parent@[roots[i] as int] == roots[i]
            &&& parent@[i] == i ==> roots[i] == i
            &&& parent@[i] != i ==> rank[i] < rank[parent@[i] as int]
            &&& rank[i] < bound
        } by {
            assert(middle[i] < middle.len());
            assert(middle[root as int] < middle.len());
            assert(middle[next as int] < middle.len());
        }
    }
    root
}

/// The lines of a tree among `lines`, in their order.
pub fn grow_tree(lines: &[Line], n: usize) -> (tree: Vec<Line>)
    requires
        within(lines@, n as int),
    ensures
        tree@ == tree_lines(lines@, lines@.len()),
{
    let mut parent: Vec<usize> = Vec::with_capacity(n);
    let mut i: usize = 0;
    while i < n
        invariant
            i <= n,
            parent@.len() == i,
            forall|j: int| 0 <= j < i ==> parent@[j] == j,
        decreases n - i,
    {
        parent.push(i);
        i = i + 1;
    }
    let ghost mut roots = parent@;
    let ghost mut rank: Seq<nat> = Seq::new(n as nat, |j: int| 0nat);
    let ghost mut bound: nat = 1;
    let mut tree: Vec<Line> = Vec::new();
    proof {
        assert forall|a: usize, b: usize| a < n && b < n implies (roots[a as int] == roots[b as int]
            <==> #[trigger] joined(tree@, a, b)) by {
            if a != b {
                let s: Set<usize> = set![a];
                assert(unbroken(tree@, s));
                assert(!s.contains(b));
            }
        }
    }
    let mut k: usize = 0;
    while k < lines.len()
        invariant
            k <= lines@.len(),
            within(lines@, n as int),
            parent@.len() == n,
            linked(parent@, roots, rank, bound),
            tree@ == tree_lines(lines@, k as nat),
            forall|a: usize, b: usize|
                a < n && b < n ==> (roots[a as int] == roots[b as int] <==> #[trigger] joined(
                    tree@,
                    a,
                    b,
                )),
        decreases lines@.len() - k,
    {
        let (a, b) = lines[k];
        assert(lines@[k as int].0 < n && lines@[k as int].1 < n);
        let ra = find(&mut parent, a, Ghost(roots), Ghost(rank), Ghost(bound));
        let rb = find(&mut parent, b, Ghost(roots), Ghost(rank), Ghost(bound));
        assert(joined(tree@, a, b) <==> ra == rb);
        if ra != rb {
            let ghost old_tree = tree@;
            let ghost old_parent = parent@;
            let ghost old_roots = roots;
            let ghost old_rank = rank;
            assert(old_parent[a as int] < n && old_parent[b as int] < n);
            assert(old_parent[ra as int] < n && old_parent[rb as int] < n);
            parent.set(ra, rb);
            tree.push((a, b));
            proof {
                roots = Seq::new(
                    n as nat,
                    |x: int| if old_roots[x] == ra { rb } else { old_roots[x] },
                );
                rank = old_rank.update(
                    rb as int,
                    if old_rank[ra as int] < old_rank[rb as int] {
                        old_rank[rb as int]
                    } else {
                        old_rank[ra as int] + 1
                    },
                );
                bound = bound + 1;
                lemma_union(old_parent, old_roots, old_rank, (bound - 1) as nat, ra, rb);
                assert forall|x: usize, y: usize| x < n && y < n implies (roots[x as int]
                    == roots[y as int] <==> #[trigger] joined(tree@, x, y)) by {
                    lemma_joined_push(old_tree, (a, b), x, y);
                    assert(joined(old_tree, x, y) <==> old_roots[x as int] == old_roots[y as int]);
                    assert(joined(old_tree, x, a) <==> old_roots[x as int] == ra);
                    assert(joined(old_tree, x, b) <==> old_roots[x as int] == rb);
                    assert(joined(old_tree, a, y) <==> old_roots[y as int] == ra);
                    assert(joined(old_tree, b, y) <==> old_roots[y as int] == rb);
                }
            }
        }
        k = k + 1;
    }
    tree
}

proof fn lemma_union(
    parent: Seq<usize>,
    roots: Seq<usize>,
    rank: Seq<nat>,
    bound: nat,
    ra: usize,
    rb: usize,
)
    requires
        linked(parent, roots, rank, bound),
        ra < parent.len(),
        rb < parent.len(),
        ra != rb,
        parent[ra as int] == ra,
        parent[rb as int] == rb,
    ensures
        linked(
            parent.update(ra as int, rb),
            Seq::new(parent.len(), |x: int| if roots[x] == ra { rb } else { roots[x] }),
            rank.update(
                rb as int,
                if rank[ra as int] < rank[rb as int] {
                    rank[rb as int]
                } else {
                    rank[ra as int] + 1
                },
            ),
            bound + 1,
        ),
{
    let n = parent.len();
    let p = parent.update(ra as int, rb);
    let r = Seq::new(n, |x: int| if roots[x] == ra { rb } else { roots[x] });
    let k = rank.update(
        rb as int,
        if rank[ra as int] < rank[rb as int] {
            rank[rb as int]
        } else {
            rank[ra as int] + 1
        },
    );
    assert forall|i: int| 0 <= i < n implies {
        &&& (#[trigger] p[i]) < n
        &&& r[i] < n
        &&& r[p[i] as int] == r[i]
        &&& p[r[i] as int] == r[i]
        &&& p[i] == i ==> r[i] == i
        &&& p[i] != i ==> k[i] < k[p[i] as int]
        &&& k[i] < bound + 1
    } by {
        assert(parent[i] < n);
        assert(parent[ra as int] < n && parent[rb as int] < n);
        assert(parent[parent[i] as int] < n);
    }
}

/// The tree takes lines that close no circle, and joins what all the lines
/// join.
pub proof fn law_tree_spans(lines: Seq<Line>, k: nat)
    requires
        k <= lines.len(),
    ensures
        is_forest(tree_lines(lines, k)),
        forall|a: usize, b: usize| #[trigger]
            joined(tree_lines(lines, k), a, b) <==> joined(lines.take(k as int), a, b),
        forall|i: int|
            0 <= i < tree_lines(lines, k).len() ==> lines.take(k as int).contains(
                #[trigger] tree_lines(lines, k)[i],
            ),
    decreases k,
{
    let tree = tree_lines(lines, k);
    if k == 0 {
        assert(lines.take(0) =~= tree);
    } else {
        let before = tree_lines(lines, (k - 1) as nat);
        let line = lines[k - 1];
        law_tree_spans(lines, (k - 1) as nat);
        let earlier = lines.take(k - 1);
        assert(lines.take(k as int) =~= earlier.push(line));
        assert forall|a: usize, b: usize| #[trigger] joined(tree, a, b) <==> joined(
            lines.take(k as int),
            a,
            b,
        ) by {
            lemma_joined_push(earlier, line, a, b);
            lemma_joined_push(before, line, a, b);
            assert(joined(before, a, b) <==> joined(earlier, a, b));
            assert(joined(before, a, line.0) <==> joined(earlier, a, line.0));
            assert(joined(before, a, line.1) <==> joined(earlier, a, line.1));
            assert(joined(before, line.0, b) <==> joined(earlier, line.0, b));
            assert(joined(before, line.1, b) <==> joined(earlier, line.1, b));
            if joined(before, line.0, line.1) {
                lemma_joined_symmetric(before, line.0, line.1);
            }
        }
        assert forall|i: int| 0 <= i < tree.len() implies lines.take(k as int).contains(
            #[trigger] tree[i],
        ) by {
            if i < before.len() {
                assert(earlier.contains(before[i]));
                let j = choose|j: int| 0 <= j < earlier.len() && earlier[j] == before[i];
                assert(lines.take(k as int)[j] == tree[i]);
            } else {
                assert(lines.take(k as int)[k - 1] == tree[i]);
            }
        }
        assert forall|j: int| 0 <= j < tree.len() implies !joined(
            tree.take(j),
            (#[trigger] tree[j]).0,
            tree[j].1,
        ) by {
            if j < before.len() {
                assert(tree.take(j) =~= before.take(j));
                assert(tree[j] == before[j]);
            } else {
                assert(tree.take(j) =~= before);
            }
        }
    }
}

/// No point before `v` is joined to it.
spec fn leads(lines: Seq<Line>, v: usize) -> bool {
    forall|u: usize| u < v ==> !#[trigger] joined(lines, u, v)
}

/// The first points of the sets of joined points.
spec fn leaders(lines: Seq<Line>, n: int) -> Set<int> {
    Set::new(|v: int| 0 <= v < n && leads(lines, v as usize))
}

proof fn lemma_leader(lines: Seq<Line>, x: usize) -> (l: usize)
    ensures
        l <= x,
        joined(lines, l, x),
        leads(lines, l),
    decreases x,
{
    if leads(lines, x) {
        x
    } else {
        let u = choose|u: usize| u < x && #[trigger] joined(lines, u, x);
        let l = lemma_leader(lines, u);
        lemma_joined_transitive(lines, l, u, x);
        l
    }
}

/// Joined points that lead are the same.
proof fn lemma_one_leader(lines: Seq<Line>, a: usize, b: usize)
    requires
        leads(lines, a),
        leads(lines, b),
        joined(lines, a, b),
    ensures
        a == b,
{
    lemma_joined_symmetric(lines, a, b);
    if a < b {
        assert(!joined(lines, a, b));
    } else if b < a {
        assert(!joined(lines, b, a));
    }
}

/// A line between sets of joined points makes them one.
proof fn lemma_leaders_push(lines: Seq<Line>, line: Line, n: usize)
    requires
        within(lines, n as int),
        line.0 < n,
        line.1 < n,
        !joined(lines, line.0, line.1),
    ensures
        exists|big: usize|
            #![trigger leaders(lines, n as int).remove(big as int)]
            leaders(lines, n as int).contains(big as int) && leaders(lines.push(line), n as int)
                == leaders(lines, n as int).remove(big as int),
{
    let (u, v) = line;
    let more = lines.push(line);
    let lu = lemma_leader(lines, u);
    let lv = lemma_leader(lines, v);
    lemma_joined_symmetric(lines, lu, u);
    lemma_joined_symmetric(lines, lv, v);
    if lu == lv {
        lemma_joined_transitive(lines, u, lu, v);
    }
    let (small, big) = if lu < lv {
        (lu, lv)
    } else {
        (lv, lu)
    };
    lemma_joined_push(lines, line, small, big);
    assert forall|x: usize| x < n implies (#[trigger] leads(more, x) <==> leads(lines, x) && x
        != big) by {
        if leads(more, x) {
            assert forall|y: usize| y < x implies !#[trigger] joined(lines, y, x) by {
                lemma_joined_push(lines, line, y, x);
                assert(!joined(more, y, x));
            }
            if x == big {
                assert(!joined(more, small, x));
            }
        }
        if leads(lines, x) && x != big {
            assert forall|y: usize| y < x implies !#[trigger] joined(more, y, x) by {
                lemma_joined_push(lines, line, y, x);
                assert(!joined(lines, y, x));
                if joined(lines, y, u) && joined(lines, v, x) {
                    lemma_joined_transitive(lines, lv, v, x);
                    lemma_one_leader(lines, lv, x);
                    lemma_joined_transitive(lines, y, u, lu);
                    if y < lu {
                        assert(!joined(lines, y, lu));
                    }
                }
                if joined(lines, y, v) && joined(lines, u, x) {
                    lemma_joined_transitive(lines, lu, u, x);
                    lemma_one_leader(lines, lu, x);
                    lemma_joined_transitive(lines, y, v, lv);
                    if y < lv {
                        assert(!joined(lines, y, lv));
                    }
                }
            }
        }
    }
    assert(leaders(more, n as int) =~= leaders(lines, n as int).remove(big as int));
    assert(leaders(lines, n as int).contains(big as int));
}

/// Each line of a forest makes two sets of joined points one.
proof fn lemma_forest_count(lines: Seq<Line>, n: usize)
    requires
        within(lines, n as int),
        is_forest(lines),
    ensures
        leaders(lines, n as int).finite(),
        leaders(lines, n as int).len() == n - lines.len(),
    decreases lines.len(),
{
    if lines.len() == 0 {
        lemma_int_range(0, n as int);
        assert forall|x: usize| x < n implies #[trigger] leads(lines, x) by {
            assert forall|u: usize| u < x implies !#[trigger] joined(lines, u, x) by {
                let s: Set<usize> = set![u];
                assert(unbroken(lines, s));
                assert(!s.contains(x));
            }
        }
        assert(leaders(lines, n as int) =~= set_int_range(0, n as int));
    } else {
        let before = lines.drop_last();
        let line = lines.last();
        assert(before.push(line) =~= lines);
        assert(lines.take(lines.len() - 1) =~= before);
        assert(!joined(lines.take(lines.len() - 1), lines[lines.len() - 1].0, lines[lines.len()
            - 1].1));
        assert(lines[lines.len() - 1].0 < n);
        assert forall|k: int| 0 <= k < before.len() implies !joined(
            before.take(k),
            (#[trigger] before[k]).0,
            before[k].1,
        ) by {
            assert(before[k] == lines[k]);
            assert(before.take(k) =~= lines.take(k));
        }
        assert(within(before, n as int)) by {
            assert forall|i: int| 0 <= i < before.len() implies (#[trigger] before[i]).0 < n
                && before[i].1 < n by {
                assert(before[i] == lines[i]);
            }
        }
        lemma_forest_count(before, n);
        lemma_leaders_push(before, line, n);
    }
}

/// Lines that join no more than others leave at least as many sets.
proof fn lemma_leaders_shrink(lines: Seq<Line>, more: Seq<Line>, n: usize)
    requires
        forall|i: int| 0 <= i < lines.len() ==> joined(more, (#[trigger] lines[i]).0, lines[i].1),
        leaders(lines, n as int).finite(),
    ensures
        leaders(more, n as int).len() <= leaders(lines, n as int).len(),
{
    assert forall|x: int| leaders(more, n as int).contains(x) implies leaders(
        lines,
        n as int,
    ).contains(x) by {
        let v = x as usize;
        assert forall|u: usize| u < v implies !#[trigger] joined(lines, u, v) by {
            assert(!joined(more, u, v));
            if joined(lines, u, v) {
                lemma_joined_grows(lines, more, u, v);
            }
        }
    }
    lemma_len_subset(leaders(more, n as int), leaders(lines, n as int));
}

/// A tree over `n` points that are all joined has `n - 1` lines.
pub proof fn law_tree_line_count(lines: Seq<Line>, n: usize)
    requires
        within(lines, n as int),
        is_forest(lines),
        n > 0,
        forall|a: usize| a < n ==> #[trigger] joined(lines, 0, a),
    ensures
        lines.len() == n - 1,
{
    lemma_forest_count(lines, n);
    assert forall|x: int| leaders(lines, n as int).contains(x) <==> x == 0 by {
        if 0 < x < n {
            assert(joined(lines, 0, x as usize));
        }
    }
    assert(leaders(lines, n as int) =~= set![0int]);
}

/// No forest among what the first `k` lines join has more lines than the tree
/// that is taken from them.
pub proof fn law_no_forest_is_larger(lines: Seq<Line>, k: nat, forest: Seq<Line>, n: usize)
    requires
        k <= lines.len(),
        within(lines, n as int),
        within(forest, n as int),
        is_forest(forest),
        forall|i: int|
            0 <= i < forest.len() ==> joined(
                lines.take(k as int),
                (#[trigger] forest[i]).0,
                forest[i].1,
            ),
    ensures
        forest.len() <= tree_lines(lines, k).len(),
{
    let tree = tree_lines(lines, k);
    law_tree_spans(lines, k);
    assert(within(tree, n as int)) by {
        assert forall|i: int| 0 <= i < tree.len() implies (#[trigger] tree[i]).0 < n && tree[i].1
            < n by {
            assert(lines.take(k as int).contains(tree[i]));
            let j = choose|j: int|
                0 <= j < lines.take(k as int).len() && lines.take(k as int)[j] == tree[i];
            assert(lines[j] == tree[i]);
        }
    }
    lemma_forest_count(tree, n);
    lemma_forest_count(forest, n);
    assert forall|i: int| 0 <= i < forest.len() implies joined(
        tree,
        (#[trigger] forest[i]).0,
        forest[i].1,
    ) by {
        assert(joined(lines.take(k as int), forest[i].0, forest[i].1));
    }
    lemma_leaders_shrink(forest, tree, n);
}

} // verus!
