//! Which centres of boxes the connection lines join, and in what order.
use crate::config::{FilterConfig, LineOrder, LineType};
use crate::keyer::blobs::Box;
use crate::order::{
    is_permutation, is_stable_order, lemma_permutation_lists_all,
    lemma_permutation_reaches, lemma_stable_order_is_permutation, precedes, stable_order,
};
use crate::overlay::tree::{
    grow_tree, is_forest, joined, law_tree_line_count, law_tree_spans, lemma_joined_symmetric,
    lemma_joined_to_itself, lemma_line_joins, tree_lines, within, Line,
};
use crate::overlay::weight::{by_weight, law_tree_weighs_least, total_weight};
use vstd::prelude::*;
use vstd::set_lib::{lemma_int_range, lemma_len_subset, set_int_range};

verus! {

/// A point of the frame.
#[derive(Debug, Clone, Copy, PartialEq, Eq, Structural)]
pub struct Point {
    pub x: i32,
    pub y: i32,
}

/// The widest and highest frame.
pub const MAX_SIDE: usize = 0x8000_0000;

/// The square of the distance between two points.
pub open spec fn square_distance(a: Point, b: Point) -> int {
    (b.x - a.x) * (b.x - a.x) + (b.y - a.y) * (b.y - a.y)
}

/// The centres of boxes.
pub open spec fn centers_of(boxes: Seq<Box>) -> Seq<Point> {
    boxes.map_values(|b: Box| Point { x: b.center_x, y: b.center_y })
}

/// What a centre is sorted by.
///
/// The distance from the middle of the frame is measured in half pixels.
/// `angle` ranks the direction in which the centre lies.
pub open spec fn sort_key(p: Point, w: int, h: int, order: LineOrder, angle: i128) -> int {
    match order {
        LineOrder::TopToBottom => p.y as int,
        LineOrder::BottomToTop => -p.y,
        LineOrder::LeftToRight => p.x as int,
        LineOrder::RightToLeft => -p.x,
        LineOrder::DistanceFromCenter => (2 * p.x - w) * (2 * p.x - w) + (2 * p.y - h) * (2 * p.y
            - h),
        _ => angle as int,
    }
}

/// What the centres are sorted by.
pub open spec fn sort_keys(
    centers: Seq<Point>,
    w: int,
    h: int,
    order: LineOrder,
    angles: Seq<i128>,
) -> Seq<i128> {
    Seq::new(centers.len(), |i: int| sort_key(centers[i], w, h, order, angles[i]) as i128)
}

/// The stop at `k` of a tour is the nearest to the stop before among the
/// centres not visited yet, the first of them where several are as near.
pub open spec fn is_nearest_stop(centers: Seq<Point>, tour: Seq<usize>, k: int) -> bool {
    let from = centers[tour[k - 1] as int];
    forall|j: usize|
        j < centers.len() && !#[trigger] tour.take(k).contains(j) ==> {
            let here = square_distance(from, centers[tour[k] as int]);
            let there = square_distance(from, centers[j as int]);
            here < there || here == there && tour[k] <= j
        }
}

/// A tour of all centres that starts at the first and always goes on to the
/// nearest one left.
pub open spec fn is_nearest_tour(centers: Seq<Point>, tour: Seq<usize>) -> bool {
    &&& is_permutation(tour, centers.len() as int)
    &&& tour.len() > 0 ==> tour[0] == 0
    &&& forall|k: int| 0 < k < tour.len() ==> #[trigger] is_nearest_stop(centers, tour, k)
}

/// The order in which the lines visit the centres.
pub open spec fn is_visiting_order(
    centers: Seq<Point>,
    w: int,
    h: int,
    order: LineOrder,
    angles: Seq<i128>,
    visits: Seq<usize>,
) -> bool {
    if order == LineOrder::NearestNeighbor {
        is_nearest_tour(centers, visits)
    } else {
        is_stable_order(sort_keys(centers, w, h, order, angles), visits)
    }
}

/// The items at the given positions.
pub open spec fn picked<A>(items: Seq<A>, positions: Seq<usize>) -> Seq<A> {
    positions.map_values(|i: usize| items[i as int])
}

/// The lines from point `i` to the later ones of `n` points.
pub open spec fn lines_from(i: int, n: int) -> Seq<Line> {
    Seq::new((n - 1 - i) as nat, |k: int| (i as usize, (i + 1 + k) as usize))
}

/// The lines from the first `i` of `n` points to later ones.
pub open spec fn all_lines(i: int, n: int) -> Seq<Line>
    decreases i,
{
    if i <= 0 {
        Seq::empty()
    } else {
        all_lines(i - 1, n) + lines_from(i - 1, n)
    }
}

/// The squares of the lengths of lines.
pub open spec fn lengths(centers: Seq<Point>, lines: Seq<Line>) -> Seq<i128> {
    lines.map_values(
        |l: Line| square_distance(centers[l.0 as int], centers[l.1 as int]) as i128,
    )
}

/// All lines between the centres, the shortest first.
pub open spec fn is_by_length(centers: Seq<Point>, lines: Seq<Line>) -> bool {
    let all = all_lines(centers.len() as int, centers.len() as int);
    exists|order: Seq<usize>| #[trigger]
        is_stable_order(lengths(centers, all), order) && lines == picked(all, order)
}

/// The lines that connect all centres: each with each, or where there are more
/// than allowed, the shortest of them.
pub open spec fn is_connection(
    centers: Seq<Point>,
    limit: Option<usize>,
    lines: Seq<Line>,
) -> bool {
    let all = all_lines(centers.len() as int, centers.len() as int);
    match limit {
        Some(max) if all.len() > max => exists|sorted: Seq<Line>| #[trigger]
            is_by_length(centers, sorted) && lines == sorted.take(max as int),
        _ => lines == all,
    }
}

/// How many lines a setting allows.
pub open spec fn line_limit(cfg: FilterConfig) -> Option<usize> {
    if cfg.line_connect_limit && cfg.line_connect_max > 0 {
        Some(cfg.line_connect_max)
    } else {
        None
    }
}

/// The ends of lines.
pub open spec fn segments(centers: Seq<Point>, lines: Seq<Line>) -> Seq<Seq<Point>> {
    lines.map_values(|l: Line| seq![centers[l.0 as int], centers[l.1 as int]])
}

/// The polylines that connect the centres, once those are in order.
pub open spec fn is_connected_by(
    centers: Seq<Point>,
    cfg: FilterConfig,
    polylines: Seq<Seq<Point>>,
) -> bool {
    match cfg.line_type {
        LineType::Sequential => polylines == seq![centers],
        LineType::ConnectAll => exists|lines: Seq<Line>| #[trigger]
            is_connection(centers, line_limit(cfg), lines) && polylines == segments(
                centers,
                lines,
            ),
        LineType::MinimumSpanningTree => exists|lines: Seq<Line>| #[trigger]
            is_by_length(centers, lines) && polylines == segments(
                centers,
                tree_lines(lines, lines.len()),
            ),
    }
}

/// The polylines drawn for boxes.
pub open spec fn is_connection_of(
    boxes: Seq<Box>,
    w: int,
    h: int,
    cfg: FilterConfig,
    angles: Seq<i128>,
    polylines: Seq<Seq<Point>>,
) -> bool {
    if !cfg.line_enabled || boxes.len() < 2 {
        polylines.len() == 0
    } else {
        exists|visits: Seq<usize>| #[trigger]
            is_visiting_order(centers_of(boxes), w, h, cfg.line_order, angles, visits)
                && is_connected_by(picked(centers_of(boxes), visits), cfg, polylines)
    }
}

fn square(d: i64) -> (r: i128)
    requires
        -0x2_0000_0000 <= d <= 0x2_0000_0000,
    ensures
        r == d * d,
        0 <= r <= 0x4_0000_0000_0000_0000,
{
    let d = d as i128;
    assert(0 <= d * d <= 0x4_0000_0000_0000_0000) by (nonlinear_arith)
        requires
            -0x2_0000_0000 <= d <= 0x2_0000_0000,
    ;
    d * d
}

fn distance(a: Point, b: Point) -> (r: i128)
    ensures
        r == square_distance(a, b),
        0 <= r <= 0x8_0000_0000_0000_0000,
{
    square(b.x as i64 - a.x as i64) + square(b.y as i64 - a.y as i64)
}

fn nearest_tour(centers: &[Point]) -> (tour: Vec<usize>)
    ensures
        is_nearest_tour(centers@, tour@),
{
    let n = centers.len();
    let mut tour: Vec<usize> = Vec::with_capacity(n);
    if n == 0 {
        return tour;
    }
    let mut visited: Vec<bool> = Vec::with_capacity(n);
    let mut i: usize = 0;
    while i < n
        invariant
            i <= n,
            visited@.len() == i,
            forall|j: int| 0 <= j < i ==> visited@[j] == (j == 0),
        decreases n - i,
    {
        visited.push(i == 0);
        i = i + 1;
    }
    tour.push(0);
    assert(tour@.contains(0usize)) by {
        assert(tour@[0] == 0);
    }
    while tour.len() < n
        invariant
            n == centers@.len(),
            0 < tour@.len() <= n,
            visited@.len() == n,
            tour@[0] == 0,
            tour@.no_duplicates(),
            forall|k: int| 0 <= k < tour@.len() ==> #[trigger] tour@[k] < n,
            forall|j: usize| j < n ==> (visited@[j as int] <==> #[trigger] tour@.contains(j)),
            forall|k: int| 0 < k < tour@.len() ==> #[trigger] is_nearest_stop(centers@, tour@, k),
        decreases n - tour@.len(),
    {
        let ghost done = tour@;
        let last = tour.len() - 1;
        let from = centers[tour[last]];
        proof {
            lemma_unvisited(tour@, n as int);
        }
        let mut best: usize = 0;
        let mut best_distance: i128 = 0;
        let mut found = false;
        let mut j: usize = 0;
        while j < n
            invariant
                j <= n,
                n == centers@.len(),
                visited@.len() == n,
                done == tour@,
                from == centers@[done[done.len() - 1] as int],
                forall|k: usize| k < n ==> (visited@[k as int] <==> #[trigger] done.contains(k)),
                found ==> best < j && !done.contains(best) && best_distance == square_distance(
                    from,
                    centers@[best as int],
                ),
                forall|k: usize|
                    k < j && !#[trigger] done.contains(k) ==> found && {
                        let there = square_distance(from, centers@[k as int]);
                        best_distance < there || best_distance == there && best <= k
                    },
            decreases n - j,
        {
            if !visited[j] {
                let d = distance(from, centers[j]);
                if !found || d < best_distance {
                    best = j;
                    best_distance = d;
                    found = true;
                }
                assert(!done.contains(j));
            }
            j = j + 1;
        }
        assert(found);
        visited.set(best, true);
        tour.push(best);
        proof {
            let k = done.len() as int;
            assert(tour@.take(k) =~= done);
            assert(is_nearest_stop(centers@, tour@, k));
            assert forall|i: int| 0 < i < tour@.len() implies #[trigger] is_nearest_stop(
                centers@,
                tour@,
                i,
            ) by {
                if i < k {
                    assert(is_nearest_stop(centers@, done, i));
                    assert(tour@.take(i) =~= done.take(i));
                }
            }
            assert forall|i: usize| i < n implies (visited@[i as int]
                <==> #[trigger] tour@.contains(i)) by {
                if tour@.contains(i) {
                    let m = choose|m: int| 0 <= m < tour@.len() && tour@[m] == i;
                    if m < k {
                        assert(done[m] == i);
                    }
                }
                if done.contains(i) {
                    let m = choose|m: int| 0 <= m < done.len() && done[m] == i;
                    assert(tour@[m] == i);
                }
                if i == best {
                    assert(tour@[k] == i);
                }
            }
            assert(tour@.no_duplicates()) by {
                assert forall|a: int, b: int|
                    0 <= a < tour@.len() && 0 <= b < tour@.len() && a != b implies tour@[a]
                    != tour@[b] by {
                    if a == k {
                        assert(done[b] == tour@[b]);
                        assert(done.contains(tour@[b]));
                    } else if b == k {
                        assert(done[a] == tour@[a]);
                        assert(done.contains(tour@[a]));
                    } else {
                        assert(done[a] == tour@[a] && done[b] == tour@[b]);
                    }
                }
            }
        }
    }
    tour
}

/// A tour that is not complete leaves a centre out.
proof fn lemma_unvisited(tour: Seq<usize>, n: int)
    requires
        tour.no_duplicates(),
        tour.len() < n <= usize::MAX,
    ensures
        exists|j: usize| j < n && !#[trigger] tour.contains(j),
{
    if forall|j: usize| j < n ==> #[trigger] tour.contains(j) {
        let nums = tour.map_values(|x: usize| x as int);
        tour.unique_seq_to_set();
        lemma_int_range(0, n);
        assert forall|x: int| set_int_range(0, n).contains(x) implies nums.to_set().contains(x) by {
            assert(tour.contains(x as usize));
            let i = choose|i: int| 0 <= i < tour.len() && tour[i] == x as usize;
            assert(nums[i] == x);
        }
        assert(nums.no_duplicates());
        nums.unique_seq_to_set();
        vstd::seq_lib::seq_to_set_is_finite(nums);
        lemma_len_subset(set_int_range(0, n), nums.to_set());
    }
}

/// The order in which the lines visit the centres.
///
/// For `LineOrder::PolarSweep`, `angles` ranks the directions in which the
/// centres lie.
pub fn visiting_order(
    centers: &[Point],
    w: usize,
    h: usize,
    order: LineOrder,
    angles: &[i128],
) -> (visits: Vec<usize>)
    requires
        w <= MAX_SIDE,
        h <= MAX_SIDE,
        order == LineOrder::PolarSweep ==> angles@.len() == centers@.len(),
    ensures
        is_visiting_order(centers@, w as int, h as int, order, angles@, visits@),
{
    if order == LineOrder::NearestNeighbor {
        return nearest_tour(centers);
    }
    let mut keys: Vec<i128> = Vec::with_capacity(centers.len());
    let mut i: usize = 0;
    while i < centers.len()
        invariant
            i <= centers@.len(),
            w <= MAX_SIDE,
            h <= MAX_SIDE,
            order != LineOrder::NearestNeighbor,
            order == LineOrder::PolarSweep ==> angles@.len() == centers@.len(),
            keys@ == sort_keys(centers@, w as int, h as int, order, angles@).take(i as int),
        decreases centers@.len() - i,
    {
        let p = centers[i];
        let key: i128 = match order {
            LineOrder::TopToBottom => p.y as i128,
            LineOrder::BottomToTop => -(p.y as i128),
            LineOrder::LeftToRight => p.x as i128,
            LineOrder::RightToLeft => -(p.x as i128),
            LineOrder::DistanceFromCenter => square(2 * (p.x as i64) - w as i64) + square(
                2 * (p.y as i64) - h as i64,
            ),
            _ => angles[i],
        };
        keys.push(key);
        i = i + 1;
    }
    assert(keys@ =~= sort_keys(centers@, w as int, h as int, order, angles@));
    stable_order(&keys)
}

/// Every line between two of `n` points.
pub fn every_line(n: usize) -> (lines: Vec<Line>)
    ensures
        lines@ == all_lines(n as int, n as int),
{
    let mut lines: Vec<Line> = Vec::new();
    let mut i: usize = 0;
    while i < n
        invariant
            i <= n,
            lines@ == all_lines(i as int, n as int),
        decreases n - i,
    {
        let mut j: usize = i + 1;
        while j < n
            invariant
                i < j <= n,
                lines@ == all_lines(i as int, n as int) + lines_from(i as int, n as int).take(
                    j - i - 1,
                ),
            decreases n - j,
        {
            lines.push((i, j));
            j = j + 1;
        }
        assert(lines_from(i as int, n as int).take(n - i - 1) =~= lines_from(i as int, n as int));
        i = i + 1;
    }
    lines
}

/// Lines between `n` points lead from a point to a later one.
pub proof fn lemma_all_lines(i: int, n: int)
    requires
        i <= n <= usize::MAX,
    ensures
        within(all_lines(i, n), n),
        forall|k: int|
            0 <= k < all_lines(i, n).len() ==> (#[trigger] all_lines(i, n)[k]).0 < all_lines(
                i,
                n,
            )[k].1 && all_lines(i, n)[k].0 < i,
    decreases i,
{
    if i > 0 {
        lemma_all_lines(i - 1, n);
        let before = all_lines(i - 1, n);
        let all = all_lines(i, n);
        assert forall|k: int| 0 <= k < all.len() implies (#[trigger] all[k]).0 < all[k].1
            && all[k].1 < n && all[k].0 < i by {
            if k < before.len() {
                assert(all[k] == before[k]);
            } else {
                assert(all[k] == lines_from(i - 1, n)[k - before.len()]);
            }
        }
    }
}

/// All lines between the centres, the shortest first.
pub fn lines_by_length(centers: &[Point]) -> (lines: Vec<Line>)
    ensures
        is_by_length(centers@, lines@),
        within(lines@, centers@.len() as int),
{
    let n = centers.len();
    let all = every_line(n);
    proof {
        lemma_all_lines(n as int, n as int);
    }
    let mut keys: Vec<i128> = Vec::with_capacity(all.len());
    let mut i: usize = 0;
    while i < all.len()
        invariant
            i <= all@.len(),
            within(all@, centers@.len() as int),
            keys@ == lengths(centers@, all@).take(i as int),
        decreases all@.len() - i,
    {
        let (a, b) = all[i];
        assert(all@[i as int].0 < centers@.len());
        keys.push(distance(centers[a], centers[b]));
        i = i + 1;
    }
    assert(keys@ =~= lengths(centers@, all@));
    let order = stable_order(&keys);
    let mut lines: Vec<Line> = Vec::with_capacity(order.len());
    let mut i: usize = 0;
    while i < order.len()
        invariant
            i <= order@.len(),
            is_stable_order(lengths(centers@, all@), order@),
            within(all@, centers@.len() as int),
            within(lines@, centers@.len() as int),
            lines@ == picked(all@, order@).take(i as int),
        decreases order@.len() - i,
    {
        assert(order@[i as int] < all@.len());
        lines.push(all[order[i]]);
        i = i + 1;
    }
    assert(lines@ =~= picked(all@, order@));
    lines
}

/// The lines that connect all centres, at most as many as the limit allows.
pub fn connect_all(centers: &[Point], limit: Option<usize>) -> (lines: Vec<Line>)
    ensures
        is_connection(centers@, limit, lines@),
        within(lines@, centers@.len() as int),
{
    let n = centers.len();
    let all = every_line(n);
    proof {
        lemma_all_lines(n as int, n as int);
    }
    match limit {
        Some(max) => {
            if all.len() > max {
                let sorted = lines_by_length(centers);
                proof {
                    lemma_by_length_len(centers@, sorted@);
                }
                let mut lines: Vec<Line> = Vec::with_capacity(max);
                let mut i: usize = 0;
                while i < max
                    invariant
                        i <= max <= sorted@.len(),
                        within(sorted@, centers@.len() as int),
                        within(lines@, centers@.len() as int),
                        lines@ == sorted@.take(i as int),
                    decreases max - i,
                {
                    lines.push(sorted[i]);
                    i = i + 1;
                }
                return lines;
            }
            all
        },
        None => all,
    }
}

proof fn lemma_by_length_len(centers: Seq<Point>, lines: Seq<Line>)
    requires
        is_by_length(centers, lines),
    ensures
        lines.len() == all_lines(centers.len() as int, centers.len() as int).len(),
{
}

/// The lines of the shortest tree that joins all centres.
pub fn spanning_tree(centers: &[Point]) -> (tree: Vec<Line>)
    ensures
        exists|lines: Seq<Line>| #[trigger]
            is_by_length(centers@, lines) && tree@ == tree_lines(lines, lines.len()),
        within(tree@, centers@.len() as int),
{
    let lines = lines_by_length(centers);
    let tree = grow_tree(&lines, centers.len());
    proof {
        lemma_tree_within(lines@, centers@.len() as int);
    }
    tree
}

pub proof fn lemma_tree_within(lines: Seq<Line>, n: int)
    requires
        within(lines, n),
    ensures
        within(tree_lines(lines, lines.len()), n),
{
    let tree = tree_lines(lines, lines.len());
    law_tree_spans(lines, lines.len());
    assert(lines.take(lines.len() as int) =~= lines);
    assert forall|i: int| 0 <= i < tree.len() implies (#[trigger] tree[i]).0 < n && tree[i].1 < n by {
        assert(lines.contains(tree[i]));
        let j = choose|j: int| 0 <= j < lines.len() && lines[j] == tree[i];
        assert(lines[j].0 < n);
    }
}

/// The ends of lines.
fn polylines_of(centers: &[Point], lines: &[Line]) -> (out: Vec<Vec<Point>>)
    requires
        within(lines@, centers@.len() as int),
    ensures
        points_of(out@) == segments(centers@, lines@),
{
    let mut out: Vec<Vec<Point>> = Vec::with_capacity(lines.len());
    let mut i: usize = 0;
    while i < lines.len()
        invariant
            i <= lines@.len(),
            within(lines@, centers@.len() as int),
            points_of(out@) == segments(centers@, lines@).take(i as int),
        decreases lines@.len() - i,
    {
        let (a, b) = lines[i];
        assert(lines@[i as int].0 < centers@.len());
        let mut segment: Vec<Point> = Vec::with_capacity(2);
        segment.push(centers[a]);
        segment.push(centers[b]);
        assert(segment@ =~= segments(centers@, lines@)[i as int]);
        let ghost before = out@;
        out.push(segment);
        assert(points_of(out@) =~= points_of(before).push(segment@));
        i = i + 1;
    }
    assert(segments(centers@, lines@).take(lines@.len() as int) =~= segments(centers@, lines@));
    out
}

/// The points of polylines.
pub open spec fn points_of(polylines: Seq<Vec<Point>>) -> Seq<Seq<Point>> {
    polylines.map_values(|p: Vec<Point>| p@)
}

/// The polylines that connect the centres of boxes.
pub fn connection_lines(
    boxes: &[Box],
    w: usize,
    h: usize,
    cfg: &FilterConfig,
    angles: &[i128],
) -> (polylines: Vec<Vec<Point>>)
    requires
        w <= MAX_SIDE,
        h <= MAX_SIDE,
        cfg.line_order == LineOrder::PolarSweep ==> angles@.len() == boxes@.len(),
    ensures
        is_connection_of(boxes@, w as int, h as int, *cfg, angles@, points_of(polylines@)),
{
    if !cfg.line_enabled || boxes.len() < 2 {
        return Vec::new();
    }
    let mut all: Vec<Point> = Vec::with_capacity(boxes.len());
    let mut i: usize = 0;
    while i < boxes.len()
        invariant
            i <= boxes@.len(),
            all@ == centers_of(boxes@).take(i as int),
        decreases boxes@.len() - i,
    {
        all.push(Point { x: boxes[i].center_x, y: boxes[i].center_y });
        i = i + 1;
    }
    assert(all@ =~= centers_of(boxes@));
    let visits = visiting_order(&all, w, h, cfg.line_order, angles);
    proof {
        lemma_visits(all@, w as int, h as int, cfg.line_order, angles@, visits@);
    }
    let mut centers: Vec<Point> = Vec::with_capacity(visits.len());
    let mut i: usize = 0;
    while i < visits.len()
        invariant
            i <= visits@.len(),
            forall|k: int| 0 <= k < visits@.len() ==> #[trigger] visits@[k] < all@.len(),
            centers@ == picked(all@, visits@).take(i as int),
        decreases visits@.len() - i,
    {
        centers.push(all[visits[i]]);
        i = i + 1;
    }
    assert(centers@ =~= picked(all@, visits@));
    match cfg.line_type {
        LineType::Sequential => {
            let ghost path = centers@;
            let mut out: Vec<Vec<Point>> = Vec::with_capacity(1);
            out.push(centers);
            assert(points_of(out@) =~= seq![path]);
            out
        },
        LineType::ConnectAll => {
            let limit = if cfg.line_connect_limit && cfg.line_connect_max > 0 {
                Some(cfg.line_connect_max)
            } else {
                None
            };
            let lines = connect_all(&centers, limit);
            polylines_of(&centers, &lines)
        },
        LineType::MinimumSpanningTree => {
            let tree = spanning_tree(&centers);
            polylines_of(&centers, &tree)
        },
    }
}

pub proof fn lemma_visits(
    centers: Seq<Point>,
    w: int,
    h: int,
    order: LineOrder,
    angles: Seq<i128>,
    visits: Seq<usize>,
)
    requires
        is_visiting_order(centers, w, h, order, angles, visits),
    ensures
        is_permutation(visits, centers.len() as int),
{
    if order != LineOrder::NearestNeighbor {
        lemma_stable_order_is_permutation(sort_keys(centers, w, h, order, angles), visits);
    }
}

/// Whatever the order, every centre is visited once.
pub proof fn law_every_center_is_visited_once(
    centers: Seq<Point>,
    w: int,
    h: int,
    order: LineOrder,
    angles: Seq<i128>,
    visits: Seq<usize>,
)
    requires
        is_visiting_order(centers, w, h, order, angles, visits),
        centers.len() <= usize::MAX,
    ensures
        visits.len() == centers.len(),
        visits.no_duplicates(),
        forall|k: usize| k < centers.len() ==> #[trigger] visits.contains(k),
{
    lemma_visits(centers, w, h, order, angles, visits);
    assert forall|k: usize| k < centers.len() implies #[trigger] visits.contains(k) by {
        lemma_permutation_lists_all(visits, centers.len() as int, k);
    }
}

proof fn lemma_key_fits(p: Point, w: int, h: int, order: LineOrder, angle: i128)
    requires
        0 <= w <= MAX_SIDE,
        0 <= h <= MAX_SIDE,
    ensures
        i128::MIN <= sort_key(p, w, h, order, angle) <= i128::MAX,
{
    let dx = 2 * p.x - w;
    let dy = 2 * p.y - h;
    assert(0 <= dx * dx <= 0x2_0000_0000 * 0x2_0000_0000) by (nonlinear_arith)
        requires
            -0x2_0000_0000 <= dx <= 0x2_0000_0000,
    ;
    assert(0 <= dy * dy <= 0x2_0000_0000 * 0x2_0000_0000) by (nonlinear_arith)
        requires
            -0x2_0000_0000 <= dy <= 0x2_0000_0000,
    ;
}

/// Unless they go from neighbour to neighbour, the lines visit the centres from
/// the least key to the greatest, and centres with the same key in the order of
/// the boxes.
pub proof fn law_visits_follow_the_keys(
    centers: Seq<Point>,
    w: int,
    h: int,
    order: LineOrder,
    angles: Seq<i128>,
    visits: Seq<usize>,
    i: int,
    j: int,
)
    requires
        0 <= w <= MAX_SIDE,
        0 <= h <= MAX_SIDE,
        order != LineOrder::NearestNeighbor,
        is_visiting_order(centers, w, h, order, angles, visits),
        0 <= i < j < visits.len(),
    ensures
        ({
            let (a, b) = (visits[i] as int, visits[j] as int);
            let first = sort_key(centers[a], w, h, order, angles[a]);
            let then = sort_key(centers[b], w, h, order, angles[b]);
            first < then || first == then && a < b
        }),
{
    let keys = sort_keys(centers, w, h, order, angles);
    let (a, b) = (visits[i] as int, visits[j] as int);
    assert(precedes(keys, a, b));
    lemma_key_fits(centers[a], w, h, order, angles[a]);
    lemma_key_fits(centers[b], w, h, order, angles[b]);
}

/// The line between two points is listed, whichever they are.
proof fn lemma_line_listed(i: int, n: int, a: int, b: int)
    requires
        0 <= a < i <= n <= usize::MAX,
        a < b < n,
    ensures
        all_lines(i, n).contains((a as usize, b as usize)),
    decreases i,
{
    let before = all_lines(i - 1, n);
    let all = all_lines(i, n);
    if a == i - 1 {
        let k = before.len() + (b - a - 1);
        assert(lines_from(a, n)[b - a - 1] == (a as usize, b as usize));
        assert(all[k] == (a as usize, b as usize));
    } else {
        lemma_line_listed(i - 1, n, a, b);
        let k = choose|k: int| 0 <= k < before.len() && before[k] == (a as usize, b as usize);
        assert(all[k] == (a as usize, b as usize));
    }
}

proof fn lemma_lines_distinct(i: int, n: int)
    requires
        0 <= i <= n <= usize::MAX,
    ensures
        all_lines(i, n).no_duplicates(),
        2 * all_lines(i, n).len() == i * (2 * n - i - 1),
    decreases i,
{
    if i > 0 {
        lemma_lines_distinct(i - 1, n);
        lemma_all_lines(i - 1, n);
        let before = all_lines(i - 1, n);
        let all = all_lines(i, n);
        let m = before.len() as int;
        assert(all.len() == m + (n - i));
        assert forall|k: int, l: int|
            0 <= k < all.len() && 0 <= l < all.len() && k != l implies all[k] != all[l] by {
            if k < m {
                assert(all[k] == before[k]);
            } else {
                assert(all[k] == lines_from(i - 1, n)[k - m]);
            }
            if l < m {
                assert(all[l] == before[l]);
            } else {
                assert(all[l] == lines_from(i - 1, n)[l - m]);
            }
        }
        assert(i * (2 * n - i - 1) == (i - 1) * (2 * n - (i - 1) - 1) + 2 * (n - i)) by (
        nonlinear_arith);
    } else {
        assert(0 * (2 * n - 1) == 0) by (nonlinear_arith);
    }
}

/// Each two points have one line between them.
pub proof fn law_each_pair_has_one_line(n: usize)
    ensures
        all_lines(n as int, n as int).no_duplicates(),
        forall|a: usize, b: usize| #[trigger]
            all_lines(n as int, n as int).contains((a, b)) <==> a < b < n,
        2 * all_lines(n as int, n as int).len() == n * (n - 1),
{
    let all = all_lines(n as int, n as int);
    lemma_all_lines(n as int, n as int);
    lemma_lines_distinct(n as int, n as int);
    assert forall|a: usize, b: usize| #[trigger] all.contains((a, b)) <==> a < b < n by {
        if a < b < n {
            lemma_line_listed(n as int, n as int, a as int, b as int);
        }
        if all.contains((a, b)) {
            let k = choose|k: int| 0 <= k < all.len() && all[k] == (a, b);
            assert(all[k].0 < all[k].1);
        }
    }
    let m = n as int;
    assert(m * (2 * m - m - 1) == m * (m - 1)) by (nonlinear_arith);
}

/// The lines by length are all lines, each once.
pub proof fn lemma_by_length(centers: Seq<Point>, lines: Seq<Line>)
    requires
        is_by_length(centers, lines),
        centers.len() <= usize::MAX,
    ensures
        lines.no_duplicates(),
        within(lines, centers.len() as int),
        forall|i: int, j: int|
            0 <= i <= j < lines.len() ==> square_distance(
                centers[(#[trigger] lines[i]).0 as int],
                centers[lines[i].1 as int],
            ) <= square_distance(
                centers[(#[trigger] lines[j]).0 as int],
                centers[lines[j].1 as int],
            ),
        forall|l: Line| #[trigger]
            lines.contains(l) <==> all_lines(
                centers.len() as int,
                centers.len() as int,
            ).contains(l),
{
    let n = centers.len() as usize;
    let all = all_lines(n as int, n as int);
    let keys = lengths(centers, all);
    let order = choose|order: Seq<usize>| #[trigger]
        is_stable_order(keys, order) && lines == picked(all, order);
    lemma_stable_order_is_permutation(keys, order);
    law_each_pair_has_one_line(n);
    lemma_all_lines(n as int, n as int);
    assert forall|i: int| 0 <= i < lines.len() implies #[trigger] lines[i] == all[order[i] as int]
        && order[i] < all.len() by {}
    assert forall|i: int, j: int|
        0 <= i < lines.len() && 0 <= j < lines.len() && i != j implies lines[i] != lines[j] by {
        assert(order[i] != order[j]);
    }
    assert forall|i: int, j: int| 0 <= i <= j < lines.len() implies square_distance(
        centers[(#[trigger] lines[i]).0 as int],
        centers[lines[i].1 as int],
    ) <= square_distance(
        centers[(#[trigger] lines[j]).0 as int],
        centers[lines[j].1 as int],
    ) by {
        if i < j {
            assert(precedes(keys, order[i] as int, order[j] as int));
        }
        lemma_distance_fits(centers[lines[i].0 as int], centers[lines[i].1 as int]);
        lemma_distance_fits(centers[lines[j].0 as int], centers[lines[j].1 as int]);
    }
    assert forall|l: Line| #[trigger] lines.contains(l) <==> all.contains(l) by {
        if lines.contains(l) {
            let i = choose|i: int| 0 <= i < lines.len() && lines[i] == l;
            assert(all[order[i] as int] == l);
        }
        if all.contains(l) {
            let k = choose|k: int| 0 <= k < all.len() && all[k] == l;
            let i = lemma_permutation_reaches(order, all.len() as int, k);
            assert(lines[i] == l);
        }
    }
    assert(within(lines, n as int)) by {
        assert forall|i: int| 0 <= i < lines.len() implies (#[trigger] lines[i]).0 < n && lines[i].1
            < n by {
            assert(all[order[i] as int].0 < n);
        }
    }
}

proof fn lemma_distance_fits(a: Point, b: Point)
    ensures
        0 <= square_distance(a, b) <= i128::MAX,
{
    let dx = b.x - a.x;
    let dy = b.y - a.y;
    assert(0 <= dx * dx <= 0x1_0000_0000 * 0x1_0000_0000) by (nonlinear_arith)
        requires
            -0x1_0000_0000 <= dx <= 0x1_0000_0000,
    ;
    assert(0 <= dy * dy <= 0x1_0000_0000 * 0x1_0000_0000) by (nonlinear_arith)
        requires
            -0x1_0000_0000 <= dy <= 0x1_0000_0000,
    ;
}

/// Where lines are limited, as many as allowed are kept, and none that is left
/// out is shorter than one that is kept.
pub proof fn law_limit_keeps_the_shortest(centers: Seq<Point>, max: usize, lines: Seq<Line>)
    requires
        centers.len() <= usize::MAX,
        is_connection(centers, Some(max), lines),
    ensures
        lines.no_duplicates(),
        lines.len() == max || lines.len() < max && lines == all_lines(
            centers.len() as int,
            centers.len() as int,
        ),
        forall|kept: Line| #[trigger]
            lines.contains(kept) ==> all_lines(
                centers.len() as int,
                centers.len() as int,
            ).contains(kept),
        forall|kept: Line, left: Line|
            lines.contains(kept) && all_lines(
                centers.len() as int,
                centers.len() as int,
            ).contains(left) && !lines.contains(left) ==> #[trigger] square_distance(
                centers[kept.0 as int],
                centers[kept.1 as int],
            ) <= #[trigger] square_distance(centers[left.0 as int], centers[left.1 as int]),
{
    let n = centers.len() as usize;
    let all = all_lines(n as int, n as int);
    law_each_pair_has_one_line(n);
    if all.len() > max {
        let sorted = choose|sorted: Seq<Line>| #[trigger]
            is_by_length(centers, sorted) && lines == sorted.take(max as int);
        lemma_by_length(centers, sorted);
        lemma_by_length_len(centers, sorted);
        assert forall|kept: Line| #[trigger] lines.contains(kept) implies all.contains(kept) by {
            let i = choose|i: int| 0 <= i < lines.len() && lines[i] == kept;
            assert(sorted[i] == kept);
            assert(sorted.contains(kept));
        }
        assert forall|kept: Line, left: Line|
            lines.contains(kept) && all.contains(left) && !lines.contains(
                left,
            ) implies #[trigger] square_distance(
            centers[kept.0 as int],
            centers[kept.1 as int],
        ) <= #[trigger] square_distance(centers[left.0 as int], centers[left.1 as int]) by {
            let i = choose|i: int| 0 <= i < lines.len() && lines[i] == kept;
            assert(sorted[i] == kept);
            assert(sorted.contains(left));
            let j = choose|j: int| 0 <= j < sorted.len() && sorted[j] == left;
            if j < max {
                assert(lines[j] == left);
            }
        }
    }
}

/// The lines of the tree join all centres, with as few lines as that takes, and
/// close no circle.
pub proof fn law_tree_joins_all_centers(centers: Seq<Point>, lines: Seq<Line>)
    requires
        0 < centers.len() <= usize::MAX,
        is_by_length(centers, lines),
    ensures
        forall|a: usize, b: usize|
            a < centers.len() && b < centers.len() ==> #[trigger] joined(
                tree_lines(lines, lines.len()),
                a,
                b,
            ),
        tree_lines(lines, lines.len()).len() == centers.len() - 1,
        is_forest(tree_lines(lines, lines.len())),
{
    let n = centers.len() as usize;
    let tree = tree_lines(lines, lines.len());
    let all = all_lines(n as int, n as int);
    lemma_by_length(centers, lines);
    law_each_pair_has_one_line(n);
    law_tree_spans(lines, lines.len());
    assert(lines.take(lines.len() as int) =~= lines);
    assert forall|a: usize, b: usize| a < n && b < n implies #[trigger] joined(tree, a, b) by {
        if a == b {
            lemma_joined_to_itself(lines, a);
        } else {
            let (low, high) = if a < b {
                (a, b)
            } else {
                (b, a)
            };
            assert(all.contains((low, high)));
            assert(lines.contains((low, high)));
            let i = choose|i: int| 0 <= i < lines.len() && lines[i] == (low, high);
            lemma_line_joins(lines, i);
            lemma_joined_symmetric(lines, low, high);
        }
        assert(joined(lines, a, b));
    }
    lemma_tree_within(lines, n as int);
    law_tree_line_count(tree, n);
}

/// No other tree that joins all centres is shorter, however the length of a
/// line is counted, as long as a longer line never counts less.
pub proof fn law_no_tree_is_shorter(
    centers: Seq<Point>,
    lines: Seq<Line>,
    cost: spec_fn(int) -> int,
    other: Seq<Line>,
)
    requires
        0 < centers.len() <= usize::MAX,
        is_by_length(centers, lines),
        forall|c: int, d: int| c <= d ==> #[trigger] cost(c) <= #[trigger] cost(d),
        is_forest(other),
        other.len() == centers.len() - 1,
        forall|i: int|
            0 <= i < other.len() ==> all_lines(
                centers.len() as int,
                centers.len() as int,
            ).contains(#[trigger] other[i]),
    ensures
        ({
            let length = |l: Line|
                cost(square_distance(centers[l.0 as int], centers[l.1 as int]));
            total_weight(tree_lines(lines, lines.len()), length) <= total_weight(other, length)
        }),
{
    let n = centers.len() as usize;
    let length = |l: Line| cost(square_distance(centers[l.0 as int], centers[l.1 as int]));
    lemma_by_length(centers, lines);
    law_tree_joins_all_centers(centers, lines);
    assert(by_weight(lines, length)) by {
        assert forall|i: int, j: int| 0 <= i <= j < lines.len() implies length(#[trigger] lines[i])
            <= length(#[trigger] lines[j]) by {
            let c = square_distance(centers[lines[i].0 as int], centers[lines[i].1 as int]);
            let d = square_distance(centers[lines[j].0 as int], centers[lines[j].1 as int]);
            assert(c <= d);
            assert(cost(c) <= cost(d));
        }
    }
    assert forall|i: int| 0 <= i < other.len() implies lines.contains(#[trigger] other[i]) by {
        assert(all_lines(n as int, n as int).contains(other[i]));
    }
    law_tree_weighs_least(lines, n, length, other);
}

/// However they are ordered, the centres stay the same.
pub proof fn law_ordering_keeps_the_centers(
    centers: Seq<Point>,
    w: int,
    h: int,
    order: LineOrder,
    angles: Seq<i128>,
    visits: Seq<usize>,
    p: Point,
)
    requires
        is_visiting_order(centers, w, h, order, angles, visits),
    ensures
        picked(centers, visits).len() == centers.len(),
        picked(centers, visits).contains(p) <==> centers.contains(p),
{
    lemma_visits(centers, w, h, order, angles, visits);
    let there = picked(centers, visits);
    if there.contains(p) {
        let i = choose|i: int| 0 <= i < there.len() && there[i] == p;
        assert(centers[visits[i] as int] == p);
    }
    if centers.contains(p) {
        let k = choose|k: int| 0 <= k < centers.len() && centers[k] == p;
        let i = lemma_permutation_reaches(visits, centers.len() as int, k);
        assert(there[i] == p);
    }
}

/// How many polylines connect the centres: one that visits them all, one for
/// each pair as far as the limit allows, or as many as a tree takes.
pub proof fn law_count_of_polylines(
    centers: Seq<Point>,
    cfg: FilterConfig,
    polylines: Seq<Seq<Point>>,
)
    requires
        0 < centers.len() <= usize::MAX,
        is_connected_by(centers, cfg, polylines),
    ensures
        ({
            let n = centers.len() as int;
            match cfg.line_type {
                LineType::Sequential => polylines.len() == 1,
                LineType::ConnectAll => match line_limit(cfg) {
                    Some(max) => polylines.len() <= max && (polylines.len() == max || 2
                        * polylines.len() == n * (n - 1)),
                    None => 2 * polylines.len() == n * (n - 1),
                },
                LineType::MinimumSpanningTree => polylines.len() == n - 1,
            }
        }),
{
    let n = centers.len() as usize;
    law_each_pair_has_one_line(n);
    match cfg.line_type {
        LineType::Sequential => {},
        LineType::ConnectAll => {
            let lines = choose|lines: Seq<Line>| #[trigger]
                is_connection(centers, line_limit(cfg), lines) && polylines == segments(
                    centers,
                    lines,
                );
            if let Some(max) = line_limit(cfg) {
                law_limit_keeps_the_shortest(centers, max, lines);
            }
        },
        LineType::MinimumSpanningTree => {
            let lines = choose|lines: Seq<Line>| #[trigger]
                is_by_length(centers, lines) && polylines == segments(
                    centers,
                    tree_lines(lines, lines.len()),
                );
            law_tree_joins_all_centers(centers, lines);
        },
    }
}

} // verus!
