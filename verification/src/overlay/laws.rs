//! What the parts of an overlay mean in terms of boxes, pixels and settings.
use super::lines::{
    all_lines, centers_of, is_by_length, is_connected_by, is_connection, is_connection_of,
    is_nearest_stop, is_nearest_tour, is_visiting_order, law_count_of_polylines,
    law_each_pair_has_one_line, law_every_center_is_visited_once, law_limit_keeps_the_shortest,
    law_no_tree_is_shorter, law_tree_joins_all_centers, law_visits_follow_the_keys, line_limit,
    picked, segments, square_distance, Point, MAX_SIDE,
};
use super::tree::{is_forest, joined, tree_lines, Line};
use super::weight::total_weight;
use crate::config::{FilterConfig, LineOrder, LineType};
use crate::keyer::blobs::Box;
use vstd::prelude::*;

verus! {

/// The square of the straight distance between two points.
pub open spec fn straight(a: Point, b: Point) -> int {
    (b.x - a.x) * (b.x - a.x) + (b.y - a.y) * (b.y - a.y)
}

/// Turning the plane and stretching it evenly, by `(x, y)` to
/// `(m * x - n * y, n * x + m * y)`, keeps the order of the lengths of lines,
/// and so does mirroring it.
pub proof fn law_turning_keeps_the_order_of_lengths(
    m: int,
    n: int,
    a: Point,
    b: Point,
    c: Point,
    d: Point,
    ta: Point,
    tb: Point,
    tc: Point,
    td: Point,
)
    requires
        m != 0 || n != 0,
        ta.x == m * a.x - n * a.y && ta.y == n * a.x + m * a.y,
        tb.x == m * b.x - n * b.y && tb.y == n * b.x + m * b.y,
        tc.x == m * c.x - n * c.y && tc.y == n * c.x + m * c.y,
        td.x == m * d.x - n * d.y && td.y == n * d.x + m * d.y,
    ensures
        square_distance(ta, tb) < square_distance(tc, td) <==> square_distance(a, b)
            < square_distance(c, d),
        square_distance(Point { x: a.y, y: a.x }, Point { x: b.y, y: b.x }) == square_distance(
            a,
            b,
        ),
        square_distance(b, a) == square_distance(a, b),
        square_distance(a, b) == 0 <==> a == b,
{
    let k = m * m + n * n;
    lemma_turned(m, n, a, b, ta, tb);
    lemma_turned(m, n, c, d, tc, td);
    assert(k > 0) by (nonlinear_arith)
        requires
            m != 0 || n != 0,
            k == m * m + n * n,
    ;
    let (p, q) = (square_distance(a, b), square_distance(c, d));
    assert(k * p < k * q <==> p < q) by (nonlinear_arith)
        requires
            k > 0,
    ;
    let (dx, dy) = (b.x - a.x, b.y - a.y);
    assert(square_distance(b, a) == square_distance(a, b)) by {
        assert((-dx) * (-dx) == dx * dx && (-dy) * (-dy) == dy * dy) by (nonlinear_arith);
    }
    assert(dx * dx + dy * dy == 0 <==> dx == 0 && dy == 0) by (nonlinear_arith);
}

proof fn lemma_turned(m: int, n: int, a: Point, b: Point, ta: Point, tb: Point)
    requires
        ta.x == m * a.x - n * a.y && ta.y == n * a.x + m * a.y,
        tb.x == m * b.x - n * b.y && tb.y == n * b.x + m * b.y,
    ensures
        square_distance(ta, tb) == (m * m + n * n) * square_distance(a, b),
{
    let (dx, dy) = (b.x - a.x, b.y - a.y);
    let (tx, ty) = (tb.x - ta.x, tb.y - ta.y);
    assert(tx == m * dx - n * dy) by (nonlinear_arith)
        requires
            tx == (m * b.x - n * b.y) - (m * a.x - n * a.y),
            dx == b.x - a.x,
            dy == b.y - a.y,
    ;
    assert(ty == n * dx + m * dy) by (nonlinear_arith)
        requires
            ty == (n * b.x + m * b.y) - (n * a.x + m * a.y),
            dx == b.x - a.x,
            dy == b.y - a.y,
    ;
    let (e, f, g, k) = (m * dx, n * dy, n * dx, m * dy);
    assert(tx * tx == e * e - 2 * (e * f) + f * f) by (nonlinear_arith)
        requires
            tx == e - f,
    ;
    assert(ty * ty == g * g + 2 * (g * k) + k * k) by (nonlinear_arith)
        requires
            ty == g + k,
    ;
    assert(e * f == g * k) by (nonlinear_arith)
        requires
            e == m * dx,
            f == n * dy,
            g == n * dx,
            k == m * dy,
    ;
    assert(e * e == (m * m) * (dx * dx)) by (nonlinear_arith)
        requires
            e == m * dx,
    ;
    assert(f * f == (n * n) * (dy * dy)) by (nonlinear_arith)
        requires
            f == n * dy,
    ;
    assert(g * g == (n * n) * (dx * dx)) by (nonlinear_arith)
        requires
            g == n * dx,
    ;
    assert(k * k == (m * m) * (dy * dy)) by (nonlinear_arith)
        requires
            k == m * dy,
    ;
    let (mm, nn, xx, yy) = (m * m, n * n, dx * dx, dy * dy);
    assert((mm + nn) * (xx + yy) == mm * xx + mm * yy + nn * xx + nn * yy) by (nonlinear_arith);
}

/// A line comes before every line that is straight longer than it, where lines
/// are taken by length.
pub proof fn law_lines_rank_by_straight_length(
    centers: Seq<Point>,
    lines: Seq<Line>,
    i: int,
    j: int,
)
    requires
        centers.len() <= usize::MAX,
        is_by_length(centers, lines),
        0 <= i < lines.len(),
        0 <= j < lines.len(),
        ({
            let (a, b) = (centers[lines[i].0 as int], centers[lines[i].1 as int]);
            let (c, d) = (centers[lines[j].0 as int], centers[lines[j].1 as int]);
            (b.x - a.x) * (b.x - a.x) + (b.y - a.y) * (b.y - a.y) < (d.x - c.x) * (d.x - c.x) + (d.y
                - c.y) * (d.y - c.y)
        }),
    ensures
        i < j,
{
    super::lines::lemma_by_length(centers, lines);
    if j <= i {
        assert(square_distance(centers[lines[j].0 as int], centers[lines[j].1 as int])
            <= square_distance(centers[lines[i].0 as int], centers[lines[i].1 as int]));
    }
}

/// What lines cost together, where each costs `cost` of the square of its
/// straight length.
pub open spec fn total_cost(polylines: Seq<Seq<Point>>, cost: spec_fn(int) -> int) -> int
    decreases polylines.len(),
{
    if polylines.len() == 0 {
        0
    } else {
        total_cost(polylines.drop_last(), cost) + cost(
            straight(polylines.last()[0], polylines.last()[1]),
        )
    }
}

/// The lines between the points that `lines` names.
pub open spec fn drawn(points: Seq<Point>, lines: Seq<Line>) -> Seq<Seq<Point>> {
    Seq::new(lines.len(), |i: int| seq![points[lines[i].0 as int], points[lines[i].1 as int]])
}

/// The minimum spanning tree costs no more than any other tree that joins all
/// the points, whatever a line costs by its straight length, as long as a longer
/// line never costs less.
#[verifier::spinoff_prover]
#[verifier::rlimit(40)]
pub proof fn law_spanning_tree_is_the_shortest(
    points: Seq<Point>,
    cfg: FilterConfig,
    polylines: Seq<Seq<Point>>,
    cost: spec_fn(int) -> int,
    other: Seq<Line>,
)
    requires
        0 < points.len() <= usize::MAX,
        cfg.line_type == LineType::MinimumSpanningTree,
        is_connected_by(points, cfg, polylines),
        forall|c: int, d: int| c <= d ==> #[trigger] cost(c) <= #[trigger] cost(d),
        is_forest(other),
        other.len() == points.len() - 1,
        forall|i: int|
            0 <= i < other.len() ==> (#[trigger] other[i]).0 < other[i].1 && other[i].1
                < points.len(),
    ensures
        total_cost(polylines, cost) <= total_cost(drawn(points, other), cost),
        exists|tree: Seq<Line>|
            {
                &&& polylines == #[trigger] drawn(points, tree)
                &&& tree.len() == points.len() - 1
                &&& forall|i: int|
                    0 <= i < tree.len() ==> (#[trigger] tree[i]).0 < tree[i].1 && tree[i].1
                        < points.len()
                &&& forall|s: Set<usize>|
                    (forall|i: int|
                        0 <= i < tree.len() ==> (s.contains((#[trigger] tree[i]).0)
                            <==> s.contains(tree[i].1))) && #[trigger] s.contains(0) ==> forall|
                        k: usize,
                    |
                        k < points.len() ==> s.contains(k)
            },
{
    let n = points.len() as usize;
    let lines = choose|lines: Seq<Line>| #[trigger]
        is_by_length(points, lines) && polylines == segments(
            points,
            tree_lines(lines, lines.len()),
        );
    let tree = tree_lines(lines, lines.len());
    law_each_pair_has_one_line(n);
    assert forall|i: int| 0 <= i < other.len() implies all_lines(
        points.len() as int,
        points.len() as int,
    ).contains(#[trigger] other[i]) by {
        let (a, b) = other[i];
        assert(all_lines(n as int, n as int).contains((a, b)));
    }
    law_no_tree_is_shorter(points, lines, cost, other);
    law_tree_joins_all_centers(points, lines);
    super::lines::lemma_by_length(points, lines);
    super::lines::lemma_tree_within(lines, n as int);
    let length = |l: Line| cost(square_distance(points[l.0 as int], points[l.1 as int]));
    lemma_total_cost(points, tree, cost);
    lemma_total_cost(points, other, cost);
    assert(polylines =~= drawn(points, tree));
    super::tree::law_tree_spans(lines, lines.len());
    assert(lines.take(lines.len() as int) =~= lines);
    assert forall|i: int| 0 <= i < tree.len() implies (#[trigger] tree[i]).0 < tree[i].1
        && tree[i].1 < points.len() by {
        let (a, b) = tree[i];
        assert(lines.contains(tree[i]));
        assert(all_lines(n as int, n as int).contains((a, b)));
    }
    assert forall|s: Set<usize>|
        (forall|i: int|
            0 <= i < tree.len() ==> (s.contains((#[trigger] tree[i]).0) <==> s.contains(
                tree[i].1,
            ))) && #[trigger] s.contains(0) implies forall|k: usize|
        k < points.len() ==> s.contains(k) by {
        assert(super::tree::unbroken(tree, s));
        assert forall|k: usize| k < points.len() implies s.contains(k) by {
            assert(joined(tree, 0, k));
        }
    }
}

proof fn lemma_total_cost(points: Seq<Point>, lines: Seq<Line>, cost: spec_fn(int) -> int)
    ensures
        total_cost(drawn(points, lines), cost) == total_weight(
            lines,
            |l: Line| cost(square_distance(points[l.0 as int], points[l.1 as int])),
        ),
    decreases lines.len(),
{
    if lines.len() > 0 {
        lemma_total_cost(points, lines.drop_last(), cost);
        assert(drawn(points, lines).drop_last() =~= drawn(points, lines.drop_last()));
    }
}

/// Where all points are connected, each pair has its line, or as many pairs as
/// the setting allows; then no pair left out lies nearer than one that has a
/// line.
#[verifier::spinoff_prover]
#[verifier::rlimit(40)]
pub proof fn law_connecting_all_takes_the_nearest_pairs(
    points: Seq<Point>,
    cfg: FilterConfig,
    polylines: Seq<Seq<Point>>,
) -> (lines: Seq<Line>)
    requires
        0 < points.len() <= usize::MAX,
        cfg.line_type == LineType::ConnectAll,
        is_connected_by(points, cfg, polylines),
    ensures
        polylines == drawn(points, lines),
        lines.no_duplicates(),
        forall|i: int|
            0 <= i < lines.len() ==> (#[trigger] lines[i]).0 < lines[i].1 && lines[i].1
                < points.len(),
        ({
            let n = points.len() as int;
            let limited = cfg.line_connect_limit && cfg.line_connect_max > 0 && n * (n - 1) > 2
                * cfg.line_connect_max;
            &&& limited ==> lines.len() == cfg.line_connect_max
            &&& !limited ==> 2 * lines.len() == n * (n - 1)
        }),
        forall|a: usize, b: usize, i: int|
            #![trigger lines.contains((a, b)), lines[i]]
            a < b && b < points.len() && !lines.contains((a, b)) && 0 <= i < lines.len()
                ==> straight(points[lines[i].0 as int], points[lines[i].1 as int]) <= straight(
                points[a as int],
                points[b as int],
            ),
{
    let n = points.len() as usize;
    let all = all_lines(n as int, n as int);
    let lines = choose|lines: Seq<Line>| #[trigger]
        is_connection(points, line_limit(cfg), lines) && polylines == segments(points, lines);
    law_each_pair_has_one_line(n);
    assert(polylines =~= drawn(points, lines));
    if let Some(max) = line_limit(cfg) {
        law_limit_keeps_the_shortest(points, max, lines);
    }
    assert forall|i: int| 0 <= i < lines.len() implies (#[trigger] lines[i]).0 < lines[i].1
        && lines[i].1 < points.len() by {
        assert(lines.contains(lines[i]));
        let (a, b) = lines[i];
        assert(all.contains((a, b)));
    }
    assert forall|a: usize, b: usize, i: int|
        #![trigger lines.contains((a, b)), lines[i]]
        a < b && b < points.len() && !lines.contains((a, b)) && 0 <= i < lines.len() implies straight(
        points[lines[i].0 as int],
        points[lines[i].1 as int],
    ) <= straight(points[a as int], points[b as int]) by {
        assert(all.contains((a, b)));
        let (kept, left) = (lines[i], (a, b));
        assert(lines.contains(kept));
        assert(square_distance(points[kept.0 as int], points[kept.1 as int]) <= square_distance(
            points[left.0 as int],
            points[left.1 as int],
        ));
    }
    lines
}

/// The order in which the lines visit the points, in terms of their
/// coordinates. Points that the order does not tell apart keep their own order.
pub proof fn law_visits_follow_the_coordinates(
    points: Seq<Point>,
    w: int,
    h: int,
    order: LineOrder,
    angles: Seq<i128>,
    visits: Seq<usize>,
    i: int,
    j: int,
)
    requires
        0 <= w <= MAX_SIDE,
        0 <= h <= MAX_SIDE,
        is_visiting_order(points, w, h, order, angles, visits),
        0 <= i < j < visits.len(),
        points.len() <= usize::MAX,
    ensures
        visits.len() == points.len(),
        visits[i] != visits[j],
        visits[i] < points.len() && visits[j] < points.len(),
        ({
            let (a, b) = (points[visits[i] as int], points[visits[j] as int]);
            let (ax, ay) = (2 * a.x - w, 2 * a.y - h);
            let (bx, by) = (2 * b.x - w, 2 * b.y - h);
            let (ra, rb) = (ax * ax + ay * ay, bx * bx + by * by);
            let earlier = visits[i] < visits[j];
            match order {
                LineOrder::TopToBottom => a.y < b.y || a.y == b.y && earlier,
                LineOrder::BottomToTop => a.y > b.y || a.y == b.y && earlier,
                LineOrder::LeftToRight => a.x < b.x || a.x == b.x && earlier,
                LineOrder::RightToLeft => a.x > b.x || a.x == b.x && earlier,
                LineOrder::DistanceFromCenter => ra < rb || ra == rb && earlier,
                LineOrder::PolarSweep => {
                    let (s, t) = (angles[visits[i] as int], angles[visits[j] as int]);
                    s < t || s == t && earlier
                },
                LineOrder::NearestNeighbor => visits[0] == 0,
            }
        }),
{
    law_every_center_is_visited_once(points, w, h, order, angles, visits);
    super::lines::lemma_visits(points, w, h, order, angles, visits);
    if order != LineOrder::NearestNeighbor {
        law_visits_follow_the_keys(points, w, h, order, angles, visits, i, j);
    }
}

/// Going from neighbour to neighbour starts at the first point, and goes on to
/// one than which no point left over lies nearer.
pub proof fn law_next_stop_is_the_nearest(
    points: Seq<Point>,
    w: int,
    h: int,
    angles: Seq<i128>,
    visits: Seq<usize>,
    k: int,
    m: int,
)
    requires
        is_visiting_order(points, w, h, LineOrder::NearestNeighbor, angles, visits),
        0 < k <= m < visits.len(),
        points.len() <= usize::MAX,
    ensures
        visits[0] == 0,
        ({
            let (from, to) = (points[visits[k - 1] as int], points[visits[k] as int]);
            let other = points[visits[m] as int];
            let here = (to.x - from.x) * (to.x - from.x) + (to.y - from.y) * (to.y - from.y);
            let there = (other.x - from.x) * (other.x - from.x) + (other.y - from.y) * (other.y
                - from.y);
            here < there || here == there && visits[k] <= visits[m]
        }),
{
    assert(is_nearest_tour(points, visits));
    assert(is_nearest_stop(points, visits, k));
    assert(!visits.take(k).contains(visits[m])) by {
        if visits.take(k).contains(visits[m]) {
            let i = choose|i: int| 0 <= i < k && visits.take(k)[i] == visits[m];
            assert(visits[i] == visits[m]);
        }
    }
}

/// The lines run between the centres of the boxes, of which `visits` names each
/// once, and there are none where they are switched off or there are not two
/// boxes.
#[verifier::spinoff_prover]
#[verifier::rlimit(40)]
pub proof fn law_lines_run_between_box_centres(
    boxes: Seq<Box>,
    w: int,
    h: int,
    cfg: FilterConfig,
    angles: Seq<i128>,
    polylines: Seq<Seq<Point>>,
) -> (found: (Seq<usize>, Seq<Point>))
    requires
        boxes.len() <= usize::MAX,
        is_connection_of(boxes, w, h, cfg, angles, polylines),
    ensures
        !cfg.line_enabled || boxes.len() < 2 ==> polylines.len() == 0,
        cfg.line_enabled && boxes.len() >= 2 ==> {
            let (visits, points) = found;
            let centers = Seq::new(
                boxes.len(),
                |i: int| Point { x: boxes[i].center_x, y: boxes[i].center_y },
            );
            &&& is_visiting_order(centers, w, h, cfg.line_order, angles, visits)
            &&& visits.len() == boxes.len() && points.len() == boxes.len()
            &&& visits.no_duplicates()
            &&& forall|i: int|
                0 <= i < points.len() ==> visits[i] < boxes.len() && (#[trigger] points[i]).x
                    == boxes[visits[i] as int].center_x && points[i].y
                    == boxes[visits[i] as int].center_y
            &&& is_connected_by(points, cfg, polylines)
            &&& cfg.line_type == LineType::Sequential ==> polylines == seq![points]
            &&& polylines.len() > 0
        },
{
    if cfg.line_enabled && boxes.len() >= 2 {
        let centers = centers_of(boxes);
        let visits = choose|visits: Seq<usize>| #[trigger]
            is_visiting_order(centers, w, h, cfg.line_order, angles, visits) && is_connected_by(
                picked(centers, visits),
                cfg,
                polylines,
            );
        let points = picked(centers, visits);
        super::lines::lemma_visits(centers, w, h, cfg.line_order, angles, visits);
        law_every_center_is_visited_once(centers, w, h, cfg.line_order, angles, visits);
        assert(centers =~= Seq::new(
            boxes.len(),
            |i: int| Point { x: boxes[i].center_x, y: boxes[i].center_y },
        ));
        law_count_of_polylines(points, cfg, polylines);
        let n = points.len() as int;
        assert(n * (n - 1) >= 2) by (nonlinear_arith)
            requires
                n >= 2,
        ;
        (visits, points)
    } else {
        (Seq::empty(), Seq::empty())
    }
}

/// All pairs come in the order of their first point, and those with the same
/// first point in the order of their second.
pub proof fn law_pairs_come_in_order(n: usize, i: int, j: int)
    requires
        0 <= i < j < all_lines(n as int, n as int).len(),
    ensures
        ({
            let (a, b) = (all_lines(n as int, n as int)[i], all_lines(n as int, n as int)[j]);
            a.0 < b.0 || a.0 == b.0 && a.1 < b.1
        }),
{
    lemma_pairs_in_order(n as int, n as int, i, j);
}

proof fn lemma_pairs_in_order(k: int, n: int, i: int, j: int)
    requires
        k <= n <= usize::MAX,
        0 <= i < j < all_lines(k, n).len(),
    ensures
        ({
            let (a, b) = (all_lines(k, n)[i], all_lines(k, n)[j]);
            a.0 < b.0 || a.0 == b.0 && a.1 < b.1
        }),
    decreases k,
{
    let before = all_lines(k - 1, n);
    let all = all_lines(k, n);
    let m = before.len() as int;
    super::lines::lemma_all_lines(k - 1, n);
    if j < m {
        lemma_pairs_in_order(k - 1, n, i, j);
        assert(all[i] == before[i] && all[j] == before[j]);
    } else {
        assert(all[j] == super::lines::lines_from(k - 1, n)[j - m]);
        if i < m {
            assert(all[i] == before[i]);
            assert(before[i].0 < k - 1);
        } else {
            assert(all[i] == super::lines::lines_from(k - 1, n)[i - m]);
        }
    }
}

} // verus!
