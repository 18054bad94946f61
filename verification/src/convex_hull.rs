//! The convex hull of a set of pixel positions.
//!
//! The points are put in order around the lowest of them, by the angle under which it sees
//! them and, where it sees two under one angle, the nearer first. A scan over that order
//! leaves the hull; a point that the list holds more than once is scanned once. What the hull
//! promises is proved in [`crate::enclosure`].

use crate::angles::ByAngle;
use crate::enclosure::{encloses, lemma_hull_encloses, lemma_hull_turns_left, turns_left};
use crate::order::{arranged, is_order, sorted_order, Comparison};
use crate::point::{axis2_product, spec_axis2_product, Point};
use vstd::prelude::*;

verus! {

/// Whether `p` lies on a lower row than `q`, or on the same row and further left.
pub open spec fn lower(p: Point, q: Point) -> bool {
    p.y < q.y || (p.y == q.y && p.x < q.x)
}

/// Whether `anchor` is the point of `points` that none of them is lower than.
pub open spec fn is_lowest(points: Seq<Point>, anchor: Point) -> bool {
    &&& points.contains(anchor)
    &&& forall|i: int| 0 <= i < points.len() ==> !lower(#[trigger] points[i], anchor)
}

/// The lowest point of `points`, the leftmost of them where several share the lowest row.
pub open spec fn lowest(points: Seq<Point>) -> Point {
    choose|anchor: Point| is_lowest(points, anchor)
}

/// Whether no point stands twice in `points`.
pub open spec fn distinct(points: Seq<Point>) -> bool {
    forall|i: int, j: int| 0 <= i < j < points.len() ==> #[trigger] points[i] != #[trigger] points[j]
}

/// Whether `points` holds three points that are all different.
pub open spec fn three_different(points: Seq<Point>) -> bool {
    exists|i: int, j: int, k: int|
        0 <= i < points.len() && 0 <= j < points.len() && 0 <= k < points.len() && #[trigger] points[i]
            != #[trigger] points[j] && points[j] != #[trigger] points[k] && points[i] != points[k]
}

/// The chain that is left of `chain` once its last point has been taken away as often as the
/// way over the last two points to `next` turns right.
pub open spec fn settled(chain: Seq<Point>, next: Point) -> Seq<Point>
    decreases chain.len(),
{
    if chain.len() >= 2 && spec_axis2_product(chain[chain.len() - 2], chain[chain.len() - 1], next) < 0 {
        settled(chain.drop_last(), next)
    } else {
        chain
    }
}

/// The chain that a scan over `points`, in their order, leaves: each point is put at the end of
/// the chain, after the points that it turns right of have left it.
pub open spec fn scanned(points: Seq<Point>) -> Seq<Point>
    decreases points.len(),
{
    if points.len() == 0 {
        Seq::empty()
    } else {
        settled(scanned(points.drop_last()), points.last()).push(points.last())
    }
}

/// `points` without each point that stands directly behind its like.
pub open spec fn without_repeats(points: Seq<Point>) -> Seq<Point>
    decreases points.len(),
{
    if points.len() == 0 {
        Seq::empty()
    } else if points.len() >= 2 && points[points.len() - 1] == points[points.len() - 2] {
        without_repeats(points.drop_last())
    } else {
        without_repeats(points.drop_last()).push(points.last())
    }
}

/// What the scan leaves of `points` taken in the order `order`, a point that comes more than
/// once taken once.
pub open spec fn scan_in_order(points: Seq<Point>, order: Seq<usize>) -> Seq<Point> {
    scanned(without_repeats(arranged(points, order)))
}

/// Whether `hull` is the hull of `points`: fewer than three points are their own hull; more
/// are scanned in their order around the lowest of them, by polar angle and, under one angle,
/// by distance, and a point that the list holds more than once is scanned once.
pub open spec fn is_hull_of(points: Seq<Point>, hull: Seq<Point>) -> bool {
    if points.len() < 3 {
        hull == points
    } else {
        exists|order: Seq<usize>|
            #[trigger] is_order(ByAngle { anchor: lowest(points) }, points, order) && hull == scan_in_order(
                points,
                order,
            )
    }
}

/// The lowest of `points`, the leftmost of them on the lowest row.
pub fn lowest_point(points: &Vec<Point>) -> (anchor: Point)
    requires
        points.len() > 0,
    ensures
        anchor == lowest(points@),
        is_lowest(points@, anchor),
{
    let mut anchor: Point = points[0];
    let mut i: usize = 1;
    while i < points.len()
        invariant
            1 <= i <= points.len(),
            points@.contains(anchor),
            forall|j: int| 0 <= j < i ==> !lower(#[trigger] points[j], anchor),
        decreases points.len() - i,
    {
        let p: Point = points[i];
        if p.y < anchor.y || (p.y == anchor.y && p.x < anchor.x) {
            anchor = p;
        }
        i += 1;
    }
    proof {
        let other = lowest(points@);
        assert(is_lowest(points@, anchor));
        assert(is_lowest(points@, other));
        let i = choose|i: int| 0 <= i < points.len() && points[i] == anchor;
        let j = choose|j: int| 0 <= j < points.len() && points[j] == other;
        assert(!lower(points[i], other) && !lower(points[j], anchor));
    }
    anchor
}

/// The convex hull of `points`. Fewer than three points are returned as they are. Of three
/// points or more, the hull is a polygon of points of the list that goes counter-clockwise
/// from the lowest point, turns right at no corner, holds no point twice, and has every point
/// of the list on its inside or on its border. Where the list holds three different points,
/// the hull has three corners or more.
pub fn convex_hull(points: &Vec<Point>) -> (hull: Vec<Point>)
    ensures
        is_hull_of(points@, hull@),
        forall|i: int| 0 <= i < hull.len() ==> points@.contains(#[trigger] hull[i]),
        turns_left(hull@),
        forall|j: int| 0 <= j < points.len() ==> encloses(hull@, #[trigger] points[j]),
        points.len() >= 3 ==> hull.len() >= 1 && hull[0] == lowest(points@) && distinct(hull@),
        three_different(points@) ==> hull.len() >= 3,
        points.len() >= 3 && distinct(points@) ==> hull.len() >= 3,
{
    let hull = scan(points);
    proof {
        lemma_hull_encloses(points@, hull@);
        lemma_hull_turns_left(points@, hull@);
    }
    hull
}

/// Puts the points in order and scans them.
fn scan(points: &Vec<Point>) -> (hull: Vec<Point>)
    ensures
        is_hull_of(points@, hull@),
{
    let mut hull: Vec<Point> = Vec::new();
    if points.len() < 3 {
        let mut i: usize = 0;
        while i < points.len()
            invariant
                i <= points.len(),
                hull@ == points@.take(i as int),
            decreases points.len() - i,
        {
            hull.push(points[i]);
            assert(points@.take(i + 1) =~= points@.take(i as int).push(points[i as int]));
            i += 1;
        }
        assert(points@.take(points.len() as int) =~= points@);
        return hull;
    }
    let anchor: Point = lowest_point(points);
    let by = ByAngle { anchor };
    assert forall|i: int| 0 <= i < points.len() implies by.admits(#[trigger] points[i]) by {
        assert(!lower(points[i], anchor));
    }
    let order: Vec<usize> = sorted_order(&by, points);
    let ghost sorted = arranged(points@, order@);
    let mut k: usize = 0;
    assert(sorted.take(0) =~= Seq::<Point>::empty());
    while k < order.len()
        invariant
            k <= order.len(),
            order.len() == points.len(),
            sorted == arranged(points@, order@),
            forall|l: int| 0 <= l < order.len() ==> 0 <= #[trigger] order[l] < points.len(),
            hull@ == scanned(without_repeats(sorted.take(k as int))),
        decreases order.len() - k,
    {
        let point: Point = points[order[k]];
        let ghost chain = hull@;
        proof {
            let now = sorted.take(k + 1);
            assert(now.drop_last() =~= sorted.take(k as int));
            assert(now.last() == point);
            if k > 0 {
                assert(now[now.len() - 2] == sorted[k - 1]);
            }
        }
        let repeated: bool = k > 0 && points[order[k - 1]].x == point.x && points[order[k - 1]].y == point.y;
        if !repeated {
            proof {
                let rest = without_repeats(sorted.take(k as int));
                assert(rest.push(point).drop_last() =~= rest);
            }
            while hull.len() >= 2 && axis2_product(hull[hull.len() - 2], hull[hull.len() - 1], point) < 0
                invariant
                    settled(hull@, point) == settled(chain, point),
                decreases hull.len(),
            {
                hull.pop();
            }
            hull.push(point);
        }
        k += 1;
    }
    assert(sorted.take(order.len() as int) =~= sorted);
    hull
}

} // verus!
