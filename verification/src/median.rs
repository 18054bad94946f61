//! The middle of a set of points, and the points that lie near it.

use crate::order::{lemma_filter_same, lemma_rank, places_below, places_up_to, sorted_order, Comparison};
use crate::point::{distance_squared, spec_distance_squared, Length, Point};
use crate::squares::{lemma_square_bound, lemma_times_ordered};
use vstd::prelude::*;
use vstd::set_lib::{lemma_int_range, lemma_len_subset, lemma_set_disjoint_lens, set_int_range};

verus! {

/// The order of the points by their column.
pub struct ByX;

/// The order of the points by their row.
pub struct ByY;

impl Comparison<Point> for ByX {
    open spec fn admits(&self, item: Point) -> bool {
        true
    }

    open spec fn below(&self, a: Point, b: Point) -> bool {
        a.x < b.x
    }

    fn is_below(&self, a: &Point, b: &Point) -> (below: bool) {
        a.x < b.x
    }

    proof fn weak_order(&self, a: Point, b: Point, c: Point) {
    }
}

impl Comparison<Point> for ByY {
    open spec fn admits(&self, item: Point) -> bool {
        true
    }

    open spec fn below(&self, a: Point, b: Point) -> bool {
        a.y < b.y
    }

    fn is_below(&self, a: &Point, b: &Point) -> (below: bool) {
        a.y < b.y
    }

    proof fn weak_order(&self, a: Point, b: Point, c: Point) {
    }
}

/// The columns of `points`.
pub open spec fn xs(points: Seq<Point>) -> Seq<int> {
    Seq::new(points.len(), |i: int| points[i].x as int)
}

/// The rows of `points`.
pub open spec fn ys(points: Seq<Point>) -> Seq<int> {
    Seq::new(points.len(), |i: int| points[i].y as int)
}

/// The places of `values` that hold less than `m`.
pub open spec fn below(values: Seq<int>, m: int) -> Set<int> {
    Set::new(|i: int| 0 <= i < values.len() && values[i] < m)
}

/// The places of `values` that hold `m` or less.
pub open spec fn up_to(values: Seq<int>, m: int) -> Set<int> {
    Set::new(|i: int| 0 <= i < values.len() && values[i] <= m)
}

/// The places of `values` that hold less than `lo` or more than `hi`.
pub open spec fn outside(values: Seq<int>, lo: int, hi: int) -> Set<int> {
    Set::new(|i: int| 0 <= i < values.len() && !(lo <= values[i] <= hi))
}

/// Whether `m` is the value that stands at place `len / 2` once `values` are put in order: at
/// most `len / 2` of them are less, and more than `len / 2` are `m` or less.
pub open spec fn is_median(values: Seq<int>, m: int) -> bool {
    below(values, m).len() <= values.len() / 2 < up_to(values, m).len()
}

/// The point whose column is the median of the columns of `points`, and whose row is the
/// median of their rows. It need not be one of the points. There is none where there is no
/// point.
pub fn median(points: &Vec<Point>) -> (middle: Option<Point>)
    ensures
        middle.is_some() == (points.len() > 0),
        middle.is_some() ==> is_median(xs(points@), middle.unwrap().x as int) && is_median(
            ys(points@),
            middle.unwrap().y as int,
        ),
{
    if points.len() == 0 {
        return None;
    }
    let half: usize = points.len() / 2;
    let by_x: Vec<usize> = sorted_order(&ByX, points);
    let by_y: Vec<usize> = sorted_order(&ByY, points);
    let x: i32 = points[by_x[half]].x;
    let y: i32 = points[by_y[half]].y;
    proof {
        lemma_rank(ByX, points@, by_x@, half as int);
        lemma_rank(ByY, points@, by_y@, half as int);
        assert(below(xs(points@), x as int) =~= places_below(ByX, points@, points@[by_x@[half as int] as int]));
        assert(up_to(xs(points@), x as int) =~= places_up_to(ByX, points@, points@[by_x@[half as int] as int]));
        assert(below(ys(points@), y as int) =~= places_below(ByY, points@, points@[by_y@[half as int] as int]));
        assert(up_to(ys(points@), y as int) =~= places_up_to(ByY, points@, points@[by_y@[half as int] as int]));
    }
    Some(Point { x, y })
}

/// Whether `p` lies nearer to `center` than `size_overestimate`.
pub open spec fn is_near(center: Point, size_overestimate: Length, p: Point) -> bool {
    spec_distance_squared(p, center) * (size_overestimate.denominator * size_overestimate.denominator)
        < size_overestimate.numerator * size_overestimate.numerator
}

/// The points of `points` that lie nearer to `center` than `size_overestimate`, in their
/// order.
pub open spec fn spec_near(points: Seq<Point>, center: Point, size_overestimate: Length) -> Seq<Point> {
    points.filter(|p: Point| is_near(center, size_overestimate, p))
}

/// Leaves out the points that lie too far from `center` to belong to an object that is no
/// larger than `size_overestimate`.
pub fn near(points: &Vec<Point>, center: Point, size_overestimate: Length) -> (kept: Vec<Point>)
    ensures
        kept@ == spec_near(points@, center, size_overestimate),
{
    let numerator: i128 = size_overestimate.numerator as i128;
    let denominator: i128 = size_overestimate.denominator as i128;
    assert(0 <= numerator * numerator <= 0xffff * 0xffff) by (nonlinear_arith)
        requires
            0 <= numerator <= 0xffff,
    ;
    assert(0 <= denominator * denominator <= 0xffff * 0xffff) by (nonlinear_arith)
        requires
            0 <= denominator <= 0xffff,
    ;
    let limit: i128 = numerator * numerator;
    let scale: i128 = denominator * denominator;
    let mut kept: Vec<Point> = Vec::new();
    let mut i: usize = 0;
    assert(points@.take(0) =~= Seq::<Point>::empty());
    assert(spec_near(Seq::<Point>::empty(), center, size_overestimate) =~= Seq::<Point>::empty()) by {
        reveal(Seq::filter);
    }
    while i < points.len()
        invariant
            i <= points.len(),
            limit == size_overestimate.numerator * size_overestimate.numerator,
            scale == size_overestimate.denominator * size_overestimate.denominator,
            0 <= scale <= 0xffff * 0xffff,
            kept@ == spec_near(points@.take(i as int), center, size_overestimate),
        decreases points.len() - i,
    {
        let p: Point = points[i];
        proof {
            assert(points@.take(i + 1) =~= points@.take(i as int).push(p));
            points@.take(i as int).lemma_filter_push(p, |p: Point| is_near(center, size_overestimate, p));
        }
        let square: i128 = distance_squared(p, center);
        proof {
            let dx = p.x - center.x;
            let dy = p.y - center.y;
            assert(0 <= dx * dx <= 0x1_0000_0000_0000_0000 && 0 <= dy * dy <= 0x1_0000_0000_0000_0000)
                by (nonlinear_arith)
                requires
                    -0x1_0000_0000 <= dx <= 0x1_0000_0000,
                    -0x1_0000_0000 <= dy <= 0x1_0000_0000,
            ;
            assert(0 <= square * scale <= 0x2_0000_0000_0000_0000 * (0xffff * 0xffff)) by (nonlinear_arith)
                requires
                    0 <= square <= 0x2_0000_0000_0000_0000,
                    0 <= scale <= 0xffff * 0xffff,
            ;
        }
        if square * scale < limit {
            kept.push(p);
        }
        i += 1;
    }
    assert(points@.take(points.len() as int) =~= points@);
    kept
}

/// A median lies among the values, as far as more than half of them go: where fewer than half
/// of the values lie outside the range from `lo` to `hi`, the median lies inside it.
pub proof fn lemma_median_robust(values: Seq<int>, m: int, lo: int, hi: int)
    requires
        is_median(values, m),
        2 * outside(values, lo, hi).len() < values.len(),
    ensures
        lo <= m <= hi,
{
    let n = values.len() as int;
    let all = set_int_range(0, n);
    let out = outside(values, lo, hi);
    lemma_int_range(0, n);
    assert(out.subset_of(all));
    lemma_len_subset(out, all);
    if m < lo {
        assert(up_to(values, m).subset_of(out));
        lemma_len_subset(up_to(values, m), out);
    }
    if m > hi {
        let inside = Set::new(|i: int| 0 <= i < n && lo <= values[i] <= hi);
        assert(inside.subset_of(all));
        lemma_len_subset(inside, all);
        assert(inside.disjoint(out));
        lemma_set_disjoint_lens(inside, out);
        assert(inside.union(out) =~= all);
        assert(below(values, m).subset_of(all));
        lemma_len_subset(below(values, m), all);
        assert(inside.subset_of(below(values, m)));
        lemma_len_subset(inside, below(values, m));
    }
}

/// A list of values has one median.
pub proof fn lemma_median_unique(values: Seq<int>, m: int, other: int)
    requires
        is_median(values, m),
        is_median(values, other),
    ensures
        m == other,
{
    let n = values.len() as int;
    let all = set_int_range(0, n);
    lemma_int_range(0, n);
    if m < other {
        assert(below(values, other).subset_of(all));
        lemma_len_subset(below(values, other), all);
        assert(up_to(values, m).subset_of(below(values, other)));
        lemma_len_subset(up_to(values, m), below(values, other));
    }
    if other < m {
        assert(below(values, m).subset_of(all));
        lemma_len_subset(below(values, m), all);
        assert(up_to(values, other).subset_of(below(values, m)));
        lemma_len_subset(up_to(values, other), below(values, m));
    }
}

/// Whether `p` lies in the box between the corners `lo` and `hi`.
pub open spec fn in_box(lo: Point, hi: Point, p: Point) -> bool {
    lo.x <= p.x <= hi.x && lo.y <= p.y <= hi.y
}

/// The places of `points` that hold a point outside the box between `lo` and `hi`.
pub open spec fn outliers(points: Seq<Point>, lo: Point, hi: Point) -> Set<int> {
    Set::new(|i: int| 0 <= i < points.len() && !in_box(lo, hi, points[i]))
}

proof fn lemma_scale_not_negative(length: Length)
    ensures
        length.denominator * length.denominator >= 0,
{
    assert(length.denominator * length.denominator >= 0) by (nonlinear_arith);
}

/// The median and the radius together keep a cluster and drop what lies far from it. Let a box
/// hold more than half of the points, let its corners lie nearer than `size_overestimate`,
/// and let each point outside the box be `size_overestimate` or more away from every place in
/// the box. Then the points near the median are the points in the box.
pub proof fn lemma_outliers_rejected(points: Seq<Point>, center: Point, lo: Point, hi: Point, size_overestimate: Length)
    requires
        is_median(xs(points), center.x as int),
        is_median(ys(points), center.y as int),
        2 * outliers(points, lo, hi).len() < points.len(),
        is_near(lo, size_overestimate, hi),
        forall|i: int, q: Point|
            0 <= i < points.len() && !in_box(lo, hi, #[trigger] points[i]) && #[trigger] in_box(lo, hi, q)
                ==> !is_near(q, size_overestimate, points[i]),
    ensures
        in_box(lo, hi, center),
        spec_near(points, center, size_overestimate) == points.filter(|p: Point| in_box(lo, hi, p)),
{
    let n = points.len() as int;
    let out = outliers(points, lo, hi);
    lemma_int_range(0, n);
    assert(out.subset_of(set_int_range(0, n)));
    lemma_len_subset(out, set_int_range(0, n));
    assert(outside(xs(points), lo.x as int, hi.x as int).subset_of(out));
    lemma_len_subset(outside(xs(points), lo.x as int, hi.x as int), out);
    assert(outside(ys(points), lo.y as int, hi.y as int).subset_of(out));
    lemma_len_subset(outside(ys(points), lo.y as int, hi.y as int), out);
    lemma_median_robust(xs(points), center.x as int, lo.x as int, hi.x as int);
    lemma_median_robust(ys(points), center.y as int, lo.y as int, hi.y as int);
    assert(in_box(lo, hi, center));
    assert forall|i: int| 0 <= i < points.len() implies is_near(center, size_overestimate, #[trigger] points[i])
        == in_box(lo, hi, points[i]) by {
        let p = points[i];
        if in_box(lo, hi, p) {
            lemma_square_bound(p.x - center.x, hi.x - lo.x);
            lemma_square_bound(p.y - center.y, hi.y - lo.y);
            let scale = size_overestimate.denominator * size_overestimate.denominator;
            lemma_scale_not_negative(size_overestimate);
            lemma_times_ordered(spec_distance_squared(p, center), spec_distance_squared(hi, lo), scale);
        }
    }
    lemma_filter_same(
        points,
        |p: Point| is_near(center, size_overestimate, p),
        |p: Point| in_box(lo, hi, p),
    );
}

} // verus!
