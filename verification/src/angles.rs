//! The order of points around an anchor: by the polar angle under which the anchor sees them,
//! and by their distance from it where the angle is the same.

use crate::order::Comparison;
use crate::point::{axis2_product, distance_squared, spec_axis2_product, spec_distance_squared, Point};
use vstd::prelude::*;

verus! {

/// Whether `p` lies above the row of `anchor`, or on that row and not to its left.
pub open spec fn beyond(anchor: Point, p: Point) -> bool {
    p.y > anchor.y || (p.y == anchor.y && p.x >= anchor.x)
}

/// Whether the direction from `anchor` to `p` has a smaller polar angle than the direction
/// from `anchor` to `q`, for two points that are `beyond` the anchor. A point on the row of the
/// anchor, the anchor too, has the angle zero.
pub open spec fn angle_before(anchor: Point, p: Point, q: Point) -> bool {
    q.y != anchor.y && (p.y == anchor.y || spec_axis2_product(anchor, p, q) > 0)
}

/// Whether `p` and `q` are seen from `anchor` under the same polar angle.
pub open spec fn same_angle(anchor: Point, p: Point, q: Point) -> bool {
    !angle_before(anchor, p, q) && !angle_before(anchor, q, p)
}

/// Whether `p` comes before `q` in the order around `anchor`: it is seen under the smaller
/// angle, or under the same angle and lies nearer. The anchor comes before every other point.
pub open spec fn comes_before(anchor: Point, p: Point, q: Point) -> bool {
    angle_before(anchor, p, q) || (same_angle(anchor, p, q) && spec_distance_squared(anchor, p)
        < spec_distance_squared(anchor, q))
}

/// The order of the points around an anchor: by polar angle, and by distance where the angle
/// is the same.
pub struct ByAngle {
    pub anchor: Point,
}

/// The order by angle alone is a strict order in which being seen under one angle is
/// transitive.
pub proof fn lemma_angle_order(anchor: Point, a: Point, b: Point, c: Point)
    requires
        beyond(anchor, a),
        beyond(anchor, b),
        beyond(anchor, c),
    ensures
        !angle_before(anchor, a, a),
        angle_before(anchor, a, b) && angle_before(anchor, b, c) ==> angle_before(anchor, a, c),
        angle_before(anchor, a, c) ==> angle_before(anchor, a, b) || angle_before(anchor, b, c),
{
    reveal(spec_axis2_product);
    let ax = a.x - anchor.x;
    let ay = a.y - anchor.y;
    let bx = b.x - anchor.x;
    let by = b.y - anchor.y;
    let cx = c.x - anchor.x;
    let cy = c.y - anchor.y;
    assert(by * (ax * cy - cx * ay) == ay * (bx * cy - cx * by) + cy * (ax * by - bx * ay)) by (nonlinear_arith);
    assert(ay > 0 && by > 0 && cy > 0 && ax * by - bx * ay > 0 && bx * cy - cx * by > 0 ==> ax * cy - cx * ay
        > 0) by (nonlinear_arith)
        requires
            by * (ax * cy - cx * ay) == ay * (bx * cy - cx * by) + cy * (ax * by - bx * ay),
    ;
    assert(ay > 0 && by > 0 && cy > 0 && ax * by - bx * ay <= 0 && bx * cy - cx * by <= 0 ==> ax * cy - cx
        * ay <= 0) by (nonlinear_arith)
        requires
            by * (ax * cy - cx * ay) == ay * (bx * cy - cx * by) + cy * (ax * by - bx * ay),
    ;
}

/// Tells whether `anchor` sees `p` under a smaller polar angle than `q`.
pub fn polar_angle_before(anchor: Point, p: Point, q: Point) -> (before: bool)
    ensures
        before == angle_before(anchor, p, q),
{
    if q.y == anchor.y {
        false
    } else if p.y == anchor.y {
        true
    } else {
        axis2_product(anchor, p, q) > 0
    }
}

impl Comparison<Point> for ByAngle {
    open spec fn admits(&self, item: Point) -> bool {
        beyond(self.anchor, item)
    }

    open spec fn below(&self, a: Point, b: Point) -> bool {
        comes_before(self.anchor, a, b)
    }

    fn is_below(&self, a: &Point, b: &Point) -> (below: bool) {
        if polar_angle_before(self.anchor, *a, *b) {
            true
        } else if polar_angle_before(self.anchor, *b, *a) {
            false
        } else {
            distance_squared(self.anchor, *a) < distance_squared(self.anchor, *b)
        }
    }

    proof fn weak_order(&self, a: Point, b: Point, c: Point) {
        lemma_angle_order(self.anchor, a, b, c);
        lemma_angle_order(self.anchor, a, c, b);
        lemma_angle_order(self.anchor, b, a, c);
        lemma_angle_order(self.anchor, b, c, a);
        lemma_angle_order(self.anchor, c, a, b);
        lemma_angle_order(self.anchor, c, b, a);
        lemma_angle_order(self.anchor, a, b, a);
        lemma_angle_order(self.anchor, a, c, a);
        lemma_angle_order(self.anchor, b, c, b);
        lemma_by_key_then_number(
            angle_before(self.anchor, a, b),
            angle_before(self.anchor, b, a),
            angle_before(self.anchor, a, c),
            angle_before(self.anchor, c, a),
            angle_before(self.anchor, b, c),
            angle_before(self.anchor, c, b),
            spec_distance_squared(self.anchor, a),
            spec_distance_squared(self.anchor, b),
            spec_distance_squared(self.anchor, c),
        );
    }
}

/// An order by a key, and by a number where the key does not tell apart, is a strict order in
/// which being told apart by neither is transitive. `ab` says that the key of `a` comes before
/// that of `b`, and so on; `da`, `db` and `dc` are the numbers.
proof fn lemma_by_key_then_number(ab: bool, ba: bool, ac: bool, ca: bool, bc: bool, cb: bool, da: int, db: int, dc: int)
    requires
        !(ab && ba) && !(ac && ca) && !(bc && cb),
        ab && bc ==> ac,
        ac && cb ==> ab,
        ba && ac ==> bc,
        bc && ca ==> ba,
        ca && ab ==> cb,
        cb && ba ==> ca,
        ac ==> ab || bc,
        ab ==> ac || cb,
        bc ==> ba || ac,
        ba ==> bc || ca,
        cb ==> ca || ab,
        ca ==> cb || ba,
    ensures
        (ab || (!ab && !ba && da < db)) && (bc || (!bc && !cb && db < dc)) ==> (ac || (!ac && !ca && da < dc)),
        (ac || (!ac && !ca && da < dc)) ==> (ab || (!ab && !ba && da < db)) || (bc || (!bc && !cb && db < dc)),
{
}

} // verus!
