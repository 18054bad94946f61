//! What the scan promises of the hull: that it encloses the points it was made from.
//!
//! The proof follows the scan. Once it is through the first points of the order, its chain
//! starts at the lowest point, bends left at every corner, and has each of those points on its
//! left.

use crate::angles::{angle_before, beyond, comes_before, lemma_angle_order, same_angle, ByAngle};
use crate::convex_hull::{
    distinct, is_hull_of, is_lowest, lower, lowest, scan_in_order, scanned, settled, three_different, without_repeats,
};
use crate::order::{arranged, is_order, lemma_order_distinct, lemma_order_unique, names, precedes, Comparison};
use crate::point::{spec_axis2_product, spec_distance_squared, Point};
use crate::rays::{
    lemma_along_ray, lemma_angle_turn, lemma_earlier_edge, lemma_farther_up, lemma_flat, lemma_flat_angle,
    lemma_new_edge_after, lemma_new_edge_before, lemma_ray_bends, nearer_on_ray,
};
use crate::squares::{lemma_distance_from, lemma_square_grows, lemma_square_sum};
use crate::turns::lemma_rotate;
use vstd::prelude::*;

verus! {

/// The place of the corner that follows corner `i` of a closed polygon of `corners` corners.
pub open spec fn after(corners: nat, i: int) -> int {
    if i + 1 < corners {
        i + 1
    } else {
        0
    }
}

/// The corner that follows corner `i` is corner `(i + 1) % corners`.
pub proof fn lemma_after(corners: nat, i: int)
    requires
        0 <= i < corners,
    ensures
        after(corners, i) == (i + 1) % (corners as int),
{
    if i + 1 < corners {
        vstd::arithmetic::div_mod::lemma_small_mod((i + 1) as nat, corners);
    } else {
        vstd::arithmetic::div_mod::lemma_mod_self_0(corners as int);
    }
}

/// Whether `hull`, read as a closed polygon, has `p` on its inside or on its border: `p` is
/// nowhere to the right of the way from one corner to the next, the way from the last corner
/// back to the first included.
pub open spec fn encloses(hull: Seq<Point>, p: Point) -> bool {
    forall|i: int|
        0 <= i < hull.len() ==> #[trigger] spec_axis2_product(hull[i], hull[after(hull.len(), i)], p) >= 0
}

/// Whether `hull`, read as a closed polygon, goes round counter-clockwise and is convex: at no
/// corner does the way turn right.
pub open spec fn turns_left(hull: Seq<Point>) -> bool {
    forall|i: int|
        0 <= i < hull.len() ==> #[trigger] spec_axis2_product(
            hull[i],
            hull[after(hull.len(), i)],
            hull[after(hull.len(), after(hull.len(), i))],
        ) >= 0
}

/// Whether `p` comes before `q` in a list that is ordered by angle, the nearer point first
/// among points of one angle.
spec fn ahead(anchor: Point, p: Point, q: Point) -> bool {
    &&& !angle_before(anchor, q, p)
    &&& angle_before(anchor, p, q) || spec_distance_squared(anchor, p) < spec_distance_squared(anchor, q)
}

/// Whether `sorted` starts at `anchor` and goes on by growing angle, and by growing distance
/// where the angle stays.
spec fn rising(anchor: Point, sorted: Seq<Point>) -> bool {
    &&& sorted.len() >= 2
    &&& sorted[0] == anchor
    &&& forall|k: int| 0 <= k < sorted.len() ==> beyond(anchor, #[trigger] sorted[k])
    &&& forall|k: int, l: int|
        0 <= k < l < sorted.len() ==> ahead(anchor, #[trigger] sorted[k], #[trigger] sorted[l])
}

/// Whether `p` is seen under the smallest angle under which any point off the anchor is seen.
spec fn first_ray(anchor: Point, sorted: Seq<Point>, p: Point) -> bool {
    !angle_before(anchor, sorted[1], p)
}

proof fn lemma_rising_pair(a: Point, s: Seq<Point>, k: int, l: int)
    requires
        rising(a, s),
        0 <= k < l < s.len(),
    ensures
        spec_axis2_product(a, s[k], s[l]) >= 0,
        s[l] != a,
        k >= 1 && spec_axis2_product(a, s[k], s[l]) == 0 ==> nearer_on_ray(a, s[k], s[l]),
{
    assert(ahead(a, s[k], s[l]));
    assert(beyond(a, s[k]) && beyond(a, s[l]));
    lemma_angle_turn(a, s[k], s[l]);
    assert(ahead(a, s[0], s[l]));
    if k >= 1 {
        assert(ahead(a, s[0], s[k]));
        if spec_axis2_product(a, s[k], s[l]) == 0 {
            lemma_flat_angle(a, s[k], s[l]);
        }
    }
}

proof fn lemma_first_ray(a: Point, s: Seq<Point>, j: int, l: int)
    requires
        rising(a, s),
        0 <= j <= l < s.len(),
        first_ray(a, s, s[l]),
    ensures
        first_ray(a, s, s[j]),
        j == 0 || j == l || nearer_on_ray(a, s[j], s[l]),
{
    if 1 <= j < l {
        let by = ByAngle { anchor: a };
        assert(beyond(a, s[1]) && beyond(a, s[j]) && beyond(a, s[l]));
        assert(ahead(a, s[j], s[l]));
        lemma_angle_order(a, s[1], s[l], s[j]);
        lemma_angle_order(a, s[j], s[1], s[l]);
        lemma_angle_order(a, s[1], s[1], s[1]);
        if j > 1 {
            assert(ahead(a, s[1], s[j]));
        }
        lemma_rising_pair(a, s, j, l);
        if spec_axis2_product(a, s[j], s[l]) > 0 {
            if s[l].y == a.y {
                reveal(spec_axis2_product);
                let jx = s[j].x - a.x;
                let jy = s[j].y - a.y;
                let lx = s[l].x - a.x;
                let ly = s[l].y - a.y;
                assert(jx * ly == 0) by (nonlinear_arith)
                    requires
                        ly == 0,
                ;
                assert(lx * jy >= 0) by (nonlinear_arith)
                    requires
                        lx >= 0,
                        jy >= 0,
                ;
                assert(false);
            }
            assert(angle_before(a, s[j], s[l]));
            assert(false);
        }
    }
}

/// Whether place `i` of the chain names an earlier point of the list than place `i + 1`.
spec fn climbs(at: Seq<int>, i: int) -> bool {
    at[i] < at[i + 1]
}

/// Whether the chain does not turn right at the point after place `i`.
spec fn bends_left(chain: Seq<Point>, i: int) -> bool {
    spec_axis2_product(chain[i], chain[i + 1], chain[i + 2]) >= 0
}

/// Whether `p` is not right of the way from place `i` of the chain to the next.
spec fn edge_admits(chain: Seq<Point>, i: int, p: Point) -> bool {
    spec_axis2_product(chain[i], chain[i + 1], p) >= 0
}

/// Whether the anchor sees the point after place `i` of the chain under a greater angle than
/// the point at place `i`, or under the smallest angle of all.
spec fn edge_opens(a: Point, s: Seq<Point>, chain: Seq<Point>, i: int) -> bool {
    spec_axis2_product(a, chain[i], chain[i + 1]) > 0 || first_ray(a, s, chain[i + 1])
}

/// What holds of the chain once the first `k` points of `sorted` have been scanned. `at` names
/// the place in `sorted` of each point of the chain.
spec fn chain_ok(a: Point, s: Seq<Point>, k: int, chain: Seq<Point>, at: Seq<int>) -> bool {
    &&& 1 <= k <= s.len()
    &&& chain.len() == at.len()
    &&& chain.len() >= 1
    &&& at[0] == 0
    &&& at[at.len() - 1] == k - 1
    &&& k >= 2 ==> at.len() >= 2 && at[1] == 1
    &&& forall|i: int| 0 <= i < at.len() ==> 0 <= #[trigger] at[i] < k && chain[i] == s[at[i]]
    &&& forall|i: int| 0 <= i && i + 1 < at.len() ==> #[trigger] climbs(at, i)
    &&& forall|i: int| 0 <= i && i + 2 < chain.len() ==> #[trigger] bends_left(chain, i)
    &&& forall|i: int, j: int|
        0 <= i && i + 1 < chain.len() && 0 <= j < k ==> #[trigger] edge_admits(chain, i, s[j])
    &&& forall|i: int| 0 <= i && i + 1 < chain.len() ==> #[trigger] edge_opens(a, s, chain, i)
}

/// What `settled` leaves of a chain.
pub proof fn lemma_settled(chain: Seq<Point>, next: Point)
    ensures
        settled(chain, next).len() <= chain.len(),
        settled(chain, next) == chain.take(settled(chain, next).len() as int),
        chain.len() >= 1 ==> settled(chain, next).len() >= 1,
        settled(chain, next).len() >= 2 ==> spec_axis2_product(
            chain[settled(chain, next).len() - 2],
            chain[settled(chain, next).len() - 1],
            next,
        ) >= 0,
        settled(chain, next).len() < chain.len() ==> settled(chain, next).len() >= 1 && spec_axis2_product(
            chain[settled(chain, next).len() - 1],
            chain[settled(chain, next).len() as int],
            next,
        ) < 0,
    decreases chain.len(),
{
    if chain.len() >= 2 && spec_axis2_product(chain[chain.len() - 2], chain[chain.len() - 1], next) < 0 {
        let rest = chain.drop_last();
        lemma_settled(rest, next);
        let left = settled(rest, next);
        assert(left == settled(chain, next));
        assert(rest.take(left.len() as int) =~= chain.take(left.len() as int));
    } else {
        assert(chain.take(chain.len() as int) =~= chain);
    }
}

/// The next point is not right of any way between two points that stay in the chain.
proof fn lemma_edge_down(a: Point, s: Seq<Point>, k: int, chain: Seq<Point>, at: Seq<int>, r: int, i: int)
    requires
        rising(a, s),
        chain_ok(a, s, k, chain, at),
        k < s.len(),
        1 <= r < chain.len(),
        spec_axis2_product(chain[r - 1], chain[r], s[k]) >= 0,
        0 <= i < r,
    ensures
        spec_axis2_product(chain[i], chain[i + 1], s[k]) >= 0,
    decreases r - i,
{
    if i < r - 1 {
        lemma_edge_down(a, s, k, chain, at, r, i + 1);
        let g = chain[i];
        let m = chain[i + 1];
        let n = chain[i + 2];
        let c = s[k];
        assert(climbs(at, i) && climbs(at, i + 1));
        assert(g == s[at[i]] && m == s[at[i + 1]] && n == s[at[i + 2]]);
        assert(0 <= at[i] && at[i + 2] < k);
        lemma_rising_pair(a, s, at[i], at[i + 1]);
        lemma_rising_pair(a, s, at[i + 1], k);
        assert(bends_left(chain, i));
        assert(edge_opens(a, s, chain, i + 1));
        if spec_axis2_product(a, m, n) > 0 {
            lemma_earlier_edge(a, g, m, n, c);
        } else {
            lemma_first_ray(a, s, at[i + 1], at[i + 2]);
            lemma_first_ray(a, s, at[i], at[i + 1]);
            lemma_along_ray(a, g, m, c);
        }
    }
}

/// No scanned point is right of the way from the end of the settled chain to the next point.
proof fn lemma_new_edge(a: Point, s: Seq<Point>, k: int, chain: Seq<Point>, at: Seq<int>, r: int, j: int)
    requires
        rising(a, s),
        chain_ok(a, s, k, chain, at),
        k < s.len(),
        0 <= r < chain.len(),
        chain.len() >= 2 ==> r >= 1,
        r >= 1 ==> spec_axis2_product(chain[r - 1], chain[r], s[k]) >= 0,
        r + 1 < chain.len() ==> spec_axis2_product(chain[r], chain[r + 1], s[k]) < 0,
        0 <= j < k,
    ensures
        spec_axis2_product(chain[r], s[k], s[j]) >= 0,
{
    let c = s[k];
    let p = s[j];
    let t = chain[r];
    if r == 0 {
        assert(at[0] == 0 && chain[0] == s[at[0]]);
        assert(j == 0);
        lemma_flat(a, c);
    } else {
        let g = chain[r - 1];
        let jr = at[r];
        assert(climbs(at, r - 1));
        assert(t == s[jr] && g == s[at[r - 1]] && 0 <= at[r - 1]);
        lemma_rising_pair(a, s, jr, k);
        if j <= jr {
            if j < jr {
                lemma_rising_pair(a, s, j, jr);
            } else {
                lemma_flat(a, t);
            }
            assert(edge_admits(chain, r - 1, s[j]));
            assert(edge_opens(a, s, chain, r - 1));
            if spec_axis2_product(a, g, t) > 0 {
                lemma_new_edge_before(a, g, t, c, p);
            } else {
                lemma_first_ray(a, s, j, jr);
                lemma_along_ray(a, p, t, c);
                lemma_rotate(p, t, c);
            }
        } else {
            assert(r + 1 < chain.len());
            let n = chain[r + 1];
            assert(climbs(at, r));
            assert(n == s[at[r + 1]] && at[r + 1] < k);
            lemma_rising_pair(a, s, jr, j);
            assert(edge_admits(chain, r, s[j]));
            assert(edge_opens(a, s, chain, r));
            if spec_axis2_product(a, t, n) > 0 {
                lemma_new_edge_after(a, t, n, c, p);
            } else {
                lemma_first_ray(a, s, jr, at[r + 1]);
                lemma_rising_pair(a, s, at[r + 1], k);
                lemma_along_ray(a, t, n, c);
                assert(false);
            }
        }
    }
}

/// The next point is seen under a greater angle than the end of the settled chain, or under
/// the smallest angle of all.
proof fn lemma_new_edge_angle(a: Point, s: Seq<Point>, k: int, chain: Seq<Point>, at: Seq<int>, r: int)
    requires
        rising(a, s),
        chain_ok(a, s, k, chain, at),
        k < s.len(),
        1 <= r < chain.len(),
        spec_axis2_product(chain[r - 1], chain[r], s[k]) >= 0,
    ensures
        spec_axis2_product(a, chain[r], s[k]) > 0 || first_ray(a, s, s[k]),
{
    let c = s[k];
    let t = chain[r];
    let g = chain[r - 1];
    let jr = at[r];
    assert(climbs(at, r - 1));
    assert(t == s[jr] && g == s[at[r - 1]] && 0 <= at[r - 1]);
    lemma_rising_pair(a, s, jr, k);
    if spec_axis2_product(a, t, c) == 0 && !first_ray(a, s, c) {
        assert(beyond(a, s[1]) && beyond(a, t) && beyond(a, c));
        lemma_rising_pair(a, s, 0, jr);
        lemma_flat_angle(a, t, c);
        lemma_angle_order(a, s[1], t, c);
        assert(!first_ray(a, s, t));
        assert(edge_opens(a, s, chain, r - 1));
        lemma_ray_bends(a, g, t, c);
        assert(false);
    }
}

/// Whether the chain, cut behind its point `r`, is what `settled` leaves before point `k` of
/// the list is put at its end.
spec fn step_ready(a: Point, s: Seq<Point>, k: int, chain: Seq<Point>, at: Seq<int>, r: int) -> bool {
    &&& rising(a, s)
    &&& chain_ok(a, s, k, chain, at)
    &&& k < s.len()
    &&& 0 <= r < chain.len()
    &&& chain.len() >= 2 ==> r >= 1
    &&& r >= 1 ==> spec_axis2_product(chain[r - 1], chain[r], s[k]) >= 0
    &&& r + 1 < chain.len() ==> spec_axis2_product(chain[r], chain[r + 1], s[k]) < 0
}

proof fn lemma_step_places(a: Point, s: Seq<Point>, k: int, chain: Seq<Point>, at: Seq<int>, r: int)
    requires
        step_ready(a, s, k, chain, at, r),
    ensures
        forall|i: int|
            0 <= i < r + 2 ==> 0 <= #[trigger] at.take(r + 1).push(k)[i] < k + 1 && chain.take(r + 1).push(s[k])[i]
                == s[at.take(r + 1).push(k)[i]],
        forall|i: int| 0 <= i && i + 1 < r + 2 ==> #[trigger] climbs(at.take(r + 1).push(k), i),
{
    let next = chain.take(r + 1).push(s[k]);
    let next_at = at.take(r + 1).push(k);
    assert forall|i: int| 0 <= i < r + 2 implies 0 <= #[trigger] next_at[i] < k + 1 && next[i] == s[next_at[i]] by {
        if i <= r {
            assert(next_at[i] == at[i] && next[i] == chain[i]);
        }
    }
    assert forall|i: int| 0 <= i && i + 1 < r + 2 implies #[trigger] climbs(next_at, i) by {
        assert(next_at[i] == at[i]);
        if i + 1 <= r {
            assert(next_at[i + 1] == at[i + 1]);
            assert(climbs(at, i));
        }
    }
}

proof fn lemma_step_turns(a: Point, s: Seq<Point>, k: int, chain: Seq<Point>, at: Seq<int>, r: int)
    requires
        step_ready(a, s, k, chain, at, r),
    ensures
        forall|i: int| 0 <= i && i + 2 < r + 2 ==> #[trigger] bends_left(chain.take(r + 1).push(s[k]), i),
{
    let next = chain.take(r + 1).push(s[k]);
    assert forall|i: int| 0 <= i && i + 2 < r + 2 implies #[trigger] bends_left(next, i) by {
        assert(next[i] == chain[i] && next[i + 1] == chain[i + 1]);
        if i + 2 <= r {
            assert(next[i + 2] == chain[i + 2]);
            assert(bends_left(chain, i));
        }
    }
}

proof fn lemma_step_encloses(a: Point, s: Seq<Point>, k: int, chain: Seq<Point>, at: Seq<int>, r: int)
    requires
        step_ready(a, s, k, chain, at, r),
    ensures
        forall|i: int, j: int|
            0 <= i && i + 1 < r + 2 && 0 <= j < k + 1 ==> #[trigger] edge_admits(
                chain.take(r + 1).push(s[k]),
                i,
                s[j],
            ),
{
    let c = s[k];
    let next = chain.take(r + 1).push(c);
    assert forall|i: int, j: int| 0 <= i && i + 1 < r + 2 && 0 <= j < k + 1 implies #[trigger] edge_admits(
        next,
        i,
        s[j],
    ) by {
        assert(next[i] == chain[i]);
        if i + 1 <= r {
            assert(next[i + 1] == chain[i + 1]);
            if j == k {
                lemma_edge_down(a, s, k, chain, at, r, i);
            } else {
                assert(edge_admits(chain, i, s[j]));
            }
        } else {
            assert(next[i + 1] == c);
            if j == k {
                lemma_flat(chain[r], c);
                lemma_rotate(chain[r], c, c);
            } else {
                lemma_new_edge(a, s, k, chain, at, r, j);
            }
        }
    }
}

proof fn lemma_step_angles(a: Point, s: Seq<Point>, k: int, chain: Seq<Point>, at: Seq<int>, r: int)
    requires
        step_ready(a, s, k, chain, at, r),
    ensures
        forall|i: int| 0 <= i && i + 1 < r + 2 ==> #[trigger] edge_opens(a, s, chain.take(r + 1).push(s[k]), i),
{
    let c = s[k];
    let next = chain.take(r + 1).push(c);
    assert forall|i: int| 0 <= i && i + 1 < r + 2 implies #[trigger] edge_opens(a, s, next, i) by {
        assert(next[i] == chain[i]);
        if i + 1 <= r {
            assert(next[i + 1] == chain[i + 1]);
            assert(edge_opens(a, s, chain, i));
        } else if r >= 1 {
            lemma_new_edge_angle(a, s, k, chain, at, r);
        } else {
            assert(at[0] == k - 1);
            assert(beyond(a, s[1]));
            lemma_angle_order(a, s[1], s[1], s[1]);
        }
    }
}

/// Scanning one more point keeps what holds of the chain.
proof fn lemma_scan_step(a: Point, s: Seq<Point>, k: int, chain: Seq<Point>, at: Seq<int>) -> (next_at: Seq<int>)
    requires
        rising(a, s),
        chain_ok(a, s, k, chain, at),
        k < s.len(),
    ensures
        chain_ok(a, s, k + 1, settled(chain, s[k]).push(s[k]), next_at),
{
    let c = s[k];
    let kept = settled(chain, c);
    let r = kept.len() - 1;
    lemma_settled(chain, c);
    assert(kept == chain.take(r + 1));
    if chain.len() >= 2 && r == 0 {
        assert(climbs(at, 0));
        assert(chain[0] == s[at[0]] && chain[1] == s[at[1]] && at[1] < k);
        lemma_rising_pair(a, s, at[1], k);
        assert(false);
    }
    assert(step_ready(a, s, k, chain, at, r));
    lemma_step_places(a, s, k, chain, at, r);
    lemma_step_turns(a, s, k, chain, at, r);
    lemma_step_encloses(a, s, k, chain, at, r);
    lemma_step_angles(a, s, k, chain, at, r);
    let next_at = at.take(r + 1).push(k);
    let next = chain.take(r + 1).push(c);
    assert(next.len() == r + 2 && next_at.len() == r + 2);
    assert(next_at[0] == at[0]);
    assert(next_at[next_at.len() - 1] == k);
    if k >= 2 {
        assert(r >= 1);
        assert(next_at[1] == at[1]);
    } else {
        if at.len() >= 2 {
            assert(climbs(at, 0));
            assert(0 <= at[1] < k);
        }
        assert(r == 0);
        assert(next_at[1] == k);
    }
    next_at
}

/// What holds of the chain that the scan of the first `k` points leaves.
proof fn lemma_scan(a: Point, s: Seq<Point>, k: int) -> (at: Seq<int>)
    requires
        rising(a, s),
        1 <= k <= s.len(),
    ensures
        chain_ok(a, s, k, scanned(s.take(k)), at),
    decreases k,
{
    if k == 1 {
        let one = s.take(1);
        assert(one.drop_last() =~= Seq::<Point>::empty());
        assert(scanned(one.drop_last()) =~= Seq::<Point>::empty());
        assert(settled(Seq::<Point>::empty(), one.last()) =~= Seq::<Point>::empty());
        assert(scanned(one) =~= seq![s[0]]);
        let at = seq![0int];
        assert(chain_ok(a, s, 1, scanned(one), at));
        at
    } else {
        let before = lemma_scan(a, s, k - 1);
        assert(s.take(k).drop_last() =~= s.take(k - 1));
        assert(s.take(k).last() == s[k - 1]);
        lemma_scan_step(a, s, k - 1, scanned(s.take(k - 1)), before)
    }
}


/// A list that is not empty has a lowest point.
pub proof fn lemma_lowest_exists(points: Seq<Point>)
    requires
        points.len() > 0,
    ensures
        is_lowest(points, lowest(points)),
    decreases points.len(),
{
    if points.len() == 1 {
        assert(is_lowest(points, points[0]));
    } else {
        let rest = points.drop_last();
        lemma_lowest_exists(rest);
        let b = lowest(rest);
        let last = points.last();
        let i = choose|i: int| 0 <= i < rest.len() && rest[i] == b;
        assert(points[i] == b);
        let candidate = if lower(last, b) {
            last
        } else {
            b
        };
        assert(points[points.len() - 1] == last);
        assert forall|j: int| 0 <= j < points.len() implies !lower(#[trigger] points[j], candidate) by {
            if j < rest.len() {
                assert(rest[j] == points[j]);
            }
        }
        assert(is_lowest(points, candidate));
    }
}

/// A list of points has one hull.
pub proof fn lemma_hull_unique(points: Seq<Point>, hull: Seq<Point>, other: Seq<Point>)
    requires
        is_hull_of(points, hull),
        is_hull_of(points, other),
    ensures
        hull == other,
{
    if points.len() >= 3 {
        let by = ByAngle { anchor: lowest(points) };
        lemma_lowest_exists(points);
        assert forall|i: int| 0 <= i < points.len() implies by.admits(#[trigger] points[i]) by {
            assert(!lower(points[i], lowest(points)));
        }
        let first = choose|order: Seq<usize>| #[trigger]
            is_order(ByAngle { anchor: lowest(points) }, points, order) && hull == scan_in_order(points, order);
        let second = choose|order: Seq<usize>| #[trigger]
            is_order(ByAngle { anchor: lowest(points) }, points, order) && other == scan_in_order(points, order);
        lemma_order_unique(by, points, first, second);
    }
}

/// Two points that the anchor sees under one angle and at one distance are one point.
proof fn lemma_same_place(a: Point, p: Point, q: Point)
    requires
        beyond(a, p),
        beyond(a, q),
        same_angle(a, p, q),
        spec_distance_squared(a, p) == spec_distance_squared(a, q),
    ensures
        p == q,
{
    let px = p.x - a.x;
    let py = p.y - a.y;
    let qx = q.x - a.x;
    let qy = q.y - a.y;
    lemma_distance_from(a, p);
    lemma_distance_from(a, q);
    if py == 0 {
        assert(qy == 0);
        assert(py * py == 0 && qy * qy == 0) by (nonlinear_arith)
            requires
                py == 0,
                qy == 0,
        ;
        if px < qx {
            lemma_square_grows(px, qx);
        }
        if qx < px {
            lemma_square_grows(qx, px);
        }
    } else {
        assert(py > 0 && qy > 0);
        lemma_rotate(a, p, q);
        assert(px * qy - qx * py == 0) by {
            reveal(spec_axis2_product);
        }
        if py < qy {
            lemma_farther_up(px, py, qx, qy);
        }
        if qy < py {
            lemma_farther_up(qx, qy, px, py);
        }
        assert(px == qx) by (nonlinear_arith)
            requires
                px * qy - qx * py == 0,
                py == qy,
                py > 0,
        ;
    }
}

/// Whether `sorted` holds points around `anchor` in their order, the anchor among them.
spec fn sorted_around(anchor: Point, sorted: Seq<Point>) -> bool {
    &&& sorted.len() >= 1
    &&& is_early(sorted, sorted.len() as int, anchor)
    &&& forall|k: int| 0 <= k < sorted.len() ==> beyond(anchor, #[trigger] sorted[k])
    &&& forall|k: int, l: int|
        0 <= k < l < sorted.len() ==> !comes_before(anchor, #[trigger] sorted[l], #[trigger] sorted[k])
}

/// Whether `p` is one of the first `k` points of `sorted`.
spec fn is_early(sorted: Seq<Point>, k: int, p: Point) -> bool {
    exists|m: int| 0 <= m < k && #[trigger] sorted[m] == p
}

/// Whether no point stands directly behind its like among the first `k` points of `sorted`.
spec fn unrepeated(sorted: Seq<Point>, k: int) -> bool {
    forall|m: int| 0 <= m && m + 1 < k ==> #[trigger] sorted[m] != sorted[m + 1]
}

/// What holds of the first `k` points of a sorted list once the repeated are left out.
spec fn sifted(a: Point, s: Seq<Point>, k: int, u: Seq<Point>) -> bool {
    &&& 1 <= u.len() <= k
    &&& u[0] == s[0]
    &&& u[u.len() - 1] == s[k - 1]
    &&& forall|i: int, j: int| 0 <= i < j < u.len() ==> ahead(a, #[trigger] u[i], #[trigger] u[j])
    &&& forall|m: int| 0 <= m < k ==> u.contains(#[trigger] s[m])
    &&& forall|i: int| 0 <= i < u.len() ==> is_early(s, k, #[trigger] u[i])
    &&& unrepeated(s, k) ==> u == s.take(k)
}

/// The points in their order around the lowest of them are sorted.
proof fn lemma_sorted(points: Seq<Point>, order: Seq<usize>)
    requires
        points.len() >= 1,
        is_order(ByAngle { anchor: lowest(points) }, points, order),
    ensures
        sorted_around(lowest(points), arranged(points, order)),
{
    let a = lowest(points);
    let by = ByAngle { anchor: a };
    let s = arranged(points, order);
    lemma_lowest_exists(points);
    assert forall|k: int| 0 <= k < s.len() implies beyond(a, #[trigger] s[k]) by {
        assert(!lower(points[order[k] as int], a));
    }
    assert forall|k: int, l: int| 0 <= k < l < s.len() implies !comes_before(a, #[trigger] s[l], #[trigger] s[k]) by {
        let i = order[k] as int;
        let j = order[l] as int;
        assert(precedes(by, points, i, j));
        assert(beyond(a, s[k]) && beyond(a, s[l]));
        by.weak_order(points[i], points[j], points[i]);
    }
    let ia = choose|i: int| 0 <= i < points.len() && points[i] == a;
    assert(names(order, ia));
    let ka = choose|k: int| 0 <= k < order.len() && order[k] == ia;
    assert(s[ka] == a);
}

/// Leaving out the repeated points of a sorted list leaves each of its points once, in order.
proof fn lemma_sifted(a: Point, s: Seq<Point>, k: int)
    requires
        sorted_around(a, s),
        1 <= k <= s.len(),
    ensures
        sifted(a, s, k, without_repeats(s.take(k))),
    decreases k,
{
    let now = s.take(k);
    let u = without_repeats(now);
    assert(now.drop_last() =~= s.take(k - 1));
    assert(now.last() == s[k - 1]);
    if k == 1 {
        assert(without_repeats(s.take(0)) =~= Seq::<Point>::empty());
        assert(u =~= seq![s[0]]);
        assert(u =~= s.take(1));
        assert(is_early(s, 1, u[0])) by {
            assert(s[0] == u[0]);
        }
        assert forall|m: int| 0 <= m < k implies u.contains(#[trigger] s[m]) by {
            assert(u[0] == s[m]);
        }
    } else {
        lemma_sifted(a, s, k - 1);
        let before = without_repeats(s.take(k - 1));
        let c = s[k - 1];
        assert(now[now.len() - 2] == s[k - 2]);
        if c == s[k - 2] {
            assert(u == before);
            assert forall|m: int| 0 <= m < k implies u.contains(#[trigger] s[m]) by {
                if m == k - 1 {
                    assert(u.contains(s[k - 2]));
                }
            }
            assert forall|i: int| 0 <= i < u.len() implies is_early(s, k, #[trigger] u[i]) by {
                assert(is_early(s, k - 1, before[i]));
                let m = choose|m: int| 0 <= m < k - 1 && #[trigger] s[m] == before[i];
                assert(s[m] == u[i]);
            }
            assert(!unrepeated(s, k)) by {
                assert(s[k - 2] == s[k - 2 + 1]);
            }
        } else {
            assert(u == before.push(c));
            assert forall|i: int| 0 <= i < u.len() implies is_early(s, k, #[trigger] u[i]) by {
                if i < before.len() {
                    assert(is_early(s, k - 1, before[i]));
                    let m = choose|m: int| 0 <= m < k - 1 && #[trigger] s[m] == before[i];
                    assert(s[m] == u[i]);
                } else {
                    assert(s[k - 1] == u[i]);
                }
            }
            assert forall|m: int| 0 <= m < k implies u.contains(#[trigger] s[m]) by {
                if m < k - 1 {
                    assert(before.contains(s[m]));
                    let i = choose|i: int| 0 <= i < before.len() && before[i] == s[m];
                    assert(u[i] == s[m]);
                } else {
                    assert(u[u.len() - 1] == s[m]);
                }
            }
            assert forall|i: int, j: int| 0 <= i < j < u.len() implies ahead(a, #[trigger] u[i], #[trigger] u[j]) by {
                if j < before.len() {
                    assert(ahead(a, before[i], before[j]));
                } else {
                    let p = before[i];
                    assert(is_early(s, k - 1, p));
                    let m = choose|m: int| 0 <= m < k - 1 && #[trigger] s[m] == p;
                    assert(!comes_before(a, s[k - 1], s[m]));
                    assert(!comes_before(a, s[k - 1], s[k - 2]));
                    assert(beyond(a, s[m]) && beyond(a, s[k - 1]) && beyond(a, s[k - 2]));
                    lemma_angle_order(a, p, c, p);
                    if !comes_before(a, p, c) {
                        lemma_same_place(a, p, c);
                        if i < before.len() - 1 {
                            assert(ahead(a, before[i], before[before.len() - 1]));
                            lemma_angle_order(a, c, s[k - 2], c);
                        }
                        assert(false);
                    }
                }
            }
            if unrepeated(s, k) {
                assert(unrepeated(s, k - 1)) by {
                    assert forall|m: int| 0 <= m && m + 1 < k - 1 implies #[trigger] s[m] != s[m + 1] by {
                        assert(s[m] != s[m + 1]);
                    }
                }
                assert(u =~= s.take(k));
            }
        }
    }
}

/// A sorted list without its repeated points starts at the anchor and is `rising`, where it
/// holds two points or more.
proof fn lemma_rising(a: Point, s: Seq<Point>)
    requires
        sorted_around(a, s),
        without_repeats(s).len() >= 2,
    ensures
        rising(a, without_repeats(s)),
{
    let u = without_repeats(s);
    let n = s.len() as int;
    lemma_sifted(a, s, n);
    assert(s.take(n) =~= s);
    lemma_starts_at_anchor(a, s);
    assert forall|k: int| 0 <= k < u.len() implies beyond(a, #[trigger] u[k]) by {
        assert(is_early(s, n, u[k]));
        let m = choose|m: int| 0 <= m < n && #[trigger] s[m] == u[k];
        assert(beyond(a, s[m]));
    }
}

/// A sorted list starts at the anchor.
proof fn lemma_starts_at_anchor(a: Point, s: Seq<Point>)
    requires
        sorted_around(a, s),
    ensures
        s[0] == a,
{
    let m = choose|m: int| 0 <= m < s.len() && #[trigger] s[m] == a;
    if m > 0 && s[0] != a {
        assert(!comes_before(a, s[m], s[0]));
        assert(beyond(a, s[0]));
        lemma_distance_from(a, s[0]);
        lemma_distance_from(a, a);
        assert(false);
    }
}

/// The hull of fewer than three points encloses them.
proof fn lemma_few_points(points: Seq<Point>)
    requires
        points.len() < 3,
    ensures
        forall|j: int| 0 <= j < points.len() ==> encloses(points, #[trigger] points[j]),
{
    assert forall|j: int| 0 <= j < points.len() implies encloses(points, #[trigger] points[j]) by {
        assert forall|i: int| 0 <= i < points.len() implies #[trigger] spec_axis2_product(
            points[i],
            points[after(points.len(), i)],
            points[j],
        ) >= 0 by {
            let p = points[i];
            let q = points[after(points.len(), i)];
            lemma_flat(p, q);
            lemma_flat(q, p);
            lemma_rotate(p, q, p);
        }
    }
}

/// No point of a rising list lies to the right of the way from one point of the chain to the
/// next, the way back to the anchor included, once the scan is through the list.
proof fn lemma_closed_edge(a: Point, s: Seq<Point>, hull: Seq<Point>, at: Seq<int>, i: int, k: int)
    requires
        rising(a, s),
        chain_ok(a, s, s.len() as int, hull, at),
        0 <= i < hull.len(),
        0 <= k < s.len(),
    ensures
        spec_axis2_product(hull[i], hull[after(hull.len(), i)], s[k]) >= 0,
{
    let n = s.len() as int;
    if i + 1 < hull.len() {
        assert(edge_admits(hull, i, s[k]));
    } else {
        assert(hull[i] == s[at[i]] && at[i] == n - 1);
        assert(hull[0] == s[at[0]]);
        if k < n - 1 {
            lemma_rising_pair(a, s, k, n - 1);
        } else {
            lemma_flat(a, s[k]);
        }
        lemma_rotate(s[n - 1], a, s[k]);
    }
}

/// The chain that the scan leaves of a rising list starts at the anchor, is made of points
/// of the list, and encloses them all.
proof fn lemma_scanned_encloses(a: Point, s: Seq<Point>)
    requires
        rising(a, s),
    ensures
        scanned(s).len() >= 2,
        s.len() >= 3 ==> scanned(s).len() >= 3,
        scanned(s)[0] == a,
        forall|i: int| 0 <= i < scanned(s).len() ==> s.contains(#[trigger] scanned(s)[i]),
        forall|k: int| 0 <= k < s.len() ==> encloses(scanned(s), #[trigger] s[k]),
{
    let n = s.len() as int;
    let hull = scanned(s);
    let at = lemma_scan(a, s, n);
    assert(s.take(n) =~= s);
    assert(chain_ok(a, s, n, hull, at));
    assert(hull.len() >= 2 && hull[0] == a && (n >= 3 ==> hull.len() >= 3)) by {
        assert(hull[0] == s[at[0]]);
        if hull.len() < 2 {
            assert(at[0] == n - 1);
        }
    }
    assert forall|i: int| 0 <= i < hull.len() implies s.contains(#[trigger] hull[i]) by {
        assert(0 <= at[i] < n && hull[i] == s[at[i]]);
    }
    assert forall|k: int| 0 <= k < s.len() implies encloses(hull, #[trigger] s[k]) by {
        assert forall|i: int| 0 <= i < hull.len() implies #[trigger] spec_axis2_product(
            hull[i],
            hull[after(hull.len(), i)],
            s[k],
        ) >= 0 by {
            lemma_closed_edge(a, s, hull, at, i, k);
        }
    }
}

/// What the scan leaves is made of points that were scanned.
proof fn lemma_scanned_subset(s: Seq<Point>)
    ensures
        forall|i: int| 0 <= i < scanned(s).len() ==> s.contains(#[trigger] scanned(s)[i]),
    decreases s.len(),
{
    if s.len() > 0 {
        let rest = s.drop_last();
        lemma_scanned_subset(rest);
        lemma_settled(scanned(rest), s.last());
        let kept = settled(scanned(rest), s.last());
        assert forall|i: int| 0 <= i < scanned(s).len() implies s.contains(#[trigger] scanned(s)[i]) by {
            if i < kept.len() {
                assert(kept[i] == scanned(rest)[i]);
                assert(rest.contains(scanned(rest)[i]));
                let k = choose|k: int| 0 <= k < rest.len() && rest[k] == scanned(rest)[i];
                assert(s[k] == scanned(s)[i]);
            } else {
                assert(s[s.len() - 1] == scanned(s)[i]);
            }
        }
    }
}

/// What holds of the hull of three points or more, said of the points in their order.
proof fn lemma_hull_of_sorted(a: Point, s: Seq<Point>)
    requires
        sorted_around(a, s),
    ensures
        scanned(without_repeats(s)).len() >= 1,
        scanned(without_repeats(s))[0] == a,
        distinct(scanned(without_repeats(s))),
        without_repeats(s).len() >= 3 ==> scanned(without_repeats(s)).len() >= 3,
        without_repeats(s).len() <= 2 ==> scanned(without_repeats(s)) == without_repeats(s),
        unrepeated(s, s.len() as int) ==> without_repeats(s) == s,
        forall|k: int| 0 <= k < s.len() ==> without_repeats(s).contains(#[trigger] s[k]),
        forall|i: int|
            0 <= i < scanned(without_repeats(s)).len() ==> s.contains(#[trigger] scanned(without_repeats(s))[i]),
        forall|k: int| 0 <= k < s.len() ==> encloses(scanned(without_repeats(s)), #[trigger] s[k]),
{
    let n = s.len() as int;
    let u = without_repeats(s);
    let hull = scanned(u);
    lemma_sifted(a, s, n);
    assert(s.take(n) =~= s);
    lemma_starts_at_anchor(a, s);
    if u.len() == 1 {
        assert(u.drop_last() =~= Seq::<Point>::empty());
        assert(scanned(u.drop_last()) =~= Seq::<Point>::empty());
        assert(settled(Seq::<Point>::empty(), u.last()) =~= Seq::<Point>::empty());
        assert(hull =~= seq![a]);
        assert(s.contains(hull[0])) by {
            assert(s[0] == a);
        }
        assert forall|k: int| 0 <= k < s.len() implies encloses(hull, #[trigger] s[k]) by {
            assert(u.contains(s[k]));
            lemma_flat(a, a);
        }
    } else {
        lemma_rising(a, s);
        lemma_scanned_encloses(a, u);
        let at = lemma_scan(a, u, u.len() as int);
        assert(u.take(u.len() as int) =~= u);
        if u.len() == 2 {
            assert(hull.len() == 2 && hull[0] == u[at[0]] && hull[1] == u[at[1]]) by {
                if hull.len() >= 3 {
                    lemma_places_climb(a, u, 2, hull, at, 1, 2);
                    assert(0 <= at[2] < 2);
                }
            }
            assert(hull =~= u);
        }
        assert forall|i: int, j: int| 0 <= i < j < hull.len() implies #[trigger] hull[i] != #[trigger] hull[j] by {
            lemma_places_climb(a, u, u.len() as int, hull, at, i, j);
            assert(hull[i] == u[at[i]] && hull[j] == u[at[j]]);
            assert(ahead(a, u[at[i]], u[at[j]]));
            lemma_angle_order(a, hull[i], hull[i], hull[i]);
            lemma_distance_from(a, hull[i]);
            assert(beyond(a, u[at[i]]));
        }
        assert forall|i: int| 0 <= i < hull.len() implies s.contains(#[trigger] hull[i]) by {
            assert(u.contains(hull[i]));
            let j = choose|j: int| 0 <= j < u.len() && u[j] == hull[i];
            assert(is_early(s, n, u[j]));
            let m = choose|m: int| 0 <= m < n && #[trigger] s[m] == u[j];
            assert(s[m] == hull[i]);
        }
        assert forall|k: int| 0 <= k < s.len() implies encloses(hull, #[trigger] s[k]) by {
            assert(u.contains(s[k]));
            let j = choose|j: int| 0 <= j < u.len() && u[j] == s[k];
            assert(encloses(hull, u[j]));
        }
    }
}

/// The points of different places stay different in their order.
proof fn lemma_arranged_distinct(points: Seq<Point>, order: Seq<usize>)
    requires
        is_order(ByAngle { anchor: lowest(points) }, points, order),
        points.len() >= 1,
        distinct(points),
    ensures
        unrepeated(arranged(points, order), points.len() as int),
{
    let by = ByAngle { anchor: lowest(points) };
    let s = arranged(points, order);
    lemma_lowest_exists(points);
    assert forall|i: int| 0 <= i < points.len() implies by.admits(#[trigger] points[i]) by {
        assert(!lower(points[i], lowest(points)));
    }
    assert forall|m: int| 0 <= m && m + 1 < points.len() implies #[trigger] s[m] != s[m + 1] by {
        lemma_order_distinct(by, points, order, m, m + 1);
        let i = order[m] as int;
        let j = order[m + 1] as int;
        if i < j {
            assert(points[i] != points[j]);
        } else {
            assert(points[j] != points[i]);
        }
    }
}

/// The hull encloses its points: each corner of the hull is a point of the list, and no point
/// of the list lies to the right of the way from one corner to the next, nor of the way from
/// the last corner back to the first. The hull of three points or more starts at the lowest of
/// them and holds no point twice; where the list holds three different points, it has three
/// corners or more.
pub proof fn lemma_hull_encloses(points: Seq<Point>, hull: Seq<Point>)
    requires
        is_hull_of(points, hull),
    ensures
        forall|i: int| 0 <= i < hull.len() ==> points.contains(#[trigger] hull[i]),
        forall|j: int| 0 <= j < points.len() ==> encloses(hull, #[trigger] points[j]),
        points.len() >= 3 ==> hull.len() >= 1 && hull[0] == lowest(points) && distinct(hull),
        three_different(points) ==> hull.len() >= 3,
        points.len() >= 3 && distinct(points) ==> hull.len() >= 3,
{
    if points.len() < 3 {
        lemma_few_points(points);
        if three_different(points) {
            let (i, j, k) = choose|i: int, j: int, k: int|
                0 <= i < points.len() && 0 <= j < points.len() && 0 <= k < points.len() && #[trigger] points[i]
                    != #[trigger] points[j] && points[j] != #[trigger] points[k] && points[i] != points[k];
            assert(false);
        }
    } else {
        let a = lowest(points);
        let order = choose|order: Seq<usize>| #[trigger]
            is_order(ByAngle { anchor: lowest(points) }, points, order) && hull == scan_in_order(points, order);
        let s = arranged(points, order);
        lemma_sorted(points, order);
        lemma_hull_of_sorted(a, s);
        if distinct(points) {
            lemma_arranged_distinct(points, order);
        }
        if three_different(points) && hull.len() < 3 {
            let u = without_repeats(s);
            let (i, j, k) = choose|i: int, j: int, k: int|
                0 <= i < points.len() && 0 <= j < points.len() && 0 <= k < points.len() && #[trigger] points[i]
                    != #[trigger] points[j] && points[j] != #[trigger] points[k] && points[i] != points[k];
            assert(names(order, i) && names(order, j) && names(order, k));
            let ki = choose|m: int| 0 <= m < order.len() && order[m] == i;
            let kj = choose|m: int| 0 <= m < order.len() && order[m] == j;
            let kk = choose|m: int| 0 <= m < order.len() && order[m] == k;
            assert(s[ki] == points[i] && s[kj] == points[j] && s[kk] == points[k]);
            assert(u.contains(s[ki]) && u.contains(s[kj]) && u.contains(s[kk]));
            assert(false);
        }
        assert forall|i: int| 0 <= i < hull.len() implies points.contains(#[trigger] hull[i]) by {
            let k = choose|k: int| 0 <= k < s.len() && s[k] == hull[i];
            assert(s[k] == points[order[k] as int]);
        }
        assert forall|j: int| 0 <= j < points.len() implies encloses(hull, #[trigger] points[j]) by {
            assert(names(order, j));
            let k = choose|k: int| 0 <= k < order.len() && order[k] == j;
            assert(s[k] == points[j]);
        }
    }
}

/// A chain that turns right nowhere is left as it is by the scan.
proof fn lemma_scanned_fixed(s: Seq<Point>)
    requires
        forall|i: int| 0 <= i && i + 2 < s.len() ==> #[trigger] bends_left(s, i),
    ensures
        scanned(s) == s,
    decreases s.len(),
{
    if s.len() == 0 {
        assert(scanned(s) =~= s);
    } else {
        let rest = s.drop_last();
        assert forall|i: int| 0 <= i && i + 2 < rest.len() implies #[trigger] bends_left(rest, i) by {
            assert(bends_left(s, i));
        }
        lemma_scanned_fixed(rest);
        if rest.len() >= 2 {
            assert(bends_left(s, rest.len() - 2));
        }
        assert(settled(rest, s.last()) == rest);
        assert(rest.push(s.last()) =~= s);
    }
}

/// The places that a chain names go up along the chain.
proof fn lemma_places_climb(a: Point, s: Seq<Point>, k: int, chain: Seq<Point>, at: Seq<int>, i: int, j: int)
    requires
        chain_ok(a, s, k, chain, at),
        0 <= i < j < at.len(),
    ensures
        at[i] < at[j],
    decreases j - i,
{
    assert(climbs(at, j - 1));
    if i < j - 1 {
        lemma_places_climb(a, s, k, chain, at, i, j - 1);
    }
}

/// Points in order and all different are left as they are where the repeated are left out.
proof fn lemma_nothing_repeated(s: Seq<Point>)
    requires
        distinct(s),
    ensures
        without_repeats(s) == s,
    decreases s.len(),
{
    if s.len() == 0 {
        assert(without_repeats(s) =~= s);
    } else {
        let rest = s.drop_last();
        assert(distinct(rest)) by {
            assert forall|i: int, j: int| 0 <= i < j < rest.len() implies #[trigger] rest[i] != #[trigger] rest[j] by {
                assert(s[i] != s[j]);
            }
        }
        lemma_nothing_repeated(rest);
        if s.len() >= 2 {
            assert(s[s.len() - 2] != s[s.len() - 1]);
        }
        assert(rest.push(s.last()) =~= s);
    }
}

/// The hull of a hull is that hull.
pub proof fn lemma_hull_idempotent(points: Seq<Point>, hull: Seq<Point>, again: Seq<Point>)
    requires
        is_hull_of(points, hull),
        is_hull_of(hull, again),
    ensures
        again == hull,
{
    if points.len() >= 3 && hull.len() >= 3 {
        let a = lowest(points);
        let order = choose|order: Seq<usize>| #[trigger]
            is_order(ByAngle { anchor: lowest(points) }, points, order) && hull == scan_in_order(points, order);
        let s = arranged(points, order);
        let u = without_repeats(s);
        let n = u.len() as int;
        lemma_sorted(points, order);
        lemma_hull_of_sorted(a, s);
        lemma_scanned_subset(u);
        if u.len() < 2 {
            assert(u.contains(hull[0]) && u.contains(hull[1]) && hull[0] != hull[1]);
            assert(false);
        }
        lemma_rising(a, s);
        let at = lemma_scan(a, u, n);
        assert(u.take(n) =~= u);
        assert(chain_ok(a, u, n, hull, at));
        lemma_lowest_exists(points);
        lemma_hull_encloses(points, hull);
        assert(is_lowest(hull, a)) by {
            assert(hull[0] == a);
            assert forall|i: int| 0 <= i < hull.len() implies !lower(#[trigger] hull[i], a) by {
                assert(points.contains(hull[i]));
                let j = choose|j: int| 0 <= j < points.len() && points[j] == hull[i];
                assert(!lower(points[j], a));
            }
        }
        lemma_lowest_exists(hull);
        let other = lowest(hull);
        assert(other == a) by {
            let j = choose|j: int| 0 <= j < hull.len() && hull[j] == other;
            assert(!lower(hull[0], other) && !lower(hull[j], a));
        }
        let by = ByAngle { anchor: a };
        let chosen = choose|chosen: Seq<usize>| #[trigger]
            is_order(ByAngle { anchor: lowest(hull) }, hull, chosen) && again == scan_in_order(hull, chosen);
        let same = Seq::new(hull.len(), |k: int| k as usize);
        assert forall|i: int| 0 <= i < hull.len() implies #[trigger] same[i] == i by {
            assert(names(chosen, i));
        }
        assert forall|i: int| 0 <= i < hull.len() implies by.admits(#[trigger] hull[i]) by {
            assert(!lower(hull[i], a));
        }
        assert forall|i: int| 0 <= i < hull.len() implies #[trigger] names(same, i) by {
            assert(same[i] == i);
        }
        assert forall|k: int, l: int| 0 <= k < l < same.len() implies precedes(
            by,
            hull,
            #[trigger] same[k] as int,
            #[trigger] same[l] as int,
        ) by {
            assert(same[k] == k && same[l] == l);
            lemma_places_climb(a, u, n, hull, at, k, l);
            assert(hull[k] == u[at[k]] && hull[l] == u[at[l]]);
            assert(ahead(a, u[at[k]], u[at[l]]));
        }
        assert(is_order(by, hull, same));
        lemma_order_unique(by, hull, chosen, same);
        assert(arranged(hull, same) =~= hull);
        lemma_nothing_repeated(hull);
        lemma_scanned_fixed(hull);
    }
}

/// The hull goes round counter-clockwise and is convex: at no corner does the way from one
/// corner over the next to the one after it turn right.
pub proof fn lemma_hull_turns_left(points: Seq<Point>, hull: Seq<Point>)
    requires
        is_hull_of(points, hull),
    ensures
        turns_left(hull),
{
    lemma_hull_encloses(points, hull);
    assert forall|i: int| 0 <= i < hull.len() implies #[trigger] spec_axis2_product(
        hull[i],
        hull[after(hull.len(), i)],
        hull[after(hull.len(), after(hull.len(), i))],
    ) >= 0 by {
        let corner = hull[after(hull.len(), after(hull.len(), i))];
        assert(points.contains(corner));
        let j = choose|j: int| 0 <= j < points.len() && points[j] == corner;
        assert(encloses(hull, points[j]));
        assert(spec_axis2_product(hull[i], hull[after(hull.len(), i)], points[j]) >= 0);
    }
}

} // verus!
