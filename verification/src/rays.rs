//! Points on one ray from an anchor, and turns between points around an anchor.

use crate::angles::{angle_before, beyond};
use crate::point::{spec_axis2_product, spec_distance_squared, Point};
use crate::squares::{lemma_distance_from, lemma_square_grows, lemma_square_of_product};
use crate::turns::{lemma_around, lemma_expand, lemma_rotate, lemma_split};
use vstd::prelude::*;

verus! {

/// Whether `p` and `q` lie on one ray from `anchor`, `p` off the anchor and nearer to it.
pub open spec fn nearer_on_ray(anchor: Point, p: Point, q: Point) -> bool {
    &&& beyond(anchor, p)
    &&& beyond(anchor, q)
    &&& p != anchor
    &&& spec_axis2_product(anchor, p, q) == 0
    &&& spec_distance_squared(anchor, p) < spec_distance_squared(anchor, q)
}

/// On one ray the nearer point has the smaller height, where the ray rises.
proof fn lemma_height_grows(px: int, py: int, qx: int, qy: int)
    requires
        py > 0,
        qy > 0,
        px * qy == qx * py,
        px * px + py * py < qx * qx + qy * qy,
    ensures
        py < qy,
{
    if qy <= py {
        let dp = px * px + py * py;
        let dq = qx * qx + qy * qy;
        lemma_square_of_product(px, qy);
        lemma_square_of_product(qx, py);
        lemma_square_grows(qy, py);
        let pp = py * py;
        let qq = qy * qy;
        assert(pp > 0) by (nonlinear_arith)
            requires
                pp == py * py,
                py > 0,
        ;
        assert(pp * dq == pp * (qx * qx) + pp * (qy * qy)) by (nonlinear_arith)
            requires
                dq == qx * qx + qy * qy,
        ;
        assert(qq * dp == qq * (px * px) + qq * (py * py)) by (nonlinear_arith)
            requires
                dp == px * px + py * py,
        ;
        assert(pp * (qx * qx) == (qx * qx) * pp && qq * (px * px) == (px * px) * qq && pp * qq == qq * pp)
            by (nonlinear_arith);
        assert(pp * dq == qq * dp);
        assert(dp >= 0) by (nonlinear_arith)
            requires
                dp == px * px + py * py,
        ;
        assert(qq * dp <= pp * dp) by (nonlinear_arith)
            requires
                qq <= pp,
                dp >= 0,
        ;
        assert(pp * dp < pp * dq) by (nonlinear_arith)
            requires
                pp > 0,
                dp < dq,
        ;
        assert(false);
    }
}

/// On a ray that rises, the point that lies higher lies farther from where the ray starts.
pub proof fn lemma_farther_up(px: int, py: int, qx: int, qy: int)
    requires
        0 < py < qy,
        px * qy == qx * py,
    ensures
        px * px + py * py < qx * qx + qy * qy,
{
    let dp = px * px + py * py;
    let dq = qx * qx + qy * qy;
    lemma_square_of_product(px, qy);
    lemma_square_of_product(qx, py);
    let pp = py * py;
    let qq = qy * qy;
    assert(0 < pp < qq) by (nonlinear_arith)
        requires
            pp == py * py,
            qq == qy * qy,
            0 < py < qy,
    ;
    assert(pp * dq == pp * (qx * qx) + pp * (qy * qy)) by (nonlinear_arith)
        requires
            dq == qx * qx + qy * qy,
    ;
    assert(qq * dp == qq * (px * px) + qq * (py * py)) by (nonlinear_arith)
        requires
            dp == px * px + py * py,
    ;
    assert(pp * (qx * qx) == (qx * qx) * pp && qq * (px * px) == (px * px) * qq && pp * qq == qq * pp)
        by (nonlinear_arith);
    assert(pp * dq == qq * dp);
    assert(dp > 0) by (nonlinear_arith)
        requires
            dp == px * px + py * py,
            py > 0,
    ;
    assert(dp < dq) by (nonlinear_arith)
        requires
            pp * dq == qq * dp,
            0 < pp < qq,
            dp > 0,
    ;
}

/// Two whole numbers `(m, n)` with `0 < m < n` and `n * (p - anchor) == m * (q - anchor)`.
pub proof fn lemma_ray_ratio(anchor: Point, p: Point, q: Point) -> (ratio: (int, int))
    requires
        nearer_on_ray(anchor, p, q),
    ensures
        0 < ratio.0 < ratio.1,
        ratio.1 * (p.x - anchor.x) == ratio.0 * (q.x - anchor.x),
        ratio.1 * (p.y - anchor.y) == ratio.0 * (q.y - anchor.y),
{
    reveal(spec_axis2_product);
    let px = p.x - anchor.x;
    let py = p.y - anchor.y;
    let qx = q.x - anchor.x;
    let qy = q.y - anchor.y;
    assert(px * qy - qx * py == 0);
    lemma_distance_from(anchor, p);
    lemma_distance_from(anchor, q);
    if py > 0 {
        if qy == 0 {
            assert(px * qy == 0) by (nonlinear_arith)
                requires
                    qy == 0,
            ;
            assert(qx == 0) by (nonlinear_arith)
                requires
                    qx * py == 0,
                    py > 0,
            ;
            assert(qx * qx + qy * qy == 0) by (nonlinear_arith)
                requires
                    qx == 0,
                    qy == 0,
            ;
            assert(px * px + py * py >= 0) by (nonlinear_arith);
            assert(false);
        }
        lemma_height_grows(px, py, qx, qy);
        assert(qy * px == py * qx) by (nonlinear_arith)
            requires
                px * qy - qx * py == 0,
        ;
        assert(qy * py == py * qy) by (nonlinear_arith);
        (py, qy)
    } else {
        assert(py == 0 && px > 0);
        assert(qx * py == 0) by (nonlinear_arith)
            requires
                py == 0,
        ;
        assert(qy == 0) by (nonlinear_arith)
            requires
                px * qy == 0,
                px > 0,
        ;
        assert(py * py == 0 && qy * qy == 0) by (nonlinear_arith)
            requires
                py == 0,
                qy == 0,
        ;
        if qx <= px {
            lemma_square_grows(qx, px);
            assert(false);
        }
        assert(qx * px == px * qx) by (nonlinear_arith);
        assert(qx * py == px * qy) by (nonlinear_arith)
            requires
                py == 0,
                qy == 0,
        ;
        (px, qx)
    }
}

/// What the anchor sees of `x` and a point of a ray grows with the point's distance.
proof fn lemma_scale(anchor: Point, p: Point, q: Point, x: Point, m: int, n: int)
    requires
        n * (p.x - anchor.x) == m * (q.x - anchor.x),
        n * (p.y - anchor.y) == m * (q.y - anchor.y),
    ensures
        n * spec_axis2_product(anchor, x, p) == m * spec_axis2_product(anchor, x, q),
{
    reveal(spec_axis2_product);
    let px = p.x - anchor.x;
    let py = p.y - anchor.y;
    let qx = q.x - anchor.x;
    let qy = q.y - anchor.y;
    let xx = x.x - anchor.x;
    let xy = x.y - anchor.y;
    assert(n * (xx * py - px * xy) == xx * (n * py) - xy * (n * px)) by (nonlinear_arith);
    assert(m * (xx * qy - qx * xy) == xx * (m * qy) - xy * (m * qx)) by (nonlinear_arith);
}

proof fn lemma_fraction(m: int, n: int, near: int, far: int)
    requires
        0 < m < n,
        n * near == m * far,
    ensures
        far >= 0 ==> 0 <= near <= far,
        far <= 0 ==> far <= near <= 0,
        near > 0 ==> near < far,
        near < 0 ==> far < near,
{
    assert(far >= 0 ==> 0 <= near <= far) by (nonlinear_arith)
        requires
            0 < m < n,
            n * near == m * far,
    ;
    assert(far <= 0 ==> far <= near <= 0) by (nonlinear_arith)
        requires
            0 < m < n,
            n * near == m * far,
    ;
    assert(near > 0 ==> near < far) by (nonlinear_arith)
        requires
            0 < m < n,
            n * near == m * far,
    ;
    assert(near < 0 ==> far < near) by (nonlinear_arith)
        requires
            0 < m < n,
            n * near == m * far,
    ;
}

/// The anchor sees no turn between a point and itself, nor from itself to anywhere.
pub proof fn lemma_flat(a: Point, p: Point)
    ensures
        spec_axis2_product(a, a, p) == 0,
        spec_axis2_product(a, p, a) == 0,
        spec_axis2_product(a, p, p) == 0,
        spec_axis2_product(p, a, a) == 0,
{
    lemma_expand(a, a, p);
    lemma_expand(a, p, a);
    lemma_expand(a, p, p);
    lemma_expand(p, a, a);
}

/// From a point `g` of a ray on to a farther point `m` of it, nothing that the anchor sees to
/// the left of the ray lies to the right.
pub proof fn lemma_along_ray(a: Point, g: Point, m: Point, x: Point)
    requires
        g == a || g == m || nearer_on_ray(a, g, m),
        spec_axis2_product(a, m, x) >= 0,
    ensures
        spec_axis2_product(g, m, x) >= 0,
{
    if g == a {
    } else if g == m {
        lemma_flat(x, m);
        lemma_rotate(m, m, x);
    } else {
        let ratio = lemma_ray_ratio(a, g, m);
        lemma_scale(a, g, m, x, ratio.0, ratio.1);
        lemma_fraction(ratio.0, ratio.1, spec_axis2_product(a, x, g), spec_axis2_product(a, x, m));
        lemma_split(a, g, m, x);
        lemma_rotate(a, m, x);
        lemma_rotate(a, x, g);
    }
}

/// Seen from a point `g` that the anchor sees to the right of a ray, the way along the ray
/// from a point `t` to a farther point `c` bends to the right.
pub proof fn lemma_ray_bends(a: Point, g: Point, t: Point, c: Point)
    requires
        nearer_on_ray(a, t, c),
        spec_axis2_product(a, g, t) > 0,
    ensures
        spec_axis2_product(g, t, c) < 0,
{
    let ratio = lemma_ray_ratio(a, t, c);
    lemma_scale(a, t, c, g, ratio.0, ratio.1);
    lemma_fraction(ratio.0, ratio.1, spec_axis2_product(a, g, t), spec_axis2_product(a, g, c));
    lemma_split(a, g, t, c);
    lemma_rotate(a, g, c);
}

/// A point whose angle is not greater than another's is not seen to its left.
pub proof fn lemma_angle_turn(a: Point, p: Point, q: Point)
    requires
        beyond(a, p),
        beyond(a, q),
        !angle_before(a, q, p),
    ensures
        spec_axis2_product(a, p, q) >= 0,
{
    reveal(spec_axis2_product);
    let px = p.x - a.x;
    let py = p.y - a.y;
    let qx = q.x - a.x;
    let qy = q.y - a.y;
    if py == 0 {
        assert(px * qy >= 0) by (nonlinear_arith)
            requires
                px >= 0,
                qy >= 0,
        ;
        assert(qx * py == 0) by (nonlinear_arith)
            requires
                py == 0,
        ;
    } else {
        lemma_rotate(a, q, p);
    }
}

/// Where the anchor sees no turn between two points off it, neither has the smaller angle.
pub proof fn lemma_flat_angle(a: Point, p: Point, q: Point)
    requires
        beyond(a, p),
        beyond(a, q),
        p != a,
        q != a,
        spec_axis2_product(a, p, q) == 0,
    ensures
        !angle_before(a, p, q),
        !angle_before(a, q, p),
{
    reveal(spec_axis2_product);
    let px = p.x - a.x;
    let py = p.y - a.y;
    let qx = q.x - a.x;
    let qy = q.y - a.y;
    lemma_rotate(a, p, q);
    if py == 0 && qy != 0 {
        assert(px * qy > 0) by (nonlinear_arith)
            requires
                px > 0,
                qy > 0,
        ;
        assert(qx * py == 0) by (nonlinear_arith)
            requires
                py == 0,
        ;
    }
    if qy == 0 && py != 0 {
        assert(qx * py > 0) by (nonlinear_arith)
            requires
                qx > 0,
                py > 0,
        ;
        assert(px * qy == 0) by (nonlinear_arith)
            requires
                qy == 0,
        ;
    }
}

proof fn lemma_sign(x: int, y: int, z: int)
    requires
        x * y == z,
        y > 0,
        z >= 0,
    ensures
        x >= 0,
{
    assert(x >= 0) by (nonlinear_arith)
        requires
            x * y == z,
            y > 0,
            z >= 0,
    ;
}

proof fn lemma_signs(p: int, q: int, r: int, s: int)
    requires
        p >= 0,
        q >= 0,
        r >= 0,
        s >= 0,
    ensures
        p * q + r * s >= 0,
{
    assert(p * q + r * s >= 0) by (nonlinear_arith)
        requires
            p >= 0,
            q >= 0,
            r >= 0,
            s >= 0,
    ;
}

/// Four points around `m`: where `c` is not right of the way from `m` to `n`, it is not right
/// of the way from `g` to `m` either, the way from `g` over `m` to `n` bending left around the
/// anchor.
pub proof fn lemma_earlier_edge(a: Point, g: Point, m: Point, n: Point, c: Point)
    requires
        spec_axis2_product(g, m, n) >= 0,
        spec_axis2_product(m, n, c) >= 0,
        spec_axis2_product(a, g, m) >= 0,
        spec_axis2_product(a, m, c) >= 0,
        spec_axis2_product(a, m, n) > 0,
    ensures
        spec_axis2_product(g, m, c) >= 0,
{
    lemma_around(m, c, g, n, a);
    lemma_rotate(g, m, c);
    lemma_rotate(a, m, n);
    lemma_rotate(m, n, c);
    lemma_rotate(a, g, m);
    lemma_rotate(a, m, c);
    lemma_rotate(g, m, n);
    let want = spec_axis2_product(m, c, g);
    let by = spec_axis2_product(m, n, a);
    let t1 = spec_axis2_product(m, c, n);
    let t2 = spec_axis2_product(m, g, a);
    let t3 = spec_axis2_product(m, c, a);
    let t4 = spec_axis2_product(m, g, n);
    assert(want * by == t1 * t2 - t3 * t4);
    assert(t1 * t2 == (-t1) * (-t2) && t3 * t4 == -(t3 * (-t4))) by (nonlinear_arith);
    lemma_signs(-t1, -t2, t3, -t4);
    lemma_sign(want, by, t1 * t2 - t3 * t4);
}

/// Four points around `t`: a point `p` that the anchor sees no later than `t`, and that is not
/// right of the way from `g` to `t`, is not right of the way from `t` on to `c`.
pub proof fn lemma_new_edge_before(a: Point, g: Point, t: Point, c: Point, p: Point)
    requires
        spec_axis2_product(g, t, c) >= 0,
        spec_axis2_product(a, p, t) >= 0,
        spec_axis2_product(a, t, c) >= 0,
        spec_axis2_product(g, t, p) >= 0,
        spec_axis2_product(a, g, t) > 0,
    ensures
        spec_axis2_product(t, c, p) >= 0,
{
    lemma_around(t, c, p, g, a);
    lemma_rotate(a, g, t);
    lemma_rotate(g, t, c);
    lemma_rotate(a, p, t);
    lemma_rotate(a, t, c);
    lemma_rotate(g, t, p);
    let want = spec_axis2_product(t, c, p);
    let by = spec_axis2_product(t, g, a);
    let t1 = spec_axis2_product(t, c, g);
    let t2 = spec_axis2_product(t, p, a);
    let t3 = spec_axis2_product(t, c, a);
    let t4 = spec_axis2_product(t, p, g);
    assert(want * by == t1 * t2 - t3 * t4);
    assert(want * (-by) == -(want * by) && t1 * t2 == -(t1 * (-t2))) by (nonlinear_arith);
    lemma_signs(t1, -t2, t3, t4);
    lemma_sign(want, -by, t1 * (-t2) + t3 * t4);
}

/// Four points around `t`: a point `p` that the anchor sees no earlier than `t`, and that is
/// not right of the way from `t` to `n`, is not right of the way from `t` to a point `c` that
/// lies right of the way to `n`.
pub proof fn lemma_new_edge_after(a: Point, t: Point, n: Point, c: Point, p: Point)
    requires
        spec_axis2_product(t, n, c) < 0,
        spec_axis2_product(a, t, p) >= 0,
        spec_axis2_product(a, t, c) >= 0,
        spec_axis2_product(t, n, p) >= 0,
        spec_axis2_product(a, t, n) > 0,
    ensures
        spec_axis2_product(t, c, p) >= 0,
{
    lemma_around(t, c, p, n, a);
    lemma_rotate(a, t, n);
    lemma_rotate(t, n, c);
    lemma_rotate(a, t, p);
    lemma_rotate(a, t, c);
    lemma_rotate(t, n, p);
    let want = spec_axis2_product(t, c, p);
    let by = spec_axis2_product(t, n, a);
    let t1 = spec_axis2_product(t, c, n);
    let t2 = spec_axis2_product(t, p, a);
    let t3 = spec_axis2_product(t, c, a);
    let t4 = spec_axis2_product(t, p, n);
    assert(want * by == t1 * t2 - t3 * t4);
    assert(t3 * t4 == -(t3 * (-t4))) by (nonlinear_arith);
    lemma_signs(t1, t2, t3, -t4);
    lemma_sign(want, by, t1 * t2 - t3 * t4);
}

} // verus!
