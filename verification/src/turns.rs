//! Identities between the turns that five points make.

use crate::point::{spec_axis2_product, Point};
use vstd::prelude::*;

verus! {

proof fn lemma_swap(x: int, y: int, z: int)
    ensures
        x * (y * z) == y * (x * z),
        x * (y * z) == z * (x * y),
        (x * y) * z == x * (y * z),
{
    assert(x * (y * z) == y * (x * z)) by (nonlinear_arith);
    assert(x * (y * z) == z * (x * y)) by (nonlinear_arith);
    assert((x * y) * z == x * (y * z)) by (nonlinear_arith);
}

proof fn lemma_times_difference(x: int, y: int, z: int)
    ensures
        x * (y - z) == x * y - x * z,
        (y - z) * x == y * x - z * x,
{
    assert(x * (y - z) == x * y - x * z) by (nonlinear_arith);
    assert((y - z) * x == y * x - z * x) by (nonlinear_arith);
}

proof fn lemma_product_times(ax: int, ay: int, bx: int, by: int, k: int)
    ensures
        (ax * by - bx * ay) * k == ax * (by * k) - ay * (bx * k),
{
    lemma_times_difference(k, ax * by, bx * ay);
    lemma_swap(ax, by, k);
    lemma_swap(bx, ay, k);
}

/// `x * (p - q) - y * (r - s) + z * (t - u)` vanishes where its six products cancel in pairs.
proof fn lemma_cancel(x: int, y: int, z: int, cx: int, cy: int, cz: int)
    ensures
        x * (cy * z - cz * y) - y * (cx * z - cz * x) + z * (cx * y - cy * x) == 0,
{
    lemma_times_difference(x, cy * z, cz * y);
    lemma_times_difference(y, cx * z, cz * x);
    lemma_times_difference(z, cx * y, cy * x);
    lemma_swap(x, cy, z);
    lemma_swap(z, cy, x);
    lemma_swap(x, cz, y);
    lemma_swap(y, cz, x);
    lemma_swap(y, cx, z);
    lemma_swap(z, cx, y);
}

proof fn lemma_cancel_crosswise(x: int, y: int, z: int, cx: int, cy: int, cz: int)
    ensures
        x * (cz * y - cy * z) - y * (cz * x - cx * z) + z * (cy * x - cx * y) == 0,
{
    lemma_times_difference(x, cz * y, cy * z);
    lemma_times_difference(y, cz * x, cx * z);
    lemma_times_difference(z, cy * x, cx * y);
    lemma_swap(x, cz, y);
    lemma_swap(y, cz, x);
    lemma_swap(x, cy, z);
    lemma_swap(z, cy, x);
    lemma_swap(y, cx, z);
    lemma_swap(z, cx, y);
}

proof fn lemma_four_products(ax: int, ay: int, bx: int, by: int, cx: int, cy: int, dx: int, dy: int)
    ensures
        (ax * by - bx * ay) * (cx * dy - dx * cy) == (ax * cy - cx * ay) * (bx * dy - dx * by) - (ax * dy
            - dx * ay) * (bx * cy - cx * by),
{
    let cd = cx * dy - dx * cy;
    let bd = bx * dy - dx * by;
    let bc = bx * cy - cx * by;
    let u = by * cd - cy * bd + dy * bc;
    let v = bx * cd - cx * bd + dx * bc;
    lemma_cancel(by, cy, dy, bx, cx, dx);
    lemma_cancel_crosswise(bx, cx, dx, by, cy, dy);
    assert(cx * dy == dy * cx && dx * cy == cy * dx && bx * dy == dy * bx && dx * by == by * dx && bx * cy
        == cy * bx && cx * by == by * cx) by (nonlinear_arith);
    assert(u == 0);
    assert(v == 0);
    lemma_product_times(ax, ay, bx, by, cd);
    lemma_product_times(ax, ay, cx, cy, bd);
    lemma_product_times(ax, ay, dx, dy, bc);
    let ub = by * cd;
    let uc = cy * bd;
    let ud = dy * bc;
    let vb = bx * cd;
    let vc = cx * bd;
    let vd = dx * bc;
    assert(ax * ub - ax * uc + ax * ud == ax * (ub - uc + ud)) by (nonlinear_arith);
    assert(ay * vb - ay * vc + ay * vd == ay * (vb - vc + vd)) by (nonlinear_arith);
    assert(ax * u == 0 && ay * v == 0);
}

/// Seen from `o`: the product of two turns, written with the other two pairings.
pub proof fn lemma_around(o: Point, p: Point, q: Point, r: Point, s: Point)
    ensures
        spec_axis2_product(o, p, q) * spec_axis2_product(o, r, s) == spec_axis2_product(o, p, r)
            * spec_axis2_product(o, q, s) - spec_axis2_product(o, p, s) * spec_axis2_product(o, q, r),
{
    reveal(spec_axis2_product);
    lemma_four_products(
        p.x - o.x,
        p.y - o.y,
        q.x - o.x,
        q.y - o.y,
        r.x - o.x,
        r.y - o.y,
        s.x - o.x,
        s.y - o.y,
    );
}

proof fn lemma_binomial(a: int, b: int, c: int, d: int)
    ensures
        (a - b) * (c - d) == a * c - a * d - b * c + b * d,
{
    assert((a - b) * (c - d) == a * c - a * d - b * c + b * d) by (nonlinear_arith);
}

/// A turn, written out in the coordinates of its points.
pub proof fn lemma_expand(p: Point, q: Point, r: Point)
    ensures
        spec_axis2_product(p, q, r) == p.x * q.y - q.x * p.y + q.x * r.y - r.x * q.y + r.x * p.y - p.x * r.y,
{
    reveal(spec_axis2_product);
    lemma_binomial(q.x as int, p.x as int, r.y as int, p.y as int);
    lemma_binomial(r.x as int, p.x as int, q.y as int, p.y as int);
    assert(q.x * p.y == p.y * q.x && p.x * r.y == r.y * p.x && r.x * p.y == p.y * r.x && p.x * q.y == q.y
        * p.x) by (nonlinear_arith);
}

/// A turn does not change when its three points change places in a circle, and changes its
/// sign when two of them change places.
pub proof fn lemma_rotate(p: Point, q: Point, r: Point)
    ensures
        spec_axis2_product(p, q, r) == spec_axis2_product(q, r, p),
        spec_axis2_product(p, q, r) == spec_axis2_product(r, p, q),
        spec_axis2_product(p, q, r) == -spec_axis2_product(q, p, r),
        spec_axis2_product(p, q, r) == -spec_axis2_product(p, r, q),
        spec_axis2_product(p, q, r) == -spec_axis2_product(r, q, p),
{
    lemma_expand(p, q, r);
    lemma_expand(q, r, p);
    lemma_expand(r, p, q);
    lemma_expand(q, p, r);
    lemma_expand(p, r, q);
    lemma_expand(r, q, p);
}

/// A turn, written with the turns that `a` sees.
pub proof fn lemma_split(a: Point, p: Point, q: Point, r: Point)
    ensures
        spec_axis2_product(p, q, r) == spec_axis2_product(a, p, q) + spec_axis2_product(a, q, r)
            + spec_axis2_product(a, r, p),
{
    lemma_expand(p, q, r);
    lemma_expand(a, p, q);
    lemma_expand(a, q, r);
    lemma_expand(a, r, p);
}

} // verus!
