//! Points put along the border of a hull, so close that no two in a row lie further apart than
//! a given spacing.
//!
//! The points lie between the pixels. Each is written as a fraction: `x` and `y` counted in
//! `parts` of a pixel.

use crate::enclosure::after;
use crate::point::{distance_squared, spec_distance_squared, Length, Point};
use crate::squares::{lemma_distance_from, lemma_squares_ordered, lemma_times_cancel, lemma_times_ordered};
use vstd::prelude::*;

verus! {

/// A place between the pixels: `x / parts` to the right and `y / parts` down.
#[derive(Clone, Copy, Debug, PartialEq, Eq, Structural)]
pub struct Place {
    pub x: i128,
    pub y: i128,
    pub parts: u64,
}

/// Whether a way whose length has the square `square` is cut into `n` pieces no longer than
/// `spacing`, and into no more pieces than that takes.
pub open spec fn is_segments(n: int, square: int, spacing: Length) -> bool {
    &&& n >= 1
    &&& n * n * (spacing.numerator * spacing.numerator) >= square * (spacing.denominator * spacing.denominator)
    &&& n == 1 || (n - 1) * (n - 1) * (spacing.numerator * spacing.numerator) < square * (spacing.denominator
        * spacing.denominator)
}

/// The number of pieces into which the way from `p` to `q` is cut.
pub open spec fn spec_segments(p: Point, q: Point, spacing: Length) -> int {
    choose|n: int| is_segments(n, spec_distance_squared(p, q), spacing)
}

/// The place that lies `j` of `n` pieces along the way from `p` to `q`.
pub open spec fn spec_place(p: Point, q: Point, n: int, j: int) -> Place {
    Place { x: (n * p.x + j * (q.x - p.x)) as i128, y: (n * p.y + j * (q.y - p.y)) as i128, parts: n as u64 }
}

/// The places on the way from `p` to `q`: `p` itself, then the places where the pieces meet.
pub open spec fn edge_places(p: Point, q: Point, spacing: Length) -> Seq<Place> {
    Seq::new(spec_segments(p, q, spacing) as nat, |j: int| spec_place(p, q, spec_segments(p, q, spacing), j))
}

/// The places along the first `k` sides of the hull.
pub open spec fn places_along(hull: Seq<Point>, spacing: Length, k: int) -> Seq<Place>
    decreases k,
{
    if k <= 0 {
        Seq::empty()
    } else {
        places_along(hull, spacing, k - 1) + edge_places(hull[k - 1], hull[after(hull.len(), k - 1)], spacing)
    }
}

/// The places along the hull, once round: each corner, and behind it the places that cut the
/// way to the next corner into pieces no longer than `spacing`; the way from the last corner
/// goes back to the first.
pub open spec fn spec_insert_intermediate_points(hull: Seq<Point>, spacing: Length) -> Seq<Place> {
    places_along(hull, spacing, hull.len() as int)
}

/// Whether `a` and `b` lie no further apart than `spacing`.
#[verifier::opaque]
pub open spec fn is_within(a: Place, b: Place, spacing: Length) -> bool {
    spacing.denominator * spacing.denominator * ((a.x * b.parts - b.x * a.parts) * (a.x * b.parts - b.x * a.parts)
        + (a.y * b.parts - b.y * a.parts) * (a.y * b.parts - b.y * a.parts)) <= spacing.numerator
        * spacing.numerator * ((a.parts * b.parts) * (a.parts * b.parts))
}

/// A way is cut into one number of pieces.
pub proof fn lemma_segments_unique(n: int, m: int, square: int, spacing: Length)
    requires
        spacing.numerator > 0,
        is_segments(n, square, spacing),
        is_segments(m, square, spacing),
    ensures
        n == m,
{
    let u = spacing.numerator * spacing.numerator;
    assert(u > 0) by (nonlinear_arith)
        requires
            u == spacing.numerator * spacing.numerator,
            spacing.numerator > 0,
    ;
    if n < m {
        lemma_times_cancel((m - 1) * (m - 1), n * n, u);
        lemma_squares_ordered(m - 1, n);
    }
    if m < n {
        lemma_times_cancel((n - 1) * (n - 1), m * m, u);
        lemma_squares_ordered(n - 1, m);
    }
}

/// The least number whose square is `v` or more.
fn root_up(v: u128) -> (root: u128)
    requires
        v <= 0x4_0000_0000_0000_0000_0000_0000,
    ensures
        root * root >= v,
        root == 0 || (root - 1) * (root - 1) < v,
        root <= 0x2_0000_0000_0000,
{
    let mut lo: u128 = 0;
    let mut hi: u128 = 0x2_0000_0000_0000;
    assert(0x2_0000_0000_0000 * 0x2_0000_0000_0000 == 0x4_0000_0000_0000_0000_0000_0000int) by (nonlinear_arith);
    while lo < hi
        invariant
            lo <= hi <= 0x2_0000_0000_0000,
            hi * hi >= v,
            lo == 0 || (lo - 1) * (lo - 1) < v,
        decreases hi - lo,
    {
        let mid: u128 = lo + (hi - lo) / 2;
        assert(mid * mid <= 0x2_0000_0000_0000 * 0x2_0000_0000_0000) by (nonlinear_arith)
            requires
                0 <= mid <= 0x2_0000_0000_0000,
        ;
        if mid * mid >= v {
            hi = mid;
        } else {
            lo = mid + 1;
        }
    }
    lo
}

/// Into how many pieces the way from `p` to `q` is cut, so that none is longer than `spacing`.
pub fn segments(p: Point, q: Point, spacing: Length) -> (n: u64)
    requires
        spacing.numerator > 0,
    ensures
        n == spec_segments(p, q, spacing),
        is_segments(n as int, spec_distance_squared(p, q), spacing),
        n <= 0x2_0000_0000_0000,
{
    let square: u128 = distance_squared(p, q) as u128;
    proof {
        let num = spacing.numerator as int;
        let den = spacing.denominator as int;
        assert(0 < num * num <= 0xffff * 0xffff) by (nonlinear_arith)
            requires
                0 < num <= 0xffff,
        ;
        assert(0 <= den * den <= 0xffff * 0xffff) by (nonlinear_arith)
            requires
                0 <= den <= 0xffff,
        ;
    }
    let u: u128 = (spacing.numerator as u128) * (spacing.numerator as u128);
    let d: u128 = (spacing.denominator as u128) * (spacing.denominator as u128);
    proof {
        let dx = p.x - q.x;
        let dy = p.y - q.y;
        assert(0 <= dx * dx <= 0x1_0000_0000_0000_0000 && 0 <= dy * dy <= 0x1_0000_0000_0000_0000)
            by (nonlinear_arith)
            requires
                -0x1_0000_0000 <= dx <= 0x1_0000_0000,
                -0x1_0000_0000 <= dy <= 0x1_0000_0000,
        ;
        assert(0 <= square * d <= 0x2_0000_0000_0000_0000 * (0xffff * 0xffff)) by (nonlinear_arith)
            requires
                0 <= square <= 0x2_0000_0000_0000_0000,
                0 <= d <= 0xffff * 0xffff,
        ;
    }
    let scaled: u128 = square * d;
    let target: u128 = (scaled + (u - 1)) / u;
    proof {
        vstd::arithmetic::div_mod::lemma_fundamental_div_mod(scaled + (u - 1), u as int);
        vstd::arithmetic::div_mod::lemma_mod_bound(scaled + (u - 1), u as int);
        assert(u * target == target * u) by (nonlinear_arith);
        assert(target <= scaled) by (nonlinear_arith)
            requires
                target * u <= scaled + u - 1,
                u >= 1,
                scaled >= 0,
                target >= 0,
        ;
    }
    let root: u128 = root_up(target);
    let n: u128 = if root >= 1 {
        root
    } else {
        1
    };
    proof {
        let nn = n as int;
        let rest = (scaled + (u - 1)) % (u as int);
        assert(target * u == scaled + u - 1 - rest);
        assert(nn * nn >= target) by (nonlinear_arith)
            requires
                root * root >= target,
                nn >= root,
                root >= 0,
        ;
        lemma_times_ordered(target as int, nn * nn, u as int);
        assert(nn * nn * u >= scaled);
        if nn != 1 {
            assert(nn == root);
            lemma_times_ordered((nn - 1) * (nn - 1), target - 1, u as int);
            assert((target - 1) * u == target * u - u) by (nonlinear_arith);
            assert((nn - 1) * (nn - 1) * u < scaled);
        }
        assert(u == spacing.numerator * spacing.numerator);
        assert(scaled == square * (spacing.denominator * spacing.denominator));
        assert(is_segments(nn, square as int, spacing));
        lemma_segments_unique(nn, spec_segments(p, q, spacing), square as int, spacing);
    }
    n as u64
}

/// Goes round the hull and puts places between two corners that lie more than `spacing` apart,
/// evenly, so that no two places in a row lie further apart than that.
pub fn insert_intermediate_points(hull: &Vec<Point>, spacing: Length) -> (places: Vec<Place>)
    requires
        spacing.numerator > 0,
    ensures
        places@ == spec_insert_intermediate_points(hull@, spacing),
{
    let mut places: Vec<Place> = Vec::new();
    let mut i: usize = 0;
    while i < hull.len()
        invariant
            i <= hull.len(),
            spacing.numerator > 0,
            places@ == places_along(hull@, spacing, i as int),
        decreases hull.len() - i,
    {
        let p: Point = hull[i];
        let q: Point = hull[if i + 1 < hull.len() {
            i + 1
        } else {
            0
        }];
        let n: u64 = segments(p, q, spacing);
        let ghost start = places@;
        let dx: i128 = q.x as i128 - p.x as i128;
        let dy: i128 = q.y as i128 - p.y as i128;
        let mut j: u64 = 0;
        while j < n
            invariant
                j <= n,
                1 <= n <= 0x2_0000_0000_0000,
                n == spec_segments(p, q, spacing),
                dx == q.x - p.x,
                dy == q.y - p.y,
                places@ == start + edge_places(p, q, spacing).take(j as int),
            decreases n - j,
        {
            proof {
                lemma_place_fits(n as int, j as int, p.x as int, dx as int);
                lemma_place_fits(n as int, j as int, p.y as int, dy as int);
            }
            let x: i128 = (n as i128) * (p.x as i128) + (j as i128) * dx;
            let y: i128 = (n as i128) * (p.y as i128) + (j as i128) * dy;
            places.push(Place { x, y, parts: n });
            proof {
                let side = edge_places(p, q, spacing);
                assert(side.take(j + 1) =~= side.take(j as int).push(side[j as int]));
                assert(places@ =~= start + side.take(j + 1));
            }
            j += 1;
        }
        proof {
            let side = edge_places(p, q, spacing);
            assert(side.take(n as int) =~= side);
        }
        i += 1;
    }
    places
}

proof fn lemma_place_fits(n: int, j: int, c: int, d: int)
    requires
        0 <= j <= n <= 0x2_0000_0000_0000,
        -0x8000_0000 <= c <= 0x8000_0000,
        -0x1_0000_0000 <= d <= 0x1_0000_0000,
    ensures
        -0x1_0000_0000_0000_0000_0000 <= n * c <= 0x1_0000_0000_0000_0000_0000,
        -0x2_0000_0000_0000_0000_0000 <= j * d <= 0x2_0000_0000_0000_0000_0000,
{
    assert(-0x1_0000_0000_0000_0000_0000 <= n * c <= 0x1_0000_0000_0000_0000_0000) by (nonlinear_arith)
        requires
            0 <= n <= 0x2_0000_0000_0000,
            -0x8000_0000 <= c <= 0x8000_0000,
    ;
    assert(-0x2_0000_0000_0000_0000_0000 <= j * d <= 0x2_0000_0000_0000_0000_0000) by (nonlinear_arith)
        requires
            0 <= j <= 0x2_0000_0000_0000,
            -0x1_0000_0000 <= d <= 0x1_0000_0000,
    ;
}


proof fn lemma_least_segments(k: int, square: int, spacing: Length)
    requires
        k >= 1,
        k * k * (spacing.numerator * spacing.numerator) >= square * (spacing.denominator * spacing.denominator),
    ensures
        exists|n: int| is_segments(n, square, spacing),
    decreases k,
{
    if k == 1 || (k - 1) * (k - 1) * (spacing.numerator * spacing.numerator) < square * (spacing.denominator
        * spacing.denominator) {
        assert(is_segments(k, square, spacing));
    } else {
        lemma_least_segments(k - 1, square, spacing);
    }
}

/// Each way can be cut: the number of its pieces is there, and is less than 2 to the 49th.
pub proof fn lemma_segments(p: Point, q: Point, spacing: Length)
    requires
        spacing.numerator > 0,
    ensures
        is_segments(spec_segments(p, q, spacing), spec_distance_squared(p, q), spacing),
        1 <= spec_segments(p, q, spacing) <= 0x2_0000_0000_0000,
{
    let square = spec_distance_squared(p, q);
    let u = spacing.numerator * spacing.numerator;
    let d = spacing.denominator * spacing.denominator;
    let dx = p.x - q.x;
    let dy = p.y - q.y;
    assert(0 <= dx * dx <= 0x1_0000_0000_0000_0000 && 0 <= dy * dy <= 0x1_0000_0000_0000_0000) by (nonlinear_arith)
        requires
            -0x1_0000_0000 <= dx <= 0x1_0000_0000,
            -0x1_0000_0000 <= dy <= 0x1_0000_0000,
    ;
    assert(1 <= u) by (nonlinear_arith)
        requires
            u == spacing.numerator * spacing.numerator,
            spacing.numerator >= 1,
    ;
    assert(0 <= d <= 0xffff * 0xffff) by (nonlinear_arith)
        requires
            d == spacing.denominator * spacing.denominator,
            0 <= spacing.denominator <= 0xffff,
    ;
    let big = 0x2_0000_0000_0000int;
    assert(big * big == 0x4_0000_0000_0000_0000_0000_0000int) by (nonlinear_arith)
        requires
            big == 0x2_0000_0000_0000int,
    ;
    assert(square * d <= 0x2_0000_0000_0000_0000 * (0xffff * 0xffff)) by (nonlinear_arith)
        requires
            0 <= square <= 0x2_0000_0000_0000_0000,
            0 <= d <= 0xffff * 0xffff,
    ;
    lemma_times_ordered(1, u, big * big);
    lemma_least_segments(big, square, spacing);
    let n = spec_segments(p, q, spacing);
    if n > big {
        lemma_times_ordered(1, u, (n - 1) * (n - 1));
        assert((n - 1) * (n - 1) >= big * big) by (nonlinear_arith)
            requires
                n - 1 >= big,
                big >= 0,
        ;
    }
}

/// Two places lie within the spacing where they differ by one piece of a way, counted in the
/// parts of both.
proof fn lemma_gap(n: int, w: int, dx: int, dy: int, ex: int, ey: int, spacing: Length)
    requires
        n * n * (spacing.numerator * spacing.numerator) >= (dx * dx + dy * dy) * (spacing.denominator
            * spacing.denominator),
        ex == -(w * dx),
        ey == -(w * dy),
    ensures
        spacing.denominator * spacing.denominator * (ex * ex + ey * ey) <= spacing.numerator * spacing.numerator
            * ((n * w) * (n * w)),
{
    let u = spacing.numerator * spacing.numerator;
    let d = spacing.denominator * spacing.denominator;
    let square = dx * dx + dy * dy;
    let ww = w * w;
    assert(ww >= 0) by (nonlinear_arith)
        requires
            ww == w * w,
    ;
    assert(ex * ex == ww * (dx * dx)) by (nonlinear_arith)
        requires
            ex == -(w * dx),
            ww == w * w,
    ;
    assert(ey * ey == ww * (dy * dy)) by (nonlinear_arith)
        requires
            ey == -(w * dy),
            ww == w * w,
    ;
    assert(ex * ex + ey * ey == ww * square) by (nonlinear_arith)
        requires
            ex * ex == ww * (dx * dx),
            ey * ey == ww * (dy * dy),
            square == dx * dx + dy * dy,
    ;
    let left = square * d;
    let right = n * n * u;
    lemma_times_ordered(left, right, ww);
    assert(d * (ww * square) == left * ww) by (nonlinear_arith)
        requires
            left == square * d,
    ;
    assert(u * ((n * w) * (n * w)) == right * ww) by (nonlinear_arith)
        requires
            right == n * n * u,
            ww == w * w,
    ;
}

/// Two places in a row on one way lie within the spacing.
proof fn lemma_same_side(p: Point, q: Point, j: int, spacing: Length)
    requires
        spacing.numerator > 0,
        0 <= j,
        j + 1 < spec_segments(p, q, spacing),
    ensures
        is_within(
            spec_place(p, q, spec_segments(p, q, spacing), j),
            spec_place(p, q, spec_segments(p, q, spacing), j + 1),
            spacing,
        ),
{
    reveal(is_within);
    let n = spec_segments(p, q, spacing);
    lemma_segments(p, q, spacing);
    let dx = q.x - p.x;
    let dy = q.y - p.y;
    lemma_place_fits(n, j, p.x as int, dx);
    lemma_place_fits(n, j, p.y as int, dy);
    lemma_place_fits(n, j + 1, p.x as int, dx);
    lemma_place_fits(n, j + 1, p.y as int, dy);
    let a = spec_place(p, q, n, j);
    let b = spec_place(p, q, n, j + 1);
    assert(a.x * b.parts - b.x * a.parts == -(n * dx)) by (nonlinear_arith)
        requires
            a.x == n * p.x + j * dx,
            b.x == n * p.x + (j + 1) * dx,
            a.parts == n,
            b.parts == n,
    ;
    assert(a.y * b.parts - b.y * a.parts == -(n * dy)) by (nonlinear_arith)
        requires
            a.y == n * p.y + j * dy,
            b.y == n * p.y + (j + 1) * dy,
            a.parts == n,
            b.parts == n,
    ;
    lemma_distance_from(p, q);
    lemma_gap(n, n, dx, dy, a.x * b.parts - b.x * a.parts, a.y * b.parts - b.y * a.parts, spacing);
}

/// The last place on a way lies within the spacing of the corner that the way leads to.
proof fn lemma_next_side(p: Point, q: Point, r: Point, spacing: Length)
    requires
        spacing.numerator > 0,
    ensures
        is_within(
            spec_place(p, q, spec_segments(p, q, spacing), spec_segments(p, q, spacing) - 1),
            spec_place(q, r, spec_segments(q, r, spacing), 0),
            spacing,
        ),
{
    reveal(is_within);
    let n = spec_segments(p, q, spacing);
    let m = spec_segments(q, r, spacing);
    lemma_segments(p, q, spacing);
    lemma_segments(q, r, spacing);
    let dx = q.x - p.x;
    let dy = q.y - p.y;
    lemma_place_fits(n, n - 1, p.x as int, dx);
    lemma_place_fits(n, n - 1, p.y as int, dy);
    lemma_place_fits(m, 0, q.x as int, r.x - q.x);
    lemma_place_fits(m, 0, q.y as int, r.y - q.y);
    let a = spec_place(p, q, n, n - 1);
    let b = spec_place(q, r, m, 0);
    assert(a.x * b.parts - b.x * a.parts == -(m * dx)) by (nonlinear_arith)
        requires
            a.x == n * p.x + (n - 1) * dx,
            b.x == m * q.x + 0 * (r.x - q.x),
            a.parts == n,
            b.parts == m,
            dx == q.x - p.x,
    ;
    assert(a.y * b.parts - b.y * a.parts == -(m * dy)) by (nonlinear_arith)
        requires
            a.y == n * p.y + (n - 1) * dy,
            b.y == m * q.y + 0 * (r.y - q.y),
            a.parts == n,
            b.parts == m,
            dy == q.y - p.y,
    ;
    lemma_distance_from(p, q);
    lemma_gap(n, m, dx, dy, a.x * b.parts - b.x * a.parts, a.y * b.parts - b.y * a.parts, spacing);
}

/// Along the first `e` sides no two places in a row lie further apart than the spacing; the
/// first place is the first corner, and the last is the last place on side `e`.
proof fn lemma_spacing_along(hull: Seq<Point>, spacing: Length, e: int)
    requires
        spacing.numerator > 0,
        1 <= e <= hull.len(),
    ensures
        places_along(hull, spacing, e).len() >= 1,
        places_along(hull, spacing, e)[0] == spec_place(
            hull[0],
            hull[after(hull.len(), 0)],
            spec_segments(hull[0], hull[after(hull.len(), 0)], spacing),
            0,
        ),
        places_along(hull, spacing, e).last() == spec_place(
            hull[e - 1],
            hull[after(hull.len(), e - 1)],
            spec_segments(hull[e - 1], hull[after(hull.len(), e - 1)], spacing),
            spec_segments(hull[e - 1], hull[after(hull.len(), e - 1)], spacing) - 1,
        ),
        forall|k: int|
            0 <= k && k + 1 < places_along(hull, spacing, e).len() ==> is_within(
                #[trigger] places_along(hull, spacing, e)[k],
                places_along(hull, spacing, e)[k + 1],
                spacing,
            ),
    decreases e,
{
    let p = hull[e - 1];
    let q = hull[after(hull.len(), e - 1)];
    let n = spec_segments(p, q, spacing);
    let side = edge_places(p, q, spacing);
    let before = places_along(hull, spacing, e - 1);
    let all = places_along(hull, spacing, e);
    lemma_segments(p, q, spacing);
    assert(all == before + side);
    if e == 1 {
        assert(before =~= Seq::<Place>::empty());
        assert(all =~= side);
    } else {
        lemma_spacing_along(hull, spacing, e - 1);
    }
    assert forall|k: int| 0 <= k && k + 1 < all.len() implies is_within(#[trigger] all[k], all[k + 1], spacing) by {
        if k + 1 < before.len() {
            assert(all[k] == before[k] && all[k + 1] == before[k + 1]);
        } else if k + 1 == before.len() {
            assert(all[k] == before[k] && all[k + 1] == side[0]);
            assert(before[k] == before.last());
            lemma_next_side(hull[e - 2], p, q, spacing);
        } else {
            let j = k - before.len();
            assert(all[k] == side[j] && all[k + 1] == side[j + 1]);
            lemma_same_side(p, q, j, spacing);
        }
    }
    assert(all.last() == side[n - 1]);
    assert(all[0] == if e == 1 {
        side[0]
    } else {
        before[0]
    });
}

/// Densifying keeps the spacing: of the places along a hull, no two in a row lie further apart
/// than the spacing, nor do the last and the first.
pub proof fn lemma_spacing_kept(hull: Seq<Point>, spacing: Length, k: int)
    requires
        spacing.numerator > 0,
        0 <= k < spec_insert_intermediate_points(hull, spacing).len(),
    ensures
        is_within(
            spec_insert_intermediate_points(hull, spacing)[k],
            spec_insert_intermediate_points(hull, spacing)[after(
                spec_insert_intermediate_points(hull, spacing).len(),
                k,
            )],
            spacing,
        ),
{
    let places = spec_insert_intermediate_points(hull, spacing);
    if hull.len() == 0 {
        assert(places =~= Seq::<Place>::empty());
    } else {
        let m = hull.len() as int;
        lemma_spacing_along(hull, spacing, m);
        if k + 1 < places.len() {
            assert(is_within(places[k], places[k + 1], spacing));
        } else {
            assert(places[k] == places.last());
            lemma_next_side(hull[m - 1], hull[0], hull[after(hull.len(), 0)], spacing);
        }
    }
}

/// Densifying keeps the shape: each place lies on a side of the hull, between the corner where
/// the side starts and the corner where it ends, and the corners come in their order.
pub proof fn lemma_places_on_sides(hull: Seq<Point>, spacing: Length, e: int, j: int) -> (k: int)
    requires
        spacing.numerator > 0,
        0 <= e < hull.len(),
        0 <= j < spec_segments(hull[e], hull[after(hull.len(), e)], spacing),
    ensures
        0 <= k < spec_insert_intermediate_points(hull, spacing).len(),
        spec_insert_intermediate_points(hull, spacing)[k] == spec_place(
            hull[e],
            hull[after(hull.len(), e)],
            spec_segments(hull[e], hull[after(hull.len(), e)], spacing),
            j,
        ),
        k == places_along(hull, spacing, e).len() + j,
{
    lemma_places_prefix(hull, spacing, e + 1, hull.len() as int);
    let upto = places_along(hull, spacing, e + 1);
    let side = edge_places(hull[e], hull[after(hull.len(), e)], spacing);
    let k = places_along(hull, spacing, e).len() + j;
    assert(upto[k] == side[j]);
    k
}

proof fn lemma_places_prefix(hull: Seq<Point>, spacing: Length, e: int, m: int)
    requires
        0 <= e <= m,
    ensures
        places_along(hull, spacing, e).len() <= places_along(hull, spacing, m).len(),
        places_along(hull, spacing, e) == places_along(hull, spacing, m).take(
            places_along(hull, spacing, e).len() as int,
        ),
    decreases m - e,
{
    if e == m {
        assert(places_along(hull, spacing, m).take(places_along(hull, spacing, m).len() as int) =~= places_along(
            hull,
            spacing,
            m,
        ));
    } else {
        lemma_places_prefix(hull, spacing, e, m - 1);
        let shorter = places_along(hull, spacing, m - 1);
        let longer = places_along(hull, spacing, m);
        let len = places_along(hull, spacing, e).len() as int;
        assert(longer.take(len) =~= shorter.take(len));
    }
}

} // verus!
