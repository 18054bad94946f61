//! Small facts on squares and products of whole numbers.

use crate::point::{spec_distance_squared, Point};
use vstd::prelude::*;

verus! {

/// Of two numbers that are not negative, the larger has the larger square.
pub proof fn lemma_square_grows(x: int, y: int)
    requires
        0 <= x <= y,
    ensures
        x * x <= y * y,
        x < y ==> x * x < y * y,
{
    assert(x * x <= y * y) by (nonlinear_arith)
        requires
            0 <= x <= y,
    ;
    assert(x < y ==> x * x < y * y) by (nonlinear_arith)
        requires
            0 <= x <= y,
    ;
}

/// Of two numbers that are not negative, the one with the smaller square is the smaller.
pub proof fn lemma_squares_ordered(a: int, b: int)
    requires
        0 <= a,
        0 <= b,
        a * a < b * b,
    ensures
        a < b,
{
    if a >= b {
        lemma_square_grows(b, a);
    }
}

/// A number between `-w` and `w` has a square no larger than that of `w`.
pub proof fn lemma_square_bound(d: int, w: int)
    requires
        -w <= d <= w,
    ensures
        d * d <= w * w,
{
    assert(d * d <= w * w) by (nonlinear_arith)
        requires
            -w <= d <= w,
    ;
}

/// A sum of two squares is not negative, and is zero for two zeros.
pub proof fn lemma_square_sum(x: int, y: int)
    ensures
        x * x + y * y >= 0,
        x == 0 && y == 0 ==> x * x + y * y == 0,
{
    assert(x * x + y * y >= 0) by (nonlinear_arith);
    assert(x == 0 && y == 0 ==> x * x + y * y == 0) by (nonlinear_arith);
}

/// The square of a product is the product of the squares.
pub proof fn lemma_square_of_product(x: int, y: int)
    ensures
        (x * y) * (x * y) == (x * x) * (y * y),
{
    assert((x * y) * (x * y) == (x * x) * (y * y)) by (nonlinear_arith);
}

/// Times a number that is not negative, the smaller stays the smaller.
pub proof fn lemma_times_ordered(a: int, b: int, c: int)
    requires
        a <= b,
        c >= 0,
    ensures
        a * c <= b * c,
{
    assert(a * c <= b * c) by (nonlinear_arith)
        requires
            a <= b,
            c >= 0,
    ;
}

/// What is smaller times a positive number is smaller.
pub proof fn lemma_times_cancel(a: int, b: int, c: int)
    requires
        a * c < b * c,
        c > 0,
    ensures
        a < b,
{
    assert(a < b) by (nonlinear_arith)
        requires
            a * c < b * c,
            c > 0,
    ;
}

/// The square of a distance, written from the first point to the second.
pub proof fn lemma_distance_from(a: Point, p: Point)
    ensures
        spec_distance_squared(a, p) == (p.x - a.x) * (p.x - a.x) + (p.y - a.y) * (p.y - a.y),
        spec_distance_squared(a, p) == spec_distance_squared(p, a),
        spec_distance_squared(a, p) >= 0,
        p != a ==> spec_distance_squared(a, p) > 0,
{
    let dx = p.x - a.x;
    let dy = p.y - a.y;
    assert((a.x - p.x) * (a.x - p.x) == dx * dx) by (nonlinear_arith)
        requires
            dx == p.x - a.x,
    ;
    assert((a.y - p.y) * (a.y - p.y) == dy * dy) by (nonlinear_arith)
        requires
            dy == p.y - a.y,
    ;
    lemma_square_sum(dx, dy);
    assert(dx != 0 || dy != 0 ==> dx * dx + dy * dy > 0) by (nonlinear_arith);
}

} // verus!
