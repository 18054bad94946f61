//! Positions on the pixel grid, and lengths between them.

use vstd::prelude::*;

verus! {

/// A position on the pixel grid: column `x`, row `y`.
#[derive(Clone, Copy, Debug, PartialEq, Eq, Structural)]
pub struct Point {
    pub x: i32,
    pub y: i32,
}

/// A length in pixels, as a fraction. A denominator of zero stands for a length without end.
#[derive(Clone, Copy, Debug, PartialEq, Eq, Structural)]
pub struct Length {
    pub numerator: u16,
    pub denominator: u16,
}

/// Twice the signed area of the triangle `a`, `b`, `c`: positive where `c` lies to the left of
/// the line from `a` to `b`, negative where it lies to the right, zero where the three are in line.
#[verifier::opaque]
pub open spec fn spec_axis2_product(a: Point, b: Point, c: Point) -> int {
    (b.x - a.x) * (c.y - a.y) - (c.x - a.x) * (b.y - a.y)
}

/// The square of the distance between `a` and `b`.
pub open spec fn spec_distance_squared(a: Point, b: Point) -> int {
    (a.x - b.x) * (a.x - b.x) + (a.y - b.y) * (a.y - b.y)
}

/// Which way the way from `a` over `b` to `c` turns: left where the result is positive, right
/// where it is negative.
pub fn axis2_product(a: Point, b: Point, c: Point) -> (product: i128)
    ensures
        product == spec_axis2_product(a, b, c),
{
    proof {
        reveal(spec_axis2_product);
    }
    let bx: i128 = b.x as i128 - a.x as i128;
    let by: i128 = b.y as i128 - a.y as i128;
    let cx: i128 = c.x as i128 - a.x as i128;
    let cy: i128 = c.y as i128 - a.y as i128;
    assert(-0x1_0000_0000_0000_0000 <= bx * cy <= 0x1_0000_0000_0000_0000) by (nonlinear_arith)
        requires
            -0x1_0000_0000 <= bx <= 0x1_0000_0000,
            -0x1_0000_0000 <= cy <= 0x1_0000_0000,
    ;
    assert(-0x1_0000_0000_0000_0000 <= cx * by <= 0x1_0000_0000_0000_0000) by (nonlinear_arith)
        requires
            -0x1_0000_0000 <= cx <= 0x1_0000_0000,
            -0x1_0000_0000 <= by <= 0x1_0000_0000,
    ;
    bx * cy - cx * by
}

/// The square of the distance between `a` and `b`.
pub fn distance_squared(a: Point, b: Point) -> (square: i128)
    ensures
        square == spec_distance_squared(a, b),
{
    let dx: i128 = a.x as i128 - b.x as i128;
    let dy: i128 = a.y as i128 - b.y as i128;
    assert(0 <= dx * dx <= 0x1_0000_0000_0000_0000) by (nonlinear_arith)
        requires
            -0x1_0000_0000 <= dx <= 0x1_0000_0000,
    ;
    assert(0 <= dy * dy <= 0x1_0000_0000_0000_0000) by (nonlinear_arith)
        requires
            -0x1_0000_0000 <= dy <= 0x1_0000_0000,
    ;
    dx * dx + dy * dy
}

} // verus!
