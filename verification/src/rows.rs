//! Positions taken from a frame row after row, and the outline that is made of them.

use crate::color::{accepted_positions, answers, lemma_accept_next};
use crate::convex_hull::{is_hull_of, lower};
use crate::enclosure::{encloses, lemma_hull_encloses, lemma_hull_turns_left, turns_left};
use crate::image::{pixel_at, repainted, Image};
use crate::median::{is_median, is_near, lemma_median_unique, spec_near, xs, ys};
use crate::new_frames::{background_answers, cleared, is_new_frame, is_outline_of, lemma_place_of_pixel};
use crate::point::{Length, Point};
use vstd::prelude::*;

verus! {

/// Whether `points` goes through the grid row after row, and through each row from left to
/// right, and holds no point twice.
pub open spec fn row_after_row(points: Seq<Point>) -> bool {
    forall|i: int, j: int| 0 <= i < j < points.len() ==> lower(#[trigger] points[i], #[trigger] points[j])
}

/// What is picked from a list that goes row after row goes row after row.
pub proof fn lemma_filter_keeps_rows(points: Seq<Point>, pred: spec_fn(Point) -> bool)
    requires
        row_after_row(points),
    ensures
        row_after_row(points.filter(pred)),
        forall|k: int| 0 <= k < points.filter(pred).len() ==> points.contains(#[trigger] points.filter(pred)[k]),
    decreases points.len(),
{
    reveal(Seq::filter);
    if points.len() > 0 {
        let rest = points.drop_last();
        assert forall|i: int, j: int| 0 <= i < j < rest.len() implies lower(#[trigger] rest[i], #[trigger] rest[j]) by {
            assert(rest[i] == points[i] && rest[j] == points[j]);
        }
        lemma_filter_keeps_rows(rest, pred);
        let kept = rest.filter(pred);
        let all = points.filter(pred);
        assert forall|k: int| 0 <= k < all.len() implies points.contains(#[trigger] all[k]) by {
            if k < kept.len() {
                assert(rest.contains(kept[k]));
                let i = choose|i: int| 0 <= i < rest.len() && rest[i] == kept[k];
                assert(points[i] == all[k]);
            } else {
                assert(points[points.len() - 1] == all[k]);
            }
        }
        assert forall|i: int, j: int| 0 <= i < j < all.len() implies lower(#[trigger] all[i], #[trigger] all[j]) by {
            if j < kept.len() {
                assert(lower(kept[i], kept[j]));
            } else {
                assert(rest.contains(kept[i]));
                let l = choose|l: int| 0 <= l < rest.len() && rest[l] == kept[i];
                assert(lower(points[l], points[points.len() - 1]));
            }
        }
    }
}

/// A later place of a frame holds a pixel of a later row, or one further right in the row.
proof fn lemma_places_in_rows(width: int, height: int, i: int, n: int)
    requires
        0 < width <= i32::MAX,
        0 <= height <= i32::MAX,
        0 <= i < n < width * height,
    ensures
        lower(pixel_at(width, i), pixel_at(width, n)),
{
    vstd::arithmetic::div_mod::lemma_fundamental_div_mod(i, width);
    vstd::arithmetic::div_mod::lemma_fundamental_div_mod(n, width);
    vstd::arithmetic::div_mod::lemma_mod_bound(i, width);
    vstd::arithmetic::div_mod::lemma_mod_bound(n, width);
    vstd::arithmetic::div_mod::lemma_div_pos_is_pos(i, width);
    vstd::arithmetic::div_mod::lemma_div_is_ordered(i, n, width);
    let r = n / width;
    if r >= height {
        assert(width * r >= width * height) by (nonlinear_arith)
            requires
                r >= height,
                width > 0,
        ;
    }
}

/// The positions that `filter` returns go row after row, and each is a pixel of the frame.
pub proof fn lemma_positions_in_rows(width: int, height: int, accepted: Seq<bool>)
    requires
        0 <= width <= i32::MAX,
        0 <= height <= i32::MAX,
        accepted.len() == width * height,
    ensures
        row_after_row(accepted_positions(width, accepted)),
        forall|k: int|
            0 <= k < accepted_positions(width, accepted).len() ==> is_early_pixel(
                width,
                width * height,
                #[trigger] accepted_positions(width, accepted)[k],
            ),
{
    lemma_positions_up_to(width, height, accepted, accepted.len() as int);
    assert(accepted.take(accepted.len() as int) =~= accepted);
}

/// Whether `p` is the pixel at one of the first `n` places of a frame.
pub open spec fn is_early_pixel(width: int, n: int, p: Point) -> bool {
    exists|i: int| 0 <= i < n && p == #[trigger] pixel_at(width, i)
}

proof fn lemma_positions_up_to(width: int, height: int, accepted: Seq<bool>, n: int)
    requires
        0 <= width <= i32::MAX,
        0 <= height <= i32::MAX,
        accepted.len() == width * height,
        0 <= n <= accepted.len(),
    ensures
        row_after_row(accepted_positions(width, accepted.take(n))),
        forall|k: int|
            0 <= k < accepted_positions(width, accepted.take(n)).len() ==> is_early_pixel(
                width,
                n,
                #[trigger] accepted_positions(width, accepted.take(n))[k],
            ),
    decreases n,
{
    if n == 0 {
        reveal(Seq::filter);
        assert(accepted.take(0) =~= Seq::<bool>::empty());
        assert(accepted_positions(width, accepted.take(0)) =~= Seq::<Point>::empty());
    } else {
        lemma_positions_up_to(width, height, accepted, n - 1);
        lemma_accept_next(accepted, width, n - 1);
        let before = accepted_positions(width, accepted.take(n - 1));
        let now = accepted_positions(width, accepted.take(n));
        assert(width > 0) by (nonlinear_arith)
            requires
                0 < width * height,
                0 <= width,
        ;
        assert forall|k: int| 0 <= k < now.len() implies is_early_pixel(width, n, #[trigger] now[k]) by {
            if k < before.len() {
                assert(is_early_pixel(width, n - 1, before[k]));
                let i = choose|i: int| 0 <= i < n - 1 && before[k] == #[trigger] pixel_at(width, i);
                assert(now[k] == pixel_at(width, i));
            } else {
                assert(now[k] == pixel_at(width, n - 1));
            }
        }
        assert forall|i: int, j: int| 0 <= i < j < now.len() implies lower(#[trigger] now[i], #[trigger] now[j]) by {
            if j < before.len() {
                assert(lower(before[i], before[j]));
            } else {
                assert(is_early_pixel(width, n - 1, before[i]));
                let l = choose|l: int| 0 <= l < n - 1 && before[i] == #[trigger] pixel_at(width, l);
                lemma_places_in_rows(width, height, l, n - 1);
                assert(now[j] == pixel_at(width, n - 1));
            }
        }
    }
}

/// The outline of positions that go row after row encloses the object: it is made of
/// positions that were given, turns left at every corner, and has on its inside or on its
/// border each position that lies nearer to the middle than `size_overestimate`.
pub proof fn lemma_outline_encloses(positions: Seq<Point>, size_overestimate: Length, center: Point, hull: Seq<Point>)
    requires
        row_after_row(positions),
        is_outline_of(positions, size_overestimate, Some(hull)),
        is_median(xs(positions), center.x as int),
        is_median(ys(positions), center.y as int),
    ensures
        hull.len() >= 3,
        turns_left(hull),
        forall|i: int|
            0 <= i < hull.len() ==> positions.contains(#[trigger] hull[i]) && is_near(
                center,
                size_overestimate,
                hull[i],
            ),
        forall|j: int|
            0 <= j < positions.len() && is_near(center, size_overestimate, #[trigger] positions[j]) ==> encloses(
                hull,
                positions[j],
            ),
{
    if positions.len() == 0 {
        assert(false);
    }
    let found = choose|middle: Point, corners: Seq<Point>|
        {
            &&& is_median(xs(positions), middle.x as int)
            &&& is_median(ys(positions), middle.y as int)
            &&& #[trigger] is_hull_of(spec_near(positions, middle, size_overestimate), corners)
            &&& Some(hull) == if corners.len() >= 3 {
                Some(corners)
            } else {
                None
            }
        };
    lemma_median_unique(xs(positions), center.x as int, found.0.x as int);
    lemma_median_unique(ys(positions), center.y as int, found.0.y as int);
    assert(found.0 == center);
    assert(found.1 == hull);
    let pred = |p: Point| is_near(center, size_overestimate, p);
    let kept = spec_near(positions, center, size_overestimate);
    lemma_filter_keeps_rows(positions, pred);
    lemma_hull_encloses(kept, hull);
    lemma_hull_turns_left(kept, hull);
    assert forall|i: int| 0 <= i < hull.len() implies positions.contains(#[trigger] hull[i]) && is_near(
        center,
        size_overestimate,
        hull[i],
    ) by {
        assert(kept.contains(hull[i]));
        let k = choose|k: int| 0 <= k < kept.len() && kept[k] == hull[i];
        positions.lemma_filter_pred(pred, k);
    }
    assert forall|j: int|
        0 <= j < positions.len() && is_near(center, size_overestimate, #[trigger] positions[j]) implies encloses(
        hull,
        positions[j],
    ) by {
        positions.lemma_filter_contains(pred, j);
        let k = choose|k: int| 0 <= k < kept.len() && kept[k] == positions[j];
        assert(encloses(hull, kept[k]));
    }
}


/// The outline that a frame comes to is a convex polygon, counter-clockwise, of three pixels
/// of the frame or more; and it encloses what was picked: there are answers of `accept` to the
/// pixels of the frame such that every pixel that was accepted, and that lies nearer to
/// `center`, the middle of the accepted pixels, than `size_overestimate`, is inside the
/// outline or on its border.
pub proof fn lemma_new_frame_encloses<C: Copy, B: Fn((C, C, C, C), (C, C, C, C)) -> bool, A: Fn(C, C, C) -> bool>(
    image: Image<C>,
    earlier: Option<Image<C>>,
    is_background: B,
    accept: A,
    black: Seq<C>,
    size_overestimate: Length,
    pixels_after: Seq<C>,
    hull: Seq<Point>,
) -> (picked: (Seq<bool>, Point))
    requires
        image.well_formed(),
        is_new_frame(image, earlier, is_background, accept, black, size_overestimate, pixels_after, Some(hull)),
    ensures
        hull.len() >= 3,
        turns_left(hull),
        forall|i: int| 0 <= i < hull.len() ==> image.holds(#[trigger] hull[i]),
        picked.0.len() == image.area(),
        is_median(xs(accepted_positions(image.dimensions.width as int, picked.0)), picked.1.x as int),
        is_median(ys(accepted_positions(image.dimensions.width as int, picked.0)), picked.1.y as int),
        forall|k: int|
            0 <= k < image.area() && picked.0[k] && is_near(
                picked.1,
                size_overestimate,
                #[trigger] pixel_at(image.dimensions.width as int, k),
            ) ==> encloses(hull, pixel_at(image.dimensions.width as int, k)),
{
    let width = image.dimensions.width as int;
    let height = image.dimensions.height as int;
    let found = choose|background: Seq<bool>, accepted: Seq<bool>|
        {
            &&& earlier.is_some() ==> background_answers(
                is_background,
                earlier.unwrap().pixels@,
                image.pixels@,
                background,
            )
            &&& #[trigger] answers(accept, cleared(image.pixels@, earlier.is_some(), background, black), accepted)
            &&& pixels_after == repainted(
                cleared(image.pixels@, earlier.is_some(), background, black),
                |i: int| !accepted[i],
                black,
            )
            &&& is_outline_of(accepted_positions(image.dimensions.width as int, accepted), size_overestimate, Some(hull))
        };
    let accepted = found.1;
    let positions = accepted_positions(width, accepted);
    assert(accepted.len() == width * height);
    lemma_positions_in_rows(width, height, accepted);
    assert(positions.len() > 0);
    let middle = choose|center: Point, corners: Seq<Point>|
        {
            &&& is_median(xs(positions), center.x as int)
            &&& is_median(ys(positions), center.y as int)
            &&& #[trigger] is_hull_of(spec_near(positions, center, size_overestimate), corners)
            &&& Some(hull) == if corners.len() >= 3 {
                Some(corners)
            } else {
                None
            }
        };
    let center = middle.0;
    lemma_outline_encloses(positions, size_overestimate, center, hull);
    assert forall|i: int| 0 <= i < hull.len() implies image.holds(#[trigger] hull[i]) by {
        assert(positions.contains(hull[i]));
        let k = choose|k: int| 0 <= k < positions.len() && positions[k] == hull[i];
        assert(is_early_pixel(width, width * height, positions[k]));
        let l = choose|l: int| 0 <= l < width * height && positions[k] == #[trigger] pixel_at(width, l);
        lemma_place_of_pixel(&image, hull[i], l);
    }
    assert forall|k: int|
        0 <= k < image.area() && accepted[k] && is_near(center, size_overestimate, #[trigger] pixel_at(width, k))
        implies encloses(hull, pixel_at(width, k)) by {
        lemma_accepted_is_position(width, accepted, k);
        let j = choose|j: int| 0 <= j < positions.len() && positions[j] == pixel_at(width, k);
        assert(encloses(hull, positions[j]));
    }
    (accepted, center)
}

/// A pixel that was accepted is one of the positions.
proof fn lemma_accepted_is_position(width: int, accepted: Seq<bool>, k: int)
    requires
        0 <= k < accepted.len(),
        accepted[k],
    ensures
        accepted_positions(width, accepted).contains(pixel_at(width, k)),
{
    let places = Seq::new(accepted.len(), |i: int| i);
    let kept = places.filter(|i: int| accepted[i]);
    assert(places[k] == k);
    places.lemma_filter_contains(|i: int| accepted[i], k);
    let j = choose|j: int| 0 <= j < kept.len() && kept[j] == k;
    assert(accepted_positions(width, accepted)[j] == pixel_at(width, k));
}

} // verus!
