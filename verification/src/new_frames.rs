//! What one frame goes through: the background is taken out, the pixels of the object's colour
//! are picked, those far from their middle are left out, and the rest is hulled.

use crate::color::{accepted_positions, answers, filter, lemma_pixel_at};
use crate::convex_hull::{convex_hull, is_hull_of};
use crate::image::{pixel_at, repainted, Image};
use crate::median::{is_median, median, near, spec_near, xs, ys};
use crate::point::{Length, Point};
use vstd::prelude::*;

verus! {

/// Whether `background` holds, for each pixel, an answer that `is_background` gives for the
/// four channels of that pixel in the earlier frame and in this one.
pub open spec fn background_answers<C, B: Fn((C, C, C, C), (C, C, C, C)) -> bool>(
    is_background: B,
    earlier: Seq<C>,
    pixels: Seq<C>,
    background: Seq<bool>,
) -> bool {
    &&& background.len() * 4 == pixels.len()
    &&& forall|i: int|
        0 <= i < background.len() ==> call_ensures(
            is_background,
            (
                (earlier[4 * i], earlier[4 * i + 1], earlier[4 * i + 2], earlier[4 * i + 3]),
                (pixels[4 * i], pixels[4 * i + 1], pixels[4 * i + 2], pixels[4 * i + 3]),
            ),
            #[trigger] background[i],
        )
}

/// Takes out of the frame what has not changed since an earlier frame: each pixel that
/// `is_background` takes for background, given its channels in `image_before` and in `image`,
/// becomes `black`. Frames of different sizes cannot be compared: the frame is then left as it
/// is and nothing is returned.
pub fn frame_delta<C: Copy, B: Fn((C, C, C, C), (C, C, C, C)) -> bool>(
    image: &mut Image<C>,
    image_before: &Image<C>,
    is_background: B,
    black: [C; 4],
) -> (done: Option<()>)
    requires
        old(image).well_formed(),
        image_before.well_formed(),
        forall|earlier: (C, C, C, C), now: (C, C, C, C)| call_requires(is_background, (earlier, now)),
    ensures
        final(image).dimensions == old(image).dimensions,
        final(image).well_formed(),
        done.is_some() == (old(image).dimensions == image_before.dimensions),
        done.is_none() ==> final(image).pixels@ == old(image).pixels@,
        done.is_some() ==> exists|background: Seq<bool>|
            {
                &&& #[trigger] background_answers(is_background, image_before.pixels@, old(image).pixels@, background)
                &&& final(image).pixels@ == repainted(old(image).pixels@, |i: int| background[i], black@)
            },
{
    if image.dimensions.width != image_before.dimensions.width || image.dimensions.height
        != image_before.dimensions.height {
        return None;
    }
    let ghost before = image.pixels@;
    let ghost earlier = image_before.pixels@;
    let ghost mut background: Seq<bool> = Seq::empty();
    let count: usize = image.pixels.len() / 4;
    let mut i: usize = 0;
    while i < count
        invariant
            image.dimensions == old(image).dimensions,
            image.pixels.len() == before.len(),
            image_before.pixels.len() == before.len(),
            earlier == image_before.pixels@,
            count * 4 == before.len(),
            i <= count,
            forall|earlier: (C, C, C, C), now: (C, C, C, C)| call_requires(is_background, (earlier, now)),
            background.len() == i,
            forall|k: int|
                0 <= k < i ==> call_ensures(
                    is_background,
                    (
                        (earlier[4 * k], earlier[4 * k + 1], earlier[4 * k + 2], earlier[4 * k + 3]),
                        (before[4 * k], before[4 * k + 1], before[4 * k + 2], before[4 * k + 3]),
                    ),
                    #[trigger] background[k],
                ),
            forall|j: int|
                0 <= j < before.len() ==> #[trigger] image.pixels@[j] == if j / 4 < i && background[j / 4] {
                    black@[j % 4]
                } else {
                    before[j]
                },
        decreases count - i,
    {
        let up = (
            image_before.pixels[4 * i],
            image_before.pixels[4 * i + 1],
            image_before.pixels[4 * i + 2],
            image_before.pixels[4 * i + 3],
        );
        let down = (image.pixels[4 * i], image.pixels[4 * i + 1], image.pixels[4 * i + 2], image.pixels[4 * i + 3]);
        let still: bool = is_background(up, down);
        proof {
            background = background.push(still);
        }
        if still {
            image.pixels.set(4 * i, black[0]);
            image.pixels.set(4 * i + 1, black[1]);
            image.pixels.set(4 * i + 2, black[2]);
            image.pixels.set(4 * i + 3, black[3]);
        }
        i += 1;
    }
    proof {
        assert(background_answers(is_background, earlier, before, background));
        assert(image.pixels@ =~= repainted(before, |i: int| background[i], black@));
    }
    Some(())
}

/// Whether `outline` is what is made of the `positions` of an object's pixels: nothing where
/// there is no position; else the hull of the positions that lie nearer to their middle than
/// `size_overestimate`, and nothing where that hull has fewer than three points.
pub open spec fn is_outline_of(positions: Seq<Point>, size_overestimate: Length, outline: Option<Seq<Point>>) -> bool {
    if positions.len() == 0 {
        outline.is_none()
    } else {
        exists|center: Point, hull: Seq<Point>|
            {
                &&& is_median(xs(positions), center.x as int)
                &&& is_median(ys(positions), center.y as int)
                &&& #[trigger] is_hull_of(spec_near(positions, center, size_overestimate), hull)
                &&& outline == if hull.len() >= 3 {
                    Some(hull)
                } else {
                    None
                }
            }
    }
}

/// The outline of the object whose pixels stand at `positions`: their middle is found, the
/// positions that lie `size_overestimate` or more away from it are left out, and the hull of
/// the rest is returned. There is no outline where no position is given or left, or where
/// fewer than three points make the hull.
pub fn outline(positions: &Vec<Point>, size_overestimate: Length) -> (hull: Option<Vec<Point>>)
    ensures
        is_outline_of(
            positions@,
            size_overestimate,
            match hull {
                Some(points) => Some(points@),
                None => None,
            },
        ),
{
    match median(positions) {
        None => None,
        Some(center) => {
            let kept: Vec<Point> = near(positions, center, size_overestimate);
            let hull: Vec<Point> = convex_hull(&kept);
            if hull.len() >= 3 {
                assert(is_hull_of(spec_near(positions@, center, size_overestimate), hull@));
                Some(hull)
            } else {
                assert(is_hull_of(spec_near(positions@, center, size_overestimate), hull@));
                None
            }
        },
    }
}

/// The pixels of a frame once its background is taken out, where it was compared with an
/// earlier frame at all.
pub open spec fn cleared<C>(pixels: Seq<C>, compared: bool, background: Seq<bool>, black: Seq<C>) -> Seq<C> {
    if compared {
        repainted(pixels, |i: int| background[i], black)
    } else {
        pixels
    }
}

/// Whether `pixels_after` and `outline` are what the frame `image` comes to: with an earlier
/// frame given, the background is taken out first, and there is no outline where that frame
/// has another size; then the pixels that `accept` accepts are picked, the others become
/// `black`, and the outline of the picked ones is taken.
pub open spec fn is_new_frame<C, B: Fn((C, C, C, C), (C, C, C, C)) -> bool, A: Fn(C, C, C) -> bool>(
    image: Image<C>,
    earlier: Option<Image<C>>,
    is_background: B,
    accept: A,
    black: Seq<C>,
    size_overestimate: Length,
    pixels_after: Seq<C>,
    outline: Option<Seq<Point>>,
) -> bool {
    if earlier.is_some() && earlier.unwrap().dimensions != image.dimensions {
        pixels_after == image.pixels@ && outline.is_none()
    } else {
        exists|background: Seq<bool>, accepted: Seq<bool>|
            {
                &&& earlier.is_some() ==> background_answers(
                    is_background,
                    earlier.unwrap().pixels@,
                    image.pixels@,
                    background,
                )
                &&& #[trigger] answers(accept, cleared(image.pixels@, earlier.is_some(), background, black), accepted)
                &&& pixels_after == repainted(
                    cleared(image.pixels@, earlier.is_some(), background, black),
                    |i: int| !accepted[i],
                    black,
                )
                &&& is_outline_of(
                    accepted_positions(image.dimensions.width as int, accepted),
                    size_overestimate,
                    outline,
                )
            }
    }
}

/// Measures one frame as far as whole numbers go: takes out the background that it shares
/// with `image_before`, where one is given; picks the pixels that `accept` accepts and makes
/// the others `black`; and returns the outline of the object that the picked pixels show.
pub fn new_frame<C: Copy, B: Fn((C, C, C, C), (C, C, C, C)) -> bool, A: Fn(C, C, C) -> bool>(
    image: &mut Image<C>,
    image_before: Option<&Image<C>>,
    is_background: B,
    accept: A,
    black: [C; 4],
    size_overestimate: Length,
) -> (outline: Option<Vec<Point>>)
    requires
        old(image).well_formed(),
        image_before.is_some() ==> image_before.unwrap().well_formed(),
        forall|earlier: (C, C, C, C), now: (C, C, C, C)| call_requires(is_background, (earlier, now)),
        forall|r: C, g: C, b: C| call_requires(accept, (r, g, b)),
    ensures
        final(image).dimensions == old(image).dimensions,
        final(image).well_formed(),
        is_new_frame(
            *old(image),
            match image_before {
                Some(reference) => Some(*reference),
                None => None,
            },
            is_background,
            accept,
            black@,
            size_overestimate,
            final(image).pixels@,
            match outline {
                Some(points) => Some(points@),
                None => None,
            },
        ),
{
    let ghost start = image.pixels@;
    let ghost mut background: Seq<bool> = Seq::empty();
    match image_before {
        Some(reference) => {
            match frame_delta(image, reference, is_background, black) {
                None => {
                    return None;
                },
                Some(_) => {
                    proof {
                        background = choose|background: Seq<bool>|
                            {
                                &&& #[trigger] background_answers(is_background, reference.pixels@, start, background)
                                &&& image.pixels@ == repainted(start, |i: int| background[i], black@)
                            };
                    }
                },
            }
        },
        None => {},
    }
    let ghost clear = image.pixels@;
    assert(clear == cleared(start, image_before.is_some(), background, black@));
    let positions: Vec<Point> = filter(image, accept, Some(black));
    let hull = outline(&positions, size_overestimate);
    proof {
        let accepted = choose|accepted: Seq<bool>|
            {
                &&& #[trigger] answers(accept, clear, accepted)
                &&& positions@ == accepted_positions(image.dimensions.width as int, accepted)
                &&& image.pixels@ == repainted(clear, |i: int| !accepted[i], black@)
            };
        assert(answers(accept, cleared(start, image_before.is_some(), background, black@), accepted));
        assert(is_outline_of(
            accepted_positions(image.dimensions.width as int, accepted),
            size_overestimate,
            match hull {
                Some(points) => Some(points@),
                None => None,
            },
        ));
    }
    hull
}


/// Whether place `i` is a pixel of a frame of `width` by `height` pixels, and one of `points`.
pub open spec fn is_marked(points: Seq<Point>, width: int, height: int, i: int) -> bool {
    0 <= i < width * height && points.contains(pixel_at(width, i))
}

/// Whether `p` lies in the square around `center` that reaches `reach` pixels to each side.
pub open spec fn in_square(center: Point, reach: int, p: Point) -> bool {
    center.x - reach <= p.x <= center.x + reach && center.y - reach <= p.y <= center.y + reach
}

/// The place `i` of a frame holds the pixel `point` just where `point` is a pixel of the frame
/// and `i` is its place.
pub proof fn lemma_place_of_pixel<C: Copy>(image: &Image<C>, point: Point, i: int)
    requires
        image.well_formed(),
        0 <= i < image.area(),
    ensures
        (pixel_at(image.dimensions.width as int, i) == point) == (image.holds(point) && i == image.place(point)),
{
    let w = image.dimensions.width as int;
    let h = image.dimensions.height as int;
    assert(w > 0) by (nonlinear_arith)
        requires
            0 <= i < w * h,
            0 <= w,
    ;
    vstd::arithmetic::div_mod::lemma_fundamental_div_mod(i, w);
    vstd::arithmetic::div_mod::lemma_div_pos_is_pos(i, w);
    vstd::arithmetic::div_mod::lemma_mod_bound(i, w);
    assert(w * (i / w) == (i / w) * w) by (nonlinear_arith);
    if i / w >= h {
        assert((i / w) * w >= h * w) by (nonlinear_arith)
            requires
                i / w >= h,
                w > 0,
        ;
        assert(h * w == w * h) by (nonlinear_arith);
    }
    if image.holds(point) && i == image.place(point) {
        lemma_pixel_at(w, point.x as int, point.y as int);
    }
}

/// Painting one more pixel adds it to the pixels that are painted.
proof fn lemma_paint_one<C: Copy>(
    image: &Image<C>,
    before: Seq<C>,
    done: spec_fn(int) -> bool,
    with: spec_fn(int) -> bool,
    point: Point,
    color: Seq<C>,
)
    requires
        image.well_formed(),
        before.len() == image.pixels.len(),
        image.pixels@ == repainted(before, done, color),
        forall|i: int|
            0 <= i < image.area() ==> #[trigger] with(i) == (done(i) || pixel_at(
                image.dimensions.width as int,
                i,
            ) == point),
    ensures
        repainted(image.pixels@, |i: int| image.holds(point) && i == image.place(point), color) == repainted(
            before,
            with,
            color,
        ),
{
    let one = |i: int| image.holds(point) && i == image.place(point);
    assert forall|j: int| 0 <= j < before.len() implies repainted(image.pixels@, one, color)[j] == repainted(
        before,
        with,
        color,
    )[j] by {
        lemma_place_of_pixel(image, point, j / 4);
        assert(with(j / 4) == (done(j / 4) || pixel_at(image.dimensions.width as int, j / 4) == point));
    }
    assert(repainted(image.pixels@, one, color) =~= repainted(before, with, color));
}

/// Gives each pixel of the frame that is one of `points` the red, green and blue of `color`.
/// Points outside the frame are passed over.
pub fn paint<C: Copy>(image: &mut Image<C>, points: &Vec<Point>, color: [C; 3])
    requires
        old(image).well_formed(),
    ensures
        final(image).dimensions == old(image).dimensions,
        final(image).well_formed(),
        final(image).pixels@ == repainted(
            old(image).pixels@,
            |i: int|
                is_marked(points@, old(image).dimensions.width as int, old(image).dimensions.height as int, i),
            color@,
        ),
{
    let ghost before = image.pixels@;
    let ghost width = image.dimensions.width as int;
    let ghost height = image.dimensions.height as int;
    let mut k: usize = 0;
    assert(image.pixels@ =~= repainted(before, |i: int| is_marked(points@.take(0), width, height, i), color@));
    while k < points.len()
        invariant
            k <= points.len(),
            image.dimensions == old(image).dimensions,
            width == image.dimensions.width,
            height == image.dimensions.height,
            image.well_formed(),
            before.len() == image.pixels.len(),
            image.pixels@ == repainted(before, |i: int| is_marked(points@.take(k as int), width, height, i), color@),
        decreases points.len() - k,
    {
        let point: Point = points[k];
        proof {
            let done = |i: int| is_marked(points@.take(k as int), width, height, i);
            let with = |i: int| is_marked(points@.take(k + 1), width, height, i);
            assert(points@.take(k + 1) =~= points@.take(k as int).push(point));
            assert forall|i: int| 0 <= i < image.area() implies #[trigger] with(i) == (done(i) || pixel_at(width, i)
                == point) by {
                let q = pixel_at(width, i);
                if points@.take(k as int).contains(q) {
                    let l = choose|l: int| 0 <= l < k && points@.take(k as int)[l] == q;
                    assert(points@.take(k + 1)[l] == q);
                }
                if q == point {
                    assert(points@.take(k + 1)[k as int] == q);
                }
            }
            lemma_paint_one(image, before, done, with, point, color@);
        }
        image.set_pixel(point, color);
        k += 1;
    }
    assert(points@.take(points.len() as int) =~= points@);
}

/// Gives each pixel of the frame that lies in the square around `center` the red, green and
/// blue of `color`. The square reaches `reach` pixels to each side of `center`.
pub fn paint_square<C: Copy>(image: &mut Image<C>, center: Point, reach: u16, color: [C; 3])
    requires
        old(image).well_formed(),
    ensures
        final(image).dimensions == old(image).dimensions,
        final(image).well_formed(),
        final(image).pixels@ == repainted(
            old(image).pixels@,
            |i: int|
                0 <= i < old(image).area() && in_square(
                    center,
                    reach as int,
                    pixel_at(old(image).dimensions.width as int, i),
                ),
            color@,
        ),
{
    let ghost before = image.pixels@;
    let ghost width = image.dimensions.width as int;
    let ghost area = image.area();
    let reach: i64 = reach as i64;
    let mut dy: i64 = -reach;
    assert(image.pixels@ =~= repainted(
        before,
        |i: int| 0 <= i < area && in_rows(center, reach as int, -reach as int, -reach as int, pixel_at(width, i)),
        color@,
    ));
    while dy <= reach
        invariant
            0 <= reach <= u16::MAX,
            -reach <= dy <= reach + 1,
            image.dimensions == old(image).dimensions,
            width == image.dimensions.width,
            area == image.area(),
            image.well_formed(),
            before.len() == image.pixels.len(),
            image.pixels@ == repainted(
                before,
                |i: int| 0 <= i < area && in_rows(center, reach as int, dy as int, -reach as int, pixel_at(width, i)),
                color@,
            ),
        decreases reach + 1 - dy,
    {
        let mut dx: i64 = -reach;
        while dx <= reach
            invariant
                0 <= reach <= u16::MAX,
                -reach <= dy <= reach,
                -reach <= dx <= reach + 1,
                image.dimensions == old(image).dimensions,
                width == image.dimensions.width,
                area == image.area(),
                image.well_formed(),
                before.len() == image.pixels.len(),
                image.pixels@ == repainted(
                    before,
                    |i: int| 0 <= i < area && in_rows(center, reach as int, dy as int, dx as int, pixel_at(width, i)),
                    color@,
                ),
            decreases reach + 1 - dx,
        {
            let x: i64 = center.x as i64 + dx;
            let y: i64 = center.y as i64 + dy;
            if i32::MIN as i64 <= x && x <= i32::MAX as i64 && i32::MIN as i64 <= y && y <= i32::MAX as i64 {
                let point = Point { x: x as i32, y: y as i32 };
                proof {
                    let done = |i: int|
                        0 <= i < area && in_rows(center, reach as int, dy as int, dx as int, pixel_at(width, i));
                    let with = |i: int|
                        0 <= i < area && in_rows(center, reach as int, dy as int, dx + 1, pixel_at(width, i));
                    lemma_paint_one(image, before, done, with, point, color@);
                }
                image.set_pixel(point, color);
            } else {
                assert(image.pixels@ =~= repainted(
                    before,
                    |i: int| 0 <= i < area && in_rows(center, reach as int, dy as int, dx + 1, pixel_at(width, i)),
                    color@,
                ));
            }
            dx += 1;
        }
        assert(image.pixels@ =~= repainted(
            before,
            |i: int| 0 <= i < area && in_rows(center, reach as int, dy + 1, -reach as int, pixel_at(width, i)),
            color@,
        ));
        dy += 1;
    }
    assert(image.pixels@ =~= repainted(
        before,
        |i: int| 0 <= i < area && in_square(center, reach as int, pixel_at(width, i)),
        color@,
    ));
}

/// Whether `p` lies in the part of the square around `center` that comes before the pixel
/// `dx` to the side and `dy` up from `center`, going through the square row after row.
pub open spec fn in_rows(center: Point, reach: int, dy: int, dx: int, p: Point) -> bool {
    &&& center.x - reach <= p.x <= center.x + reach
    &&& center.y - reach <= p.y
    &&& p.y < center.y + dy || (p.y == center.y + dy && p.x < center.x + dx)
}

/// The place, in a list of `n` values in order, of sample `i` out of `samples` that are
/// spread evenly from the smallest value to the largest.
pub open spec fn spec_sample_index(i: int, samples: int, n: int) -> int {
    i * (n - 1) / (samples - 1)
}

/// Where to take sample `i` of `samples` from a list of `n` values in order: the first sample
/// is the smallest value, the last the largest, and the others lie evenly between.
pub fn sample_index(i: usize, samples: usize, n: usize) -> (index: usize)
    requires
        i < samples,
        samples >= 2,
        n >= 1,
    ensures
        index == spec_sample_index(i as int, samples as int, n as int),
        index < n,
        i == 0 ==> index == 0,
        i == samples - 1 ==> index == n - 1,
{
    let last: u128 = (n - 1) as u128;
    let steps: u128 = (samples - 1) as u128;
    assert(0 <= i * last <= steps * last) by (nonlinear_arith)
        requires
            0 <= i <= steps,
            0 <= last,
    ;
    assert(steps * last <= 0xffff_ffff_ffff_ffff * 0xffff_ffff_ffff_ffff) by (nonlinear_arith)
        requires
            0 <= steps <= 0xffff_ffff_ffff_ffff,
            0 <= last <= 0xffff_ffff_ffff_ffff,
    ;
    let index: u128 = (i as u128) * last / steps;
    proof {
        vstd::arithmetic::div_mod::lemma_div_is_ordered(i * last, steps * last, steps as int);
        vstd::arithmetic::div_mod::lemma_div_multiples_vanish(last as int, steps as int);
        assert(steps * last == last * steps) by (nonlinear_arith);
        if i == 0 {
            assert(i * last == 0) by (nonlinear_arith)
                requires
                    i == 0,
            ;
        }
    }
    index as usize
}

} // verus!
