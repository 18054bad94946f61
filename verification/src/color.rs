//! Picking the pixels of a frame by their colour.

use crate::image::{pixel_at, repainted, Image};
use crate::order::lemma_filter_same;
use crate::point::Point;
use vstd::prelude::*;

verus! {

/// The places from 0 up to `accepted.len()` that `accepted` holds true for.
pub open spec fn accepted_places(accepted: Seq<bool>) -> Seq<int> {
    Seq::new(accepted.len(), |i: int| i).filter(|i: int| accepted[i])
}

/// The pixels of a frame that is `width` wide for which `accepted` holds true, row after row.
pub open spec fn accepted_positions(width: int, accepted: Seq<bool>) -> Seq<Point> {
    accepted_places(accepted).map_values(|i: int| pixel_at(width, i))
}

/// Whether `accepted` holds, for each pixel of `pixels`, an answer that `accept` gives for
/// its red, green and blue.
pub open spec fn answers<C, F: Fn(C, C, C) -> bool>(accept: F, pixels: Seq<C>, accepted: Seq<bool>) -> bool {
    &&& accepted.len() * 4 == pixels.len()
    &&& forall|i: int|
        0 <= i < accepted.len() ==> call_ensures(
            accept,
            (pixels[4 * i], pixels[4 * i + 1], pixels[4 * i + 2]),
            #[trigger] accepted[i],
        )
}

/// The positions up to a place, and what the answer for the next place adds to them.
pub proof fn lemma_accept_next(accepted: Seq<bool>, width: int, n: int)
    requires
        0 <= n < accepted.len(),
    ensures
        accepted_positions(width, accepted.take(n + 1)) == if accepted[n] {
            accepted_positions(width, accepted.take(n)).push(pixel_at(width, n))
        } else {
            accepted_positions(width, accepted.take(n))
        },
{
    let before = accepted.take(n);
    let after = accepted.take(n + 1);
    let places = Seq::new(before.len(), |i: int| i);
    assert(Seq::new(after.len(), |i: int| i) =~= places.push(n));
    places.lemma_filter_push(n, |i: int| after[i]);
    assert(places.filter(|i: int| after[i]) == places.filter(|i: int| before[i])) by {
        lemma_filter_same(places, |i: int| after[i], |i: int| before[i]);
    }
    let f = |i: int| pixel_at(width, i);
    if accepted[n] {
        assert(accepted_places(before).push(n).map_values(f) =~= accepted_places(before).map_values(f).push(
            pixel_at(width, n),
        ));
    }
}

/// Goes through the pixels of the frame row after row, asks `accept` about the red, green and
/// blue of each, and returns the positions of those that it accepts. Where `rejected` holds a
/// colour, each pixel that `accept` turns down gets that colour.
pub fn filter<C: Copy, F: Fn(C, C, C) -> bool>(image: &mut Image<C>, accept: F, rejected: Option<[C; 4]>) -> (positions:
    Vec<Point>)
    requires
        old(image).well_formed(),
        forall|r: C, g: C, b: C| call_requires(accept, (r, g, b)),
    ensures
        final(image).dimensions == old(image).dimensions,
        final(image).well_formed(),
        exists|accepted: Seq<bool>|
            {
                &&& #[trigger] answers(accept, old(image).pixels@, accepted)
                &&& positions@ == accepted_positions(old(image).dimensions.width as int, accepted)
                &&& final(image).pixels@ == match rejected {
                    Some(color) => repainted(old(image).pixels@, |i: int| !accepted[i], color@),
                    None => old(image).pixels@,
                }
            },
{
    let ghost before = image.pixels@;
    let ghost width = image.dimensions.width as int;
    let ghost mut accepted: Seq<bool> = Seq::empty();
    let mut positions: Vec<Point> = Vec::new();
    let count: usize = image.pixels.len() / 4;
    let mut x: u32 = 0;
    let mut y: u32 = 0;
    let mut i: usize = 0;
    proof {
        let height = image.dimensions.height as int;
        assert(width == 0 ==> width * height == 0) by (nonlinear_arith);
        assert(0 * width + 0 == 0) by (nonlinear_arith);
        reveal(Seq::filter);
        assert(accepted_places(accepted) =~= Seq::<int>::empty());
        assert(accepted_positions(width, accepted) =~= Seq::<Point>::empty());
    }
    while i < count
        invariant
            image.dimensions == old(image).dimensions,
            width == image.dimensions.width,
            image.pixels.len() == before.len(),
            old(image).well_formed(),
            before == old(image).pixels@,
            count * 4 == before.len(),
            i <= count,
            forall|r: C, g: C, b: C| call_requires(accept, (r, g, b)),
            accepted.len() == i,
            forall|k: int|
                0 <= k < i ==> call_ensures(
                    accept,
                    (before[4 * k], before[4 * k + 1], before[4 * k + 2]),
                    #[trigger] accepted[k],
                ),
            positions@ == accepted_positions(width, accepted),
            i < count ==> x < width && i == y * width + x,
            forall|j: int|
                0 <= j < before.len() ==> #[trigger] image.pixels@[j] == if j / 4 < i && rejected.is_some()
                    && !accepted[j / 4] {
                    rejected.unwrap()@[j % 4]
                } else {
                    before[j]
                },
        decreases count - i,
    {
        let accepts: bool = accept(image.pixels[4 * i], image.pixels[4 * i + 1], image.pixels[4 * i + 2]);
        proof {
            let extended = accepted.push(accepts);
            assert(extended.take(i as int) =~= accepted);
            assert(extended.take(i + 1) =~= extended);
            lemma_accept_next(extended, width, i as int);
            lemma_pixel_at(width, x as int, y as int);
            accepted = extended;
        }
        if accepts {
            assert(y <= i32::MAX) by {
                lemma_row_bound(width, image.dimensions.height as int, x as int, y as int);
            }
            positions.push(Point { x: x as i32, y: y as i32 });
        } else {
            match rejected {
                Some(color) => {
                    image.pixels.set(4 * i, color[0]);
                    image.pixels.set(4 * i + 1, color[1]);
                    image.pixels.set(4 * i + 2, color[2]);
                    image.pixels.set(4 * i + 3, color[3]);
                },
                None => {},
            }
        }
        i += 1;
        if i < count {
            proof {
                lemma_row_bound(width, image.dimensions.height as int, x as int, y as int);
            }
            x += 1;
            if x == image.dimensions.width {
                x = 0;
                y += 1;
                assert((y - 1) * width + width == y * width) by (nonlinear_arith);
            }
        }
    }
    proof {
        assert(answers(accept, before, accepted));
        match rejected {
            Some(color) => {
                assert(image.pixels@ =~= repainted(before, |i: int| !accepted[i], color@));
            },
            None => {
                assert(image.pixels@ =~= before);
            },
        }
    }
    positions
}

/// The pixel in column `x` of row `y` stands at place `y * width + x`.
pub proof fn lemma_pixel_at(width: int, x: int, y: int)
    requires
        0 <= x < width,
        0 <= y,
    ensures
        (y * width + x) % width == x,
        (y * width + x) / width == y,
{
    vstd::arithmetic::div_mod::lemma_fundamental_div_mod_converse(y * width + x, width, y, x);
    assert(width * y == y * width) by (nonlinear_arith);
}

proof fn lemma_row_bound(width: int, height: int, x: int, y: int)
    requires
        0 <= x < width,
        0 <= y,
        0 <= height,
        y * width + x < width * height,
    ensures
        y < height,
{
    if y >= height {
        assert(y * width >= height * width) by (nonlinear_arith)
            requires
                y >= height,
                width > 0,
        ;
        assert(height * width == width * height) by (nonlinear_arith);
    }
}

} // verus!
