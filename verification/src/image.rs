//! A frame: its pixels, row after row, four channels to each pixel.

use crate::point::Point;
use vstd::prelude::*;

verus! {

/// The size of a frame in pixels.
#[derive(Clone, Copy, Debug, PartialEq, Eq, Structural)]
pub struct Dimensions {
    pub width: u32,
    pub height: u32,
}

/// A frame whose channels are of type `C`: red, green, blue and alpha of the first pixel of the
/// first row, then those of the pixel to its right, and so on row after row.
pub struct Image<C> {
    pub pixels: Vec<C>,
    pub dimensions: Dimensions,
}

/// The pixel that stands at place `i` of a frame that is `width` pixels wide.
pub open spec fn pixel_at(width: int, i: int) -> Point {
    Point { x: (i % width) as i32, y: (i / width) as i32 }
}

/// `pixels` with the first channels of each pixel that `hit` names set to those of `color`.
pub open spec fn repainted<C>(pixels: Seq<C>, hit: spec_fn(int) -> bool, color: Seq<C>) -> Seq<C> {
    Seq::new(
        pixels.len(),
        |j: int|
            if j % 4 < color.len() && hit(j / 4) {
                color[j % 4]
            } else {
                pixels[j]
            },
    )
}

impl<C: Copy> Image<C> {
    /// The number of pixels.
    pub open spec fn area(&self) -> int {
        self.dimensions.width * self.dimensions.height
    }

    /// A frame holds four channels for each of its pixels, and is no wider and no higher than
    /// a position can say.
    pub open spec fn well_formed(&self) -> bool {
        &&& self.pixels.len() == self.area() * 4
        &&& self.dimensions.width <= i32::MAX
        &&& self.dimensions.height <= i32::MAX
    }

    /// Tells whether the frame is well formed.
    pub fn is_well_formed(&self) -> (ok: bool)
        ensures
            ok == self.well_formed(),
    {
        let width: u128 = self.dimensions.width as u128;
        let height: u128 = self.dimensions.height as u128;
        assert(0 <= width * height <= 0xffff_ffff * 0xffff_ffff) by (nonlinear_arith)
            requires
                0 <= width <= 0xffff_ffff,
                0 <= height <= 0xffff_ffff,
        ;
        width <= 0x7fff_ffff && height <= 0x7fff_ffff && width * height * 4 == self.pixels.len() as u128
    }

    /// Whether `point` is a pixel of the frame.
    pub open spec fn holds(&self, point: Point) -> bool {
        0 <= point.x < self.dimensions.width && 0 <= point.y < self.dimensions.height
    }

    /// The place of the pixel `point` among the pixels of the frame.
    pub open spec fn place(&self, point: Point) -> int {
        point.y * self.dimensions.width + point.x
    }

    /// Where the channels of the pixel `point` start, if the frame holds it.
    pub open spec fn spec_index(&self, point: Point) -> Option<usize> {
        if self.holds(point) {
            Some((self.place(point) * 4) as usize)
        } else {
            None
        }
    }

    /// The place of a pixel of the frame is below the number of its pixels.
    pub proof fn lemma_place_bound(&self, point: Point)
        requires
            self.holds(point),
        ensures
            0 <= self.place(point) < self.area(),
    {
        let w = self.dimensions.width as int;
        let h = self.dimensions.height as int;
        let x = point.x as int;
        let y = point.y as int;
        assert(0 <= y * w && y * w + w <= h * w) by (nonlinear_arith)
            requires
                0 <= y < h,
                0 <= w,
        ;
        assert(h * w == w * h) by (nonlinear_arith);
    }

    /// Where the channels of the pixel `point` start in `pixels`; nothing for a point outside
    /// the frame.
    pub fn index(&self, point: Point) -> (index: Option<usize>)
        requires
            self.well_formed(),
        ensures
            index == self.spec_index(point),
            index.is_some() ==> index.unwrap() == self.place(point) * 4 && index.unwrap() + 4
                <= self.pixels.len(),
    {
        if point.x >= 0 && (point.x as u32) < self.dimensions.width && point.y >= 0 && (point.y as u32)
            < self.dimensions.height {
            proof {
                self.lemma_place_bound(point);
            }
            let row: usize = point.y as usize * self.dimensions.width as usize;
            Some((row + point.x as usize) * 4)
        } else {
            None
        }
    }

    /// The red, green and blue of the pixel `point`; nothing for a point outside the frame.
    pub fn get_pixel(&self, point: Point) -> (color: Option<[C; 3]>)
        requires
            self.well_formed(),
        ensures
            color.is_some() == self.holds(point),
            color.is_some() ==> color.unwrap()@ == self.pixels@.subrange(
                self.place(point) * 4,
                self.place(point) * 4 + 3,
            ),
    {
        match self.index(point) {
            Some(index) => {
                let color: [C; 3] = [self.pixels[index], self.pixels[index + 1], self.pixels[index + 2]];
                assert(color@ =~= self.pixels@.subrange(self.place(point) * 4, self.place(point) * 4 + 3));
                Some(color)
            },
            None => None,
        }
    }

    /// Gives the pixel `point` the red, green and blue of `color` and leaves its alpha; does
    /// nothing for a point outside the frame.
    pub fn set_pixel(&mut self, point: Point, color: [C; 3])
        requires
            old(self).well_formed(),
        ensures
            final(self).dimensions == old(self).dimensions,
            final(self).well_formed(),
            final(self).pixels@ == repainted(
                old(self).pixels@,
                |i: int| old(self).holds(point) && i == old(self).place(point),
                color@,
            ),
    {
        let ghost before = self.pixels@;
        match self.index(point) {
            Some(index) => {
                self.pixels.set(index, color[0]);
                self.pixels.set(index + 1, color[1]);
                self.pixels.set(index + 2, color[2]);
            },
            None => {},
        }
        assert(self.pixels@ =~= repainted(
            before,
            |i: int| old(self).holds(point) && i == old(self).place(point),
            color@,
        ));
    }
}

} // verus!
