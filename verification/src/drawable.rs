//! The drawable-surface capability: anything with a width, a height and a
//! pixel write can be rasterized onto.

use vstd::prelude::*;

verus! {

/// Anything that can be drawn to.
///
/// The rasterizer reads the extent at the start of every call and writes
/// pixels one by one; it guarantees that every write lands inside
/// `[0, width) x [0, height)`. A surface should nevertheless treat an
/// out-of-bounds write as a safe no-op rather than a fault. Concurrent calls
/// against one surface must be serialized by the caller.
pub trait Drawable: Sized {
    /// The surface's internal consistency, established by its constructors
    /// and preserved by every operation.
    spec fn inv(&self) -> bool;

    /// Width of the surface, as a mathematical integer.
    spec fn spec_width(&self) -> int;

    /// Height of the surface, as a mathematical integer.
    spec fn spec_height(&self) -> int;

    /// The color of the pixel at (x, y).
    spec fn spec_pixel(&self, x: int, y: int) -> u32;

    /// Width of the drawable surface.
    fn width(&self) -> (w: usize)
        requires
            self.inv(),
        ensures
            w as int == self.spec_width(),
    ;

    /// Height of the drawable surface.
    fn height(&self) -> (h: usize)
        requires
            self.inv(),
        ensures
            h as int == self.spec_height(),
    ;

    /// Set the pixel at (x, y) to the given color.
    fn set_pixel(&mut self, x: usize, y: usize, color: u32)
        requires
            old(self).inv(),
            (x as int) < old(self).spec_width(),
            (y as int) < old(self).spec_height(),
        ensures
            final(self).inv(),
            final(self).spec_width() == old(self).spec_width(),
            final(self).spec_height() == old(self).spec_height(),
            final(self).spec_pixel(x as int, y as int) == color,
            forall|i: int, j: int|
                !(i == x as int && j == y as int) ==> final(self).spec_pixel(i, j) == old(self).spec_pixel(i, j),
    ;
}

} // verus!
