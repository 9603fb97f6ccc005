//! A simple framebuffer storing pixel data in a contiguous `Vec<u32>` in
//! row-major order: pixel (x, y) sits at index `y * width + x`.

use crate::drawable::Drawable;
use vstd::prelude::*;

verus! {

/// A framebuffer with basic operations: setting pixels, clearing, resizing,
/// and accessing the flat data slice.
pub struct Buffer {
    width: usize,
    height: usize,
    data: Vec<u32>,
}

impl Buffer {
    /// The stored data holds exactly one color value per pixel.
    pub closed spec fn wf(&self) -> bool {
        self.data.len() == self.width * self.height
    }

    /// The width, as a mathematical integer.
    pub closed spec fn spec_w(&self) -> int {
        self.width as int
    }

    /// The height, as a mathematical integer.
    pub closed spec fn spec_h(&self) -> int {
        self.height as int
    }

    /// The flat, row-major pixel data.
    pub closed spec fn spec_data(&self) -> Seq<u32> {
        self.data@
    }

    /// The color at (x, y); zero off the surface.
    pub closed spec fn pixel_at(&self, x: int, y: int) -> u32 {
        if 0 <= x < self.spec_w() && 0 <= y < self.spec_h() && 0 <= y * self.spec_w() + x
            < self.spec_data().len() {
            self.spec_data()[y * self.spec_w() + x]
        } else {
            0
        }
    }

    /// The flat row-major index of pixel (x, y).
    pub open spec fn pix_index(&self, x: int, y: int) -> int {
        y * self.spec_w() + x
    }

    /// Create a new buffer with the given width and height, every pixel zero.
    pub fn new(width: usize, height: usize) -> (buf: Buffer)
        requires
            width * height <= usize::MAX,
        ensures
            buf.wf(),
            buf.spec_w() == width,
            buf.spec_h() == height,
            buf.spec_data() == Seq::new((width * height) as nat, |i: int| 0u32),
            forall|x: int, y: int| buf.pixel_at(x, y) == 0,
    {
        let n = width * height;
        let mut data: Vec<u32> = Vec::new();
        let mut i: usize = 0;
        while i < n
            invariant
                i <= n,
                data@.len() == i,
                forall|k: int| 0 <= k < i ==> data@[k] == 0,
            decreases n - i,
        {
            data.push(0);
            i = i + 1;
        }
        let buf = Buffer { width, height, data };
        proof {
            assert(buf.spec_data() =~= Seq::new((width * height) as nat, |k: int| 0u32));
        }
        buf
    }

    /// Get the buffer's width in pixels.
    pub fn width(&self) -> (w: usize)
        ensures
            w as int == self.spec_w(),
    {
        self.width
    }

    /// Get the buffer's height in pixels.
    pub fn height(&self) -> (h: usize)
        ensures
            h as int == self.spec_h(),
    {
        self.height
    }

    /// Resize the framebuffer, keeping a prefix of the flat data and
    /// zero-filling any growth.
    pub fn resize(&mut self, new_width: usize, new_height: usize)
        requires
            new_width * new_height <= usize::MAX,
        ensures
            final(self).wf(),
            final(self).spec_w() == new_width,
            final(self).spec_h() == new_height,
            final(self).spec_data().len() == new_width * new_height,
            forall|i: int|
                0 <= i < final(self).spec_data().len() ==> final(self).spec_data()[i] == (if i < old(self).spec_data().len() {
                    old(self).spec_data()[i]
                } else {
                    0u32
                }),
    {
        self.width = new_width;
        self.height = new_height;
        let n = new_width * new_height;
        while self.data.len() > n
            invariant
                self.width == new_width,
                self.height == new_height,
                self.data@.len() >= n || self.data@.len() == old(self).spec_data().len(),
                forall|i: int|
                    0 <= i < self.data@.len() ==> self.data@[i] == (if i < old(self).spec_data().len() {
                        old(self).spec_data()[i]
                    } else {
                        0u32
                    }),
            decreases self.data.len(),
        {
            self.data.pop();
        }
        while self.data.len() < n
            invariant
                self.width == new_width,
                self.height == new_height,
                self.data@.len() <= n,
                self.data@.len() == n || self.data@.len() >= old(self).spec_data().len(),
                forall|i: int|
                    0 <= i < self.data@.len() ==> self.data@[i] == (if i < old(self).spec_data().len() {
                        old(self).spec_data()[i]
                    } else {
                        0u32
                    }),
            decreases n - self.data.len(),
        {
            self.data.push(0);
        }
    }

    /// Set the pixel at (x, y) to a given color; a write outside the surface
    /// is a safe no-op.
    pub fn set_pixel(&mut self, x: usize, y: usize, color: u32)
        requires
            old(self).wf(),
        ensures
            final(self).wf(),
            final(self).spec_w() == old(self).spec_w(),
            final(self).spec_h() == old(self).spec_h(),
            x < old(self).spec_w() && y < old(self).spec_h() ==> final(self).pixel_at(
                x as int,
                y as int,
            ) == color,
            forall|i: int, j: int|
                !(i == x as int && j == y as int) ==> final(self).pixel_at(i, j) == old(self).pixel_at(i, j),
            x < old(self).spec_w() && y < old(self).spec_h() ==> final(self).spec_data() == old(
                self,
            ).spec_data().update(y * old(self).spec_w() + x, color),
            !(x < old(self).spec_w() && y < old(self).spec_h()) ==> *final(self) == *old(self),
    {
        if x < self.width && y < self.height {
            proof {
                assert((y as int) * (self.width as int) + (x as int) < (self.width as int) * (
                self.height as int)) by (nonlinear_arith)
                    requires
                        (x as int) < (self.width as int),
                        (y as int) < (self.height as int),
                        0 <= (x as int),
                        0 <= (y as int),
                ;
                assert(0 <= (y as int) * (self.width as int)) by (nonlinear_arith)
                    requires
                        0 <= (y as int),
                        0 <= (self.width as int),
                ;
                assert((self.width as int) * (self.height as int) == self.data@.len());
            }
            let idx = y * self.width + x;
            self.data[idx] = color;
            proof {
                assert forall|i: int, j: int|
                    !(i == x as int && j == y as int) implies self.pixel_at(i, j) == old(self).pixel_at(i, j) by {
                    if 0 <= i < self.spec_w() && 0 <= j < self.spec_h() {
                        assert(j * self.spec_w() + i != (y as int) * self.spec_w() + (
                        x as int)) by (nonlinear_arith)
                            requires
                                0 <= i < self.spec_w(),
                                0 <= j < self.spec_h(),
                                0 <= (x as int) < self.spec_w(),
                                0 <= (y as int) < self.spec_h(),
                                !(i == x as int && j == y as int),
                        ;
                    }
                }
            }
        }
    }

    /// Clear the entire buffer to a given color.
    pub fn clear(&mut self, color: u32)
        requires
            old(self).wf(),
        ensures
            final(self).wf(),
            final(self).spec_w() == old(self).spec_w(),
            final(self).spec_h() == old(self).spec_h(),
            final(self).spec_data().len() == old(self).spec_data().len(),
            forall|i: int|
                0 <= i < final(self).spec_data().len() ==> final(self).spec_data()[i] == color,
            forall|x: int, y: int|
                0 <= x < final(self).spec_w() && 0 <= y < final(self).spec_h() ==> final(self).pixel_at(x, y) == color,
    {
        let mut i: usize = 0;
        let n = self.data.len();
        while i < n
            invariant
                i <= n,
                n == self.data@.len(),
                self.width == old(self).spec_w(),
                self.height == old(self).spec_h(),
                self.data@.len() == self.spec_w() * self.spec_h(),
                forall|k: int| 0 <= k < i ==> self.data@[k] == color,
            decreases n - i,
        {
            self.data[i] = color;
            i = i + 1;
        }
        proof {
            assert forall|x: int, y: int|
                0 <= x < self.spec_w() && 0 <= y < self.spec_h() implies self.pixel_at(x, y)
                == color by {
                assert(0 <= y * self.spec_w() + x < self.spec_w() * self.spec_h()) by (
                nonlinear_arith)
                    requires
                        0 <= x < self.spec_w(),
                        0 <= y < self.spec_h(),
                ;
            }
        }
    }

    /// For a well-formed buffer the pixel grid and the flat data agree: the
    /// data holds exactly one value per pixel, pixel (x, y) sits at index
    /// `y * width + x`, and every index belongs to exactly one pixel. This
    /// is the bridge between the drawing contracts, which speak of pixels,
    /// and `as_slice`, which hands the flat data to a host.
    pub proof fn lemma_row_major_layout(&self)
        requires
            self.wf(),
        ensures
            self.spec_data().len() == self.spec_w() * self.spec_h(),
            forall|x: int, y: int|
                0 <= x < self.spec_w() && 0 <= y < self.spec_h() ==> 0 <= #[trigger] self.pix_index(
                    x,
                    y,
                ) < self.spec_data().len(),
            forall|x: int, y: int|
                0 <= x < self.spec_w() && 0 <= y < self.spec_h() ==> #[trigger] self.pixel_at(x, y)
                    == self.spec_data()[self.pix_index(x, y)],
            forall|k: int|
                0 <= k < self.spec_data().len() ==> #[trigger] self.spec_data()[k] == self.pixel_at(
                    k % self.spec_w(),
                    k / self.spec_w(),
                ),
    {
        let ghost w = self.spec_w();
        let ghost h = self.spec_h();
        assert forall|x: int, y: int|
            0 <= x < self.spec_w() && 0 <= y < self.spec_h() implies 0 <= #[trigger] self.pix_index(
            x,
            y,
        ) < self.spec_data().len() by {
            assert(0 <= y * w + x < w * h) by (nonlinear_arith)
                requires
                    0 <= x < w,
                    0 <= y < h,
            ;
        }
        assert forall|x: int, y: int|
            0 <= x < self.spec_w() && 0 <= y < self.spec_h() implies #[trigger] self.pixel_at(x, y)
            == self.spec_data()[self.pix_index(x, y)] by {
            assert(0 <= y * w + x < w * h) by (nonlinear_arith)
                requires
                    0 <= x < w,
                    0 <= y < h,
            ;
        }
        assert forall|k: int|
            0 <= k < self.spec_data().len() implies #[trigger] self.spec_data()[k]
            == self.pixel_at(k % self.spec_w(), k / self.spec_w()) by {
            assert(w > 0 && h > 0) by (nonlinear_arith)
                requires
                    0 <= w,
                    0 <= h,
                    0 <= k < w * h,
            ;
            assert(k == w * (k / w) + k % w && 0 <= k % w < w) by (nonlinear_arith)
                requires
                    w > 0,
                    k >= 0,
            ;
            assert(k / w < h) by (nonlinear_arith)
                requires
                    0 <= k < w * h,
                    w > 0,
                    k == w * (k / w) + k % w,
                    0 <= k % w < w,
            ;
            assert((k / w) * w + k % w == k) by (nonlinear_arith)
                requires
                    k == w * (k / w) + k % w,
            ;
        }
    }

    /// Get a slice reference to the buffer's pixel data.
    pub fn as_slice(&self) -> (s: &[u32])
        ensures
            s@ == self.spec_data(),
    {
        self.data.as_slice()
    }
}

impl Drawable for Buffer {
    open spec fn inv(&self) -> bool {
        self.wf()
    }

    open spec fn spec_width(&self) -> int {
        self.spec_w()
    }

    open spec fn spec_height(&self) -> int {
        self.spec_h()
    }

    open spec fn spec_pixel(&self, x: int, y: int) -> u32 {
        self.pixel_at(x, y)
    }

    fn width(&self) -> (w: usize) {
        self.width()
    }

    fn height(&self) -> (h: usize) {
        self.height()
    }

    fn set_pixel(&mut self, x: usize, y: usize, color: u32) {
        self.set_pixel(x, y, color);
    }
}

} // verus!
