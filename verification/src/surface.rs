use vstd::prelude::*;

verus! {

/// Pixel value of every freshly allocated, newly exposed or cleared cell:
/// fully opaque, all colour channels zero.
pub const OPAQUE_BLACK: u32 = 0xFF000000;

/// A software framebuffer: a row-major grid of 32-bit pixels.
///
/// The grid is `width` pixels wide and `height` pixels tall; the pixel at
/// column `x` and row `y` lives at index `y * width + x` of the store.
pub struct Surface {
    pub(crate) data: Vec<u32>,
    pub(crate) width: usize,
    pub(crate) height: usize,
}

impl Surface {
    /// The store holds exactly one 32-bit word per pixel.
    pub closed spec fn wf(&self) -> bool {
        self.data@.len() == self.width * self.height
    }

    /// Width of the surface in pixels.
    pub closed spec fn w(&self) -> int {
        self.width as int
    }

    /// Height of the surface in pixels.
    pub closed spec fn h(&self) -> int {
        self.height as int
    }

    /// The whole pixel store, row-major.
    pub closed spec fn pixels(&self) -> Seq<u32> {
        self.data@
    }

    /// The pixel stored at column `x`, row `y`.
    pub open spec fn pix(&self, x: int, y: int) -> u32
        recommends
            self.wf(),
            0 <= x < self.w(),
            0 <= y < self.h(),
    {
        self.pixels()[y * self.w() + x]
    }

    /// A fresh surface of the given extent, every pixel opaque black.
    pub fn new(width: usize, height: usize) -> (s: Surface)
        requires
            width * height <= usize::MAX,
        ensures
            s.wf(),
            s.w() == width,
            s.h() == height,
            s.pixels().len() == width * height,
            forall|i: int| 0 <= i < s.pixels().len() ==> s.pixels()[i] == OPAQUE_BLACK,
    {
        let n = width * height;
        let mut data: Vec<u32> = Vec::new();
        let mut i: usize = 0;
        while i < n
            invariant
                i <= n,
                data@.len() == i,
                forall|j: int| 0 <= j < i ==> data@[j] == OPAQUE_BLACK,
            decreases n - i,
        {
            data.push(OPAQUE_BLACK);
            i = i + 1;
        }
        Surface { data, width, height }
    }

    /// Change the extent; pixels kept where the old store overlaps the new
    /// one, opaque black where the store grows.
    pub fn resize(&mut self, width: usize, height: usize)
        requires
            width * height <= usize::MAX,
        ensures
            final(self).wf(),
            final(self).w() == width,
            final(self).h() == height,
            final(self).pixels().len() == width * height,
            forall|i: int|
                0 <= i < final(self).pixels().len() ==> final(self).pixels()[i] == (if i
                    < old(self).pixels().len() {
                    old(self).pixels()[i]
                } else {
                    OPAQUE_BLACK
                }),
    {
        let n = width * height;
        if n <= self.data.len() {
            self.data.truncate(n);
        } else {
            let mut i: usize = self.data.len();
            while i < n
                invariant
                    i <= n,
                    self.data@.len() == i,
                    old(self).pixels().len() <= i,
                    forall|j: int|
                        0 <= j < i ==> self.data@[j] == (if j < old(self).pixels().len() {
                            old(self).pixels()[j]
                        } else {
                            OPAQUE_BLACK
                        }),
                decreases n - i,
            {
                self.data.push(OPAQUE_BLACK);
                i = i + 1;
            }
        }
        self.width = width;
        self.height = height;
    }

    /// Reset every pixel to opaque black, keeping the extent: colour
    /// channels zeroed, the alpha channel forced opaque.
    pub fn clear(&mut self)
        requires
            old(self).wf(),
        ensures
            final(self).wf(),
            final(self).w() == old(self).w(),
            final(self).h() == old(self).h(),
            final(self).pixels().len() == old(self).pixels().len(),
            forall|i: int|
                0 <= i < final(self).pixels().len() ==> final(self).pixels()[i] == OPAQUE_BLACK,
    {
        let n = self.data.len();
        let mut i: usize = 0;
        while i < n
            invariant
                i <= n,
                self.data@.len() == n,
                self.width == old(self).width,
                self.height == old(self).height,
                forall|j: int| 0 <= j < i ==> self.data@[j] == OPAQUE_BLACK,
            decreases n - i,
        {
            self.data.set(i, OPAQUE_BLACK);
            i = i + 1;
        }
    }

    /// Current extent as (width, height).
    pub fn get_extent(&self) -> (e: (usize, usize))
        ensures
            e.0 == self.w(),
            e.1 == self.h(),
    {
        (self.width, self.height)
    }

    /// Read view of the whole pixel store.
    pub fn get_data(&self) -> (d: &Vec<u32>)
        ensures
            d@ == self.pixels(),
    {
        &self.data
    }

    /// Write one pixel, leaving every other pixel alone.
    pub fn set_pixel(&mut self, x: usize, y: usize, color: u32)
        requires
            old(self).wf(),
            x < old(self).w(),
            y < old(self).h(),
        ensures
            final(self).wf(),
            final(self).w() == old(self).w(),
            final(self).h() == old(self).h(),
            forall|px: int, py: int|
                0 <= px < final(self).w() && 0 <= py < final(self).h() ==> final(self).pix(px, py)
                    == (if px == x && py == y {
                    color
                } else {
                    old(self).pix(px, py)
                }),
    {
        let n = self.data.len();
        proof {
            lemma_row_major_index(self.w(), self.h(), x as int, y as int);
            assert(self.h() * self.w() == self.w() * self.h()) by (nonlinear_arith);
            assert((y as int) * self.w() + (x as int) < n as int);
        }
        let idx = y * self.width + x;
        self.data.set(idx, color);
        proof {
            assert forall|px: int, py: int|
                0 <= px < self.w() && 0 <= py < self.h() implies self.pix(px, py) == (if px
                == x && py == y {
                color
            } else {
                old(self).pix(px, py)
            }) by {
                lemma_row_major_index(self.w(), self.h(), px, py);
                if px == x && py == y {
                } else {
                    if py * self.w() + px == (y as int) * self.w() + (x as int) {
                        lemma_row_major_unique(self.w(), self.h(), px, py, x as int, y as int);
                        assert(false);
                    }
                }
            }
        }
    }
}

/// Row-major indexing stays inside a `w` by `h` grid.
pub proof fn lemma_row_major_index(w: int, h: int, x: int, y: int)
    requires
        0 <= x < w,
        0 <= y < h,
    ensures
        0 <= y * w + x < h * w,
{
    assert(0 <= y * w + x < h * w) by (nonlinear_arith)
        requires
            0 <= x < w,
            0 <= y < h,
    ;
}

/// Distinct in-bounds pixel coordinates have distinct row-major indices.
pub proof fn lemma_row_major_unique(w: int, h: int, x1: int, y1: int, x2: int, y2: int)
    requires
        0 <= x1 < w,
        0 <= y1 < h,
        0 <= x2 < w,
        0 <= y2 < h,
        y1 * w + x1 == y2 * w + x2,
    ensures
        x1 == x2,
        y1 == y2,
{
    assert(x1 == x2 && y1 == y2) by (nonlinear_arith)
        requires
            0 <= x1 < w,
            0 <= y1 < h,
            0 <= x2 < w,
            0 <= y2 < h,
            y1 * w + x1 == y2 * w + x2,
    ;
}

} // verus!
