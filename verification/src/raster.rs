use vstd::prelude::*;
use crate::color::Color;

verus! {

/// A width-by-height grid of colors, stored row-major.
#[derive(Clone, Debug)]
pub struct Raster {
    pub width: u32,
    pub height: u32,
    pub pixels: Vec<Color>,
}

impl Raster {
    /// The backing buffer holds exactly one color per cell.
    pub open spec fn wf(self) -> bool {
        self.pixels@.len() == self.width * self.height
    }

    pub open spec fn spec_width(self) -> u32 {
        self.width
    }

    pub open spec fn spec_height(self) -> u32 {
        self.height
    }

    /// Row-major position of cell (x, y).
    pub open spec fn spec_idx(self, x: int, y: int) -> int {
        y * self.width + x
    }

    /// The color of cell (x, y).
    pub open spec fn spec_pixel(self, x: int, y: int) -> Color {
        self.pixels@[self.spec_idx(x, y)]
    }

    /// The whole grid, row-major.
    pub open spec fn view(self) -> Seq<Color> {
        self.pixels@
    }

    /// A cell's row-major position lies inside the buffer.
    pub proof fn lemma_idx_in_bounds(self, x: int, y: int)
        requires
            self.wf(),
            0 <= x < self.spec_width(),
            0 <= y < self.spec_height(),
        ensures
            0 <= self.spec_idx(x, y) < self.pixels@.len(),
            self.spec_idx(x, y) < self.width * self.height,
    {
        let w = self.width as int;
        let h = self.height as int;
        assert(y * w + x < w * h) by (nonlinear_arith)
            requires
                0 <= x < w,
                0 <= y < h,
        ;
    }

    /// A grid of the given dimensions with every cell set to `fill`.
    pub fn new(width: u32, height: u32, fill: Color) -> (r: Raster)
        requires
            width * height <= usize::MAX,
        ensures
            r.wf(),
            r.spec_width() == width,
            r.spec_height() == height,
            r@.len() == width * height,
            forall|i: int| 0 <= i < r@.len() ==> r@[i] == fill,
    {
        let n: usize = (width as usize) * (height as usize);
        let mut pixels: Vec<Color> = Vec::new();
        let mut i: usize = 0;
        while i < n
            invariant
                i <= n,
                pixels@.len() == i,
                forall|j: int| 0 <= j < i ==> pixels@[j] == fill,
            decreases n - i,
        {
            pixels.push(fill);
            i = i + 1;
        }
        Raster { width, height, pixels }
    }

    /// An independent copy of the grid.
    pub fn clone_raster(&self) -> (r: Raster)
        requires
            self.wf(),
        ensures
            r.wf(),
            r.spec_width() == self.spec_width(),
            r.spec_height() == self.spec_height(),
            r@ == self@,
    {
        let n: usize = self.pixels.len();
        let mut pixels: Vec<Color> = Vec::new();
        let mut i: usize = 0;
        while i < n
            invariant
                n == self.pixels@.len(),
                i <= n,
                pixels@.len() == i,
                forall|j: int| 0 <= j < i ==> pixels@[j] == self.pixels@[j],
            decreases n - i,
        {
            pixels.push(self.pixels[i]);
            i = i + 1;
        }
        let r = Raster { width: self.width, height: self.height, pixels };
        proof {
            assert(r@ =~= self@);
        }
        r
    }

    pub fn dimensions(&self) -> (d: (u32, u32))
        ensures
            d.0 == self.spec_width(),
            d.1 == self.spec_height(),
    {
        (self.width, self.height)
    }

    pub fn width(&self) -> (w: u32)
        ensures
            w == self.spec_width(),
    {
        self.width
    }

    pub fn height(&self) -> (h: u32)
        ensures
            h == self.spec_height(),
    {
        self.height
    }

    pub fn get_pixel(&self, x: u32, y: u32) -> (c: Color)
        requires
            self.wf(),
            x < self.spec_width(),
            y < self.spec_height(),
        ensures
            c == self.spec_pixel(x as int, y as int),
    {
        proof {
            self.lemma_idx_in_bounds(x as int, y as int);
        }
        let n: usize = self.pixels.len();
        let idx: usize = (y as usize) * (self.width as usize) + (x as usize);
        self.pixels[idx]
    }

    pub fn put_pixel(&mut self, x: u32, y: u32, c: Color)
        requires
            old(self).wf(),
            x < old(self).spec_width(),
            y < old(self).spec_height(),
        ensures
            final(self).wf(),
            final(self).spec_width() == old(self).spec_width(),
            final(self).spec_height() == old(self).spec_height(),
            final(self)@ == old(self)@.update(old(self).spec_idx(x as int, y as int), c),
    {
        proof {
            self.lemma_idx_in_bounds(x as int, y as int);
        }
        let n: usize = self.pixels.len();
        let idx: usize = (y as usize) * (self.width as usize) + (x as usize);
        self.pixels[idx] = c;
    }
}

} // verus!
