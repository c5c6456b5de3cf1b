use vstd::prelude::*;

verus! {

/// An RGBA pixel.
pub type Pixel = [u8; 4];

/// A rectangular picture of RGBA pixels, stored row by row.
pub struct PixelGrid {
    pub width: u32,
    pub height: u32,
    pub pixels: Vec<Pixel>,
}

impl PixelGrid {
    /// One pixel per position.
    pub open spec fn wf(&self) -> bool {
        self.pixels@.len() == self.width * self.height
    }

    /// The pixel at column `x` and row `y`.
    pub open spec fn pixel_at(&self, x: int, y: int) -> Pixel {
        self.pixels@[y * self.width + x]
    }

    /// A `width` by `height` picture of transparent black pixels.
    pub fn new(width: u32, height: u32) -> (r: Self)
        requires
            width * height <= usize::MAX,
        ensures
            r.wf(),
            r.width == width,
            r.height == height,
            forall|i: int| 0 <= i < r.pixels@.len() ==> r.pixels@[i] == [0u8, 0u8, 0u8, 0u8],
    {
        let count = (width as usize) * (height as usize);
        let mut pixels: Vec<Pixel> = Vec::with_capacity(count);
        let mut k: usize = 0;
        while k < count
            invariant
                k <= count,
                pixels@.len() == k,
                forall|i: int| 0 <= i < k ==> pixels@[i] == [0u8, 0u8, 0u8, 0u8],
            decreases count - k,
        {
            pixels.push([0u8, 0u8, 0u8, 0u8]);
            k = k + 1;
        }
        Self { width, height, pixels }
    }

    /// Number of columns.
    pub fn width(&self) -> (r: u32)
        ensures
            r == self.width,
    {
        self.width
    }

    /// Number of rows.
    pub fn height(&self) -> (r: u32)
        ensures
            r == self.height,
    {
        self.height
    }

    /// The pixel at column `x` and row `y`.
    pub fn get_pixel(&self, x: u32, y: u32) -> (r: Pixel)
        requires
            self.wf(),
            x < self.width,
            y < self.height,
        ensures
            r == self.pixel_at(x as int, y as int),
    {
        let len = self.pixels.len();
        proof {
            lemma_grid_index(x as int, y as int, self.width as int, self.height as int);
        }
        self.pixels[(y as usize) * (self.width as usize) + (x as usize)]
    }

    /// Sets the pixel at column `x` and row `y`.
    pub fn put_pixel(&mut self, x: u32, y: u32, pixel: Pixel)
        requires
            old(self).wf(),
            x < old(self).width,
            y < old(self).height,
        ensures
            final(self).wf(),
            final(self).width == old(self).width,
            final(self).height == old(self).height,
            final(self).pixels@ == old(self).pixels@.update(
                y * old(self).width + x,
                pixel,
            ),
    {
        let len = self.pixels.len();
        proof {
            lemma_grid_index(x as int, y as int, self.width as int, self.height as int);
        }
        let index = (y as usize) * (self.width as usize) + (x as usize);
        self.pixels.set(index, pixel);
    }
}

/// A position inside a `width` by `height` grid has a row-major index below `width * height`.
pub proof fn lemma_grid_index(x: int, y: int, width: int, height: int)
    requires
        0 <= x < width,
        0 <= y < height,
    ensures
        0 <= y * width + x < width * height,
        y * width <= (height - 1) * width,
{
    assert(y * width <= (height - 1) * width) by (nonlinear_arith)
        requires
            0 <= y <= height - 1,
            0 <= width,
    ;
    assert((height - 1) * width + width == width * height) by (nonlinear_arith);
    assert(0 <= y * width) by (nonlinear_arith)
        requires
            0 <= y,
            0 <= width,
    ;
}

} // verus!
