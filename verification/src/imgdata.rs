use vstd::prelude::*;

verus! {

/// A decoded true-color image: one RGB triple per pixel in raster order,
/// with its size. How the bytes got here (file, network, a PNG decoder)
/// is the caller's business; this core only reads pixels.
pub struct ImgHelper {
    pub pixels: Vec<[u8; 3]>,
    pub width: usize,
    pub height: usize,
}

impl ImgHelper {
    /// The pixel buffer covers the whole advertised size.
    pub open spec fn wf(self) -> bool {
        self.pixels@.len() == self.width * self.height
    }

    /// The pixel at column `x` of row `y`.
    pub fn get_pixel(&self, x: usize, y: usize) -> (r: [u8; 3])
        requires
            self.wf(),
            x < self.width,
            y < self.height,
        ensures
            r == self.pixels@[x + y * self.width],
    {
        let _n: usize = self.pixels.len();
        proof {
            assert(x + y * self.width < self.width * self.height) by (nonlinear_arith)
                requires
                    x < self.width && y < self.height,
            ;
        }
        self.pixels[x + y * self.width]
    }
}

} // verus!
