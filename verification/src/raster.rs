//! Raster images: width, height, and a dense row-major pixel sequence.

use vstd::prelude::*;

use crate::pixel::Pixel;

verus! {

/// The failures the codec surfaces to its caller.
#[derive(Clone, Copy, PartialEq, Eq, Structural, Debug)]
pub enum CodecError {
    /// The stream is too short for a header or does not open with the magic
    /// marker.
    MalformedHeader,
    /// The stream does not close with the end marker, or a token claims
    /// payload bytes past the end of the body.
    TruncatedBody,
    /// The declared width times height exceeds the addressable pixel count.
    DimensionOverflow,
}

/// An uncompressed RGBA raster: exactly `width * height` pixels in row-major
/// order, the pixel at `(x, y)` stored at linear index `y * width + x`.
#[derive(Debug)]
pub struct Image {
    pub width: u32,
    pub height: u32,
    pub pixels: Vec<Pixel>,
}

impl Image {
    /// The type's invariant: the pixel count matches the dimensions.
    pub open spec fn wf(&self) -> bool {
        self.pixels@.len() == self.width * self.height
    }

    /// Build an image from its dimensions and row-major pixels. Rejected
    /// when the pixel count does not match the dimensions; in particular a
    /// `width * height` beyond the addressable pixel count can never match.
    pub fn new(width: u32, height: u32, pixels: Vec<Pixel>) -> (r: Option<Image>)
        ensures
            match r {
                Some(img) => {
                    &&& img.wf()
                    &&& img.width == width
                    &&& img.height == height
                    &&& img.pixels@ == pixels@
                    &&& pixels@.len() == width * height
                },
                None => pixels@.len() != width * height,
            },
    {
        proof {
            assert(width as int * height as int <= u64::MAX) by (nonlinear_arith)
                requires
                    width as int <= 0xFFFFFFFF,
                    height as int <= 0xFFFFFFFF,
            ;
        }
        let n = width as u64 * height as u64;
        if pixels.len() as u64 == n {
            proof {
                assert(pixels@.len() == width * height);
            }
            Some(Image { width, height, pixels })
        } else {
            None
        }
    }

    /// The pixel at `(x, y)`.
    pub fn get_pixel(&self, x: u32, y: u32) -> (p: Pixel)
        requires
            self.wf(),
            x < self.width,
            y < self.height,
        ensures
            p == self.pixels@[y * self.width + x],
    {
        proof {
            assert(y * self.width + x < self.width * self.height) by (nonlinear_arith)
                requires
                    x < self.width,
                    y < self.height,
            ;
        }
        let n = self.pixels.len();
        let idx = y as usize * self.width as usize + x as usize;
        assert(idx < n);
        self.pixels[idx]
    }
}

/// Whether two images agree in their dimensions and every pixel.
pub fn images_equal(a: &Image, b: &Image) -> (r: bool)
    ensures
        r <==> (a.width == b.width && a.height == b.height && a.pixels@ == b.pixels@),
{
    if a.width != b.width || a.height != b.height || a.pixels.len() != b.pixels.len() {
        return false;
    }
    let n = a.pixels.len();
    let mut i: usize = 0;
    while i < n
        invariant
            n == a.pixels@.len(),
            n == b.pixels@.len(),
            i <= n,
            forall|j: int| 0 <= j < i ==> a.pixels@[j] == b.pixels@[j],
        decreases n - i,
    {
        if a.pixels[i] != b.pixels[i] {
            return false;
        }
        i += 1;
    }
    proof {
        assert(a.pixels@ =~= b.pixels@);
    }
    true
}

} // verus!
