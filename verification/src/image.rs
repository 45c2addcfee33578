//! Images as the library holds them: dimensions and RGBA pixels.

use crate::bytes::{bytes_of_pixels, pixel_bytes, pixels_of_bytes};
use vstd::prelude::*;

verus! {

/// Image struct manipulated by the library.
pub struct Image {
    pub(crate) dimensions: (u32, u32),
    pub(crate) rgba: Vec<[u8; 4]>,
}

/// The number of pixels of an image of the given dimensions.
pub open spec fn pixel_count(dimensions: (u32, u32)) -> nat {
    dimensions.0 as nat * dimensions.1 as nat
}

impl Image {
    /// Width and height.
    pub closed spec fn spec_dimensions(&self) -> (u32, u32) {
        self.dimensions
    }

    /// The pixels, row after row.
    pub closed spec fn pixels(&self) -> Seq<[u8; 4]> {
        self.rgba@
    }

    /// There is one pixel for each position.
    pub open spec fn wf(&self) -> bool {
        self.pixels().len() == pixel_count(self.spec_dimensions())
    }

    /// An image of the given pixels, row after row.
    pub fn new(dimensions: (u32, u32), rgba: Vec<[u8; 4]>) -> (image: Self)
        requires
            rgba@.len() == pixel_count(dimensions),
        ensures
            image.wf(),
            image.spec_dimensions() == dimensions,
            image.pixels() == rgba@,
    {
        Self { dimensions, rgba }
    }

    /// An image from the bytes of its pixels, four bytes per pixel.
    pub fn from_raw_pixels(dimensions: (u32, u32), rbga: &[u8]) -> (image: Self)
        requires
            rbga@.len() == 4 * pixel_count(dimensions),
        ensures
            image.wf(),
            image.spec_dimensions() == dimensions,
            pixel_bytes(image.pixels()) == rbga@,
    {
        let pixels = pixels_of_bytes(rbga);
        assert(pixel_bytes(pixels@).len() == 4 * pixels@.len());
        Self { dimensions, rgba: pixels }
    }

    /// The pixel in column `x` of row `y`.
    pub fn get_pixel(&self, x: u32, y: u32) -> (pixel: &[u8; 4])
        requires
            self.wf(),
            x < self.spec_dimensions().0,
            y < self.spec_dimensions().1,
        ensures
            *pixel == self.pixels()[x + y * self.spec_dimensions().0],
    {
        let width: usize = self.dimensions.0 as usize;
        let length: usize = self.rgba.len();
        assert(x + y * width < length && y * width <= length) by (nonlinear_arith)
            requires
                x < width,
                y < self.dimensions.1,
                length == width * self.dimensions.1,
        ;
        let index: usize = x as usize + y as usize * width;
        &self.rgba[index]
    }

    /// Width and height.
    pub fn dimensions(&self) -> (dimensions: (u32, u32))
        ensures
            dimensions == self.spec_dimensions(),
    {
        self.dimensions
    }

    /// The pixels, row after row.
    pub fn as_pixels(&self) -> (pixels: &Vec<[u8; 4]>)
        ensures
            pixels@ == self.pixels(),
    {
        &self.rgba
    }

    /// The bytes of the pixels, four per pixel.
    pub fn into_raw_pixels(self) -> (bytes: Vec<u8>)
        ensures
            bytes@ == pixel_bytes(self.pixels()),
    {
        bytes_of_pixels(self.rgba.as_slice())
    }
}

/// An image that owns a copy of the pixels in `rbga`, four bytes per pixel.
pub fn copied_pixel(dimensions: (u32, u32), rbga: &[u8]) -> (image: Image)
    requires
        rbga@.len() == 4 * pixel_count(dimensions),
    ensures
        image.wf(),
        image.spec_dimensions() == dimensions,
        pixel_bytes(image.pixels()) == rbga@,
{
    Image::from_raw_pixels(dimensions, rbga)
}

} // verus!
