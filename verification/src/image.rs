//! The raster image model: RGBA pixels stored row-major, one per cell.

use vstd::prelude::*;

verus! {

/// One pixel of a raster image, with 8-bit red, green, blue and alpha channels.
#[derive(Clone, Copy, Debug, PartialEq, Eq, Structural)]
pub struct Pixel {
    pub r: u8,
    pub g: u8,
    pub b: u8,
    pub a: u8,
}

impl Default for Pixel {
    /// The all-black, fully opaque pixel.
    fn default() -> (p: Pixel)
        ensures
            p == (Pixel { r: 0x00, g: 0x00, b: 0x00, a: 0xff }),
    {
        Pixel { r: 0x00, g: 0x00, b: 0x00, a: 0xff }
    }
}

/// A raster image: `width * height` pixels in row-major order.
#[derive(Clone, Debug, Default, PartialEq)]
pub struct Image {
    pub width: u32,
    pub height: u32,
    pub data: Vec<Pixel>,
}

impl Image {
    /// A well-formed image stores exactly one pixel per raster cell.
    pub open spec fn wf(self) -> bool {
        self.data@.len() == self.width * self.height
    }

    /// A blank image of the given size, every pixel black and opaque.
    pub fn new(width: u32, height: u32) -> (img: Image)
        requires
            width * height <= usize::MAX,
        ensures
            img.wf(),
            img.width == width,
            img.height == height,
            forall|i: int|
                0 <= i < img.data@.len() ==> img.data@[i] == (Pixel {
                    r: 0x00,
                    g: 0x00,
                    b: 0x00,
                    a: 0xff,
                }),
    {
        let size: usize = (width as usize) * (height as usize);
        let mut data: Vec<Pixel> = Vec::new();
        let mut i: usize = 0;
        while i < size
            invariant
                i <= size,
                data@.len() == i,
                forall|j: int|
                    0 <= j < i ==> data@[j] == (Pixel { r: 0x00, g: 0x00, b: 0x00, a: 0xff }),
            decreases size - i,
        {
            data.push(Pixel::default());
            i = i + 1;
        }
        Image { width, height, data }
    }

    /// The pixel stored at flat row-major index `idx`.
    pub fn get_pixel(&self, idx: usize) -> (p: Pixel)
        requires
            idx < self.data@.len(),
        ensures
            p == self.data@[idx as int],
    {
        self.data[idx]
    }
}

} // verus!
