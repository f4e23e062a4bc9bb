//! Raster images as plain values: a width, a height and four bytes per pixel.

use crate::error::PipelineError;
use vstd::prelude::*;
use vstd::slice::slice_to_vec;

verus! {

/// A raster as mathematical values: `pixels` holds red, green, blue and alpha
/// of each pixel, row by row.
pub struct Raster {
    pub width: nat,
    pub height: nat,
    pub pixels: Seq<u8>,
}

impl Raster {
    /// There are exactly four bytes for each pixel.
    pub open spec fn wf(self) -> bool {
        self.pixels.len() == 4 * self.width * self.height
    }
}

/// A decoded picture: RGBA, eight bits per channel, rows from top to bottom.
#[derive(Debug, Clone, PartialEq, Eq)]
pub struct RasterImage {
    /// Pixels per row.
    pub width: u32,
    /// Number of rows.
    pub height: u32,
    /// Four bytes per pixel: red, green, blue, alpha.
    pub data: Vec<u8>,
}

impl View for RasterImage {
    type V = Raster;

    open spec fn view(&self) -> Raster {
        Raster { width: self.width as nat, height: self.height as nat, pixels: self.data@ }
    }
}

impl RasterImage {
    /// There are exactly four bytes for each pixel.
    pub open spec fn wf(&self) -> bool {
        self@.wf()
    }

    /// Whether there are exactly four bytes for each pixel.
    pub fn is_wf(&self) -> (b: bool)
        ensures
            b == self.wf(),
    {
        has_pixel_count(self.data.len(), self.width, self.height)
    }
}

/// The views of a list of images, in order.
pub open spec fn rasters(images: Seq<RasterImage>) -> Seq<Raster> {
    images.map_values(|img: RasterImage| img@)
}

/// The pixel bytes of each raster of a list, in order.
pub open spec fn pixel_bytes(images: Seq<Raster>) -> Seq<Seq<u8>> {
    images.map_values(|img: Raster| img.pixels)
}

/// Whether `len` is four times `width` times `height`.
pub fn has_pixel_count(len: usize, width: u32, height: u32) -> (b: bool)
    ensures
        b == (len == 4 * width * height),
{
    assert(0 <= width * height <= 0xffff_ffff * 0xffff_ffff) by (nonlinear_arith)
        requires
            0 <= width <= 0xffff_ffff,
            0 <= height <= 0xffff_ffff,
    ;
    assert(4 * width * height == 4 * (width * height)) by (nonlinear_arith);
    let pixels: u64 = (width as u64) * (height as u64);
    let expected: u128 = 4 * (pixels as u128);
    len as u128 == expected
}

/// The image of the given size whose pixels are `data`, provided that `data`
/// holds exactly four bytes per pixel.
pub fn bti(data: &[u8], width: u32, height: u32) -> (r: Result<RasterImage, PipelineError>)
    ensures
        data@.len() == 4 * width * height ==> r is Ok && r->Ok_0@ == (Raster {
            width: width as nat,
            height: height as nat,
            pixels: data@,
        }),
        data@.len() != 4 * width * height ==> r == Err::<RasterImage, PipelineError>(
            PipelineError::DimensionMismatch,
        ),
{
    if !has_pixel_count(data.len(), width, height) {
        return Err(PipelineError::DimensionMismatch);
    }
    Ok(RasterImage { width, height, data: slice_to_vec(data) })
}

/// The pixel bytes of `img`.
pub fn itb(img: &RasterImage) -> (buf: Vec<u8>)
    ensures
        buf@ == img@.pixels,
{
    slice_to_vec(img.data.as_slice())
}

} // verus!
