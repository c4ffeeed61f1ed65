//! Decoded pictures.
use vstd::prelude::*;

verus! {

/// Layout of the samples of a decoded picture.
#[derive(Debug, Clone, Copy, PartialEq, Eq, Structural)]
pub enum TiffPixelFormat {
    /// One byte per pixel, 0 is black.
    Gray8,
    /// One little-endian 16-bit word per pixel, 0 is black.
    Gray16Le,
    /// Three bytes per pixel: red, green, blue.
    Rgb24,
    /// Three little-endian 16-bit words per pixel: red, green, blue.
    Rgb48Le,
}

/// One plane of samples: rows of `stride` bytes.
#[derive(Debug, Clone)]
pub struct TiffPlane {
    /// Bytes from one row to the next.
    pub stride: usize,
    /// The rows, top to bottom.
    pub data: Vec<u8>,
}

/// A decoded picture.
#[derive(Debug, Clone)]
pub struct TiffImage {
    /// Width in pixels.
    pub width: u32,
    /// Height in pixels.
    pub height: u32,
    /// Layout of the samples.
    pub pixel_format: TiffPixelFormat,
    /// The planes; every supported layout has exactly one.
    pub planes: Vec<TiffPlane>,
}

/// A picture of one plane as a mathematical value.
pub struct ImageModel {
    pub width: int,
    pub height: int,
    pub pixel_format: TiffPixelFormat,
    pub stride: int,
    pub data: Seq<u8>,
}

/// Bytes of one pixel.
pub open spec fn pixel_size(f: TiffPixelFormat) -> int {
    match f {
        TiffPixelFormat::Gray8 => 1,
        TiffPixelFormat::Gray16Le => 2,
        TiffPixelFormat::Rgb24 => 3,
        TiffPixelFormat::Rgb48Le => 6,
    }
}

impl ImageModel {
    /// Rows without padding, one for each line of a picture that is not empty.
    pub open spec fn wf(self) -> bool {
        &&& 0 < self.width
        &&& 0 < self.height
        &&& self.width * self.height <= MAX_IMAGE_PIXELS
        &&& self.stride == self.width * pixel_size(self.pixel_format)
        &&& self.data.len() == self.width * self.height * pixel_size(self.pixel_format)
    }
}

/// Most pixels of a picture that this library reads.
pub const MAX_IMAGE_PIXELS: u64 = 268435456;

impl TiffImage {
    /// The picture as a mathematical value.
    pub open spec fn model(self) -> ImageModel {
        ImageModel {
            width: self.width as int,
            height: self.height as int,
            pixel_format: self.pixel_format,
            stride: self.planes@[0].stride as int,
            data: self.planes@[0].data@,
        }
    }

    /// The picture is the one described by `m`.
    pub open spec fn shows(self, m: ImageModel) -> bool {
        &&& self.width == m.width
        &&& self.height == m.height
        &&& self.pixel_format == m.pixel_format
        &&& self.planes@.len() == 1
        &&& self.planes@[0].stride == m.stride
        &&& self.planes@[0].data@ == m.data
    }
}

/// A picture of one plane.
pub(crate) fn single_plane(width: u32, height: u32, pixel_format: TiffPixelFormat, stride: usize, data: Vec<u8>) -> (img: TiffImage)
    ensures
        img.shows(
            (ImageModel {
                width: width as int,
                height: height as int,
                pixel_format,
                stride: stride as int,
                data: data@,
            }),
        ),
{
    let mut planes: Vec<TiffPlane> = Vec::new();
    planes.push(TiffPlane { stride, data });
    TiffImage { width, height, pixel_format, planes }
}

} // verus!
