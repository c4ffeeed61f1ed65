//! TIFF 6.0 reader and writer with machine-checked contracts.
#![allow(unused_imports)]

pub mod bits;
pub mod ccitt;
pub mod cielab;
pub mod codecs;
pub mod compress;
pub mod container;
pub mod decoder;
pub mod encoder;
pub mod error;
pub mod fax;
pub mod fax_tables;
pub mod fields;
pub mod huffman;
pub mod huffman_optimal;
pub mod huffman_stats;
pub mod ifd;
pub mod image;
pub mod jpeg;
pub mod jpeg_cuts;
pub mod jpeg_enc;
pub mod jpeg_exact;
pub mod jpeg_old;
pub mod jpeg_pages;
pub mod jpeg_reading;
pub mod jpeg_shown;
pub mod jpeg_wrap;
pub mod layout;
pub mod lzw;
pub mod metadata;
pub mod metadata_members;
pub mod negatives;
pub mod page;
pub mod page_fields;
pub mod pictures;
pub mod plain_pages;
pub mod predictor;
pub mod readable;
pub mod readback;
pub mod refusals;
pub mod render;
pub mod replies;
pub mod segments;
pub mod session;
pub mod shown;
pub mod stored;
pub mod types;
pub mod webp;

pub use decoder::{decode_tiff, decode_tiff_all, DecodedTiff};
pub use encoder::{encode_tiff, encode_tiff_multi, EncodePage, EncodePixelFormat, RgbColor, TiffCompression};
pub use error::{Result, TiffError};
pub use image::{TiffImage, TiffPixelFormat, TiffPlane};
pub use jpeg_enc::JpegProcess;
pub use jpeg_wrap::{JpegOptions, JpegTablesLayout};

use vstd::prelude::*;

verus! {

/// Name of the codec in a registry of codecs.
pub const CODEC_ID_STR: &'static str = "tiff";

} // verus!
