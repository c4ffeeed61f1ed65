//! Numbers of the TIFF format: tags, field types, schemes.
use vstd::prelude::*;

verus! {

pub const BYTE_ORDER_LE: u16 = 0x4949;

pub const BYTE_ORDER_BE: u16 = 0x4D4D;

pub const TIFF_MAGIC: u16 = 42;

pub const BIGTIFF_MAGIC: u16 = 43;

pub const TYPE_BYTE: u16 = 1;

pub const TYPE_ASCII: u16 = 2;

pub const TYPE_SHORT: u16 = 3;

pub const TYPE_LONG: u16 = 4;

pub const TYPE_RATIONAL: u16 = 5;

pub const TYPE_SBYTE: u16 = 6;

pub const TYPE_UNDEFINED: u16 = 7;

pub const TYPE_SSHORT: u16 = 8;

pub const TYPE_SLONG: u16 = 9;

pub const TYPE_SRATIONAL: u16 = 10;

pub const TYPE_FLOAT: u16 = 11;

pub const TYPE_DOUBLE: u16 = 12;

pub const TYPE_IFD: u16 = 13;

pub const TYPE_LONG8: u16 = 16;

pub const TYPE_SLONG8: u16 = 17;

pub const TYPE_IFD8: u16 = 18;

pub const TAG_NEW_SUBFILE_TYPE: u16 = 254;

pub const TAG_IMAGE_WIDTH: u16 = 256;

pub const TAG_IMAGE_LENGTH: u16 = 257;

pub const TAG_BITS_PER_SAMPLE: u16 = 258;

pub const TAG_COMPRESSION: u16 = 259;

pub const TAG_PHOTOMETRIC_INTERPRETATION: u16 = 262;

pub const TAG_FILL_ORDER: u16 = 266;

pub const TAG_STRIP_OFFSETS: u16 = 273;

pub const TAG_ORIENTATION: u16 = 274;

pub const TAG_SAMPLES_PER_PIXEL: u16 = 277;

pub const TAG_ROWS_PER_STRIP: u16 = 278;

pub const TAG_STRIP_BYTE_COUNTS: u16 = 279;

pub const TAG_X_RESOLUTION: u16 = 282;

pub const TAG_Y_RESOLUTION: u16 = 283;

pub const TAG_PLANAR_CONFIGURATION: u16 = 284;

pub const TAG_RESOLUTION_UNIT: u16 = 296;

pub const TAG_PAGE_NUMBER: u16 = 297;

pub const TAG_SOFTWARE: u16 = 305;

pub const TAG_DATE_TIME: u16 = 306;

pub const TAG_PREDICTOR: u16 = 317;

pub const TAG_COLOR_MAP: u16 = 320;

pub const TAG_EXTRA_SAMPLES: u16 = 338;

pub const TAG_SAMPLE_FORMAT: u16 = 339;

pub const TAG_S_MIN_SAMPLE_VALUE: u16 = 340;

pub const TAG_S_MAX_SAMPLE_VALUE: u16 = 341;

pub const TAG_INK_SET: u16 = 332;

pub const TAG_NUMBER_OF_INKS: u16 = 334;

pub const INK_SET_CMYK: u16 = 1;

pub const TAG_TILE_WIDTH: u16 = 322;

pub const TAG_TILE_LENGTH: u16 = 323;

pub const TAG_TILE_OFFSETS: u16 = 324;

pub const TAG_TILE_BYTE_COUNTS: u16 = 325;

pub const TAG_T4_OPTIONS: u16 = 292;

pub const TAG_T6_OPTIONS: u16 = 293;

pub const TAG_JPEG_TABLES: u16 = 347;

pub const TAG_JPEG_PROC: u16 = 512;

pub const TAG_JPEG_INTERCHANGE_FORMAT: u16 = 513;

pub const TAG_JPEG_INTERCHANGE_FORMAT_LENGTH: u16 = 514;

pub const TAG_JPEG_RESTART_INTERVAL: u16 = 515;

pub const TAG_JPEG_LOSSLESS_PREDICTORS: u16 = 517;

pub const TAG_JPEG_POINT_TRANSFORMS: u16 = 518;

pub const TAG_JPEG_Q_TABLES: u16 = 519;

pub const TAG_JPEG_DC_TABLES: u16 = 520;

pub const TAG_JPEG_AC_TABLES: u16 = 521;

pub const JPEG_PROC_BASELINE: u16 = 1;

pub const JPEG_PROC_LOSSLESS: u16 = 14;

pub const T4OPT_2D_CODING: u32 = 1;

pub const T4OPT_UNCOMPRESSED: u32 = 2;

pub const T4OPT_EOL_BYTE_ALIGNED: u32 = 4;

pub const T6OPT_UNCOMPRESSED: u32 = 2;

pub const TAG_YCBCR_COEFFICIENTS: u16 = 529;

pub const TAG_YCBCR_SUBSAMPLING: u16 = 530;

pub const TAG_YCBCR_POSITIONING: u16 = 531;

pub const TAG_REFERENCE_BLACK_WHITE: u16 = 532;

pub const TAG_SUB_IFDS: u16 = 330;

pub const TAG_EXIF_IFD: u16 = 34665;

pub const TAG_GPS_IFD: u16 = 34853;

pub const COMPRESSION_NONE: u16 = 1;

pub const COMPRESSION_CCITT_HUFFMAN: u16 = 2;

pub const COMPRESSION_CCITT_T4: u16 = 3;

pub const COMPRESSION_CCITT_T6: u16 = 4;

pub const COMPRESSION_LZW: u16 = 5;

pub const COMPRESSION_JPEG_OLD: u16 = 6;

pub const COMPRESSION_JPEG_NEW: u16 = 7;

pub const COMPRESSION_DEFLATE_ADOBE: u16 = 8;

pub const COMPRESSION_PACKBITS: u16 = 32773;

pub const COMPRESSION_ZSTD: u16 = 50000;

pub const PHOTO_WHITE_IS_ZERO: u16 = 0;

pub const PHOTO_BLACK_IS_ZERO: u16 = 1;

pub const PHOTO_RGB: u16 = 2;

pub const PHOTO_PALETTE: u16 = 3;

pub const PHOTO_TRANSPARENCY_MASK: u16 = 4;

pub const PHOTO_CMYK: u16 = 5;

pub const PHOTO_YCBCR: u16 = 6;

pub const PHOTO_CIELAB: u16 = 8;

pub const PREDICTOR_NONE: u16 = 1;

pub const PREDICTOR_HORIZONTAL: u16 = 2;

pub const PREDICTOR_FLOAT: u16 = 3;

pub const SAMPLE_FORMAT_UINT: u16 = 1;

pub const SAMPLE_FORMAT_SINT: u16 = 2;

pub const SAMPLE_FORMAT_IEEE_FP: u16 = 3;

pub const SAMPLE_FORMAT_UNDEFINED: u16 = 4;

pub const EXTRA_SAMPLE_UNSPECIFIED: u16 = 0;

pub const EXTRA_SAMPLE_ASSOCIATED_ALPHA: u16 = 1;

pub const EXTRA_SAMPLE_UNASSOCIATED_ALPHA: u16 = 2;

pub const PLANAR_CHUNKY: u16 = 1;

pub const PLANAR_SEPARATE: u16 = 2;

pub const RESOLUTION_UNIT_NONE: u16 = 1;

pub const RESOLUTION_UNIT_INCH: u16 = 2;

pub const RESOLUTION_UNIT_CENTIMETER: u16 = 3;

pub const COMPRESSION_WEBP: u16 = 50001;

pub const TAG_DOCUMENT_NAME: u16 = 269;

pub const TAG_IMAGE_DESCRIPTION: u16 = 270;

pub const TAG_MAKE: u16 = 271;

pub const TAG_MODEL: u16 = 272;

pub const TAG_PAGE_NAME: u16 = 285;

pub const TAG_ARTIST: u16 = 315;

pub const TAG_HOST_COMPUTER: u16 = 316;

pub const TAG_COPYRIGHT: u16 = 33432;

pub const TAG_SUBFILE_TYPE: u16 = 255;

/// Bytes taken by one value of field type `t`; 0 for an unknown type.
pub open spec fn spec_type_size(t: u16) -> u32 {
    if t == TYPE_BYTE || t == TYPE_ASCII || t == TYPE_SBYTE || t == TYPE_UNDEFINED {
        1
    } else if t == TYPE_SHORT || t == TYPE_SSHORT {
        2
    } else if t == TYPE_LONG || t == TYPE_SLONG || t == TYPE_FLOAT || t == TYPE_IFD {
        4
    } else if t == TYPE_RATIONAL || t == TYPE_SRATIONAL || t == TYPE_DOUBLE || t == TYPE_LONG8
        || t == TYPE_SLONG8 || t == TYPE_IFD8 {
        8
    } else {
        0
    }
}

/// Bytes taken by one value of field type `t`; 0 for an unknown type.
pub fn type_size(t: u16) -> (n: u32)
    ensures
        n == spec_type_size(t),
{
    match t {
        TYPE_BYTE | TYPE_ASCII | TYPE_SBYTE | TYPE_UNDEFINED => 1,
        TYPE_SHORT | TYPE_SSHORT => 2,
        TYPE_LONG | TYPE_SLONG | TYPE_FLOAT | TYPE_IFD => 4,
        TYPE_RATIONAL | TYPE_SRATIONAL | TYPE_DOUBLE => 8,
        TYPE_LONG8 | TYPE_SLONG8 | TYPE_IFD8 => 8,
        _ => 0,
    }
}

} // verus!
