//! Encoding of TIFF files: what the pages of a file hold, and how they are
//! written.
use vstd::prelude::*;
use crate::ccitt::{ccitt_encode, clean_rows, encode_ccitt, law_ccitt_roundtrip, row_size, CcittVariant, FillOrder};
use crate::compress::{law_packbits_roundtrip, min_int, pack_deflate, pack_packbits, pack_zstd};
use crate::compress::{packbits_encode, zlib_deflated, zstd_frame, MAX_CODEC_OUTPUT};
use crate::error::{bytes_agree, invalid_with, ErrorKind, Outcome, Result, TiffError};
use crate::jpeg::{bytes_model, JpegReply};
use crate::ifd::{copy_range, TiffVariant};
use crate::layout::{field_models, joined, le, le_list, le_parts, lemma_le_len, lemma_le_list, push_le, room_of};
use crate::layout::{lemma_joined_mono, lemma_order, lemma_page_len, write_page, FieldModel, FieldValue, PlanModel, PlannedField, PlannedPage, ValueModel};
use crate::lzw::{law_lzw_roundtrip, lzw_encode, pack_lzw};
use crate::predictor::{differenced_rows, forward_horizontal_predictor, rows_fit};
use crate::decoder::{all_images, first_image};
use crate::readable::law_read_back;
use crate::readback::{page_outcome, pages_outcome};
use crate::render::{ceil_div, lemma_origin, lemma_pixel_place, lemma_row_byte};
use crate::segments::{bytes_or_invalid, div_up, outcome_bytes, plane_bytes, unpacked, Coding};
use crate::types::{spec_type_size, COMPRESSION_CCITT_HUFFMAN, COMPRESSION_CCITT_T4, COMPRESSION_CCITT_T6};
use crate::types::{COMPRESSION_DEFLATE_ADOBE, COMPRESSION_LZW, COMPRESSION_NONE, COMPRESSION_PACKBITS, COMPRESSION_WEBP};
use crate::types::{COMPRESSION_ZSTD, PHOTO_BLACK_IS_ZERO, PHOTO_CIELAB, PHOTO_CMYK, PHOTO_PALETTE, PHOTO_RGB};
use crate::types::{PHOTO_TRANSPARENCY_MASK, PHOTO_WHITE_IS_ZERO, PLANAR_CHUNKY, PLANAR_SEPARATE, PREDICTOR_HORIZONTAL};
use crate::types::{TAG_BITS_PER_SAMPLE, TAG_COLOR_MAP, TAG_COMPRESSION, TAG_IMAGE_LENGTH, TAG_IMAGE_WIDTH};
use crate::types::{TAG_NEW_SUBFILE_TYPE, TAG_PHOTOMETRIC_INTERPRETATION, TAG_PLANAR_CONFIGURATION, TAG_PREDICTOR};
use crate::types::{TAG_ROWS_PER_STRIP, TAG_SAMPLES_PER_PIXEL, TAG_STRIP_BYTE_COUNTS, TAG_STRIP_OFFSETS, TAG_T4_OPTIONS};
use crate::types::{TAG_T6_OPTIONS, TAG_TILE_BYTE_COUNTS, TAG_TILE_LENGTH, TAG_TILE_OFFSETS, TAG_TILE_WIDTH};
use crate::types::{BIGTIFF_MAGIC, BYTE_ORDER_LE, TIFF_MAGIC, TYPE_LONG, TYPE_LONG8, TYPE_SHORT};
use crate::webp::{law_webp_back, pack_webp, take_webp, webp_fits, webp_holds, webp_packed, with_alpha, WebpReply};
use crate::webp::WEBP_MAX_SIDE;

verus! {

/// A colour of a palette: red, green, blue.
pub type RgbColor = [u8; 3];

/// The pixels of a page.
#[derive(Debug, Clone, Copy)]
pub enum EncodePixelFormat<'a> {
    /// One bit for each pixel, 0 white and 1 black, every row in whole bytes.
    Bilevel { pixels: &'a [u8] },
    /// One bit for each pixel, 1 inside and 0 outside of a region, every row in
    /// whole bytes.
    TransparencyMask { pixels: &'a [u8] },
    /// One byte for each pixel, 0 is black.
    Gray8 { pixels: &'a [u8] },
    /// One little-endian 16-bit word for each pixel, 0 is black.
    Gray16Le { pixels: &'a [u8] },
    /// Red, green and blue bytes.
    Rgb24 { pixels: &'a [u8] },
    /// One byte for each pixel, an index into a palette of at least one colour;
    /// colours after the first 256 are not used.
    Palette8 { indices: &'a [u8], palette: &'a [RgbColor] },
    /// L*, a* and b* bytes.
    CieLab8 { pixels: &'a [u8] },
    /// L* bytes.
    CieLabL8 { pixels: &'a [u8] },
    /// Cyan, magenta, yellow and black bytes.
    Cmyk32 { pixels: &'a [u8] },
}

/// How a page is compressed.
#[derive(Debug, Clone, Copy)]
pub enum TiffCompression {
    /// As the bytes are.
    Uncompressed,
    PackBits,
    Lzw,
    Deflate,
    /// One Zstandard frame for each strip or tile.
    Zstd,
    /// One lossless WebP file for each strip or tile.
    WebP,
    /// CCITT modified Huffman.
    CcittRle,
    /// CCITT T.4 in one dimension.
    CcittT4OneD { eol_byte_aligned: bool },
    /// CCITT T.4 in two dimensions.
    CcittT4TwoD { eol_byte_aligned: bool },
    /// CCITT T.6.
    CcittT6,
}

/// A page to be encoded.
#[derive(Debug, Clone, Copy)]
pub struct EncodePage<'a> {
    /// Width in pixels.
    pub width: u32,
    /// Height in pixels.
    pub height: u32,
    /// The pixels.
    pub kind: EncodePixelFormat<'a>,
    /// How they are compressed.
    pub compression: TiffCompression,
    /// Store horizontal differences of the samples.
    pub predictor: bool,
    /// Store each component of the pixels apart.
    pub planar: bool,
    /// Width and height of tiles, for a page in tiles.
    pub tiling: Option<(u32, u32)>,
    /// Write the BigTIFF variant of the format.
    pub bigtiff: bool,
}

impl<'a> EncodePixelFormat<'a> {
    /// The stored bytes of all pixels.
    pub open spec fn bytes(self) -> Seq<u8> {
        match self {
            EncodePixelFormat::Bilevel { pixels } => pixels@,
            EncodePixelFormat::TransparencyMask { pixels } => pixels@,
            EncodePixelFormat::Gray8 { pixels } => pixels@,
            EncodePixelFormat::Gray16Le { pixels } => pixels@,
            EncodePixelFormat::Rgb24 { pixels } => pixels@,
            EncodePixelFormat::Palette8 { indices, palette } => indices@,
            EncodePixelFormat::CieLab8 { pixels } => pixels@,
            EncodePixelFormat::CieLabL8 { pixels } => pixels@,
            EncodePixelFormat::Cmyk32 { pixels } => pixels@,
        }
    }

    /// Samples of a pixel.
    pub open spec fn samples(self) -> u16 {
        match self {
            EncodePixelFormat::Rgb24 { .. } | EncodePixelFormat::CieLab8 { .. } => 3,
            EncodePixelFormat::Cmyk32 { .. } => 4,
            _ => 1,
        }
    }

    /// Bits of a sample.
    pub open spec fn bits(self) -> u16 {
        match self {
            EncodePixelFormat::Bilevel { .. } | EncodePixelFormat::TransparencyMask { .. } => 1,
            EncodePixelFormat::Gray16Le { .. } => 16,
            _ => 8,
        }
    }

    /// The PhotometricInterpretation field.
    pub open spec fn photometric(self) -> u16 {
        match self {
            EncodePixelFormat::Bilevel { .. } => PHOTO_WHITE_IS_ZERO,
            EncodePixelFormat::TransparencyMask { .. } => PHOTO_TRANSPARENCY_MASK,
            EncodePixelFormat::Gray8 { .. } | EncodePixelFormat::Gray16Le { .. } => PHOTO_BLACK_IS_ZERO,
            EncodePixelFormat::Rgb24 { .. } => PHOTO_RGB,
            EncodePixelFormat::Palette8 { .. } => PHOTO_PALETTE,
            EncodePixelFormat::CieLab8 { .. } | EncodePixelFormat::CieLabL8 { .. } => PHOTO_CIELAB,
            EncodePixelFormat::Cmyk32 { .. } => PHOTO_CMYK,
        }
    }

    fn data(&self) -> (b: &'a [u8])
        ensures
            b@ == self.bytes(),
    {
        match self {
            EncodePixelFormat::Bilevel { pixels } => pixels,
            EncodePixelFormat::TransparencyMask { pixels } => pixels,
            EncodePixelFormat::Gray8 { pixels } => pixels,
            EncodePixelFormat::Gray16Le { pixels } => pixels,
            EncodePixelFormat::Rgb24 { pixels } => pixels,
            EncodePixelFormat::Palette8 { indices, palette } => indices,
            EncodePixelFormat::CieLab8 { pixels } => pixels,
            EncodePixelFormat::CieLabL8 { pixels } => pixels,
            EncodePixelFormat::Cmyk32 { pixels } => pixels,
        }
    }

    fn layout(&self) -> (l: (u16, u16, u16))
        ensures
            l.0 == self.samples(),
            l.1 == self.bits(),
            l.2 == self.photometric(),
    {
        match self {
            EncodePixelFormat::Bilevel { .. } => (1, 1, PHOTO_WHITE_IS_ZERO),
            EncodePixelFormat::TransparencyMask { .. } => (1, 1, PHOTO_TRANSPARENCY_MASK),
            EncodePixelFormat::Gray8 { .. } => (1, 8, PHOTO_BLACK_IS_ZERO),
            EncodePixelFormat::Gray16Le { .. } => (1, 16, PHOTO_BLACK_IS_ZERO),
            EncodePixelFormat::Rgb24 { .. } => (3, 8, PHOTO_RGB),
            EncodePixelFormat::Palette8 { .. } => (1, 8, PHOTO_PALETTE),
            EncodePixelFormat::CieLab8 { .. } => (3, 8, PHOTO_CIELAB),
            EncodePixelFormat::CieLabL8 { .. } => (1, 8, PHOTO_CIELAB),
            EncodePixelFormat::Cmyk32 { .. } => (4, 8, PHOTO_CMYK),
        }
    }
}

// ----------------------------------------------------------------------
// Compression
// ----------------------------------------------------------------------

impl TiffCompression {
    /// The Compression field.
    pub open spec fn tag(self) -> u16 {
        match self {
            TiffCompression::Uncompressed => COMPRESSION_NONE,
            TiffCompression::PackBits => COMPRESSION_PACKBITS,
            TiffCompression::Lzw => COMPRESSION_LZW,
            TiffCompression::Deflate => COMPRESSION_DEFLATE_ADOBE,
            TiffCompression::Zstd => COMPRESSION_ZSTD,
            TiffCompression::WebP => COMPRESSION_WEBP,
            TiffCompression::CcittRle => COMPRESSION_CCITT_HUFFMAN,
            TiffCompression::CcittT4OneD { .. } | TiffCompression::CcittT4TwoD { .. } => COMPRESSION_CCITT_T4,
            TiffCompression::CcittT6 => COMPRESSION_CCITT_T6,
        }
    }

    /// The T4Options field.
    pub open spec fn t4_flags(self) -> u32 {
        match self {
            TiffCompression::CcittT4OneD { eol_byte_aligned } => if eol_byte_aligned { 4 } else { 0 },
            TiffCompression::CcittT4TwoD { eol_byte_aligned } => if eol_byte_aligned { 5 } else { 1 },
            _ => 0,
        }
    }

    /// A scheme for one-bit samples.
    pub open spec fn ccitt(self) -> bool {
        self is CcittRle || self is CcittT4OneD || self is CcittT4TwoD || self is CcittT6
    }

    /// The bytes `raw` of `width` by `rows` pixels, compressed.
    pub open spec fn packed(self, raw: Seq<u8>, width: u32, rows: u32, reply: WebpReply) -> Option<Seq<u8>> {
        let w = width as int;
        let h = rows as int;
        match self {
            TiffCompression::Uncompressed => Some(raw),
            TiffCompression::PackBits => Some(packbits_encode(raw, 0)),
            TiffCompression::Lzw => Some(lzw_encode(raw)),
            TiffCompression::Deflate => zlib_deflated(raw),
            TiffCompression::Zstd => zstd_frame(raw),
            TiffCompression::WebP => webp_packed(raw, width, rows, reply),
            TiffCompression::CcittRle => outcome_bytes(
                ccitt_encode(raw, w, h, CcittVariant::ModifiedHuffman, FillOrder::MsbFirst),
            ),
            TiffCompression::CcittT4OneD { eol_byte_aligned } => outcome_bytes(
                ccitt_encode(raw, w, h, CcittVariant::T4OneD { eol_byte_aligned }, FillOrder::MsbFirst),
            ),
            TiffCompression::CcittT4TwoD { eol_byte_aligned } => outcome_bytes(
                ccitt_encode(raw, w, h, CcittVariant::T4TwoD { eol_byte_aligned }, FillOrder::MsbFirst),
            ),
            TiffCompression::CcittT6 => outcome_bytes(ccitt_encode(raw, w, h, CcittVariant::T6, FillOrder::MsbFirst)),
        }
    }

    /// The coding reads what this scheme writes.
    pub open spec fn read_by(self, c: Coding) -> bool {
        &&& c.compression == self.tag()
        &&& c.fill == FillOrder::MsbFirst
        &&& self is CcittT4OneD || self is CcittT4TwoD ==> c.t4_options == self.t4_flags()
        &&& self is CcittT6 ==> c.t6_options == 0
    }

    /// Bytes `raw` of `width` by `rows` pixels of `samples` samples come back from
    /// this scheme.
    pub open spec fn restorable(self, raw: Seq<u8>, width: int, rows: int, samples: int) -> bool {
        &&& self is Deflate || self is Zstd ==> raw.len() <= MAX_CODEC_OUTPUT
        &&& self is WebP ==> raw.len() == width * rows * samples
        &&& self.ccitt() ==> width > 0
    }

    /// What comes back from this scheme: all bytes, or those of one-bit rows with
    /// the bits that fill up the last byte of each row cleared.
    pub open spec fn restored(self, raw: Seq<u8>, width: int, rows: int) -> Seq<u8> {
        if self.ccitt() { clean_rows(raw, width, 0, rows) } else { raw }
    }

    /// The Compression field.
    pub fn tag_value(self) -> (t: u16)
        ensures
            t == self.tag(),
    {
        match self {
            TiffCompression::Uncompressed => COMPRESSION_NONE,
            TiffCompression::PackBits => COMPRESSION_PACKBITS,
            TiffCompression::Lzw => COMPRESSION_LZW,
            TiffCompression::Deflate => COMPRESSION_DEFLATE_ADOBE,
            TiffCompression::Zstd => COMPRESSION_ZSTD,
            TiffCompression::WebP => COMPRESSION_WEBP,
            TiffCompression::CcittRle => COMPRESSION_CCITT_HUFFMAN,
            TiffCompression::CcittT4OneD { .. } | TiffCompression::CcittT4TwoD { .. } => COMPRESSION_CCITT_T4,
            TiffCompression::CcittT6 => COMPRESSION_CCITT_T6,
        }
    }

    /// Whether this is a scheme for one-bit samples.
    pub fn is_ccitt(self) -> (b: bool)
        ensures
            b == self.ccitt(),
    {
        match self {
            TiffCompression::CcittRle
            | TiffCompression::CcittT4OneD { .. }
            | TiffCompression::CcittT4TwoD { .. }
            | TiffCompression::CcittT6 => true,
            _ => false,
        }
    }

    /// What the WebP encoder made of bytes is what it owes: a file where one can be
    /// made of them, and none but one that decodes to their pixels.
    pub open spec fn faithful(self, raw: Seq<u8>, width: u32, rows: u32, reply: WebpReply) -> bool {
        self is WebP ==> {
            &&& self.packed(raw, width, rows, reply) matches Some(file) ==> webp_holds(file, raw, width, rows)
            &&& webp_fits(raw, width, rows) ==> reply is Some
        }
    }

    /// Compresses the bytes of `width` by `rows` pixels, given what the WebP encoder
    /// made of them. Unpacking the result gives the bytes back.
    pub fn pack(self, raw: &[u8], width: u32, rows: u32, reply: Option<&[u8]>) -> (r: Result<Vec<u8>>)
        ensures
            bytes_or_invalid(r, self.packed(raw@, width, rows, bytes_model(reply))),
            self.faithful(raw@, width, rows, bytes_model(reply)) ==> (r matches Ok(v) ==> forall|c: Coding|
                self.read_by(c) && self.restorable(raw@, width as int, rows as int, c.samples as int) ==> (
                #[trigger] unpacked(v@, raw@.len() as int, width as int, rows as int, c)) == Some(
                    self.restored(raw@, width as int, rows as int),
                )),
            self is Deflate || self is Zstd ==> (r matches Ok(v) ==> forall|size: int, c: Coding|
                0 <= size && self.read_by(c) ==> ((#[trigger] unpacked(
                    v@,
                    size,
                    width as int,
                    rows as int,
                    c,
                )) matches Some(d) ==> d.len() <= MAX_CODEC_OUTPUT)),
    {
        match self {
            TiffCompression::Uncompressed => {
                assert(raw@.subrange(0, raw@.len() as int) =~= raw@);
                Ok(copy_range(raw, 0, raw.len()))
            },
            TiffCompression::PackBits => {
                proof {
                    law_packbits_roundtrip(raw@);
                }
                Ok(pack_packbits(raw))
            },
            TiffCompression::Lzw => {
                proof {
                    law_lzw_roundtrip(raw@, raw@.len() as int);
                }
                Ok(pack_lzw(raw))
            },
            TiffCompression::Deflate => pack_deflate(raw),
            TiffCompression::Zstd => pack_zstd(raw),
            TiffCompression::WebP => {
                let r = take_webp(raw, width, rows, reply);
                proof {
                    if self.faithful(raw@, width, rows, bytes_model(reply)) && r is Ok {
                        assert forall|c: Coding|
                            self.read_by(c) && self.restorable(raw@, width as int, rows as int, c.samples as int) implies (
                        #[trigger] unpacked(r->Ok_0@, raw@.len() as int, width as int, rows as int, c)) == Some(raw@) by {
                            law_webp_back(r->Ok_0@, raw@, width, rows, c.samples as int);
                        }
                    }
                }
                r
            },
            TiffCompression::CcittRle => {
                proof {
                    lemma_ccitt_back(raw@, width as int, rows as int, CcittVariant::ModifiedHuffman);
                }
                encode_ccitt(raw, width, rows, CcittVariant::ModifiedHuffman, FillOrder::MsbFirst)
            },
            TiffCompression::CcittT4OneD { eol_byte_aligned } => {
                proof {
                    lemma_ccitt_back(raw@, width as int, rows as int, CcittVariant::T4OneD { eol_byte_aligned });
                }
                encode_ccitt(raw, width, rows, CcittVariant::T4OneD { eol_byte_aligned }, FillOrder::MsbFirst)
            },
            TiffCompression::CcittT4TwoD { eol_byte_aligned } => {
                proof {
                    lemma_ccitt_back(raw@, width as int, rows as int, CcittVariant::T4TwoD { eol_byte_aligned });
                }
                encode_ccitt(raw, width, rows, CcittVariant::T4TwoD { eol_byte_aligned }, FillOrder::MsbFirst)
            },
            TiffCompression::CcittT6 => {
                proof {
                    lemma_ccitt_back(raw@, width as int, rows as int, CcittVariant::T6);
                }
                encode_ccitt(raw, width, rows, CcittVariant::T6, FillOrder::MsbFirst)
            },
        }
    }
}

proof fn lemma_ccitt_back(raw: Seq<u8>, width: int, rows: int, variant: CcittVariant)
    requires
        width >= 0,
        rows >= 0,
    ensures
        width > 0 ==> (ccitt_encode(raw, width, rows, variant, FillOrder::MsbFirst) matches Ok(v)
            ==> crate::ccitt::ccitt_decode(v, width, rows, variant, FillOrder::MsbFirst) == Outcome::<Seq<u8>>::Ok(
            clean_rows(raw, width, 0, rows),
        )),
{
    if width > 0 && ccitt_encode(raw, width, rows, variant, FillOrder::MsbFirst) is Ok {
        law_ccitt_roundtrip(raw, width, rows, variant, FillOrder::MsbFirst);
    }
}

// ----------------------------------------------------------------------
// What a page must be like
// ----------------------------------------------------------------------

/// What the WebP encoder made of strip or tile `i`; nothing where it was not asked.
pub open spec fn reply_at(replies: Seq<WebpReply>, i: int) -> WebpReply {
    if 0 <= i < replies.len() { replies[i] } else { None }
}

/// Files that were made of strips or tiles, as mathematical values.
pub open spec fn reply_models(v: Seq<Option<Vec<u8>>>) -> Seq<WebpReply> {
    Seq::new(
        v.len(),
        |i: int|
            match v[i] {
                Some(f) => Some(f@),
                None => None,
            },
    )
}

/// What was made of the strips or tiles of page `k`.
pub open spec fn replies_at(replies: Seq<Seq<WebpReply>>, k: int) -> Seq<WebpReply> {
    if 0 <= k < replies.len() { replies[k] } else { Seq::empty() }
}

/// What was made of the strips or tiles of some pages, as mathematical values.
pub open spec fn page_replies(v: Seq<Vec<Option<Vec<u8>>>>) -> Seq<Seq<WebpReply>> {
    Seq::new(v.len(), |k: int| reply_models(v[k]@))
}

impl<'a> EncodePage<'a> {
    /// Bytes of a sample of more than one bit.
    pub open spec fn sample_bytes(self) -> int {
        self.kind.bits() as int / 8
    }

    /// Bytes of all pixels.
    pub open spec fn stored_size(self) -> int {
        if self.kind.bits() == 1 {
            row_size(self.width as int) * self.height
        } else {
            self.width * self.height * (self.kind.samples() * self.sample_bytes())
        }
    }

    /// The palette, where there is one, has colours.
    pub open spec fn palette_ok(self) -> bool {
        self.kind matches EncodePixelFormat::Palette8 { indices, palette } ==> palette@.len() > 0
    }

    /// Tiles are of whole 16ths.
    pub open spec fn tiling_ok(self) -> bool {
        self.tiling matches Some(t) ==> {
            &&& t.0 > 0
            &&& t.1 > 0
            &&& t.0 % 16 == 0
            &&& t.1 % 16 == 0
            &&& self.kind.bits() != 1
        }
    }

    /// The parts of the request go together: CCITT schemes are for one-bit
    /// samples, only several components can be stored apart, one-bit samples have
    /// neither tiles nor differences, and there is a byte for every pixel.
    pub open spec fn consistent(self) -> bool {
        &&& self.compression.ccitt() ==> self.kind.bits() == 1
        &&& self.planar ==> self.kind.samples() > 1
        &&& self.tiling_ok()
        &&& self.predictor ==> self.kind.bits() != 1
        &&& self.kind.bytes().len() == self.stored_size()
        &&& self.palette_ok()
    }

    /// Width of a strip or tile.
    pub open spec fn seg_w(self) -> u32 {
        match self.tiling {
            None => self.width,
            Some(t) => t.0,
        }
    }

    /// Height of a strip or tile.
    pub open spec fn seg_h(self) -> u32 {
        match self.tiling {
            None => self.height,
            Some(t) => t.1,
        }
    }

    /// Strips or tiles side by side.
    pub open spec fn across(self) -> int {
        if self.tiling is Some { ceil_div(self.width as int, self.seg_w() as int) } else { 1 }
    }

    /// Strips or tiles above each other.
    pub open spec fn down(self) -> int {
        if self.tiling is Some { ceil_div(self.height as int, self.seg_h() as int) } else { 1 }
    }

    /// Parts that each have their own strips or tiles.
    pub open spec fn planes(self) -> int {
        if self.planar { self.kind.samples() as int } else { 1 }
    }

    /// Samples of a pixel of a strip or tile.
    pub open spec fn seg_samples(self) -> u16 {
        if self.planar { 1 } else { self.kind.samples() }
    }

    /// Number of strips or tiles.
    pub open spec fn seg_count(self) -> int {
        self.planes() * (self.across() * self.down())
    }

    /// Bytes of a pixel of a strip or tile.
    pub open spec fn seg_pixel(self) -> int {
        self.seg_samples() * self.sample_bytes()
    }

    /// Bytes of a row of a strip or tile.
    pub open spec fn seg_row(self) -> int {
        self.seg_w() * self.seg_pixel()
    }

    /// Bytes of a strip or tile.
    pub open spec fn seg_size(self) -> int {
        if self.kind.bits() == 1 { self.stored_size() } else { self.seg_h() * self.seg_row() }
    }

    /// Place, in the bytes of all pixels, of byte `j` of strip or tile `i`. Beyond
    /// the right and bottom edges of the page the last column and row repeat.
    pub open spec fn source_byte(self, i: int, j: int) -> int {
        let grid = self.across() * self.down();
        let y = min_int(i % grid / self.across() * self.seg_h() + j / self.seg_row(), self.height - 1);
        let x = min_int(
            i % grid % self.across() * self.seg_w() + j % self.seg_row() / self.seg_pixel(),
            self.width - 1,
        );
        (y * self.width + x) * (self.kind.samples() * self.sample_bytes()) + (i / grid * self.sample_bytes() + j
            % self.seg_row() % self.seg_pixel())
    }

    /// The bytes of strip or tile `i`.
    pub open spec fn raw_segment(self, i: int) -> Seq<u8> {
        if self.tiling is None && !self.planar {
            self.kind.bytes()
        } else {
            Seq::new(self.seg_size() as nat, |j: int| self.kind.bytes()[self.source_byte(i, j)])
        }
    }

    /// The bytes of strip or tile `i`, differenced where that is asked for.
    pub open spec fn stored_segment(self, i: int) -> Seq<u8> {
        if self.predictor {
            differenced_rows(
                self.raw_segment(i),
                self.seg_w() as int,
                self.seg_h() as int,
                self.seg_samples() as int,
                self.kind.bits() as int,
                self.seg_row(),
            ).unwrap()
        } else {
            self.raw_segment(i)
        }
    }

    /// Strip or tile `i` as it stands in the file, given what the WebP encoder made
    /// of each.
    pub open spec fn packed_segment(self, i: int, replies: Seq<WebpReply>) -> Option<Seq<u8>> {
        self.compression.packed(self.stored_segment(i), self.seg_w(), self.seg_h(), reply_at(replies, i))
    }

    /// The strips or tiles as they stand in the file; nothing where there are none,
    /// where memory could not address them, or where one cannot be compressed.
    pub open spec fn packed_segments(self, replies: Seq<WebpReply>) -> Option<Seq<Seq<u8>>> {
        if self.seg_count() == 0 || self.seg_size() > usize::MAX || exists|i: int|
            0 <= i < self.seg_count() && (#[trigger] self.packed_segment(i, replies)) is None {
            None
        } else {
            Some(Seq::new(self.seg_count() as nat, |i: int| self.packed_segment(i, replies).unwrap()))
        }
    }

    /// What the WebP encoder made of each strip or tile is what it owes: a file where
    /// one can be made of it, and none but one that decodes to its pixels.
    pub open spec fn replies_hold(self, replies: Seq<WebpReply>) -> bool {
        self.consistent() && self.seg_size() <= usize::MAX ==> forall|i: int|
            0 <= i < self.seg_count() ==> self.compression.faithful(
                #[trigger] self.stored_segment(i),
                self.seg_w(),
                self.seg_h(),
                reply_at(replies, i),
            )
    }

    /// Every strip or tile of `segments` gives its bytes back when it is unpacked.
    pub open spec fn segments_unpack(self, segments: Seq<Seq<u8>>) -> bool {
        forall|i: int, c: Coding|
            0 <= i < self.seg_count() && self.compression.read_by(c) && self.compression.restorable(
                self.stored_segment(i),
                self.seg_w() as int,
                self.seg_h() as int,
                c.samples as int,
            ) ==> #[trigger] unpacked(
                segments[i],
                self.stored_segment(i).len() as int,
                self.seg_w() as int,
                self.seg_h() as int,
                c,
            ) == Some(
                self.compression.restored(self.stored_segment(i), self.seg_w() as int, self.seg_h() as int),
            )
    }

    /// No Deflate or Zstandard strip or tile of `segments` decompresses to more than
    /// codecs may make.
    pub open spec fn segments_bounded(self, segments: Seq<Seq<u8>>) -> bool {
        self.compression is Deflate || self.compression is Zstd ==> forall|i: int, c: Coding|
            0 <= i < self.seg_count() && self.compression.read_by(c) ==> ((#[trigger] unpacked(
                segments[i],
                self.seg_size(),
                self.seg_w() as int,
                self.seg_h() as int,
                c,
            )) matches Some(d) ==> d.len() <= MAX_CODEC_OUTPUT)
    }

    /// The strips or tiles of `segments` decompress as they should.
    pub open spec fn segments_sound(self, segments: Seq<Seq<u8>>) -> bool {
        self.segments_unpack(segments) && self.segments_bounded(segments)
    }

    /// Every strip or tile has the bytes of pixels that a WebP file can hold.
    pub open spec fn webp_takes(self) -> bool {
        forall|i: int|
            0 <= i < self.seg_count() ==> with_alpha(#[trigger] self.stored_segment(i), self.seg_w() * self.seg_h()) is Some
    }

    /// The page can be written: its parts go together, and its strips or tiles can be
    /// compressed. As WebP they can where they hold pixels of three or four bytes and
    /// are no wider or higher than such a file can be.
    pub open spec fn writable(self) -> bool {
        &&& self.consistent()
        &&& if self.compression is WebP {
            &&& self.seg_count() > 0
            &&& self.seg_size() <= usize::MAX
            &&& self.webp_takes()
            &&& self.seg_w() <= WEBP_MAX_SIDE
            &&& self.seg_h() <= WEBP_MAX_SIDE
        } else {
            self.packed_segments(Seq::empty()) is Some
        }
    }
}

/// Checks that the parts of a request go together.
fn check_page(p: &EncodePage<'_>) -> (r: Result<()>)
    ensures
        (match r {
            Ok(_) => p.consistent(),
            Err(e) => e is InvalidData && !p.consistent(),
        }),
{
    let (samples, bits, _) = p.kind.layout();
    if p.compression.is_ccitt() && bits != 1 {
        return Err(
            TiffError::invalid("TIFF encode: CCITT compression (Compression=2/3) requires Bilevel or TransparencyMask input"),
        );
    }
    if p.planar && samples == 1 {
        return Err(
            TiffError::invalid("TIFF encode: PlanarConfiguration=2 (separate planes) requires a multi-sample format"),
        );
    }
    if let Some((tw, th)) = p.tiling {
        if tw == 0 || th == 0 || tw % 16 != 0 || th % 16 != 0 {
            return Err(invalid_with("TIFF encode: tile dimensions must be non-zero multiples of 16; got width ", tw as u64, ""));
        }
        if bits == 1 {
            return Err(
                TiffError::invalid("TIFF encode: tiled layout is not supported for 1-bit input (Bilevel / TransparencyMask)"),
            );
        }
    }
    if p.predictor && bits == 1 {
        return Err(
            TiffError::invalid("TIFF encode: Predictor=2 (horizontal differencing) is undefined for 1-bit input (Bilevel / TransparencyMask)"),
        );
    }
    let have: u128 = p.kind.data().len() as u128;
    let w: u128 = p.width as u128;
    let h: u128 = p.height as u128;
    let row: u128 = w / 8 + (if w % 8 == 0 { 0u128 } else { 1u128 });
    proof {
        assert(row == row_size(p.width as int));
        assert(0 <= row * h <= 0xffff_ffff * 0xffff_ffff) by (nonlinear_arith)
            requires
                0 <= row <= 0xffff_ffff,
                0 <= h <= 0xffff_ffff,
        ;
        assert(0 <= w * h <= 0xffff_ffff * 0xffff_ffff) by (nonlinear_arith)
            requires
                0 <= w <= 0xffff_ffff,
                0 <= h <= 0xffff_ffff,
        ;
        let wh = w * h;
        let per = samples * (bits / 8);
        assert(0 <= samples * (bits / 8) <= 8) by {
            if bits == 16 {
                assert(samples == 1);
            }
        }
        assert(0 <= wh * per <= 0xffff_ffff * 0xffff_ffff * 8) by (nonlinear_arith)
            requires
                0 <= wh <= 0xffff_ffff * 0xffff_ffff,
                0 <= per <= 8,
        ;
    }
    let want: u128 = if bits == 1 { row * h } else { w * h * (samples as u128 * (bits as u128 / 8)) };
    if have != want {
        let name: &str = match p.kind {
            EncodePixelFormat::Bilevel { .. } => "TIFF encode/Bilevel: pixel buffer is not the expected ",
            EncodePixelFormat::TransparencyMask { .. } => "TIFF encode/TransparencyMask: pixel buffer is not the expected ",
            EncodePixelFormat::Gray8 { .. } => "TIFF encode/Gray8: pixel buffer is not the expected ",
            EncodePixelFormat::Gray16Le { .. } => "TIFF encode/Gray16Le: pixel buffer is not the expected ",
            EncodePixelFormat::Rgb24 { .. } => "TIFF encode/Rgb24: pixel buffer is not the expected ",
            EncodePixelFormat::Palette8 { .. } => "TIFF encode/Palette8: index buffer is not the expected ",
            EncodePixelFormat::CieLab8 { .. } => "TIFF encode/CieLab8: pixel buffer is not the expected ",
            EncodePixelFormat::CieLabL8 { .. } => "TIFF encode/CieLabL8: pixel buffer is not the expected ",
            EncodePixelFormat::Cmyk32 { .. } => "TIFF encode/Cmyk32: pixel buffer is not the expected ",
        };
        let shown: u64 = if want <= u64::MAX as u128 { want as u64 } else { u64::MAX };
        return Err(invalid_with(name, shown, " bytes"));
    }
    if let EncodePixelFormat::Palette8 { indices, palette } = &p.kind {
        if palette.len() == 0 {
            return Err(TiffError::invalid("TIFF encode/Palette8: palette must have at least one entry"));
        }
    }
    Ok(())
}

// ----------------------------------------------------------------------
// Strips and tiles
// ----------------------------------------------------------------------

/// The strips or tiles of a page.
struct Cut {
    samples: u64,
    sample_bytes: u64,
    seg_w: u32,
    seg_h: u32,
    across: u64,
    grid: u64,
    count: u64,
    seg_pixel: u64,
    seg_row: u64,
    seg_samples: u16,
    bits: u16,
}

impl Cut {
    spec fn of(self, p: EncodePage<'_>) -> bool {
        &&& self.samples == p.kind.samples()
        &&& self.sample_bytes == p.sample_bytes()
        &&& self.seg_w == p.seg_w()
        &&& self.seg_h == p.seg_h()
        &&& self.across == p.across()
        &&& self.grid == p.across() * p.down()
        &&& self.count == p.seg_count()
        &&& self.seg_pixel == p.seg_pixel()
        &&& self.seg_row == p.seg_row()
        &&& self.seg_samples == p.seg_samples()
        &&& self.bits == p.kind.bits()
    }
}

fn cut_page(p: &EncodePage<'_>) -> (c: Cut)
    requires
        p.consistent(),
    ensures
        c.of(*p),
{
    let (samples, bits, _) = p.kind.layout();
    let (seg_w, seg_h): (u32, u32) = match p.tiling {
        None => (p.width, p.height),
        Some(t) => t,
    };
    let across: u32 = if p.tiling.is_some() { div_up(p.width, seg_w) } else { 1 };
    let down: u32 = if p.tiling.is_some() { div_up(p.height, seg_h) } else { 1 };
    proof {
        if p.tiling is Some {
            // Tiles are at least 16 pixels wide and high.
            assert(across <= 0x1000_0000) by (nonlinear_arith)
                requires
                    across * seg_w <= p.width + seg_w - 1,
                    seg_w >= 16,
                    0 <= p.width <= 0xffff_ffff,
                    across >= 0,
            ;
            assert(down <= 0x1000_0000) by (nonlinear_arith)
                requires
                    down * seg_h <= p.height + seg_h - 1,
                    seg_h >= 16,
                    0 <= p.height <= 0xffff_ffff,
                    down >= 0,
            ;
        }
        assert(0 <= across * down <= 0x1000_0000 * 0x1000_0000) by (nonlinear_arith)
            requires
                0 <= across <= 0x1000_0000,
                0 <= down <= 0x1000_0000,
        ;
    }
    let grid: u64 = across as u64 * down as u64;
    let planes: u64 = if p.planar { samples as u64 } else { 1 };
    let seg_samples: u16 = if p.planar { 1 } else { samples };
    let sample_bytes: u64 = bits as u64 / 8;
    proof {
        assert(0 <= planes * grid <= 4 * (0x1000_0000 * 0x1000_0000)) by (nonlinear_arith)
            requires
                0 <= planes <= 4,
                0 <= grid <= 0x1000_0000 * 0x1000_0000,
        ;
        assert(0 <= seg_samples * sample_bytes <= 8) by (nonlinear_arith)
            requires
                0 <= seg_samples <= 4,
                0 <= sample_bytes <= 2,
        ;
        let pixel = seg_samples * sample_bytes;
        assert(0 <= seg_w * pixel <= 0xffff_ffff * 8) by (nonlinear_arith)
            requires
                0 <= seg_w <= 0xffff_ffff,
                0 <= pixel <= 8,
        ;
    }
    let seg_pixel: u64 = seg_samples as u64 * sample_bytes;
    Cut {
        samples: samples as u64,
        sample_bytes,
        seg_w,
        seg_h,
        across: across as u64,
        grid,
        count: planes * grid,
        seg_pixel,
        seg_row: seg_w as u64 * seg_pixel,
        seg_samples,
        bits,
    }
}

/// The place of every byte of a strip or tile lies within the bytes of all
/// pixels.
pub proof fn lemma_source_byte(p: EncodePage<'_>, i: int, j: int)
    requires
        p.consistent(),
        p.tiling is Some || p.planar,
        0 <= i < p.seg_count(),
        0 <= j < p.seg_size(),
    ensures
        p.width > 0,
        p.height > 0,
        p.across() > 0,
        p.down() > 0,
        p.seg_row() > 0,
        p.seg_pixel() > 0,
        0 <= i / (p.across() * p.down()) < p.planes(),
        0 <= i % (p.across() * p.down()) < p.across() * p.down(),
        0 <= i % (p.across() * p.down()) / p.across() < p.down(),
        0 <= i % (p.across() * p.down()) % p.across() < p.across(),
        0 <= i % (p.across() * p.down()) / p.across() * p.seg_h() < p.height,
        0 <= i % (p.across() * p.down()) % p.across() * p.seg_w() < p.width,
        0 <= j / p.seg_row() < p.seg_h(),
        0 <= j % p.seg_row() < p.seg_row(),
        0 <= j % p.seg_row() / p.seg_pixel() < p.seg_w(),
        0 <= j % p.seg_row() % p.seg_pixel() < p.seg_pixel(),
        0 <= i / (p.across() * p.down()) * p.sample_bytes() + j % p.seg_row() % p.seg_pixel() < p.kind.samples()
            * p.sample_bytes(),
        0 <= p.source_byte(i, j) < p.kind.bytes().len(),
        ({
            let grid = p.across() * p.down();
            let y = min_int(i % grid / p.across() * p.seg_h() + j / p.seg_row(), p.height - 1);
            let x = min_int(i % grid % p.across() * p.seg_w() + j % p.seg_row() / p.seg_pixel(), p.width - 1);
            0 <= y * p.width + x < p.width * p.height && 0 <= y * p.width
        }),
{
    let grid = p.across() * p.down();
    let w = p.width as int;
    let h = p.height as int;
    let sb = p.sample_bytes();
    let row = p.seg_row();
    let px = p.seg_pixel();
    let sh = p.seg_h() as int;
    let sw = p.seg_w() as int;
    assert(p.kind.bits() != 1);
    assert(sb >= 1);
    assert(px >= 1) by (nonlinear_arith)
        requires
            px == p.seg_samples() * sb,
            p.seg_samples() >= 1,
            sb >= 1,
    ;
    assert(sh > 0 && row > 0) by (nonlinear_arith)
        requires
            sh * row > 0,
            sh >= 0,
            row == sw * px,
            sw >= 0,
            px >= 1,
    ;
    assert(sw > 0) by (nonlinear_arith)
        requires
            row == sw * px,
            row > 0,
            sw >= 0,
            px >= 1,
    ;
    if p.tiling is Some {
        lemma_ceil_positive(w, sw);
        lemma_ceil_positive(h, sh);
        assert(p.planes() * grid > 0);
        assert(grid > 0) by (nonlinear_arith)
            requires
                p.planes() * grid > 0,
                p.planes() >= 1,
        ;
        assert(p.across() > 0 && p.down() > 0) by (nonlinear_arith)
            requires
                p.across() * p.down() > 0,
                p.across() >= 0,
                p.down() >= 0,
        ;
    } else {
        assert(grid == 1);
    }
    assert(p.planes() * grid == grid * p.planes()) by (nonlinear_arith);
    lemma_pixel_place(i, grid, p.planes());
    let t = i % grid;
    lemma_pixel_place(t, p.across(), p.down());
    assert(sh * row == row * sh) by (nonlinear_arith);
    lemma_pixel_place(j, row, sh);
    assert(sw * px == px * sw) by (nonlinear_arith);
    lemma_pixel_place(j % row, px, sw);
    if p.tiling is Some {
        lemma_origin(t / p.across(), h, sh);
        lemma_origin(t % p.across(), w, sw);
    } else {
        assert(t == 0);
        assert(0int / 1 == 0 && 0int % 1 == 0);
        assert(0 * sh == 0 && 0 * sw == 0) by (nonlinear_arith);
    }
    let y = min_int(t / p.across() * sh + j / row, h - 1);
    let x = min_int(t % p.across() * sw + j % row / px, w - 1);
    assert(0 <= y < h && 0 <= x < w);
    lemma_row_byte(y, x, w, h);
    assert(h * w == w * h) by (nonlinear_arith);
    let n = p.kind.samples() as int;
    let q = i / grid;
    let b = j % row % px;
    if p.planar {
        assert(px == sb) by (nonlinear_arith)
            requires
                px == p.seg_samples() * sb,
                p.seg_samples() == 1,
        ;
        lemma_row_byte(q, b, sb, n);
    } else {
        assert(q == 0);
        assert(0 * sb == 0) by (nonlinear_arith);
    }
    lemma_row_byte(y * w + x, q * sb + b, n * sb, w * h);
}

/// There is a strip or tile for every part of a length.
proof fn lemma_ceil_positive(len: int, step: int)
    requires
        0 <= len,
        0 < step,
    ensures
        ceil_div(len, step) >= 0,
        ceil_div(len, step) > 0 ==> len > 0,
{
    let n = len + step - 1;
    vstd::arithmetic::div_mod::lemma_fundamental_div_mod(n, step);
    vstd::arithmetic::div_mod::lemma_mod_bound(n, step);
    let q = n / step;
    assert(step * q == q * step) by (nonlinear_arith);
    assert(q >= 0) by (nonlinear_arith)
        requires
            q * step + step > n,
            n >= step - 1,
            step > 0,
    ;
    if len == 0 {
        assert(q <= 0) by (nonlinear_arith)
            requires
                q * step <= n,
                n == step - 1,
                step > 0,
        ;
    }
}

/// The bytes of strip or tile `i`.
fn cut_segment(p: &EncodePage<'_>, c: &Cut, size: usize, i: u64) -> (v: Vec<u8>)
    requires
        p.consistent(),
        c.of(*p),
        size == p.seg_size(),
        i < p.seg_count(),
    ensures
        v@ == p.raw_segment(i as int),
{
    let bytes: &[u8] = p.kind.data();
    if p.tiling.is_none() && !p.planar {
        assert(bytes@.subrange(0, bytes@.len() as int) =~= bytes@);
        return copy_range(bytes, 0, bytes.len());
    }
    let mut out: Vec<u8> = Vec::new();
    let mut j: usize = 0;
    while j < size
        invariant
            j <= size,
            p.consistent(),
            p.tiling is Some || p.planar,
            c.of(*p),
            size == p.seg_size(),
            i < p.seg_count(),
            bytes@ == p.kind.bytes(),
            out@.len() == j,
            forall|k: int| 0 <= k < j ==> #[trigger] out@[k] == p.kind.bytes()[p.source_byte(i as int, k)],
        decreases size - j,
    {
        proof {
            lemma_source_byte(*p, i as int, j as int);
            assert(bytes@.len() == bytes.len());
        }
        let t: u64 = i % c.grid;
        let q: u64 = i / c.grid;
        let r: u64 = j as u64 / c.seg_row;
        let within: u64 = j as u64 % c.seg_row;
        let row: u64 = (t / c.across) * c.seg_h as u64 + r;
        let col: u64 = (t % c.across) * c.seg_w as u64 + within / c.seg_pixel;
        let y: u64 = if row < p.height as u64 { row } else { p.height as u64 - 1 };
        let x: u64 = if col < p.width as u64 { col } else { p.width as u64 - 1 };
        proof {
            let px = y * p.width + x;
            let per = c.samples * c.sample_bytes;
            assert(per >= 1) by (nonlinear_arith)
                requires
                    per == c.samples * c.sample_bytes,
                    c.samples >= 1,
                    c.sample_bytes >= 1,
            ;
            assert(px <= px * per) by (nonlinear_arith)
                requires
                    0 <= px,
                    1 <= per,
            ;
            assert(per <= 8) by (nonlinear_arith)
                requires
                    per == c.samples * c.sample_bytes,
                    0 <= c.samples <= 4,
                    0 <= c.sample_bytes <= 2,
            ;
            assert(0 <= q * c.sample_bytes) by (nonlinear_arith)
                requires
                    0 <= q,
                    0 <= c.sample_bytes,
            ;
        }
        let at: u64 = (y * p.width as u64 + x) * (c.samples * c.sample_bytes) + (q * c.sample_bytes + within % c.seg_pixel);
        out.push(bytes[at as usize]);
        j = j + 1;
    }
    assert(out@ =~= p.raw_segment(i as int));
    out
}

/// A strip or tile has the bytes of its rows.
pub proof fn lemma_segment_rows(p: EncodePage<'_>, i: int)
    requires
        p.consistent(),
        0 <= p.seg_size(),
        0 <= i < p.seg_count(),
        p.kind.bits() != 1,
    ensures
        p.raw_segment(i).len() == p.seg_size(),
        p.seg_size() == p.seg_h() * p.seg_row(),
        rows_fit(
            p.seg_size(),
            p.seg_w() as int,
            p.seg_h() as int,
            p.seg_samples() as int,
            p.kind.bits() as int,
            p.seg_row(),
        ),
        differenced_rows(
            p.raw_segment(i),
            p.seg_w() as int,
            p.seg_h() as int,
            p.seg_samples() as int,
            p.kind.bits() as int,
            p.seg_row(),
        ) is Some,
        p.stored_segment(i).len() == p.seg_size(),
{
    let w = p.seg_w() as int;
    let n = p.seg_samples() as int;
    let sb = p.sample_bytes();
    let row = p.seg_row();
    assert(row == w * n * sb) by (nonlinear_arith)
        requires
            row == w * (n * sb),
    ;
    assert(0 <= w * n) by (nonlinear_arith)
        requires
            0 <= w,
            0 <= n,
    ;
    if p.kind.bits() == 8 {
        assert(w * n * sb == w * n) by (nonlinear_arith)
            requires
                sb == 1,
        ;
    } else {
        assert(w * n * sb == 2 * (w * n)) by (nonlinear_arith)
            requires
                sb == 2,
        ;
    }
    if p.tiling is None && !p.planar {
        let h = p.height as int;
        assert(w * h * (n * sb) == h * (w * (n * sb))) by (nonlinear_arith);
    }
}

/// Bytes of a strip or tile; nothing where memory could not address them.
fn segment_len(p: &EncodePage<'_>, c: &Cut) -> (r: Option<usize>)
    requires
        p.consistent(),
        c.of(*p),
    ensures
        (match r {
            Some(n) => n == p.seg_size(),
            None => p.seg_size() > usize::MAX,
        }),
{
    let data: &[u8] = p.kind.data();
    proof {
        assert(0 <= p.seg_h() * p.seg_row() <= 0xffff_ffff * 0xffff_ffff_ffff_ffff) by (nonlinear_arith)
            requires
                0 <= p.seg_h() <= 0xffff_ffff,
                0 <= p.seg_row() <= 0xffff_ffff_ffff_ffff,
        ;
    }
    let size: u128 = if c.bits == 1 { data.len() as u128 } else { c.seg_h as u128 * c.seg_row as u128 };
    assert(size == p.seg_size());
    if size > usize::MAX as u128 {
        return None;
    }
    Some(size as usize)
}

/// The bytes of strip or tile `i`, with differences where the page asks for them.
fn stored_bytes(p: &EncodePage<'_>, c: &Cut, size: usize, i: u64) -> (seg: Vec<u8>)
    requires
        p.consistent(),
        c.of(*p),
        size == p.seg_size(),
        i < c.count,
    ensures
        seg@ == p.stored_segment(i as int),
{
    let mut seg = cut_segment(p, c, size, i);
    if p.predictor {
        proof {
            lemma_segment_rows(*p, i as int);
            lemma_row_fits_size(*p);
        }
        if c.seg_w > 0 && c.seg_h > 0 {
            let r = forward_horizontal_predictor(
                &mut seg,
                c.seg_w as usize,
                c.seg_h as usize,
                c.seg_samples as usize,
                c.bits as usize,
                c.seg_row as usize,
            );
            assert(r is Ok);
        }
    }
    seg
}

/// Compresses the strips or tiles of a page, given what the WebP encoder made of
/// each.
fn pack_segments(p: &EncodePage<'_>, replies: &[Option<Vec<u8>>]) -> (r: Result<Vec<Vec<u8>>>)
    requires
        p.consistent(),
    ensures
        (match (r, p.packed_segments(reply_models(replies@))) {
            (Ok(v), Some(s)) => plane_bytes(v@) == s && (p.replies_hold(reply_models(replies@)) ==> p.segments_sound(s)),
            (Err(e), None) => e is InvalidData,
            _ => false,
        }),
{
    let ghost rs = reply_models(replies@);
    let ghost held = p.replies_hold(rs);
    let c = cut_page(p);
    if c.count == 0 {
        return Err(TiffError::invalid("TIFF encode: a tiled page needs at least one tile"));
    }
    let size: usize = match segment_len(p, &c) {
        Some(n) => n,
        None => {
            return Err(TiffError::invalid("TIFF encode: tiles too large"));
        },
    };
    let mut out: Vec<Vec<u8>> = Vec::new();
    let mut i: u64 = 0;
    while i < c.count
        invariant
            i <= c.count,
            c.of(*p),
            p.consistent(),
            size == p.seg_size(),
            c.count > 0,
            rs == reply_models(replies@),
            held == p.replies_hold(rs),
            out@.len() == i,
            forall|k: int| 0 <= k < i ==> p.packed_segment(k, rs) == Some((#[trigger] out@[k])@),
            held ==> forall|k: int, cd: Coding|
                0 <= k < i && p.compression.read_by(cd) && p.compression.restorable(
                    p.stored_segment(k),
                    p.seg_w() as int,
                    p.seg_h() as int,
                    cd.samples as int,
                ) ==> (#[trigger] unpacked(
                    out@[k]@,
                    p.stored_segment(k).len() as int,
                    p.seg_w() as int,
                    p.seg_h() as int,
                    cd,
                )) == Some(p.compression.restored(p.stored_segment(k), p.seg_w() as int, p.seg_h() as int)),
            p.compression is Deflate || p.compression is Zstd ==> forall|k: int, cd: Coding|
                0 <= k < i && p.compression.read_by(cd) ==> ((#[trigger] unpacked(
                    out@[k]@,
                    size as int,
                    p.seg_w() as int,
                    p.seg_h() as int,
                    cd,
                )) matches Some(d) ==> d.len() <= MAX_CODEC_OUTPUT),
        decreases c.count - i,
    {
        let seg = stored_bytes(p, &c, size, i);
        let mut reply: Option<&[u8]> = None;
        if i < replies.len() as u64 {
            if let Some(f) = &replies[i as usize] {
                reply = Some(f.as_slice());
            }
        }
        assert(bytes_model(reply) == reply_at(rs, i as int));
        match p.compression.pack(&seg, c.seg_w, c.seg_h, reply) {
            Ok(v) => {
                assert(p.packed_segment(i as int, rs) == Some(v@));
                out.push(v);
            },
            Err(e) => {
                assert(p.packed_segment(i as int, rs) is None);
                return Err(e);
            },
        }
        i = i + 1;
    }
    proof {
        let s = p.packed_segments(rs);
        assert forall|k: int| 0 <= k < p.seg_count() implies (#[trigger] p.packed_segment(k, rs)) is Some by {
            assert(p.packed_segment(k, rs) == Some(out@[k]@));
        }
        assert(plane_bytes(out@) =~= s.unwrap());
        assert(p.segments_bounded(s.unwrap())) by {
            if p.compression is Deflate || p.compression is Zstd {
                assert forall|k: int, cd: Coding| 0 <= k < p.seg_count() && p.compression.read_by(cd) implies ((
                #[trigger] unpacked(s.unwrap()[k], p.seg_size(), p.seg_w() as int, p.seg_h() as int, cd)) matches Some(
                    d,
                ) ==> d.len() <= MAX_CODEC_OUTPUT) by {
                    assert(s.unwrap()[k] == out@[k]@);
                }
            }
        }
        if held {
            assert forall|k: int, cd: Coding|
                0 <= k < p.seg_count() && p.compression.read_by(cd) && p.compression.restorable(
                    p.stored_segment(k),
                    p.seg_w() as int,
                    p.seg_h() as int,
                    cd.samples as int,
                ) implies #[trigger] unpacked(
                s.unwrap()[k],
                p.stored_segment(k).len() as int,
                p.seg_w() as int,
                p.seg_h() as int,
                cd,
            ) == Some(p.compression.restored(p.stored_segment(k), p.seg_w() as int, p.seg_h() as int)) by {
                assert(s.unwrap()[k] == out@[k]@);
            }
        }
    }
    Ok(out)
}

/// Has the WebP encoder make files of the strips or tiles of a page that asks for
/// them: one for each, which decodes to its pixels, wherever one can be made.
pub fn webp_files(p: &EncodePage<'_>) -> (v: Vec<Option<Vec<u8>>>)
    ensures
        p.replies_hold(reply_models(v@)),
        p.compression is WebP && p.consistent() && p.seg_size() <= usize::MAX ==> v@.len() == p.seg_count(),
        p.compression is WebP && p.consistent() && p.seg_size() <= usize::MAX ==> forall|i: int|
            0 <= i < p.seg_count() && webp_fits(#[trigger] p.stored_segment(i), p.seg_w(), p.seg_h()) ==> v@[i] is Some,
        p.compression !is WebP ==> v@.len() == 0,
{
    let mut out: Vec<Option<Vec<u8>>> = Vec::new();
    match p.compression {
        TiffCompression::WebP => {},
        _ => {
            return out;
        },
    }
    if check_page(p).is_err() {
        return out;
    }
    let c = cut_page(p);
    let size: usize = match segment_len(p, &c) {
        Some(n) => n,
        None => {
            return out;
        },
    };
    let mut i: u64 = 0;
    while i < c.count
        invariant
            i <= c.count,
            c.of(*p),
            p.consistent(),
            p.compression is WebP,
            size == p.seg_size(),
            out@.len() == i,
            forall|k: int|
                0 <= k < i ==> p.compression.faithful(
                    #[trigger] p.stored_segment(k),
                    p.seg_w(),
                    p.seg_h(),
                    reply_models(out@)[k],
                ),
        decreases c.count - i,
    {
        let seg = stored_bytes(p, &c, size, i);
        let ghost before = reply_models(out@);
        let made: Option<Vec<u8>> = match pack_webp(&seg, c.seg_w, c.seg_h) {
            Ok(v) => Some(v),
            Err(_) => None,
        };
        out.push(made);
        assert forall|k: int| 0 <= k < i implies reply_models(out@)[k] == before[k] by {
            assert(out@[k] == out@.drop_last()[k]);
        }
        i = i + 1;
    }
    out
}

/// A row of a strip or tile that has rows is no longer than the strip or tile.
proof fn lemma_row_fits_size(p: EncodePage<'_>)
    ensures
        p.seg_h() > 0 ==> p.seg_row() <= p.seg_h() * p.seg_row() || p.seg_row() < 0,
{
    let h = p.seg_h() as int;
    let row = p.seg_row();
    if h > 0 && row >= 0 {
        assert(row <= h * row) by (nonlinear_arith)
            requires
                h >= 1,
                row >= 0,
        ;
    }
}

// ----------------------------------------------------------------------
// Fields
// ----------------------------------------------------------------------

/// The tags that a page can have, in ascending order.
pub const PAGE_TAGS: [u16; 19] = [
    254,
    256,
    257,
    258,
    259,
    262,
    273,
    277,
    278,
    279,
    284,
    292,
    293,
    317,
    320,
    322,
    323,
    324,
    325,
];

/// Number `i` of the tags that a page can have.
#[verifier::opaque]
pub open spec fn page_tag(i: int) -> u16 {
    PAGE_TAGS@[i]
}

/// A field of one 16-bit number.
pub open spec fn short_field(tag: u16, v: int) -> FieldModel {
    FieldModel { tag, field_type: TYPE_SHORT, count: 1, value: ValueModel::Inline(le(v, 2)) }
}

/// A field of one 32-bit number.
pub open spec fn long_field(tag: u16, v: int) -> FieldModel {
    FieldModel { tag, field_type: TYPE_LONG, count: 1, value: ValueModel::Inline(le(v, 4)) }
}

/// A field of places or sizes of `n` strips or tiles.
pub open spec fn places_field(tag: u16, v: TiffVariant, n: int, value: ValueModel) -> FieldModel {
    FieldModel {
        tag,
        field_type: match v {
            TiffVariant::Classic => TYPE_LONG,
            TiffVariant::Big => TYPE_LONG8,
        },
        count: n,
        value,
    }
}

/// The words of a colour map: all reds, all greens, all blues, each byte twice.
pub open spec fn map_words(palette: Seq<RgbColor>) -> Seq<int> {
    Seq::new(
        768,
        |j: int| if j % 256 < palette.len() { 257 * palette[j % 256]@[j / 256] as int } else { 0 },
    )
}

/// Colours after the first 256 do not change the colour map.
proof fn lemma_extra_colours(palette: Seq<RgbColor>)
    ensures
        palette.len() > 256 ==> map_words(palette) == map_words(palette.take(256)),
{
    if palette.len() > 256 {
        assert(map_words(palette) =~= map_words(palette.take(256)));
    }
}

/// Pages that differ in colours after the first 256 only have the same fields.
proof fn lemma_extra_fields(p: EncodePage<'_>, q: EncodePage<'_>, v: TiffVariant, n: int, i: int)
    requires
        p.kind is Palette8,
        q == (EncodePage { kind: q.kind, ..p }),
        q.kind is Palette8,
    ensures
        p.fields_from(v, n, i) == q.fields_from(v, n, i),
    decreases 19 - i,
{
    if i < 19 {
        assert(p.bits_list() =~= q.bits_list());
        lemma_extra_fields(p, q, v, n, i + 1);
    }
}

/// Colours of a palette after the first 256 are not used: the page is written as if
/// they were not there.
pub proof fn law_extra_colours(p: EncodePage<'_>, q: EncodePage<'_>, v: TiffVariant, replies: Seq<WebpReply>)
    requires
        q == (EncodePage { kind: q.kind, ..p }),
        p.kind matches EncodePixelFormat::Palette8 { indices: a, palette: x } && q.kind
            matches EncodePixelFormat::Palette8 { indices: b, palette: y } && a == b && x@.len() > 256 && y@ == x@.take(
            256,
        ),
    ensures
        p.plan(v, replies) == q.plan(v, replies),
{
    if let (EncodePixelFormat::Palette8 { palette: x, .. }, EncodePixelFormat::Palette8 { palette: y, .. }) = (
        p.kind,
        q.kind,
    ) {
        lemma_extra_colours(x@);
    }
    assert forall|i: int| #[trigger] p.packed_segment(i, replies) == q.packed_segment(i, replies) by {
        assert(p.raw_segment(i) =~= q.raw_segment(i));
    }
    if p.packed_segments(replies) is Some && q.packed_segments(replies) is Some {
        assert(p.packed_segments(replies).unwrap() =~= q.packed_segments(replies).unwrap());
        lemma_extra_fields(p, q, v, p.seg_count(), 0);
    } else if p.packed_segments(replies) is Some {
        let i = choose|i: int| 0 <= i < q.seg_count() && (#[trigger] q.packed_segment(i, replies)) is None;
        assert(p.packed_segment(i, replies) is None);
    } else if q.packed_segments(replies) is Some {
        if p.seg_count() != 0 && p.seg_size() <= usize::MAX {
            let i = choose|i: int| 0 <= i < p.seg_count() && (#[trigger] p.packed_segment(i, replies)) is None;
            assert(q.packed_segment(i, replies) is None);
        }
    }
    assert(p.bits_list() =~= q.bits_list());
}

impl<'a> EncodePage<'a> {
    /// The bits of the samples of a pixel.
    pub open spec fn bits_list(self) -> Seq<int> {
        Seq::new(self.kind.samples() as nat, |i: int| self.kind.bits() as int)
    }

    /// The bits of the samples fit their field.
    pub open spec fn bits_fit(self, v: TiffVariant) -> bool {
        2 * self.kind.samples() <= v.offset_size()
    }

    /// The field of the page with the given tag, where it has `n` strips or tiles.
    pub open spec fn field(self, v: TiffVariant, n: int, tag: u16) -> Option<FieldModel> {
        let tiled = self.tiling is Some;
        if tag == TAG_NEW_SUBFILE_TYPE {
            Some(long_field(tag, if self.kind is TransparencyMask { 4 } else { 0 }))
        } else if tag == TAG_IMAGE_WIDTH {
            Some(long_field(tag, self.width as int))
        } else if tag == TAG_IMAGE_LENGTH {
            Some(long_field(tag, self.height as int))
        } else if tag == TAG_BITS_PER_SAMPLE {
            Some(
                FieldModel {
                    tag,
                    field_type: TYPE_SHORT,
                    count: self.kind.samples() as int,
                    value: if self.bits_fit(v) {
                        ValueModel::Inline(le_list(self.bits_list(), 2))
                    } else {
                        ValueModel::Bits
                    },
                },
            )
        } else if tag == TAG_COMPRESSION {
            Some(short_field(tag, self.compression.tag() as int))
        } else if tag == TAG_PHOTOMETRIC_INTERPRETATION {
            Some(short_field(tag, self.kind.photometric() as int))
        } else if tag == TAG_STRIP_OFFSETS && !tiled {
            Some(places_field(tag, v, n, ValueModel::Offsets))
        } else if tag == TAG_SAMPLES_PER_PIXEL {
            Some(short_field(tag, self.kind.samples() as int))
        } else if tag == TAG_ROWS_PER_STRIP && !tiled {
            Some(long_field(tag, self.height as int))
        } else if tag == TAG_STRIP_BYTE_COUNTS && !tiled {
            Some(places_field(tag, v, n, ValueModel::Counts))
        } else if tag == TAG_PLANAR_CONFIGURATION {
            Some(short_field(tag, if self.planar { PLANAR_SEPARATE as int } else { PLANAR_CHUNKY as int }))
        } else if tag == TAG_T4_OPTIONS && (self.compression is CcittT4OneD || self.compression is CcittT4TwoD) {
            Some(long_field(tag, self.compression.t4_flags() as int))
        } else if tag == TAG_T6_OPTIONS && self.compression is CcittT6 {
            Some(long_field(tag, 0))
        } else if tag == TAG_PREDICTOR && self.predictor {
            Some(short_field(tag, PREDICTOR_HORIZONTAL as int))
        } else if tag == TAG_COLOR_MAP && self.kind is Palette8 {
            Some(FieldModel { tag, field_type: TYPE_SHORT, count: 768, value: ValueModel::Colours })
        } else if tag == TAG_TILE_WIDTH && tiled {
            Some(long_field(tag, self.seg_w() as int))
        } else if tag == TAG_TILE_LENGTH && tiled {
            Some(long_field(tag, self.seg_h() as int))
        } else if tag == TAG_TILE_OFFSETS && tiled {
            Some(places_field(tag, v, n, ValueModel::Offsets))
        } else if tag == TAG_TILE_BYTE_COUNTS && tiled {
            Some(places_field(tag, v, n, ValueModel::Counts))
        } else {
            None
        }
    }

    /// The fields of the page whose tags are number `i` and later.
    pub open spec fn fields_from(self, v: TiffVariant, n: int, i: int) -> Seq<FieldModel>
        decreases 19 - i,
    {
        if i >= 19 {
            Seq::empty()
        } else {
            match self.field(v, n, page_tag(i)) {
                None => self.fields_from(v, n, i + 1),
                Some(f) => seq![f] + self.fields_from(v, n, i + 1),
            }
        }
    }

    /// The bytes of the colour map, if there is one.
    pub open spec fn map_bytes(self) -> Seq<u8> {
        match self.kind {
            EncodePixelFormat::Palette8 { indices, palette } => le_list(map_words(palette@), 2),
            _ => Seq::empty(),
        }
    }

    /// The page, ready to be written, given what the WebP encoder made of its strips
    /// or tiles. Pages that are not stored as WebP do not depend on that.
    pub open spec fn plan(self, v: TiffVariant, replies: Seq<WebpReply>) -> Option<PlanModel> {
        if !self.consistent() {
            None
        } else {
            match self.packed_segments(replies) {
                None => None,
                Some(segments) => Some(
                    PlanModel {
                        segments,
                        bits: if self.bits_fit(v) { Seq::empty() } else { le_list(self.bits_list(), 2) },
                        colours: self.map_bytes(),
                        fields: self.fields_from(v, segments.len() as int, 0),
                    },
                ),
            }
        }
    }

    /// The plan is one of the page.
    pub open spec fn planned(self, v: TiffVariant, m: PlanModel) -> bool {
        exists|replies: Seq<WebpReply>| #[trigger] self.plan(v, replies) == Some(m)
    }
}

/// Tags of a page are written in ascending order.
pub proof fn law_tags_ascend(p: EncodePage<'_>, v: TiffVariant, n: int, i: int)
    requires
        0 <= i <= 19,
    ensures
        p.fields_from(v, n, i).len() <= 19 - i,
        forall|k: int| 0 <= k < p.fields_from(v, n, i).len() ==> i < 19 && (#[trigger] p.fields_from(v, n, i)[k]).tag
            >= page_tag(i),
        forall|j: int, k: int|
            0 <= j < k < p.fields_from(v, n, i).len() ==> (#[trigger] p.fields_from(v, n, i)[j]).tag < (#[trigger] p.fields_from(
                v,
                n,
                i,
            )[k]).tag,
    decreases 19 - i,
{
    if i < 19 {
        law_tags_ascend(p, v, n, i + 1);
        lemma_tags(i);
        let rest = p.fields_from(v, n, i + 1);
        let all = p.fields_from(v, n, i);
        match p.field(v, n, page_tag(i)) {
            None => {},
            Some(f) => {
                assert(f.tag == page_tag(i));
                assert(all[0] == f);
                assert forall|k: int| 1 <= k < all.len() implies all[k] == rest[k - 1] by {}
                assert forall|j: int, k: int| 0 <= j < k < all.len() implies (#[trigger] all[j]).tag < (
                #[trigger] all[k]).tag by {
                    assert(all[k] == rest[k - 1]);
                    assert(rest[k - 1].tag >= page_tag(i + 1));
                    if j > 0 {
                        assert(all[j] == rest[j - 1]);
                    }
                }
                assert forall|k: int| 0 <= k < all.len() implies (#[trigger] all[k]).tag >= page_tag(i) by {
                    if k > 0 {
                        assert(all[k] == rest[k - 1]);
                    }
                }
            },
        }
    }
}

/// The tags that a page can have ascend.
proof fn lemma_tags(i: int)
    requires
        0 <= i < 19,
    ensures
        i < 18 ==> page_tag(i) < page_tag(i + 1),
{
    reveal(page_tag);
}

/// A plan can be written.
pub proof fn lemma_plan_wf(p: EncodePage<'_>, v: TiffVariant, m: PlanModel)
    requires
        p.planned(v, m),
    ensures
        m.wf(v),
        m.fields.len() <= 19,
{
    let n = m.segments.len() as int;
    law_tags_ascend(p, v, n, 0);
    lemma_bits_list(p);
    lemma_fields_known(p, v, n, 0);
    assert forall|i: int| 0 <= i < m.fields.len() implies {
        let f = #[trigger] m.fields[i];
        &&& 0 <= f.count
        &&& match f.value {
            ValueModel::Inline(b) => b.len() <= v.offset_size() && b.len() == spec_type_size(f.field_type) * f.count
                && spec_type_size(f.field_type) > 0,
            ValueModel::Offsets | ValueModel::Counts => f.count == m.segments.len() && spec_type_size(f.field_type)
                == v.offset_size(),
            ValueModel::Bits => m.bits.len() > v.offset_size() && m.bits.len() == spec_type_size(f.field_type) * f.count
                && spec_type_size(f.field_type) > 0,
            ValueModel::Colours => m.colours.len() > v.offset_size() && m.colours.len() == spec_type_size(f.field_type)
                * f.count && spec_type_size(f.field_type) > 0,
        }
    } by {
        let f = m.fields[i];
        assert(p.field(v, n, f.tag) == Some(f));
        lemma_field_size(p, v, n, f.tag);
    }
}

/// Every field is that of its tag.
pub proof fn lemma_fields_known(p: EncodePage<'_>, v: TiffVariant, n: int, i: int)
    requires
        0 <= i <= 19,
    ensures
        forall|k: int|
            0 <= k < p.fields_from(v, n, i).len() ==> p.field(v, n, (#[trigger] p.fields_from(v, n, i)[k]).tag) == Some(
                p.fields_from(v, n, i)[k],
            ),
    decreases 19 - i,
{
    if i < 19 {
        lemma_fields_known(p, v, n, i + 1);
        let rest = p.fields_from(v, n, i + 1);
        let all = p.fields_from(v, n, i);
        match p.field(v, n, page_tag(i)) {
            None => {},
            Some(f) => {
                assert(f.tag == page_tag(i));
                assert forall|k: int| 0 <= k < all.len() implies p.field(v, n, (#[trigger] all[k]).tag) == Some(all[k]) by {
                    if k > 0 {
                        assert(all[k] == rest[k - 1]);
                    }
                }
            },
        }
    }
}

/// Lengths of the lists of bits and of the colour map.
pub proof fn lemma_bits_list(p: EncodePage<'_>)
    ensures
        le_list(p.bits_list(), 2).len() == 2 * p.kind.samples(),
        p.kind matches EncodePixelFormat::Palette8 { indices, palette } ==> le_list(map_words(palette@), 2).len() == 1536,
{
    reveal_with_fuel(room_of, 3);
    lemma_le_list(p.bits_list(), 2);
    if let EncodePixelFormat::Palette8 { indices, palette } = p.kind {
        lemma_le_list(map_words(palette@), 2);
    }
}

/// A field has as many bytes as its count says.
proof fn lemma_field_size(p: EncodePage<'_>, v: TiffVariant, n: int, tag: u16)
    ensures
        p.field(v, n, tag) matches Some(f) ==> {
            &&& spec_type_size(f.field_type) > 0
            &&& match f.value {
                ValueModel::Inline(b) => 0 <= f.count && b.len() <= v.offset_size() && b.len() == spec_type_size(
                    f.field_type,
                ) * f.count,
                ValueModel::Offsets | ValueModel::Counts => f.count == n && spec_type_size(f.field_type)
                    == v.offset_size(),
                ValueModel::Bits => !p.bits_fit(v) && spec_type_size(f.field_type) == 2 && f.count
                    == p.kind.samples(),
                ValueModel::Colours => p.kind is Palette8 && spec_type_size(f.field_type) == 2 && f.count == 768,
            }
        },
{
    lemma_bits_list(p);
    lemma_le_len(p.width as int, 4);
    lemma_le_len(p.height as int, 4);
    lemma_le_len(p.seg_w() as int, 4);
    lemma_le_len(p.seg_h() as int, 4);
    lemma_le_len(0, 4);
    lemma_le_len(4, 4);
    lemma_le_len(p.compression.t4_flags() as int, 4);
    lemma_le_len(p.compression.tag() as int, 2);
    lemma_le_len(p.kind.photometric() as int, 2);
    lemma_le_len(p.kind.samples() as int, 2);
    lemma_le_len(PLANAR_SEPARATE as int, 2);
    lemma_le_len(PLANAR_CHUNKY as int, 2);
    lemma_le_len(PREDICTOR_HORIZONTAL as int, 2);
}

fn short_entry(tag: u16, v: u16) -> (f: PlannedField)
    ensures
        f@ == short_field(tag, v as int),
{
    let mut b: Vec<u8> = Vec::new();
    push_le(&mut b, v as u64, 2);
    assert(b@ =~= le(v as int, 2));
    PlannedField { tag, field_type: TYPE_SHORT, count: 1, value: FieldValue::Inline(b) }
}

fn long_entry(tag: u16, v: u32) -> (f: PlannedField)
    ensures
        f@ == long_field(tag, v as int),
{
    let mut b: Vec<u8> = Vec::new();
    push_le(&mut b, v as u64, 4);
    assert(b@ =~= le(v as int, 4));
    PlannedField { tag, field_type: TYPE_LONG, count: 1, value: FieldValue::Inline(b) }
}

/// Bytes of equal 16-bit numbers.
fn bits_bytes(p: &EncodePage<'_>) -> (b: Vec<u8>)
    ensures
        b@ == le_list(p.bits_list(), 2),
{
    let (samples, bits, _) = p.kind.layout();
    let ghost parts = le_parts(p.bits_list(), 2);
    let mut b: Vec<u8> = Vec::new();
    let mut i: u16 = 0;
    assert(b@ =~= joined(parts, 0));
    while i < samples
        invariant
            i <= samples,
            samples == p.kind.samples(),
            bits == p.kind.bits(),
            parts == le_parts(p.bits_list(), 2),
            b@ == joined(parts, i as int),
        decreases samples - i,
    {
        push_le(&mut b, bits as u64, 2);
        assert(parts[i as int] == le(bits as int, 2));
        i = i + 1;
    }
    b
}

/// Bytes of a colour map.
fn colour_map(palette: &[RgbColor]) -> (b: Vec<u8>)
    ensures
        b@ == le_list(map_words(palette@), 2),
{
    let ghost words = map_words(palette@);
    let ghost parts = le_parts(words, 2);
    let mut b: Vec<u8> = Vec::new();
    let mut j: usize = 0;
    assert(b@ =~= joined(parts, 0));
    while j < 768
        invariant
            j <= 768,
            words == map_words(palette@),
            parts == le_parts(words, 2),
            b@ == joined(parts, j as int),
        decreases 768 - j,
    {
        let i: usize = j % 256;
        let w: u64 = if i < palette.len() {
            let colour: RgbColor = palette[i];
            257 * (colour[j / 256] as u64)
        } else {
            0
        };
        push_le(&mut b, w, 2);
        proof {
            assert(words[j as int] == w);
            assert(parts[j as int] == le(words[j as int], 2));
        }
        j = j + 1;
    }
    b
}

/// The field of a page with the given tag.
fn plan_field(p: &EncodePage<'_>, v: TiffVariant, n: u64, tag: u16) -> (f: Option<PlannedField>)
    ensures
        (match (f, p.field(v, n as int, tag)) {
            (Some(g), Some(m)) => g@ == m,
            (None, None) => true,
            _ => false,
        }),
{
    let (samples, bits, photometric) = p.kind.layout();
    let (tiled, seg_w, seg_h): (bool, u32, u32) = match p.tiling {
        None => (false, p.width, p.height),
        Some(t) => (true, t.0, t.1),
    };
    let (size, place_type): (u16, u16) = match v {
        TiffVariant::Classic => (4, TYPE_LONG),
        TiffVariant::Big => (8, TYPE_LONG8),
    };
    if tag == TAG_NEW_SUBFILE_TYPE {
        let mask: bool = match p.kind {
            EncodePixelFormat::TransparencyMask { .. } => true,
            _ => false,
        };
        Some(long_entry(tag, if mask { 4 } else { 0 }))
    } else if tag == TAG_IMAGE_WIDTH {
        Some(long_entry(tag, p.width))
    } else if tag == TAG_IMAGE_LENGTH {
        Some(long_entry(tag, p.height))
    } else if tag == TAG_BITS_PER_SAMPLE {
        let value = if 2 * samples <= size { FieldValue::Inline(bits_bytes(p)) } else { FieldValue::Bits };
        Some(PlannedField { tag, field_type: TYPE_SHORT, count: samples as u64, value })
    } else if tag == TAG_COMPRESSION {
        Some(short_entry(tag, p.compression.tag_value()))
    } else if tag == TAG_PHOTOMETRIC_INTERPRETATION {
        Some(short_entry(tag, photometric))
    } else if (tag == TAG_STRIP_OFFSETS && !tiled) || (tag == TAG_TILE_OFFSETS && tiled) {
        Some(PlannedField { tag, field_type: place_type, count: n, value: FieldValue::Offsets })
    } else if (tag == TAG_STRIP_BYTE_COUNTS && !tiled) || (tag == TAG_TILE_BYTE_COUNTS && tiled) {
        Some(PlannedField { tag, field_type: place_type, count: n, value: FieldValue::Counts })
    } else if tag == TAG_SAMPLES_PER_PIXEL {
        Some(short_entry(tag, samples))
    } else if tag == TAG_ROWS_PER_STRIP && !tiled {
        Some(long_entry(tag, p.height))
    } else if tag == TAG_PLANAR_CONFIGURATION {
        Some(short_entry(tag, if p.planar { PLANAR_SEPARATE } else { PLANAR_CHUNKY }))
    } else if tag == TAG_T4_OPTIONS {
        match p.compression {
            TiffCompression::CcittT4OneD { eol_byte_aligned } => Some(
                long_entry(tag, if eol_byte_aligned { 4 } else { 0 }),
            ),
            TiffCompression::CcittT4TwoD { eol_byte_aligned } => Some(
                long_entry(tag, if eol_byte_aligned { 5 } else { 1 }),
            ),
            _ => None,
        }
    } else if tag == TAG_T6_OPTIONS {
        match p.compression {
            TiffCompression::CcittT6 => Some(long_entry(tag, 0)),
            _ => None,
        }
    } else if tag == TAG_PREDICTOR && p.predictor {
        Some(short_entry(tag, PREDICTOR_HORIZONTAL))
    } else if tag == TAG_COLOR_MAP {
        match p.kind {
            EncodePixelFormat::Palette8 { .. } => Some(
                PlannedField { tag, field_type: TYPE_SHORT, count: 768, value: FieldValue::Colours },
            ),
            _ => None,
        }
    } else if tag == TAG_TILE_WIDTH && tiled {
        Some(long_entry(tag, seg_w))
    } else if tag == TAG_TILE_LENGTH && tiled {
        Some(long_entry(tag, seg_h))
    } else {
        None
    }
}

/// The fields of a page.
fn plan_fields(p: &EncodePage<'_>, v: TiffVariant, n: u64) -> (r: Vec<PlannedField>)
    ensures
        field_models(r@) == p.fields_from(v, n as int, 0),
{
    let tags: [u16; 19] = PAGE_TAGS;
    let mut out: Vec<PlannedField> = Vec::new();
    let mut i: usize = 0;
    assert(field_models(out@) + p.fields_from(v, n as int, 0) =~= p.fields_from(v, n as int, 0));
    while i < 19
        invariant
            i <= 19,
            tags == PAGE_TAGS,
            field_models(out@) + p.fields_from(v, n as int, i as int) == p.fields_from(v, n as int, 0),
        decreases 19 - i,
    {
        let tag: u16 = tags[i];
        assert(tag == page_tag(i as int)) by {
            reveal(page_tag);
        }
        let ghost before = out@;
        if let Some(f) = plan_field(p, v, n, tag) {
            let ghost m = f@;
            out.push(f);
            proof {
                assert(field_models(out@) =~= field_models(before).push(m));
                assert(field_models(before) + (seq![m] + p.fields_from(v, n as int, i + 1)) =~= field_models(out@)
                    + p.fields_from(v, n as int, i + 1));
            }
        }
        i = i + 1;
    }
    assert(field_models(out@) + p.fields_from(v, n as int, 19) =~= field_models(out@));
    out
}

/// Makes a page ready to be written, given what the WebP encoder made of its strips
/// or tiles.
pub fn plan_page_full(p: &EncodePage<'_>, v: TiffVariant, replies: &[Option<Vec<u8>>]) -> (r: Result<PlannedPage>)
    ensures
        (match (r, p.plan(v, reply_models(replies@))) {
            (Ok(q), Some(m)) => q@ == m && (p.replies_hold(reply_models(replies@)) ==> p.segments_sound(m.segments)),
            (Err(e), None) => e is InvalidData,
            _ => false,
        }),
{
    check_page(p)?;
    let segments = pack_segments(p, replies)?;
    let (samples, _, _) = p.kind.layout();
    let size: u16 = match v {
        TiffVariant::Classic => 4,
        TiffVariant::Big => 8,
    };
    let bits: Vec<u8> = if 2 * samples <= size { Vec::new() } else { bits_bytes(p) };
    let colours: Vec<u8> = match &p.kind {
        EncodePixelFormat::Palette8 { indices, palette } => colour_map(palette),
        _ => Vec::new(),
    };
    let fields = plan_fields(p, v, segments.len() as u64);
    proof {
        let m = p.plan(v, reply_models(replies@)).unwrap();
        assert(bits@ =~= m.bits);
        assert(colours@ =~= m.colours);
    }
    Ok(PlannedPage { segments, bits, colours, fields })
}

// ----------------------------------------------------------------------
// Files
// ----------------------------------------------------------------------

/// The header of a file whose first directory is at `first`.
pub open spec fn header_bytes(v: TiffVariant, first: int) -> Seq<u8> {
    match v {
        TiffVariant::Classic => le(BYTE_ORDER_LE as int, 2) + le(TIFF_MAGIC as int, 2) + le(first, 4),
        TiffVariant::Big => le(BYTE_ORDER_LE as int, 2) + le(BIGTIFF_MAGIC as int, 2) + le(8, 2) + le(0, 2) + le(
            first,
            8,
        ),
    }
}

/// Bytes of the header of a file.
pub open spec fn header_size(v: TiffVariant) -> int {
    match v {
        TiffVariant::Classic => 8,
        TiffVariant::Big => 16,
    }
}

/// Where page `k` starts.
pub open spec fn page_start(plans: Seq<PlanModel>, v: TiffVariant, k: int) -> int
    decreases k,
{
    if k <= 0 {
        header_size(v)
    } else {
        plans[k - 1].end(page_start(plans, v, k - 1), v)
    }
}

/// Where the directory of page `k` is; 0 where there is no such page.
pub open spec fn directory_at(plans: Seq<PlanModel>, v: TiffVariant, k: int) -> int {
    if k < plans.len() { plans[k].ifd_at(page_start(plans, v, k), v) } else { 0 }
}

/// The first `k` pages of a file.
pub open spec fn pages_bytes(plans: Seq<PlanModel>, v: TiffVariant, k: int) -> Seq<u8>
    decreases k,
{
    if k <= 0 {
        Seq::empty()
    } else {
        pages_bytes(plans, v, k - 1) + plans[k - 1].bytes(
            page_start(plans, v, k - 1),
            v,
            directory_at(plans, v, k),
        )
    }
}

/// A file of some pages.
pub open spec fn file_bytes(plans: Seq<PlanModel>, v: TiffVariant) -> Seq<u8> {
    header_bytes(v, directory_at(plans, v, 0)) + pages_bytes(plans, v, plans.len() as int)
}

/// All pages can be addressed.
pub open spec fn all_addressable(plans: Seq<PlanModel>, v: TiffVariant) -> bool {
    forall|k: int| 0 <= k < plans.len() ==> #[trigger] plans[k].addressable(page_start(plans, v, k), v)
}

/// The variant of the format that a page asks for.
pub open spec fn variant_of(p: EncodePage<'_>) -> TiffVariant {
    if p.bigtiff { TiffVariant::Big } else { TiffVariant::Classic }
}

/// The plans of pages, if each has one, given what the WebP encoder made of their
/// strips or tiles.
pub open spec fn plans_of(pages: Seq<EncodePage<'_>>, v: TiffVariant, replies: Seq<Seq<WebpReply>>) -> Option<
    Seq<PlanModel>,
> {
    if exists|k: int| 0 <= k < pages.len() && (#[trigger] pages[k]).plan(v, replies_at(replies, k)) is None {
        None
    } else {
        Some(Seq::new(pages.len(), |k: int| pages[k].plan(v, replies_at(replies, k)).unwrap()))
    }
}

/// The plans are those of the pages.
pub open spec fn all_planned(pages: Seq<EncodePage<'_>>, v: TiffVariant, plans: Seq<PlanModel>) -> bool {
    &&& plans.len() == pages.len()
    &&& forall|k: int| 0 <= k < pages.len() ==> (#[trigger] pages[k]).planned(v, plans[k])
}

/// The file of some pages: there must be one, and all must ask for the same variant
/// of the format and can be written. A file that lies beyond what can be addressed
/// is not supported. The WebP encoder made of the strips or tiles of each page what
/// is given.
pub open spec fn encoded(pages: Seq<EncodePage<'_>>, replies: Seq<Seq<WebpReply>>) -> Outcome<Seq<u8>> {
    if pages.len() == 0 {
        Err(ErrorKind::Invalid)
    } else {
        let v = variant_of(pages[0]);
        if exists|k: int| 0 <= k < pages.len() && (#[trigger] pages[k]).bigtiff != pages[0].bigtiff {
            Err(ErrorKind::Invalid)
        } else {
            match plans_of(pages, v, replies) {
                None => Err(ErrorKind::Invalid),
                Some(plans) => if all_addressable(plans, v) {
                    Ok(file_bytes(plans, v))
                } else {
                    Err(ErrorKind::Unsupported)
                },
            }
        }
    }
}

/// What the WebP encoder made of the strips or tiles of each page is what it owes.
pub open spec fn all_replies_hold(pages: Seq<EncodePage<'_>>, replies: Seq<Seq<WebpReply>>) -> bool {
    forall|k: int| 0 <= k < pages.len() ==> (#[trigger] pages[k]).replies_hold(replies_at(replies, k))
}

/// A page that can be written has a plan, whatever the WebP encoder makes of its
/// strips or tiles; one that is stored as WebP without being too wide or high has
/// none otherwise.
pub proof fn law_writable(p: EncodePage<'_>, v: TiffVariant, replies: Seq<WebpReply>)
    requires
        p.replies_hold(replies),
    ensures
        p.writable() ==> p.plan(v, replies) is Some,
        p.plan(v, replies) is Some && (p.compression is WebP ==> p.seg_w() <= WEBP_MAX_SIDE && p.seg_h() <= WEBP_MAX_SIDE)
            ==> p.writable(),
{
    if p.compression is WebP {
        if p.writable() {
            assert forall|i: int| 0 <= i < p.seg_count() implies (#[trigger] p.packed_segment(i, replies)) is Some by {
                assert(with_alpha(p.stored_segment(i), p.seg_w() * p.seg_h()) is Some);
            }
        }
        if p.plan(v, replies) is Some {
            assert forall|i: int| 0 <= i < p.seg_count() implies with_alpha(
                #[trigger] p.stored_segment(i),
                p.seg_w() * p.seg_h(),
            ) is Some by {
                assert(p.packed_segment(i, replies) is Some);
            }
            assert(p.seg_count() >= 0) by {
                lemma_count_nonnegative(p);
            }
        }
    } else {
        lemma_without_webp(p, replies, Seq::empty());
    }
}

proof fn lemma_count_nonnegative(p: EncodePage<'_>)
    requires
        p.consistent(),
    ensures
        p.seg_count() >= 0,
{
    let a = p.across();
    let d = p.down();
    let n = p.planes();
    assert(a >= 0 && d >= 0) by {
        if let Some(t) = p.tiling {
            assert((p.width + t.0 - 1) / (t.0 as int) >= 0) by (nonlinear_arith)
                requires
                    t.0 > 0,
                    p.width >= 0,
            ;
            assert((p.height + t.1 - 1) / (t.1 as int) >= 0) by (nonlinear_arith)
                requires
                    t.1 > 0,
                    p.height >= 0,
            ;
        }
    }
    assert(n * (a * d) >= 0) by (nonlinear_arith)
        requires
            a >= 0,
            d >= 0,
            n >= 0,
    ;
}

/// Pixels of three or four bytes go into WebP files.
pub proof fn law_webp_takes(p: EncodePage<'_>)
    requires
        p.consistent(),
        p.kind.bits() == 8,
        p.seg_samples() == 3 || p.seg_samples() == 4,
        p.seg_w() > 0,
        p.seg_h() > 0,
    ensures
        p.webp_takes(),
{
    let w = p.seg_w() as int;
    let h = p.seg_h() as int;
    let n = p.seg_samples() as int;
    assert(w * h > 0) by (nonlinear_arith)
        requires
            w > 0,
            h > 0,
    ;
    assert(p.sample_bytes() == 1);
    assert(p.seg_pixel() == n * 1);
    assert(h * (w * n) == w * h * n) by (nonlinear_arith);
    assert forall|i: int| 0 <= i < p.seg_count() implies with_alpha(
        #[trigger] p.stored_segment(i),
        p.seg_w() * p.seg_h(),
    ) is Some by {
        assert(p.raw_segment(i).len() == p.seg_size());
    }
}

/// A page that is not stored as WebP does not depend on what the WebP encoder makes.
proof fn lemma_without_webp(p: EncodePage<'_>, ra: Seq<WebpReply>, rb: Seq<WebpReply>)
    requires
        p.compression !is WebP,
    ensures
        p.packed_segments(ra) == p.packed_segments(rb),
{
    assert forall|i: int| #[trigger] p.packed_segment(i, ra) == p.packed_segment(i, rb) by {
    }
    assert(p.packed_segments(ra) is None == p.packed_segments(rb) is None) by {
        if p.packed_segments(ra) is Some {
            assert forall|i: int| 0 <= i < p.seg_count() implies (#[trigger] p.packed_segment(i, rb)) is Some by {
                assert(p.packed_segment(i, ra) is Some);
            }
        }
    }
    if p.packed_segments(ra) is Some {
        assert(p.packed_segments(ra).unwrap() =~= p.packed_segments(rb).unwrap());
    }
}

/// No page is stored as WebP.
pub open spec fn without_webp(pages: Seq<EncodePage<'_>>) -> bool {
    forall|k: int| 0 <= k < pages.len() ==> (#[trigger] pages[k]).compression !is WebP
}

/// A file without WebP pages does not depend on what the WebP encoder makes.
pub proof fn law_webp_unused(pages: Seq<EncodePage<'_>>, a: Seq<Seq<WebpReply>>, b: Seq<Seq<WebpReply>>)
    requires
        without_webp(pages),
    ensures
        encoded(pages, a) == encoded(pages, b),
{
    if pages.len() > 0 {
        let v = variant_of(pages[0]);
        assert forall|k: int| 0 <= k < pages.len() implies (#[trigger] pages[k]).plan(v, replies_at(a, k))
            == pages[k].plan(v, replies_at(b, k)) by {
            lemma_without_webp(pages[k], replies_at(a, k), replies_at(b, k));
        }
        if plans_of(pages, v, a) is Some {
            assert forall|k: int| 0 <= k < pages.len() implies (#[trigger] pages[k]).plan(v, replies_at(b, k)) is Some by {
                assert(pages[k].plan(v, replies_at(a, k)) is Some);
            }
            assert(plans_of(pages, v, a).unwrap() =~= plans_of(pages, v, b).unwrap());
        } else {
            let k = choose|k: int| 0 <= k < pages.len() && (#[trigger] pages[k]).plan(v, replies_at(a, k)) is None;
            assert(pages[k].plan(v, replies_at(b, k)) is None);
        }
    }
}

/// Bytes of the strips or tiles of a page, up to a limit.
fn segments_len(page: &PlannedPage) -> (r: Option<u64>)
    ensures
        (match r {
            Some(n) => n == joined(page@.segments, page@.segments.len() as int).len(),
            None => joined(page@.segments, page@.segments.len() as int).len() > u64::MAX,
        }),
{
    let ghost segs = page@.segments;
    let n: usize = page.segments.len();
    let mut sum: u64 = 0;
    let mut i: usize = 0;
    while i < n
        invariant
            i <= n,
            n == page.segments@.len(),
            segs == page@.segments,
            sum == joined(segs, i as int).len(),
        decreases n - i,
    {
        let len: u64 = page.segments[i].len() as u64;
        assert(segs[i as int] == page.segments@[i as int]@);
        if sum > u64::MAX - len {
            proof {
                lemma_joined_mono(segs, i + 1, n as int);
            }
            return None;
        }
        sum = sum + len;
        i = i + 1;
    }
    Some(sum)
}

/// Whether all counts of fields can be written.
fn counts_fit(page: &PlannedPage, v: TiffVariant) -> (b: bool)
    ensures
        b == forall|i: int| 0 <= i < page@.fields.len() ==> (#[trigger] page@.fields[i]).count < room_of(v.offset_size()),
{
    proof {
        reveal_with_fuel(room_of, 9);
    }
    let limit: u64 = match v {
        TiffVariant::Classic => 0xffff_ffff,
        TiffVariant::Big => u64::MAX,
    };
    let n: usize = page.fields.len();
    let mut i: usize = 0;
    while i < n
        invariant
            i <= n,
            n == page.fields@.len(),
            limit + 1 == room_of(v.offset_size()),
            forall|k: int| 0 <= k < i ==> (#[trigger] page@.fields[k]).count < room_of(v.offset_size()),
        decreases n - i,
    {
        assert(page@.fields[i as int] == page.fields@[i as int]@);
        if page.fields[i].count > limit {
            return false;
        }
        i = i + 1;
    }
    true
}

/// Where the directory of a page that starts at `a` is, and where the page ends;
/// nothing where that cannot be addressed.
fn measure(page: &PlannedPage, a: u64, v: TiffVariant) -> (r: Option<(u64, u64)>)
    requires
        page@.fields.len() <= 19,
        page@.bits.len() <= 8,
        page@.colours.len() <= 1536,
        v is Classic ==> a <= u32::MAX,
    ensures
        (match r {
            Some(m) => {
                &&& page@.addressable(a as int, v)
                &&& m.0 == page@.ifd_at(a as int, v)
                &&& m.1 == page@.end(a as int, v)
                &&& v is Classic ==> m.1 <= u32::MAX
            },
            None => !page@.addressable(a as int, v),
        }),
{
    let ghost p = page@;
    proof {
        reveal_with_fuel(room_of, 9);
        lemma_order(p, a as int, v);
    }
    if !counts_fit(page, v) {
        return None;
    }
    let total: u64 = match segments_len(page) {
        None => {
            return None;
        },
        Some(n) => n,
    };
    let (size, count_size, entry_size): (u128, u128, u128) = match v {
        TiffVariant::Classic => (4, 2, 12),
        TiffVariant::Big => (8, 8, 20),
    };
    let limit: u128 = match v {
        TiffVariant::Classic => 0xffff_ffff,
        TiffVariant::Big => 0xffff_ffff_ffff_ffff,
    };
    let mut at: u128 = a as u128 + total as u128;
    assert(at == p.segments_end(a as int));
    if page.bits.len() > 0 {
        at = at + (2 - at % 2) % 2;
    }
    at = at + page.bits.len() as u128;
    assert(at == p.bits_end(a as int));
    if page.colours.len() > 0 {
        at = at + (2 - at % 2) % 2;
    }
    at = at + page.colours.len() as u128;
    assert(at == p.colours_end(a as int));
    let n: u128 = page.segments.len() as u128;
    if n > 1 {
        at = at + (size - at % size) % size;
        proof {
            assert(0 <= n * size <= 8 * 0xffff_ffff_ffff_ffff) by (nonlinear_arith)
                requires
                    0 <= n <= 0xffff_ffff_ffff_ffff,
                    0 <= size <= 8,
            ;
        }
        at = at + 2 * (n * size);
    }
    assert(at == p.arrays_end(a as int, v.offset_size()));
    at = at + (2 - at % 2) % 2;
    let ifd: u128 = at;
    assert(ifd == p.ifd_at(a as int, v));
    let fields: u128 = page.fields.len() as u128;
    at = at + count_size + fields * entry_size + size;
    assert(at == p.end(a as int, v));
    if at > limit {
        return None;
    }
    Some((ifd as u64, at as u64))
}

fn write_header(v: TiffVariant, first: u64) -> (out: Vec<u8>)
    ensures
        out@ == header_bytes(v, first as int),
{
    let mut out: Vec<u8> = Vec::new();
    push_le(&mut out, BYTE_ORDER_LE as u64, 2);
    match v {
        TiffVariant::Classic => {
            push_le(&mut out, TIFF_MAGIC as u64, 2);
            push_le(&mut out, first, 4);
        },
        TiffVariant::Big => {
            push_le(&mut out, BIGTIFF_MAGIC as u64, 2);
            push_le(&mut out, 8, 2);
            push_le(&mut out, 0, 2);
            push_le(&mut out, first, 8);
        },
    }
    assert(out@ =~= header_bytes(v, first as int));
    out
}

pub proof fn lemma_header_len(v: TiffVariant, first: int)
    ensures
        header_bytes(v, first).len() == header_size(v),
{
    lemma_le_len(BYTE_ORDER_LE as int, 2);
    lemma_le_len(TIFF_MAGIC as int, 2);
    lemma_le_len(BIGTIFF_MAGIC as int, 2);
    lemma_le_len(8, 2);
    lemma_le_len(0, 2);
    lemma_le_len(first, 4);
    lemma_le_len(first, 8);
}

/// The plans of all pages, given what the WebP encoder made of their strips or
/// tiles.
fn plan_pages(pages: &[EncodePage<'_>], v: TiffVariant, replies: &[Vec<Option<Vec<u8>>>]) -> (r: Result<Vec<PlannedPage>>)
    ensures
        (match (r, plans_of(pages@, v, page_replies(replies@))) {
            (Ok(q), Some(plans)) => {
                &&& plan_models(q@) == plans
                &&& all_replies_hold(pages@, page_replies(replies@)) ==> forall|k: int|
                    0 <= k < pages@.len() ==> (#[trigger] pages@[k]).segments_sound(plans[k].segments)
            },
            (Err(e), None) => e is InvalidData,
            _ => false,
        }),
{
    let ghost rs = page_replies(replies@);
    let ghost held = all_replies_hold(pages@, rs);
    let n: usize = pages.len();
    let none: Vec<Option<Vec<u8>>> = Vec::new();
    let mut plans: Vec<PlannedPage> = Vec::new();
    let mut i: usize = 0;
    while i < n
        invariant
            i <= n,
            n == pages@.len(),
            none@.len() == 0,
            rs == page_replies(replies@),
            held == all_replies_hold(pages@, rs),
            plans@.len() == i,
            forall|k: int| 0 <= k < i ==> (#[trigger] pages@[k]).plan(v, replies_at(rs, k)) == Some(plans@[k]@),
            held ==> forall|k: int| 0 <= k < i ==> (#[trigger] pages@[k]).segments_sound(plans@[k]@.segments),
        decreases n - i,
    {
        let made: &[Option<Vec<u8>>] = if i < replies.len() { replies[i].as_slice() } else { none.as_slice() };
        assert(reply_models(made@) =~= replies_at(rs, i as int));
        match plan_page_full(&pages[i], v, made) {
            Ok(q) => {
                assert(held ==> pages@[i as int].replies_hold(replies_at(rs, i as int)));
                plans.push(q);
            },
            Err(e) => {
                assert(pages@[i as int].plan(v, replies_at(rs, i as int)) is None);
                return Err(e);
            },
        }
        i = i + 1;
    }
    proof {
        assert forall|k: int| 0 <= k < pages@.len() implies (#[trigger] pages@[k]).plan(v, replies_at(rs, k)) is Some by {
            assert(pages@[k].plan(v, replies_at(rs, k)) == Some(plans@[k]@));
        }
        assert(plans_of(pages@, v, rs).unwrap() =~= plan_models(plans@));
    }
    Ok(plans)
}

/// Where the directories of planned pages are; nothing where one of them cannot be
/// addressed.
fn place_pages(plans: &Vec<PlannedPage>, v: TiffVariant) -> (r: Option<Vec<u64>>)
    requires
        forall|k: int|
            0 <= k < plans@.len() ==> {
                &&& (#[trigger] plans@[k])@.fields.len() <= 19
                &&& plans@[k]@.bits.len() <= 8
                &&& plans@[k]@.colours.len() <= 1536
            },
    ensures
        (match r {
            Some(q) => {
                &&& all_addressable(plan_models(plans@), v)
                &&& q@.len() == plans@.len()
                &&& forall|k: int| 0 <= k < plans@.len() ==> #[trigger] q@[k] == directory_at(plan_models(plans@), v, k)
            },
            None => !all_addressable(plan_models(plans@), v),
        }),
{
    let ghost models = plan_models(plans@);
    let n: usize = plans.len();
    let mut places: Vec<u64> = Vec::new();
    let mut start: u64 = match v {
        TiffVariant::Classic => 8,
        TiffVariant::Big => 16,
    };
    let mut i: usize = 0;
    while i < n
        invariant
            i <= n,
            n == plans@.len(),
            models == plan_models(plans@),
            forall|k: int|
                0 <= k < plans@.len() ==> {
                    &&& (#[trigger] plans@[k])@.fields.len() <= 19
                    &&& plans@[k]@.bits.len() <= 8
                    &&& plans@[k]@.colours.len() <= 1536
                },
            places@.len() == i,
            start == page_start(models, v, i as int),
            v is Classic ==> start <= u32::MAX,
            forall|k: int| 0 <= k < i ==> #[trigger] models[k].addressable(page_start(models, v, k), v),
            forall|k: int| 0 <= k < i ==> #[trigger] places@[k] == directory_at(models, v, k),
        decreases n - i,
    {
        assert(models[i as int] == plans@[i as int]@);
        match measure(&plans[i], start, v) {
            Some((ifd, end)) => {
                places.push(ifd);
                start = end;
            },
            None => {
                assert(!models[i as int].addressable(page_start(models, v, i as int), v));
                return None;
            },
        }
        i = i + 1;
    }
    Some(places)
}

/// Plans as mathematical values.
pub open spec fn plan_models(v: Seq<PlannedPage>) -> Seq<PlanModel> {
    Seq::new(v.len(), |i: int| v[i]@)
}

/// The pages of a file are as long as their ends say.
pub proof fn lemma_pages_len(plans: Seq<PlanModel>, v: TiffVariant, k: int)
    requires
        0 <= k <= plans.len(),
        all_addressable(plans, v),
    ensures
        page_start(plans, v, k) == header_size(v) + pages_bytes(plans, v, k).len(),
        page_start(plans, v, k) >= header_size(v),
    decreases k,
{
    if k > 0 {
        lemma_pages_len(plans, v, k - 1);
        assert(plans[k - 1].addressable(page_start(plans, v, k - 1), v));
        lemma_page_len(plans[k - 1], page_start(plans, v, k - 1), v, directory_at(plans, v, k));
    }
}

/// Appends page `k` to a file that holds those before it.
fn append_page(
    out: &mut Vec<u8>,
    page: &PlannedPage,
    v: TiffVariant,
    next: u64,
    Ghost(plans): Ghost<Seq<PlanModel>>,
    Ghost(k): Ghost<int>,
    Ghost(head): Ghost<Seq<u8>>,
)
    requires
        0 <= k < plans.len(),
        plans[k] == page@,
        page@.wf(v),
        all_addressable(plans, v),
        head.len() == header_size(v),
        old(out)@ == head + pages_bytes(plans, v, k),
        next == directory_at(plans, v, k + 1),
    ensures
        final(out)@ == head + pages_bytes(plans, v, k + 1),
{
    proof {
        lemma_pages_len(plans, v, k);
        assert(plans[k].addressable(page_start(plans, v, k), v));
    }
    let ghost before = out@;
    write_page(out, page, v, next);
    proof {
        let part = page@.bytes(page_start(plans, v, k), v, next as int);
        assert(head + pages_bytes(plans, v, k) + part =~= head + (pages_bytes(plans, v, k) + part));
    }
}

/// Planned pages fit the limits that placing them has.
proof fn lemma_plans_small(pages: Seq<EncodePage<'_>>, v: TiffVariant, replies: Seq<Seq<WebpReply>>, plans: Seq<PlanModel>)
    requires
        plans_of(pages, v, replies) == Some(plans),
    ensures
        all_planned(pages, v, plans),
        forall|k: int|
            0 <= k < plans.len() ==> {
                &&& (#[trigger] plans[k]).wf(v)
                &&& plans[k].fields.len() <= 19
                &&& plans[k].bits.len() <= 8
                &&& plans[k].colours.len() <= 1536
            },
{
    assert forall|k: int| 0 <= k < pages.len() implies (#[trigger] pages[k]).planned(v, plans[k]) by {
        assert(pages[k].plan(v, replies_at(replies, k)) is Some);
        assert(pages[k].plan(v, replies_at(replies, k)) == Some(plans[k]));
    }
    assert forall|k: int| 0 <= k < plans.len() implies {
        &&& (#[trigger] plans[k]).wf(v)
        &&& plans[k].fields.len() <= 19
        &&& plans[k].bits.len() <= 8
        &&& plans[k].colours.len() <= 1536
    } by {
        assert(pages[k].planned(v, plans[k]));
        lemma_plan_wf(pages[k], v, plans[k]);
        lemma_bits_list(pages[k]);
    }
}

/// The file is decoded to what the pages show: the first, and all. JPEG decoders are
/// not asked.
pub open spec fn read_as(file: Seq<u8>, pages: Seq<EncodePage<'_>>) -> bool {
    &&& forall|replies: Seq<JpegReply>| #[trigger] first_image(file, replies) == page_outcome(pages[0])
    &&& forall|replies: Seq<Seq<JpegReply>>| #[trigger] all_images(file, replies) == pages_outcome(pages)
}

/// The file is that of the pages when the WebP encoder made of their strips or tiles
/// what is given, which is what it owes, and strips and tiles decompress as they
/// should.
pub open spec fn written(pages: Seq<EncodePage<'_>>, replies: Seq<Seq<WebpReply>>, file: Seq<u8>) -> bool {
    &&& all_replies_hold(pages, replies)
    &&& encoded(pages, replies) == Outcome::<Seq<u8>>::Ok(file)
    &&& plans_of(pages, variant_of(pages[0]), replies) matches Some(plans) && forall|k: int|
        0 <= k < pages.len() ==> (#[trigger] pages[k]).segments_sound(plans[k].segments)
}

/// The file is one that the pages are encoded to.
pub open spec fn file_of(pages: Seq<EncodePage<'_>>, file: Seq<u8>) -> bool {
    exists|replies: Seq<Seq<WebpReply>>| #[trigger] written(pages, replies, file)
}

/// All pages can be written, to one file.
pub open spec fn all_writable(pages: Seq<EncodePage<'_>>) -> bool {
    &&& pages.len() > 0
    &&& forall|k: int| 0 <= k < pages.len() ==> (#[trigger] pages[k]).bigtiff == pages[0].bigtiff
    &&& forall|k: int| 0 <= k < pages.len() ==> (#[trigger] pages[k]).writable()
}

/// A result is the file of planned pages, or that they lie beyond what can be
/// addressed.
pub open spec fn laid_out(r: Result<Vec<u8>>, plans: Option<Seq<PlanModel>>, v: TiffVariant) -> bool {
    plans matches Some(p) && match r {
        Ok(file) => all_addressable(p, v) && file@ == file_bytes(p, v),
        Err(e) => !all_addressable(p, v) && e is Unsupported,
    }
}

/// Pages that can be written have plans, whatever the WebP encoder makes of their
/// strips or tiles: only what cannot be addressed keeps them from being a file.
pub proof fn law_all_writable(pages: Seq<EncodePage<'_>>, replies: Seq<Seq<WebpReply>>)
    requires
        all_writable(pages),
        all_replies_hold(pages, replies),
    ensures
        plans_of(pages, variant_of(pages[0]), replies) is Some,
        encoded(pages, replies) is Ok || encoded(pages, replies) == Outcome::<Seq<u8>>::Err(ErrorKind::Unsupported),
{
    let v = variant_of(pages[0]);
    assert forall|k: int| 0 <= k < pages.len() implies (#[trigger] pages[k]).plan(v, replies_at(replies, k)) is Some by {
        assert(pages[k].writable());
        assert(pages[k].replies_hold(replies_at(replies, k)));
        law_writable(pages[k], v, replies_at(replies, k));
    }
}

/// Lays out a file of some pages, given what the WebP encoder made of their strips
/// or tiles. Where that is what it owes, the file is decoded to what the pages show.
pub fn encode_with_webp(pages: &[EncodePage<'_>], replies: &[Vec<Option<Vec<u8>>>]) -> (r: Result<Vec<u8>>)
    ensures
        bytes_agree(r, encoded(pages@, page_replies(replies@))),
        all_replies_hold(pages@, page_replies(replies@)) ==> (r matches Ok(file) ==> written(
            pages@,
            page_replies(replies@),
            file@,
        ) && read_as(file@, pages@)),
{
    let ghost rs = page_replies(replies@);
    let n: usize = pages.len();
    if n == 0 {
        return Err(TiffError::invalid("TIFF encode: must supply at least one page"));
    }
    let bigtiff: bool = pages[0].bigtiff;
    let mut i: usize = 0;
    while i < n
        invariant
            i <= n,
            n == pages@.len(),
            n > 0,
            bigtiff == pages@[0].bigtiff,
            forall|k: int| 0 <= k < i ==> (#[trigger] pages@[k]).bigtiff == bigtiff,
        decreases n - i,
    {
        if pages[i].bigtiff != bigtiff {
            return Err(TiffError::invalid("TIFF encode: encode_tiff_multi pages must all agree on `bigtiff`"));
        }
        i = i + 1;
    }
    let v = if bigtiff { TiffVariant::Big } else { TiffVariant::Classic };
    let plans = plan_pages(pages, v, replies)?;
    let ghost models = plan_models(plans@);
    proof {
        lemma_plans_small(pages@, v, rs, models);
        assert forall|k: int| 0 <= k < plans@.len() implies {
            &&& (#[trigger] plans@[k])@.fields.len() <= 19
            &&& plans@[k]@.bits.len() <= 8
            &&& plans@[k]@.colours.len() <= 1536
        } by {
            assert(models[k] == plans@[k]@);
        }
    }
    let places = match place_pages(&plans, v) {
        Some(q) => q,
        None => {
            return Err(
                TiffError::unsupported(
                    "TIFF encode: offset overflow (would need BigTIFF; set EncodePage::bigtiff = true)",
                ),
            );
        },
    };
    let ghost head = header_bytes(v, directory_at(models, v, 0));
    let mut out = write_header(v, places[0]);
    let mut k: usize = 0;
    proof {
        assert(places@[0] == directory_at(models, v, 0));
        lemma_header_len(v, directory_at(models, v, 0));
        assert(out@ =~= head + pages_bytes(models, v, 0));
    }
    while k < n
        invariant
            k <= n,
            n == pages@.len(),
            n == plans@.len(),
            n == places@.len(),
            models == plan_models(plans@),
            all_addressable(models, v),
            forall|j: int| 0 <= j < n ==> (#[trigger] models[j]).wf(v),
            head.len() == header_size(v),
            forall|j: int| 0 <= j < n ==> #[trigger] places@[j] == directory_at(models, v, j),
            out@ == head + pages_bytes(models, v, k as int),
        decreases n - k,
    {
        let next: u64 = if k + 1 < n { places[k + 1] } else { 0 };
        proof {
            if k + 1 < n {
                assert(places@[k + 1] == directory_at(models, v, k + 1));
            }
            assert(models[k as int] == plans@[k as int]@);
        }
        append_page(&mut out, &plans[k], v, next, Ghost(models), Ghost(k as int), Ghost(head));
        k = k + 1;
    }
    proof {
        if all_replies_hold(pages@, rs) {
            assert(written(pages@, rs, out@));
            law_read_back(pages@, out@);
        }
    }
    Ok(out)
}

/// Encodes a file of some pages. It is decoded to what the pages show. The strips or
/// tiles of a WebP page are files that decode to their pixels. Pages that can be
/// written make a file unless it lies beyond what can be addressed.
pub fn encode_tiff_multi(pages: &[EncodePage<'_>]) -> (r: Result<Vec<u8>>)
    ensures
        exists|replies: Seq<Seq<WebpReply>>|
            all_replies_hold(pages@, replies) && bytes_agree(r, #[trigger] encoded(pages@, replies)),
        all_writable(pages@) ==> exists|replies: Seq<Seq<WebpReply>>|
            all_replies_hold(pages@, replies) && laid_out(
                r,
                #[trigger] plans_of(pages@, variant_of(pages@[0]), replies),
                variant_of(pages@[0]),
            ),
        without_webp(pages@) ==> bytes_agree(r, encoded(pages@, Seq::empty())),
        r matches Ok(file) ==> file_of(pages@, file@) && read_as(file@, pages@),
{
    let n: usize = pages.len();
    let mut made: Vec<Vec<Option<Vec<u8>>>> = Vec::new();
    let mut i: usize = 0;
    while i < n
        invariant
            i <= n,
            n == pages@.len(),
            made@.len() == i,
            forall|k: int| 0 <= k < i ==> (#[trigger] pages@[k]).replies_hold(reply_models(made@[k]@)),
        decreases n - i,
    {
        let files = webp_files(&pages[i]);
        made.push(files);
        i = i + 1;
    }
    let ghost rs = page_replies(made@);
    proof {
        assert forall|k: int| 0 <= k < pages@.len() implies (#[trigger] pages@[k]).replies_hold(replies_at(rs, k)) by {
            assert(replies_at(rs, k) == reply_models(made@[k]@));
        }
        if without_webp(pages@) {
            law_webp_unused(pages@, rs, Seq::empty());
        }
    }
    let r = encode_with_webp(pages, made.as_slice());
    proof {
        assert(bytes_agree(r, encoded(pages@, rs)));
        if all_writable(pages@) {
            law_all_writable(pages@, rs);
            assert(laid_out(r, plans_of(pages@, variant_of(pages@[0]), rs), variant_of(pages@[0])));
        }
        if r is Ok {
            assert(written(pages@, rs, r->Ok_0@));
        }
    }
    r
}

/// Encodes a file of one page. It is decoded to what the page shows. A page that can
/// be written makes a file unless it lies beyond what can be addressed.
pub fn encode_tiff(page: &EncodePage<'_>) -> (r: Result<Vec<u8>>)
    ensures
        exists|replies: Seq<Seq<WebpReply>>|
            all_replies_hold(seq![*page], replies) && bytes_agree(r, #[trigger] encoded(seq![*page], replies)),
        page.writable() ==> exists|replies: Seq<Seq<WebpReply>>|
            all_replies_hold(seq![*page], replies) && laid_out(
                r,
                #[trigger] plans_of(seq![*page], variant_of(*page), replies),
                variant_of(*page),
            ),
        page.compression !is WebP ==> bytes_agree(r, encoded(seq![*page], Seq::empty())),
        r matches Ok(file) ==> file_of(seq![*page], file@) && read_as(file@, seq![*page]),
{
    let mut pages: Vec<EncodePage<'_>> = Vec::new();
    pages.push(*page);
    assert(pages@ =~= seq![*page]);
    assert(pages@[0] == *page);
    encode_tiff_multi(&pages)
}

} // verus!
