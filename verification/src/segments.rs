//! The stored samples of a page: strips or tiles, whole pixels or one component
//! at a time, put together to one buffer of whole pixels.
use vstd::prelude::*;
use crate::ccitt::{ccitt_decode, decode_ccitt, reverse_bits_in_place, reversed_all, CcittVariant, FillOrder};
use crate::compress::{append, codec_limit, lemma_packbits_error, min_int, packbits_decode};
use crate::compress::{unpack_deflate, unpack_packbits, unpack_zstd, zlib_inflated, zstd_expanded};
use crate::error::{invalid_with, Outcome, Result, TiffError};
use crate::ifd::{copy_range, ByteOrder};
use crate::lzw::{lzw_decode, unpack_lzw};
use crate::predictor::{apply_horizontal_predictor, rows_fit, summed_rows};
use crate::render::{ceil_div, lemma_pixel_place, lemma_row_byte, page_size_ok};
use crate::types::{COMPRESSION_CCITT_HUFFMAN, COMPRESSION_CCITT_T4, COMPRESSION_CCITT_T6, COMPRESSION_DEFLATE_ADOBE};
use crate::types::{COMPRESSION_LZW, COMPRESSION_NONE, COMPRESSION_PACKBITS, COMPRESSION_WEBP, COMPRESSION_ZSTD};
use crate::types::PREDICTOR_HORIZONTAL;
use crate::webp::{repacked, unpack_webp, webp_pixels};

verus! {

/// How the samples of a strip or tile are stored.
#[derive(Debug, Clone, Copy, PartialEq, Eq, Structural)]
pub struct Coding {
    /// Value of the Compression field.
    pub compression: u16,
    /// Value of the Predictor field.
    pub predictor: u16,
    /// Value of the T4Options field.
    pub t4_options: u32,
    /// Value of the T6Options field.
    pub t6_options: u32,
    /// Order of the bits of a byte.
    pub fill: FillOrder,
    /// Bits of a sample.
    pub bps: u16,
    /// Samples of a pixel of the strip or tile.
    pub samples: u16,
    /// Byte order of the file.
    pub bo: ByteOrder,
}

/// A result on bytes whose only failure is invalid data.
pub open spec fn bytes_or_invalid(r: Result<Vec<u8>>, s: Option<Seq<u8>>) -> bool {
    match (r, s) {
        (Ok(v), Some(w)) => v@ == w,
        (Err(e), None) => e is InvalidData,
        _ => false,
    }
}

/// Bytes of a row of `width` pixels, padded to whole bytes.
pub open spec fn row_bytes_of(width: int, c: Coding) -> int {
    ceil_div(width * c.samples * c.bps, 8)
}

/// The T.4 variant that the T4Options field selects: bit 0 for two dimensions,
/// bit 2 for line ends on byte boundaries.
pub open spec fn t4_variant(t4_options: u32) -> CcittVariant {
    let eol_byte_aligned = t4_options / 4 % 2 == 1;
    if t4_options % 2 == 1 {
        CcittVariant::T4TwoD { eol_byte_aligned }
    } else {
        CcittVariant::T4OneD { eol_byte_aligned }
    }
}

pub open spec fn outcome_bytes(o: Outcome<Seq<u8>>) -> Option<Seq<u8>> {
    match o {
        Ok(v) => Some(v),
        Err(_) => None,
    }
}

/// The bytes of a strip or tile of `width` by `rows` pixels, which should be
/// `size` of them, once decompressed.
pub open spec fn unpacked(raw: Seq<u8>, size: int, width: int, rows: int, c: Coding) -> Option<Seq<u8>> {
    if c.compression == COMPRESSION_NONE {
        Some(raw)
    } else if c.compression == COMPRESSION_PACKBITS {
        outcome_bytes(packbits_decode(raw, 0, Seq::empty(), size))
    } else if c.compression == COMPRESSION_LZW {
        outcome_bytes(lzw_decode(raw, size))
    } else if c.compression == COMPRESSION_DEFLATE_ADOBE {
        zlib_inflated(raw, codec_limit(size))
    } else if c.compression == COMPRESSION_ZSTD {
        zstd_expanded(raw, codec_limit(size))
    } else if c.compression == COMPRESSION_WEBP {
        repacked(webp_pixels(raw), width, rows, c.samples as int)
    } else if c.compression == COMPRESSION_CCITT_HUFFMAN {
        outcome_bytes(ccitt_decode(raw, width, rows, CcittVariant::ModifiedHuffman, c.fill))
    } else if c.compression == COMPRESSION_CCITT_T4 {
        outcome_bytes(ccitt_decode(raw, width, rows, t4_variant(c.t4_options), c.fill))
    } else if c.compression == COMPRESSION_CCITT_T6 && (c.t6_options == 0 || c.t6_options == 2) {
        outcome_bytes(ccitt_decode(raw, width, rows, CcittVariant::T6, c.fill))
    } else {
        None
    }
}

/// Decompresses a strip or tile.
pub fn decompress_block(raw: &[u8], expected: usize, width: u32, rows: u32, c: Coding) -> (r: Result<Vec<u8>>)
    ensures
        bytes_or_invalid(r, unpacked(raw@, expected as int, width as int, rows as int, c)),
{
    match c.compression {
        COMPRESSION_NONE => {
            assert(raw@.subrange(0, raw@.len() as int) =~= raw@);
            Ok(copy_range(raw, 0, raw.len()))
        },
        COMPRESSION_PACKBITS => {
            proof {
                lemma_packbits_error(raw@, 0, Seq::empty(), expected as int);
            }
            unpack_packbits(raw, expected)
        },
        COMPRESSION_LZW => unpack_lzw(raw, expected),
        COMPRESSION_DEFLATE_ADOBE => unpack_deflate(raw, expected),
        COMPRESSION_ZSTD => unpack_zstd(raw, expected),
        COMPRESSION_WEBP => unpack_webp(raw, width, rows, c.samples),
        COMPRESSION_CCITT_HUFFMAN => decode_ccitt(raw, width, rows, CcittVariant::ModifiedHuffman, c.fill),
        COMPRESSION_CCITT_T4 => {
            let eol_byte_aligned: bool = c.t4_options / 4 % 2 == 1;
            let variant = if c.t4_options % 2 == 1 {
                CcittVariant::T4TwoD { eol_byte_aligned }
            } else {
                CcittVariant::T4OneD { eol_byte_aligned }
            };
            decode_ccitt(raw, width, rows, variant, c.fill)
        },
        COMPRESSION_CCITT_T6 => {
            if c.t6_options != 0 && c.t6_options != 2 {
                return Err(
                    invalid_with("TIFF: T6Options ", c.t6_options as u64, " has undefined bits set; only bit 1 is defined"),
                );
            }
            decode_ccitt(raw, width, rows, CcittVariant::T6, c.fill)
        },
        other => Err(invalid_with("TIFF: Compression=", other as u64, " not supported")),
    }
}

/// `count` bytes of the file from `offset` on, if it has them.
pub open spec fn segment_at(input: Seq<u8>, offset: int, count: int) -> Option<Seq<u8>> {
    if offset + count > input.len() { None } else { Some(input.subrange(offset, offset + count)) }
}

/// The samples of a strip or tile: `size` bytes, in display bit order, with the
/// differences of the predictor undone.
pub open spec fn block(raw: Seq<u8>, size: int, width: int, rows: int, c: Coding) -> Option<Seq<u8>> {
    match unpacked(raw, size, width, rows, c) {
        None => None,
        Some(d) => if d.len() < size {
            None
        } else {
            let cut = d.take(size);
            let plain = if c.compression == COMPRESSION_NONE && c.fill == FillOrder::LsbFirst && c.bps == 1 {
                reversed_all(cut)
            } else {
                cut
            };
            if c.predictor == PREDICTOR_HORIZONTAL {
                summed_rows(plain, width, rows, c.samples as int, c.bps as int, row_bytes_of(width, c), c.bo)
            } else {
                Some(plain)
            }
        },
    }
}

/// A block holds as many bytes as it should.
pub proof fn lemma_block_size(raw: Seq<u8>, size: int, width: int, rows: int, c: Coding)
    requires
        size >= 0,
    ensures
        block(raw, size, width, rows, c) matches Some(b) ==> b.len() == size,
{
}

/// The rows of a strip or tile fit its bytes, as the predictor needs it.
proof fn lemma_rows_fit(width: int, rows: int, c: Coding, row_bytes: int, size: int)
    requires
        0 <= width,
        0 <= rows,
        1 <= c.samples,
        c.bps == 4 || c.bps == 8 || c.bps == 16,
        row_bytes == row_bytes_of(width, c),
        size == row_bytes * rows,
    ensures
        rows_fit(size, width, rows, c.samples as int, c.bps as int, row_bytes),
{
    let n = width * c.samples;
    assert(0 <= n) by (nonlinear_arith)
        requires
            0 <= width,
            1 <= c.samples,
            n == width * c.samples,
    ;
    assert(row_bytes * rows == rows * row_bytes) by (nonlinear_arith);
    if c.bps == 4 {
        assert(n * c.bps == 4 * n) by (nonlinear_arith)
            requires
                c.bps == 4,
        ;
    } else if c.bps == 8 {
        assert(n * c.bps == 8 * n) by (nonlinear_arith)
            requires
                c.bps == 8,
        ;
    } else if c.bps == 16 {
        assert(n * c.bps == 16 * n) by (nonlinear_arith)
            requires
                c.bps == 16,
        ;
    }
}

/// The samples of the strip or tile that `count` bytes from `offset` on hold;
/// nothing where the file is too short, and for a block that memory could not
/// address.
pub open spec fn stored_block(
    input: Seq<u8>,
    offset: int,
    count: int,
    size: int,
    width: int,
    rows: int,
    c: Coding,
) -> Option<Seq<u8>> {
    match segment_at(input, offset, count) {
        None => None,
        Some(raw) => if size > usize::MAX { None } else { block(raw, size, width, rows, c) },
    }
}

/// Reads one strip or tile.
pub fn read_block(input: &[u8], offset: u64, count: u64, size: u128, width: u32, rows: u32, c: Coding) -> (r: Result<
    Vec<u8>,
>)
    requires
        c.samples >= 1,
        c.predictor == PREDICTOR_HORIZONTAL ==> size == row_bytes_of(width as int, c) * rows,
    ensures
        bytes_or_invalid(
            r,
            stored_block(input@, offset as int, count as int, size as int, width as int, rows as int, c),
        ),
        r matches Ok(v) ==> v@.len() == size,
{
    if offset as u128 + count as u128 > input.len() as u128 {
        return Err(TiffError::invalid("TIFF: strip or tile extends past EOF"));
    }
    if size > usize::MAX as u128 {
        return Err(TiffError::invalid("TIFF: strip or tile too large"));
    }
    let expected: usize = size as usize;
    let raw = copy_range(input, offset as usize, offset as usize + count as usize);
    let mut data = decompress_block(&raw, expected, width, rows, c)?;
    if data.len() < expected {
        return Err(invalid_with("TIFF: strip or tile short after decompress, expected ", expected as u64, " bytes"));
    }
    let ghost whole = data@;
    data.truncate(expected);
    assert(data@ =~= whole.take(expected as int));
    if c.compression == COMPRESSION_NONE && c.fill == FillOrder::LsbFirst && c.bps == 1 {
        reverse_bits_in_place(&mut data);
    }
    if c.predictor == PREDICTOR_HORIZONTAL && width > 0 && rows > 0 {
        if c.bps != 4 && c.bps != 8 && c.bps != 16 {
            return Err(TiffError::invalid("TIFF: predictor at this bits_per_sample unsupported"));
        }
        let row_bytes: usize = expected / (rows as usize);
        proof {
            let rb = row_bytes_of(width as int, c);
            assert(rb * rows == rows * rb) by (nonlinear_arith);
            vstd::arithmetic::div_mod::lemma_fundamental_div_mod_converse(expected as int, rows as int, rb, 0);
            lemma_rows_fit(width as int, rows as int, c, rb, expected as int);
        }
        apply_horizontal_predictor(
            &mut data,
            width as usize,
            rows as usize,
            c.samples as usize,
            c.bps as usize,
            row_bytes,
            c.bo,
        )?;
    }
    Ok(data)
}

// ----------------------------------------------------------------------
// Strips
// ----------------------------------------------------------------------

/// A page cut into strips.
#[derive(Debug, Clone, Copy)]
pub struct StripGrid {
    /// Width of the page in pixels.
    pub width: u32,
    /// Height of the page in pixels.
    pub height: u32,
    /// Rows of every strip but the last.
    pub rows_per_strip: u32,
    /// Luma samples across and down a data unit, for chroma-subsampled pages.
    pub units: Option<(u32, u32)>,
}

/// Bytes of the data units of `rows` rows.
pub open spec fn unit_rows_size(width: int, rows: int, sh: int, sv: int) -> int {
    ceil_div(width, sh) * ceil_div(rows, sv) * (sh * sv + 2)
}

/// Bytes of a strip of `rows` rows.
pub open spec fn strip_size(g: StripGrid, rows: int, c: Coding) -> int {
    match g.units {
        Some(u) => unit_rows_size(g.width as int, rows, u.0 as int, u.1 as int),
        None => row_bytes_of(g.width as int, c) * rows,
    }
}

/// Numbers of a field as mathematical values.
pub open spec fn ints_of(v: Seq<u64>) -> Seq<int> {
    Seq::new(v.len(), |i: int| v[i] as int)
}

/// The samples of strips `i` to `end`, appended to those of the `done` rows
/// before them; strips beyond the last row are not looked at.
pub open spec fn strips_from(
    input: Seq<u8>,
    offsets: Seq<int>,
    counts: Seq<int>,
    i: int,
    end: int,
    done: int,
    out: Seq<u8>,
    g: StripGrid,
    c: Coding,
) -> Option<Seq<u8>>
    decreases end - i,
{
    if done >= g.height {
        Some(out)
    } else if i >= end {
        None
    } else {
        let rows = min_int(g.rows_per_strip as int, g.height - done);
        match stored_block(input, offsets[i], counts[i], strip_size(g, rows, c), g.width as int, rows, c) {
            None => None,
            Some(b) => strips_from(input, offsets, counts, i + 1, end, done + rows, out + b, g, c),
        }
    }
}

proof fn lemma_bits_bound(width: int, c: Coding)
    requires
        0 <= width <= 0xffff_ffff,
    ensures
        0 <= width * c.samples * c.bps <= 0xffff_ffff * 0xffff * 0xffff,
{
    let n = width * c.samples;
    assert(0 <= n <= 0xffff_ffff * 0xffff) by (nonlinear_arith)
        requires
            0 <= width <= 0xffff_ffff,
            0 <= c.samples <= 0xffff,
            n == width * c.samples,
    ;
    assert(0 <= n * c.bps <= 0xffff_ffff * 0xffff * 0xffff) by (nonlinear_arith)
        requires
            0 <= n <= 0xffff_ffff * 0xffff,
            0 <= c.bps <= 0xffff,
    ;
}

/// Bytes of a row of `width` pixels.
pub(crate) fn row_size_of(width: u32, c: Coding) -> (n: u64)
    ensures
        n == row_bytes_of(width as int, c),
        n <= 0x2000_0000_0000_0000,
{
    proof {
        lemma_bits_bound(width as int, c);
        let n = width * c.samples;
        assert(0 <= n <= 0xffff_ffff * 0xffff) by (nonlinear_arith)
            requires
                0 <= width <= 0xffff_ffff,
                0 <= c.samples <= 0xffff,
                n == width * c.samples,
        ;
    }
    let bits: u64 = width as u64 * c.samples as u64 * c.bps as u64;
    bits / 8 + (if bits % 8 == 0 { 0u64 } else { 1u64 })
}

/// `a / b`, rounded up.
pub(crate) fn div_up(a: u32, b: u32) -> (q: u32)
    requires
        b > 0,
    ensures
        q == ceil_div(a as int, b as int),
        q * b <= a + b - 1,
        a <= q * b,
        q <= a,
{
    let q: u64 = (a as u64 + b as u64 - 1) / (b as u64);
    proof {
        let n = a + b - 1;
        let d = b as int;
        vstd::arithmetic::div_mod::lemma_fundamental_div_mod(n, d);
        vstd::arithmetic::div_mod::lemma_mod_bound(n, d);
        assert(d * (n / d) == (n / d) * d) by (nonlinear_arith);
        let p = n / d;
        assert(p <= a) by (nonlinear_arith)
            requires
                p * d <= a + d - 1,
                d >= 1,
                a >= 0,
        ;
        assert(p >= 0) by (nonlinear_arith)
            requires
                a <= p * d,
                a >= 0,
                d >= 1,
        ;
    }
    q as u32
}

/// Bytes of a strip of `rows` rows.
fn strip_bytes(g: StripGrid, rows: u32, c: Coding) -> (n: u128)
    requires
        g.units matches Some(u) ==> u.0 > 0 && u.1 > 0,
    ensures
        n == strip_size(g, rows as int, c),
{
    match g.units {
        Some((sh, sv)) => {
            let bw: u32 = div_up(g.width, sh);
            let br: u32 = div_up(rows, sv);
            proof {
                assert(0 <= bw * sh <= 0x2_0000_0000 && 0 <= br * sv <= 0x2_0000_0000);
                let a = bw * sh;
                let b = br * sv;
                assert(0 <= a * b <= 0x2_0000_0000 * 0x2_0000_0000) by (nonlinear_arith)
                    requires
                        0 <= a <= 0x2_0000_0000,
                        0 <= b <= 0x2_0000_0000,
                ;
                assert(0 <= bw * br <= 0xffff_ffff * 0xffff_ffff) by (nonlinear_arith)
                    requires
                        0 <= bw <= 0xffff_ffff,
                        0 <= br <= 0xffff_ffff,
                ;
                assert(bw * br * (sh * sv + 2) == a * b + 2 * (bw * br)) by (nonlinear_arith)
                    requires
                        a == bw * sh,
                        b == br * sv,
                ;
            }
            (bw as u128 * sh as u128) * (br as u128 * sv as u128) + 2 * (bw as u128 * br as u128)
        },
        None => {
            let row: u64 = row_size_of(g.width, c);
            proof {
                assert(0 <= row * rows <= 0x2000_0000_0000_0000 * 0xffff_ffff) by (nonlinear_arith)
                    requires
                        0 <= row <= 0x2000_0000_0000_0000,
                        0 <= rows <= 0xffff_ffff,
                ;
            }
            row as u128 * rows as u128
        },
    }
}

/// Reads strips `first` to `end`, which must cover the page.
pub fn read_strips(input: &[u8], offsets: &Vec<u64>, counts: &Vec<u64>, first: usize, end: usize, g: StripGrid, c: Coding) -> (r:
    Result<Vec<u8>>)
    requires
        first <= end <= offsets@.len(),
        offsets@.len() == counts@.len(),
        c.samples >= 1,
        g.units matches Some(u) ==> u.0 > 0 && u.1 > 0 && c.predictor != PREDICTOR_HORIZONTAL,
    ensures
        bytes_or_invalid(
            r,
            strips_from(
                input@,
                ints_of(offsets@),
                ints_of(counts@),
                first as int,
                end as int,
                0,
                Seq::empty(),
                g,
                c,
            ),
        ),
{
    let ghost offs = ints_of(offsets@);
    let ghost cnts = ints_of(counts@);
    let ghost goal = strips_from(input@, offs, cnts, first as int, end as int, 0, Seq::empty(), g, c);
    let mut out: Vec<u8> = Vec::new();
    let mut done: u32 = 0;
    let mut i: usize = first;
    while i < end && done < g.height
        invariant
            first <= i <= end <= offsets@.len(),
            offsets@.len() == counts@.len(),
            done <= g.height,
            c.samples >= 1,
            g.units matches Some(u) ==> u.0 > 0 && u.1 > 0 && c.predictor != PREDICTOR_HORIZONTAL,
            offs == ints_of(offsets@),
            cnts == ints_of(counts@),
            goal == strips_from(input@, ints_of(offsets@), ints_of(counts@), first as int, end as int, 0, Seq::empty(), g, c),
            goal == strips_from(input@, offs, cnts, i as int, end as int, done as int, out@, g, c),
        decreases end - i,
    {
        let left: u32 = g.height - done;
        let rows: u32 = if g.rows_per_strip < left { g.rows_per_strip } else { left };
        let size: u128 = strip_bytes(g, rows, c);
        let strip = read_block(input, offsets[i], counts[i], size, g.width, rows, c)?;
        append(&mut out, &strip);
        done = done + rows;
        i = i + 1;
    }
    if done < g.height {
        return Err(TiffError::invalid("TIFF: strips did not cover full image"));
    }
    Ok(out)
}

/// Strips of whole rows hold the rows of the page.
pub proof fn lemma_strips_size(
    input: Seq<u8>,
    offsets: Seq<int>,
    counts: Seq<int>,
    i: int,
    end: int,
    done: int,
    out: Seq<u8>,
    g: StripGrid,
    c: Coding,
)
    requires
        g.units is None,
        0 <= done <= g.height,
    ensures
        strips_from(input, offsets, counts, i, end, done, out, g, c) matches Some(s) ==> s.len() == out.len()
            + row_bytes_of(g.width as int, c) * (g.height - done),
    decreases end - i,
{
    let rb = row_bytes_of(g.width as int, c);
    lemma_bits_bound(g.width as int, c);
    if done >= g.height {
        assert(rb * 0 == 0) by (nonlinear_arith);
    } else if i < end {
        let rows = min_int(g.rows_per_strip as int, g.height - done);
        let size = strip_size(g, rows, c);
        assert(0 <= rb * rows) by (nonlinear_arith)
            requires
                0 <= rb,
                0 <= rows,
        ;
        assert(rb * (g.height - done) == rb * rows + rb * (g.height - (done + rows))) by (nonlinear_arith);
        match stored_block(input, offsets[i], counts[i], size, g.width as int, rows, c) {
            None => {},
            Some(b) => {
                lemma_block_size(input.subrange(offsets[i], offsets[i] + counts[i]), size, g.width as int, rows, c);
                lemma_strips_size(input, offsets, counts, i + 1, end, done + rows, out + b, g, c);
            },
        }
    }
}

// ----------------------------------------------------------------------
// Tiles
// ----------------------------------------------------------------------

/// A page cut into tiles.
#[derive(Debug, Clone, Copy)]
pub struct TileGrid {
    /// Width of the page in pixels.
    pub width: u32,
    /// Height of the page in pixels.
    pub height: u32,
    /// Width of a tile in pixels.
    pub tile_w: u32,
    /// Height of a tile in pixels.
    pub tile_h: u32,
}

impl TileGrid {
    /// Tiles in a row of tiles.
    pub open spec fn across(self) -> int {
        ceil_div(self.width as int, self.tile_w as int)
    }

    /// Rows of tiles.
    pub open spec fn down(self) -> int {
        ceil_div(self.height as int, self.tile_h as int)
    }
}

/// The samples of tile `i`.
pub open spec fn tile_block(input: Seq<u8>, offsets: Seq<int>, counts: Seq<int>, i: int, t: TileGrid, c: Coding) -> Option<
    Seq<u8>,
> {
    stored_block(
        input,
        offsets[i],
        counts[i],
        row_bytes_of(t.tile_w as int, c) * t.tile_h,
        t.tile_w as int,
        t.tile_h as int,
        c,
    )
}

/// Number of the tile, counted from `first` on, that holds byte `k` of the page.
pub open spec fn tile_of(k: int, first: int, t: TileGrid, c: Coding) -> int {
    let row = row_bytes_of(t.width as int, c);
    first + (k / row / (t.tile_h as int) * t.across() + k % row / row_bytes_of(t.tile_w as int, c))
}

/// Place of byte `k` of the page in its tile.
pub open spec fn byte_in_tile(k: int, t: TileGrid, c: Coding) -> int {
    let row = row_bytes_of(t.width as int, c);
    let tile_row = row_bytes_of(t.tile_w as int, c);
    k / row % (t.tile_h as int) * tile_row + k % row % tile_row
}

/// Whether every tile starts on a byte boundary of a row.
pub open spec fn tiles_aligned(t: TileGrid, c: Coding) -> bool {
    t.across() < 2 || t.tile_w * c.samples * c.bps % 8 == 0
}

/// The samples of a page whose tiles are those from `first` on.
pub open spec fn tiles_spec(input: Seq<u8>, offsets: Seq<int>, counts: Seq<int>, first: int, t: TileGrid, c: Coding) -> Option<
    Seq<u8>,
> {
    if !tiles_aligned(t, c) {
        None
    } else if exists|i: int|
        first <= i < first + t.across() * t.down() && (#[trigger] tile_block(input, offsets, counts, i, t, c)) is None {
        None
    } else {
        Some(
            Seq::new(
                (row_bytes_of(t.width as int, c) * t.height) as nat,
                |k: int| tile_block(input, offsets, counts, tile_of(k, first, t, c), t, c).unwrap()[byte_in_tile(k, t, c)],
            ),
        )
    }
}

/// Reads the tiles from `first` on that stand side by side.
fn read_tile_row(input: &[u8], offsets: &Vec<u64>, counts: &Vec<u64>, first: usize, across: usize, t: TileGrid, c: Coding) -> (r:
    Result<Vec<Vec<u8>>>)
    requires
        first + across <= offsets@.len(),
        offsets@.len() == counts@.len(),
        c.samples >= 1,
    ensures
        (match r {
            Ok(v) => v@.len() == across && forall|i: int|
                first <= i < first + across ==> {
                    &&& #[trigger] tile_block(input@, ints_of(offsets@), ints_of(counts@), i, t, c) == Some(
                        v@[i - first]@,
                    )
                    &&& v@[i - first]@.len() == row_bytes_of(t.tile_w as int, c) * t.tile_h
                },
            Err(e) => e is InvalidData && exists|i: int|
                first <= i < first + across && (#[trigger] tile_block(
                    input@,
                    ints_of(offsets@),
                    ints_of(counts@),
                    i,
                    t,
                    c,
                )) is None,
        }),
{
    let row: u64 = row_size_of(t.tile_w, c);
    proof {
        assert(0 <= row * t.tile_h <= 0x2000_0000_0000_0000 * 0xffff_ffff) by (nonlinear_arith)
            requires
                0 <= row <= 0x2000_0000_0000_0000,
                0 <= t.tile_h <= 0xffff_ffff,
        ;
    }
    let size: u128 = row as u128 * t.tile_h as u128;
    assert(offsets@.len() == offsets.len());
    let mut tiles: Vec<Vec<u8>> = Vec::new();
    let mut x: usize = 0;
    while x < across
        invariant
            x <= across,
            first + across <= offsets@.len(),
            offsets@.len() == counts@.len(),
            offsets@.len() <= usize::MAX,
            c.samples >= 1,
            size == row_bytes_of(t.tile_w as int, c) * t.tile_h,
            tiles@.len() == x,
            forall|i: int|
                first <= i < first + x ==> {
                    &&& #[trigger] tile_block(input@, ints_of(offsets@), ints_of(counts@), i, t, c) == Some(
                        tiles@[i - first]@,
                    )
                    &&& tiles@[i - first]@.len() == size
                },
        decreases across - x,
    {
        match read_block(input, offsets[first + x], counts[first + x], size, t.tile_w, t.tile_h, c) {
            Ok(tile) => {
                assert(tile_block(input@, ints_of(offsets@), ints_of(counts@), first + x, t, c) == Some(tile@));
                tiles.push(tile);
            },
            Err(e) => {
                assert(tile_block(input@, ints_of(offsets@), ints_of(counts@), first + x, t, c) is None);
                return Err(e);
            },
        }
        x = x + 1;
    }
    Ok(tiles)
}

/// Facts about the tiles that a row of bytes runs through.
pub proof fn lemma_tile_columns(t: TileGrid, c: Coding, x: int)
    requires
        t.width > 0,
        t.tile_w > 0,
        c.samples >= 1,
        c.bps >= 1,
        tiles_aligned(t, c),
        0 <= x < row_bytes_of(t.width as int, c),
    ensures
        row_bytes_of(t.tile_w as int, c) > 0,
        0 <= x / row_bytes_of(t.tile_w as int, c) < t.across(),
        0 <= x % row_bytes_of(t.tile_w as int, c) < row_bytes_of(t.tile_w as int, c),
{
    let w = t.width as int;
    let tw = t.tile_w as int;
    let a = t.across();
    let bits = tw * c.samples * c.bps;
    let all = w * c.samples * c.bps;
    let tr = row_bytes_of(tw, c);
    let per = c.samples * c.bps;
    assert(per >= 1) by (nonlinear_arith)
        requires
            c.samples >= 1,
            c.bps >= 1,
            per == c.samples * c.bps,
    ;
    assert(bits == tw * per) by (nonlinear_arith)
        requires
            bits == tw * c.samples * c.bps,
            per == c.samples * c.bps,
    ;
    assert(all == w * per) by (nonlinear_arith)
        requires
            all == w * c.samples * c.bps,
            per == c.samples * c.bps,
    ;
    assert(bits >= 1) by (nonlinear_arith)
        requires
            bits == tw * per,
            tw >= 1,
            per >= 1,
    ;
    let n = w + tw - 1;
    vstd::arithmetic::div_mod::lemma_fundamental_div_mod(n, tw);
    vstd::arithmetic::div_mod::lemma_mod_bound(n, tw);
    assert(tw * a == a * tw) by (nonlinear_arith);
    assert(w <= a * tw);
    assert(a >= 1) by (nonlinear_arith)
        requires
            w <= a * tw,
            w >= 1,
            tw >= 1,
    ;
    assert(all <= a * bits) by (nonlinear_arith)
        requires
            all == w * per,
            bits == tw * per,
            w <= a * tw,
            per >= 1,
    ;
    if a == 1 {
        assert(a * bits == bits) by (nonlinear_arith)
            requires
                a == 1,
        ;
        assert(x < tr);
        assert(x < 1 * tr);
    } else {
        assert(bits == 8 * tr);
        assert(all <= 8 * (a * tr)) by (nonlinear_arith)
            requires
                all <= a * bits,
                bits == 8 * tr,
        ;
        assert(x < a * tr);
    }
    assert(a * tr == tr * a) by (nonlinear_arith);
    assert(x < a * tr);
    lemma_pixel_place(x, tr, a);
}

/// Reads the tiles from `first` on and puts the page together.
#[verifier::loop_isolation(false)]
pub fn read_tiles(input: &[u8], offsets: &Vec<u64>, counts: &Vec<u64>, first: usize, t: TileGrid, c: Coding) -> (r: Result<
    Vec<u8>,
>)
    requires
        page_size_ok(t.width as int, t.height as int),
        t.tile_w > 0,
        t.tile_h > 0,
        c.samples >= 1,
        c.bps >= 1,
        first + t.across() * t.down() <= offsets@.len(),
        offsets@.len() == counts@.len(),
    ensures
        bytes_or_invalid(r, tiles_spec(input@, ints_of(offsets@), ints_of(counts@), first as int, t, c)),
{
    let across: u32 = div_up(t.width, t.tile_w);
    let down: u32 = div_up(t.height, t.tile_h);
    proof {
        lemma_bits_bound(t.tile_w as int, c);
        let n = t.tile_w * c.samples;
        assert(0 <= n <= 0xffff_ffff * 0xffff) by (nonlinear_arith)
            requires
                0 <= t.tile_w <= 0xffff_ffff,
                0 <= c.samples <= 0xffff,
                n == t.tile_w * c.samples,
        ;
    }
    if across >= 2 && t.tile_w as u64 * c.samples as u64 * c.bps as u64 % 8 != 0 {
        return Err(TiffError::invalid("TIFF: tile column boundary is not byte-aligned"));
    }
    let row: u64 = row_size_of(t.width, c);
    let tile_row: u64 = row_size_of(t.tile_w, c);
    let ghost offs = ints_of(offsets@);
    let ghost cnts = ints_of(counts@);
    let mut out: Vec<u8> = Vec::new();
    let mut tiles: Vec<Vec<u8>> = Vec::new();
    let mut band: u32 = 0;
    let mut y: u32 = 0;
    proof {
        lemma_tile_rows(0, t.height as int, t.tile_h as int);
        assert(row * 0 == 0) by (nonlinear_arith);
        assert(0 * across == 0) by (nonlinear_arith);
    }
    while y < t.height
        invariant
            y <= t.height,
            band == ceil_div(y as int, t.tile_h as int),
            forall|i: int|
                first <= i < first + band * across ==> (#[trigger] tile_block(input@, offs, cnts, i, t, c)) is Some,
            y as int % (t.tile_h as int) != 0 ==> {
                &&& tiles@.len() == across
                &&& forall|x: int|
                    0 <= x < across ==> {
                        &&& tile_block(input@, offs, cnts, first + (y as int / (t.tile_h as int) * across + x), t, c)
                            == Some((#[trigger] tiles@[x])@)
                        &&& tiles@[x]@.len() == tile_row * t.tile_h
                    }
            },
            out@.len() == row * y,
            forall|k: int|
                0 <= k < row * y ==> #[trigger] out@[k] == tile_block(
                    input@,
                    offs,
                    cnts,
                    tile_of(k, first as int, t, c),
                    t,
                    c,
                ).unwrap()[byte_in_tile(k, t, c)],
        decreases t.height - y,
    {
        let ty: u32 = y / t.tile_h;
        proof {
            lemma_tile_rows(y as int, t.height as int, t.tile_h as int);
            assert(ty * across + across <= across * down) by (nonlinear_arith)
                requires
                    ty + 1 <= down,
                    across >= 0,
            ;
            assert(0 <= ty * across) by (nonlinear_arith)
                requires
                    0 <= ty,
                    0 <= across,
            ;
            assert(offsets@.len() == offsets.len());
        }
        if y % t.tile_h == 0 {
            let start: usize = first + (ty as usize * across as usize);
            match read_tile_row(input, offsets, counts, start, across as usize, t, c) {
                Ok(v) => {
                    tiles = v;
                },
                Err(e) => {
                    proof {
                        let i = choose|i: int|
                            start <= i < start + across && (#[trigger] tile_block(input@, offs, cnts, i, t, c)) is None;
                        assert(tile_block(input@, offs, cnts, i, t, c) is None);
                    }
                    return Err(e);
                },
            }
            band = ty + 1;
            proof {
                assert(band * across == ty * across + across) by (nonlinear_arith)
                    requires
                        band == ty + 1,
                ;
                assert forall|x: int| 0 <= x < across implies {
                    &&& tile_block(input@, offs, cnts, first + (ty * across + x), t, c) == Some((#[trigger] tiles@[x])@)
                    &&& tiles@[x]@.len() == tile_row * t.tile_h
                } by {
                    assert(tile_block(input@, offs, cnts, start + x, t, c) == Some(tiles@[x]@));
                }
            }
        }
        let in_tile: u32 = y % t.tile_h;
        let mut x: u64 = 0;
        while x < row
            invariant
                x <= row,
                out@.len() == row * y + x,
                forall|k: int|
                    0 <= k < row * y + x ==> #[trigger] out@[k] == tile_block(
                        input@,
                        offs,
                        cnts,
                        tile_of(k, first as int, t, c),
                        t,
                        c,
                    ).unwrap()[byte_in_tile(k, t, c)],
            decreases row - x,
        {
            proof {
                lemma_tile_columns(t, c, x as int);
                lemma_row_byte(in_tile as int, x as int % (tile_row as int), tile_row as int, t.tile_h as int);
                assert(tile_row * t.tile_h == t.tile_h * tile_row) by (nonlinear_arith);
                let k = row * y + x;
                assert(row * y == y * row) by (nonlinear_arith);
                vstd::arithmetic::div_mod::lemma_fundamental_div_mod_converse(k, row as int, y as int, x as int);
                let tx = x as int / (tile_row as int);
                assert(tiles@[tx]@.len() == tiles@[tx].len());
                assert(tile_of(k, first as int, t, c) == first + (ty * across + tx));
            }
            let tx: usize = (x / tile_row) as usize;
            let at: u64 = in_tile as u64 * tile_row + x % tile_row;
            out.push(tiles[tx][at as usize]);
            x = x + 1;
        }
        proof {
            assert(row * y + row == row * (y + 1)) by (nonlinear_arith);
            lemma_next_row(y as int, t.tile_h as int);
        }
        y = y + 1;
    }
    proof {
        assert(band == down);
        assert(band * across == across * down) by (nonlinear_arith)
            requires
                band == down,
        ;
        assert(out@ =~= tiles_spec(input@, offs, cnts, first as int, t, c).unwrap());
    }
    Ok(out)
}

/// The row of tiles of row `y` of the page.
pub proof fn lemma_tile_rows(y: int, height: int, th: int)
    requires
        0 <= y <= height,
        th > 0,
    ensures
        y < height ==> 0 <= y / th < ceil_div(height, th),
        y % th == 0 ==> ceil_div(y, th) == y / th,
        y % th != 0 ==> ceil_div(y, th) == y / th + 1,
        ceil_div(0, th) == 0,
{
    let q = y / th;
    let m = y % th;
    vstd::arithmetic::div_mod::lemma_fundamental_div_mod(y, th);
    vstd::arithmetic::div_mod::lemma_mod_bound(y, th);
    assert(th * q == q * th) by (nonlinear_arith);
    assert(0 <= q) by (nonlinear_arith)
        requires
            0 <= y,
            y == q * th + m,
            0 <= m < th,
    ;
    if m == 0 {
        assert(y + th - 1 == q * th + (th - 1));
        vstd::arithmetic::div_mod::lemma_fundamental_div_mod_converse(y + th - 1, th, q, th - 1);
    } else {
        assert((q + 1) * th == q * th + th) by (nonlinear_arith);
        vstd::arithmetic::div_mod::lemma_fundamental_div_mod_converse(y + th - 1, th, q + 1, m - 1);
    }
    vstd::arithmetic::div_mod::lemma_fundamental_div_mod_converse(th - 1, th, 0, th - 1);
    if y < height {
        let n = height + th - 1;
        vstd::arithmetic::div_mod::lemma_fundamental_div_mod(n, th);
        vstd::arithmetic::div_mod::lemma_mod_bound(n, th);
        let p = n / th;
        assert(th * p == p * th) by (nonlinear_arith);
        assert(q < p) by (nonlinear_arith)
            requires
                q * th + m < p * th,
                0 <= m,
                th > 0,
        ;
    }
}

/// The next row of the page stands in the same tiles, or starts new ones.
proof fn lemma_next_row(y: int, th: int)
    requires
        0 <= y,
        th > 0,
    ensures
        (y + 1) % th != 0 ==> (y + 1) / th == y / th,
        ceil_div(y + 1, th) == y / th + 1,
{
    let q = y / th;
    let m = y % th;
    vstd::arithmetic::div_mod::lemma_fundamental_div_mod(y, th);
    vstd::arithmetic::div_mod::lemma_mod_bound(y, th);
    assert(th * q == q * th) by (nonlinear_arith);
    assert((q + 1) * th == q * th + th) by (nonlinear_arith);
    if m + 1 < th {
        vstd::arithmetic::div_mod::lemma_fundamental_div_mod_converse(y + 1, th, q, m + 1);
    } else {
        vstd::arithmetic::div_mod::lemma_fundamental_div_mod_converse(y + 1, th, q + 1, 0);
    }
    vstd::arithmetic::div_mod::lemma_fundamental_div_mod_converse(y + 1 + th - 1, th, q + 1, m);
}

// ----------------------------------------------------------------------
// One component at a time
// ----------------------------------------------------------------------

/// Sequences of bytes as mathematical values.
pub open spec fn plane_bytes(v: Seq<Vec<u8>>) -> Seq<Seq<u8>> {
    Seq::new(v.len(), |i: int| v[i]@)
}

/// Whole pixels made of one plane for each component; nothing where a plane has
/// not one sample of `size` bytes for each pixel.
pub open spec fn interleaved(planes: Seq<Seq<u8>>, pixels: int, size: int) -> Option<Seq<u8>> {
    if exists|p: int| 0 <= p < planes.len() && (#[trigger] planes[p]).len() != pixels * size {
        None
    } else {
        let n = planes.len() as int;
        Some(
            Seq::new(
                (n * pixels * size) as nat,
                |k: int| planes[k / size % n][k / size / n * size + k % size],
            ),
        )
    }
}

/// Makes whole pixels of one plane for each component.
pub fn interleave_planes(planes: &Vec<Vec<u8>>, width: u32, height: u32, bps: u16) -> (r: Result<Vec<u8>>)
    requires
        page_size_ok(width as int, height as int),
        1 <= planes@.len() <= 65535,
        bps >= 8,
    ensures
        bytes_or_invalid(r, interleaved(plane_bytes(planes@), width * height, bps as int / 8)),
{
    let size: u64 = bps as u64 / 8;
    let pixels: u64 = width as u64 * height as u64;
    proof {
        assert(width * height > 0) by (nonlinear_arith)
            requires
                width > 0,
                height > 0,
        ;
        assert(0 <= pixels * size <= 268435456 * 8191) by (nonlinear_arith)
            requires
                0 <= pixels <= 268435456,
                0 <= size <= 8191,
        ;
    }
    let want: u64 = pixels * size;
    let n: usize = planes.len();
    let mut p: usize = 0;
    while p < n
        invariant
            p <= n,
            n == planes@.len(),
            want == pixels * size,
            pixels == width * height,
            size == bps as int / 8,
            forall|q: int| 0 <= q < p ==> (#[trigger] planes@[q])@.len() == want,
        decreases n - p,
    {
        if planes[p].len() as u64 != want {
            assert(plane_bytes(planes@)[p as int].len() != pixels * size);
            return Err(TiffError::invalid("TIFF: a plane does not have the size of the image"));
        }
        p = p + 1;
    }
    proof {
        assert(0 <= n * pixels <= 65535 * 268435456) by (nonlinear_arith)
            requires
                0 <= pixels <= 268435456,
                0 <= n <= 65535,
        ;
        let np = n * pixels;
        assert(0 <= np * size <= 65535 * 268435456 * 8191) by (nonlinear_arith)
            requires
                0 <= np <= 65535 * 268435456,
                0 <= size <= 8191,
        ;
    }
    let total: u64 = n as u64 * pixels * size;
    let count: u64 = n as u64;
    let mut out: Vec<u8> = Vec::new();
    let mut k: u64 = 0;
    let ghost ps = plane_bytes(planes@);
    while k < total
        invariant
            k <= total,
            total == n * pixels * size,
            count == n,
            n == planes@.len(),
            1 <= n,
            1 <= pixels <= 268435456,
            1 <= size <= 8191,
            want == pixels * size,
            ps == plane_bytes(planes@),
            forall|q: int| 0 <= q < n ==> (#[trigger] planes@[q])@.len() == want,
            out@.len() == k,
            forall|j: int|
                0 <= j < k ==> #[trigger] out@[j] == ps[j / (size as int) % (n as int)][j / (size as int) / (n as int)
                    * size + j % (size as int)],
        decreases total - k,
    {
        let cell: u64 = k / size;
        let pixel: u64 = cell / count;
        let plane: u64 = cell % count;
        proof {
            crate::render::lemma_cell_of_byte(k as int, n as int, pixels as int, size as int);
            lemma_row_byte(pixel as int, k as int % (size as int), size as int, pixels as int);
            assert(planes@[plane as int]@.len() == planes@[plane as int].len());
        }
        let at: u64 = pixel * size + k % size;
        out.push(planes[plane as usize][at as usize]);
        k = k + 1;
    }
    proof {
        assert forall|q: int| 0 <= q < ps.len() implies (#[trigger] ps[q]).len() == width * height * (bps as int / 8) by {
            assert(ps[q] == planes@[q]@);
        }
        assert(out@ =~= interleaved(ps, width * height, bps as int / 8).unwrap());
    }
    Ok(out)
}

} // verus!
