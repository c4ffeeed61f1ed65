//! Decoding of TIFF files: of their first page, or of all.
use vstd::prelude::*;
use crate::error::{invalid_with, unsupported_with, ErrorKind, Outcome, Result, TiffError};
use crate::ifd::{entry_models, find, find_spec, header_spec, ifd_spec, parse_header, parse_ifd_in, ByteOrder, Entry};
use crate::ifd::{EntryModel, TiffVariant};
use crate::image::{single_plane, ImageModel, TiffImage, TiffPixelFormat};
use crate::jpeg::{bytes_model, blank, is_gray_page, jpeg_strips_from, JpegReply};
use crate::jpeg::{jpeg_tiles_from, jpeg_whole, page_depth, read_jpeg_stream, read_jpeg_strips, read_jpeg_tiles};
use crate::jpeg_old::{old_fields, parse_old_jpeg_fields, stream_of, tables_kind};
use crate::page::{info_ok, list_of, list_readable, optional_u32, page_spec, read_page_info, readable, value_of, PageInfo};
use crate::render::{apply_orientation, build_gray16le, build_gray8, build_gray8_from_1bpp, build_gray8_from_4bpp};
use crate::render::{build_gray8_from_cielab_l, build_rgb24, build_rgb24_from_cielab, build_rgb24_from_cmyk};
use crate::render::{build_rgb24_from_palette, build_rgb24_from_ycbcr, build_rgb48le, build_rgb_from_n_chunky_8bit};
use crate::render::{ceil_div, cielab_data, cmyk_data, gray16_data, gray1_data, gray4_data, gray8_data, lightness_data};
use crate::render::{oriented, palette_data, parse_colormap, picture, rgb16_data, rgb8_data, words_of};
use crate::render::{ycbcr_render};
use crate::segments::{bytes_or_invalid, div_up, interleave_planes, interleaved, ints_of, lemma_strips_size, plane_bytes};
use crate::segments::{read_strips, read_tiles, row_bytes_of, strips_from, tiles_spec, Coding, StripGrid, TileGrid};
use crate::types::{COMPRESSION_JPEG_NEW, COMPRESSION_JPEG_OLD, PHOTO_BLACK_IS_ZERO, PHOTO_CIELAB, PHOTO_CMYK};
use crate::types::{PHOTO_PALETTE, PHOTO_RGB, PHOTO_TRANSPARENCY_MASK, PHOTO_WHITE_IS_ZERO, PHOTO_YCBCR, PLANAR_SEPARATE};
use crate::types::{PREDICTOR_HORIZONTAL, PREDICTOR_NONE, SAMPLE_FORMAT_IEEE_FP, SAMPLE_FORMAT_SINT, TAG_COLOR_MAP};
use crate::types::{TAG_JPEG_TABLES, TAG_PHOTOMETRIC_INTERPRETATION, TAG_ROWS_PER_STRIP, TAG_STRIP_BYTE_COUNTS};
use crate::types::{TAG_STRIP_OFFSETS, TAG_TILE_BYTE_COUNTS, TAG_TILE_LENGTH, TAG_TILE_OFFSETS, TAG_TILE_WIDTH};
use crate::types::{TAG_S_MAX_SAMPLE_VALUE, TAG_S_MIN_SAMPLE_VALUE, TAG_YCBCR_SUBSAMPLING};

verus! {

// ----------------------------------------------------------------------
// Samples of a page
// ----------------------------------------------------------------------

/// How the samples of a page are stored, with `samples` of them for each pixel
/// of a strip or tile.
pub open spec fn coding_of(p: PageInfo, bo: ByteOrder, samples: u16) -> Coding {
    Coding {
        compression: p.compression,
        predictor: p.predictor,
        t4_options: p.t4_options,
        t6_options: p.t6_options,
        fill: p.fill,
        bps: p.bps,
        samples,
        bo,
    }
}

fn page_coding(p: &PageInfo, bo: ByteOrder, samples: u16) -> (c: Coding)
    ensures
        c == coding_of(*p, bo, samples),
{
    Coding {
        compression: p.compression,
        predictor: p.predictor,
        t4_options: p.t4_options,
        t6_options: p.t6_options,
        fill: p.fill,
        bps: p.bps,
        samples,
        bo,
    }
}

/// Integers of a field that must be there.
#[verifier::opaque]
pub open spec fn needed_list(es: Seq<EntryModel>, bo: ByteOrder, tag: u16) -> Option<Seq<int>> {
    match find_spec(es, tag) {
        None => None,
        Some(e) => match e.u64s(bo) {
            Err(_) => None,
            Ok(v) => Some(v),
        },
    }
}

/// Integers of a field that must be there.
fn required_u64s(entries: &[Entry], bo: ByteOrder, tag: u16) -> (r: Result<Vec<u64>>)
    ensures
        (match (r, needed_list(entry_models(entries@), bo, tag)) {
            (Ok(v), Some(s)) => ints_of(v@) == s,
            (Err(e), None) => e is InvalidData,
            _ => false,
        }),
{
    proof {
        reveal(needed_list);
    }
    match find(entries, tag) {
        None => Err(invalid_with("TIFF: missing field tag=", tag as u64, "")),
        Some(e) => {
            let v = e.as_u64_vec(bo)?;
            assert(ints_of(v@) =~= e@.u64s(bo)->Ok_0);
            Ok(v)
        },
    }
}

/// Offsets and byte counts of strips or tiles, if there are as many of the one
/// as of the other.
pub open spec fn places(es: Seq<EntryModel>, bo: ByteOrder, offsets: u16, counts: u16) -> Option<(Seq<int>, Seq<int>)> {
    match (needed_list(es, bo, offsets), needed_list(es, bo, counts)) {
        (Some(o), Some(c)) => if o.len() == c.len() { Some((o, c)) } else { None },
        _ => None,
    }
}

fn read_places(entries: &[Entry], bo: ByteOrder, offsets: u16, counts: u16) -> (r: Result<(Vec<u64>, Vec<u64>)>)
    ensures
        (match (r, places(entry_models(entries@), bo, offsets, counts)) {
            (Ok(v), Some(s)) => ints_of(v.0@) == s.0 && ints_of(v.1@) == s.1 && v.0@.len() == v.1@.len() && v.0@.len()
                == s.0.len(),
            (Err(e), None) => e is InvalidData,
            _ => false,
        }),
{
    let o = required_u64s(entries, bo, offsets)?;
    let c = required_u64s(entries, bo, counts)?;
    assert(ints_of(o@).len() == o@.len() && ints_of(c@).len() == c@.len());
    if o.len() != c.len() {
        return Err(TiffError::invalid("TIFF: offsets / byte counts length mismatch"));
    }
    Ok((o, c))
}

/// Chroma subsampling of a page: what the field says, or 2 by 2.
#[verifier::opaque]
pub open spec fn subsampling(es: Seq<EntryModel>, bo: ByteOrder) -> Option<(int, int)> {
    match find_spec(es, TAG_YCBCR_SUBSAMPLING) {
        None => Some((2, 2)),
        Some(e) => match e.u32s(bo) {
            Err(_) => None,
            Ok(v) => if v.len() < 2 { None } else { Some((v[0], v[1])) },
        },
    }
}

fn read_subsampling(entries: &[Entry], bo: ByteOrder) -> (r: Result<(u32, u32)>)
    ensures
        (match (r, subsampling(entry_models(entries@), bo)) {
            (Ok(v), Some(s)) => v.0 == s.0 && v.1 == s.1,
            (Err(e), None) => e is InvalidData,
            _ => false,
        }),
{
    proof {
        reveal(subsampling);
    }
    match find(entries, TAG_YCBCR_SUBSAMPLING) {
        None => Ok((2, 2)),
        Some(e) => {
            let v = e.as_u32_vec(bo)?;
            if v.len() < 2 {
                return Err(TiffError::invalid("TIFF: YCbCrSubSampling too short"));
            }
            Ok((v[0], v[1]))
        },
    }
}

/// Whether the strips of a page hold data units of luma and chroma samples.
pub open spec fn has_units(es: Seq<EntryModel>, bo: ByteOrder, p: PageInfo) -> bool {
    value_of(es, bo, TAG_PHOTOMETRIC_INTERPRETATION, 0) == PHOTO_YCBCR && p.samples == 3 && p.bps == 8
}

/// The data units of the strips of a page: none where they hold whole pixels;
/// outer `None` where the subsampling is no subsampling.
pub open spec fn units_of(es: Seq<EntryModel>, bo: ByteOrder, p: PageInfo) -> Option<Option<(u32, u32)>> {
    if !has_units(es, bo, p) {
        Some(None)
    } else {
        match subsampling(es, bo) {
            None => None,
            Some(s) => if s.0 == 0 || s.1 == 0 {
                None
            } else if s.0 == 1 && s.1 == 1 {
                Some(None)
            } else {
                Some(Some((s.0 as u32, s.1 as u32)))
            },
        }
    }
}

fn read_units(entries: &[Entry], bo: ByteOrder, p: &PageInfo) -> (r: Result<Option<(u32, u32)>>)
    requires
        readable(entry_models(entries@), bo, TAG_PHOTOMETRIC_INTERPRETATION),
    ensures
        (match (r, units_of(entry_models(entries@), bo, *p)) {
            (Ok(v), Some(s)) => v == s && (v matches Some(u) ==> u.0 > 0 && u.1 > 0),
            (Err(e), None) => e is InvalidData,
            _ => false,
        }),
{
    let photometric: u32 = optional_u32(entries, bo, TAG_PHOTOMETRIC_INTERPRETATION, 0)?;
    if photometric != PHOTO_YCBCR as u32 || p.samples != 3 || p.bps != 8 {
        return Ok(None);
    }
    let (sh, sv) = read_subsampling(entries, bo)?;
    if sh == 0 || sv == 0 {
        return Err(TiffError::invalid("TIFF: YCbCrSubSampling must be > 0"));
    }
    if sh == 1 && sv == 1 {
        return Ok(None);
    }
    Ok(Some((sh, sv)))
}

/// The samples of a page in strips of whole pixels.
pub open spec fn strip_samples(input: Seq<u8>, es: Seq<EntryModel>, bo: ByteOrder, p: PageInfo) -> Option<Seq<u8>> {
    match (places(es, bo, TAG_STRIP_OFFSETS, TAG_STRIP_BYTE_COUNTS), units_of(es, bo, p)) {
        (Some(pl), Some(units)) => if !readable(es, bo, TAG_ROWS_PER_STRIP) || (units is Some && p.predictor
            == PREDICTOR_HORIZONTAL) {
            None
        } else {
            let g = StripGrid {
                width: p.width,
                height: p.height,
                rows_per_strip: value_of(es, bo, TAG_ROWS_PER_STRIP, p.height as int) as u32,
                units,
            };
            strips_from(
                input,
                pl.0,
                pl.1,
                0,
                pl.0.len() as int,
                0,
                Seq::empty(),
                g,
                coding_of(p, bo, p.samples),
            )
        },
        _ => None,
    }
}

/// Reads a page in strips of whole pixels.
pub fn decode_strips(input: &[u8], entries: &[Entry], bo: ByteOrder, p: &PageInfo) -> (r: Result<Vec<u8>>)
    requires
        info_ok(*p),
        readable(entry_models(entries@), bo, TAG_PHOTOMETRIC_INTERPRETATION),
    ensures
        bytes_or_invalid(r, strip_samples(input@, entry_models(entries@), bo, *p)),
        r matches Ok(v) ==> !has_units(entry_models(entries@), bo, *p) ==> v@.len() == row_bytes_of(
            p.width as int,
            coding_of(*p, bo, p.samples),
        ) * p.height,
{
    let rows_per_strip: u32 = optional_u32(entries, bo, TAG_ROWS_PER_STRIP, p.height)?;
    let (offsets, counts) = read_places(entries, bo, TAG_STRIP_OFFSETS, TAG_STRIP_BYTE_COUNTS)?;
    let units = read_units(entries, bo, p)?;
    if units.is_some() && p.predictor == PREDICTOR_HORIZONTAL {
        return Err(TiffError::invalid("TIFF: Predictor=2 with chroma-subsampled YCbCr is unsupported"));
    }
    let g = StripGrid { width: p.width, height: p.height, rows_per_strip, units };
    let c = page_coding(p, bo, p.samples);
    proof {
        if units is None {
            lemma_strips_size(
                input@,
                ints_of(offsets@),
                ints_of(counts@),
                0,
                offsets@.len() as int,
                0,
                Seq::empty(),
                g,
                c,
            );
        }
    }
    read_strips(input, &offsets, &counts, 0, offsets.len(), g, c)
}

/// The tiles of a page.
pub open spec fn tile_grid(es: Seq<EntryModel>, bo: ByteOrder, p: PageInfo) -> Option<TileGrid> {
    let tw = value_of(es, bo, TAG_TILE_WIDTH, 0);
    let th = value_of(es, bo, TAG_TILE_LENGTH, 0);
    if !readable(es, bo, TAG_TILE_WIDTH) || !readable(es, bo, TAG_TILE_LENGTH) || tw == 0 || th == 0 {
        None
    } else {
        Some(TileGrid { width: p.width, height: p.height, tile_w: tw as u32, tile_h: th as u32 })
    }
}

fn read_tile_grid(entries: &[Entry], bo: ByteOrder, p: &PageInfo) -> (r: Result<TileGrid>)
    ensures
        (match (r, tile_grid(entry_models(entries@), bo, *p)) {
            (Ok(t), Some(s)) => t == s && t.tile_w > 0 && t.tile_h > 0 && t.width == p.width && t.height == p.height,
            (Err(e), None) => e is InvalidData,
            _ => false,
        }),
{
    let tile_w: u32 = optional_u32(entries, bo, TAG_TILE_WIDTH, 0)?;
    let tile_h: u32 = optional_u32(entries, bo, TAG_TILE_LENGTH, 0)?;
    if tile_w == 0 || tile_h == 0 {
        return Err(TiffError::invalid("TIFF: missing or zero tile dimension"));
    }
    Ok(TileGrid { width: p.width, height: p.height, tile_w, tile_h })
}

/// The samples of a page in tiles of whole pixels.
pub open spec fn tile_samples(input: Seq<u8>, es: Seq<EntryModel>, bo: ByteOrder, p: PageInfo) -> Option<Seq<u8>> {
    match (tile_grid(es, bo, p), places(es, bo, TAG_TILE_OFFSETS, TAG_TILE_BYTE_COUNTS)) {
        (Some(t), Some(pl)) => if pl.0.len() != t.across() * t.down() {
            None
        } else {
            tiles_spec(input, pl.0, pl.1, 0, t, coding_of(p, bo, p.samples))
        },
        _ => None,
    }
}

/// Number of tiles of a page.
fn tile_count(t: TileGrid) -> (n: u64)
    requires
        t.tile_w > 0,
        t.tile_h > 0,
    ensures
        n == t.across() * t.down(),
{
    let across: u32 = div_up(t.width, t.tile_w);
    let down: u32 = div_up(t.height, t.tile_h);
    proof {
        assert(0 <= across * down <= 0xffff_ffff * 0xffff_ffff) by (nonlinear_arith)
            requires
                0 <= across <= 0xffff_ffff,
                0 <= down <= 0xffff_ffff,
        ;
    }
    across as u64 * down as u64
}

/// Reads a page in tiles of whole pixels.
pub fn decode_tiles(input: &[u8], entries: &[Entry], bo: ByteOrder, p: &PageInfo) -> (r: Result<Vec<u8>>)
    requires
        info_ok(*p),
    ensures
        bytes_or_invalid(r, tile_samples(input@, entry_models(entries@), bo, *p)),
        r matches Ok(v) ==> v@.len() == row_bytes_of(p.width as int, coding_of(*p, bo, p.samples)) * p.height,
{
    let t = read_tile_grid(entries, bo, p)?;
    let (offsets, counts) = read_places(entries, bo, TAG_TILE_OFFSETS, TAG_TILE_BYTE_COUNTS)?;
    let expected: u64 = tile_count(t);
    if offsets.len() as u64 != expected {
        return Err(invalid_with("TIFF: TileOffsets length != expected ", expected, ""));
    }
    let c = page_coding(p, bo, p.samples);
    proof {
        let rb = row_bytes_of(p.width as int, c);
        lemma_row_bytes_positive(p.width as int, c);
        assert(rb * p.height >= 0) by (nonlinear_arith)
            requires
                rb >= 0,
                p.height >= 0,
        ;
    }
    read_tiles(input, &offsets, &counts, 0, t, c)
}

proof fn lemma_row_bytes_positive(width: int, c: Coding)
    requires
        width > 0,
        c.samples >= 1,
        c.bps >= 1,
    ensures
        row_bytes_of(width, c) > 0,
{
    let n = width * c.samples;
    assert(n >= 1) by (nonlinear_arith)
        requires
            n == width * c.samples,
            width >= 1,
            c.samples >= 1,
    ;
    assert(n * c.bps >= 1) by (nonlinear_arith)
        requires
            n >= 1,
            c.bps >= 1,
    ;
}

/// The samples of one component of a page in strips.
pub open spec fn plane_strips(
    input: Seq<u8>,
    offsets: Seq<int>,
    counts: Seq<int>,
    g: StripGrid,
    c: Coding,
    per_plane: int,
    plane: int,
) -> Option<Seq<u8>> {
    strips_from(input, offsets, counts, plane * per_plane, plane * per_plane + per_plane, 0, Seq::empty(), g, c)
}

/// The samples of a page in strips of one component each.
pub open spec fn planar_strip_samples(input: Seq<u8>, es: Seq<EntryModel>, bo: ByteOrder, p: PageInfo) -> Option<Seq<u8>> {
    let rows_per_strip = value_of(es, bo, TAG_ROWS_PER_STRIP, p.height as int);
    match places(es, bo, TAG_STRIP_OFFSETS, TAG_STRIP_BYTE_COUNTS) {
        None => None,
        Some(pl) => if p.samples < 2 || p.bps % 8 != 0 || !readable(es, bo, TAG_ROWS_PER_STRIP) || rows_per_strip == 0
            || pl.0.len() != ceil_div(p.height as int, rows_per_strip) * p.samples {
            None
        } else {
            let per_plane = ceil_div(p.height as int, rows_per_strip);
            let g = StripGrid { width: p.width, height: p.height, rows_per_strip: rows_per_strip as u32, units: None };
            let c = coding_of(p, bo, 1);
            if exists|q: int|
                0 <= q < p.samples && (#[trigger] plane_strips(input, pl.0, pl.1, g, c, per_plane, q)) is None {
                None
            } else {
                interleaved(
                    Seq::new(
                        p.samples as nat,
                        |q: int| plane_strips(input, pl.0, pl.1, g, c, per_plane, q).unwrap(),
                    ),
                    p.width * p.height,
                    p.bps as int / 8,
                )
            }
        },
    }
}

/// Reads a page in strips of one component each.
pub fn decode_strips_planar(input: &[u8], entries: &[Entry], bo: ByteOrder, p: &PageInfo) -> (r: Result<Vec<u8>>)
    requires
        info_ok(*p),
    ensures
        bytes_or_invalid(r, planar_strip_samples(input@, entry_models(entries@), bo, *p)),
{
    if p.samples < 2 {
        return Err(TiffError::invalid("TIFF: PlanarConfiguration=2 with SamplesPerPixel<2 is meaningless"));
    }
    if p.bps % 8 != 0 {
        return Err(TiffError::invalid("TIFF: PlanarConfiguration=2 at sub-byte bit depths not supported"));
    }
    let rows_per_strip: u32 = optional_u32(entries, bo, TAG_ROWS_PER_STRIP, p.height)?;
    let (offsets, counts) = read_places(entries, bo, TAG_STRIP_OFFSETS, TAG_STRIP_BYTE_COUNTS)?;
    if rows_per_strip == 0 {
        return Err(TiffError::invalid("TIFF: RowsPerStrip=0"));
    }
    let per_plane: u32 = div_up(p.height, rows_per_strip);
    proof {
        assert(0 <= per_plane * p.samples <= 0xffff_ffff * 0xffff) by (nonlinear_arith)
            requires
                0 <= per_plane <= 0xffff_ffff,
                0 <= p.samples <= 0xffff,
        ;
    }
    let expected: u64 = per_plane as u64 * p.samples as u64;
    if offsets.len() as u64 != expected {
        return Err(invalid_with("TIFF: PlanarConfiguration=2 expects ", expected, " strip entries"));
    }
    let g = StripGrid { width: p.width, height: p.height, rows_per_strip, units: None };
    let c = page_coding(p, bo, 1);
    let ghost offs = ints_of(offsets@);
    let ghost cnts = ints_of(counts@);
    let mut planes: Vec<Vec<u8>> = Vec::new();
    let mut q: u16 = 0;
    assert(offsets@.len() == offsets.len());
    while q < p.samples
        invariant
            q <= p.samples,
            offsets@.len() == counts@.len(),
            offsets@.len() == per_plane * p.samples,
            offsets@.len() <= usize::MAX,
            offs == ints_of(offsets@),
            cnts == ints_of(counts@),
            c.samples >= 1,
            g.units is None,
            planes@.len() == q,
            forall|k: int|
                0 <= k < q ==> plane_strips(input@, offs, cnts, g, c, per_plane as int, k) == Some((#[trigger] planes@[k])@),
            places(entry_models(entries@), bo, TAG_STRIP_OFFSETS, TAG_STRIP_BYTE_COUNTS) == Some((offs, cnts)),
            readable(entry_models(entries@), bo, TAG_ROWS_PER_STRIP),
            rows_per_strip == value_of(entry_models(entries@), bo, TAG_ROWS_PER_STRIP, p.height as int),
            rows_per_strip > 0,
            per_plane == ceil_div(p.height as int, rows_per_strip as int),
            g == (StripGrid { width: p.width, height: p.height, rows_per_strip, units: None }),
            c == coding_of(*p, bo, 1),
        decreases p.samples - q,
    {
        proof {
            assert(q * per_plane + per_plane <= per_plane * p.samples) by (nonlinear_arith)
                requires
                    q + 1 <= p.samples,
                    0 <= per_plane,
            ;
            assert(0 <= q * per_plane) by (nonlinear_arith)
                requires
                    0 <= q,
                    0 <= per_plane,
            ;
        }
        let first: usize = q as usize * per_plane as usize;
        let plane = match read_strips(input, &offsets, &counts, first, first + per_plane as usize, g, c) {
            Ok(v) => v,
            Err(e) => {
                assert(plane_strips(input@, offs, cnts, g, c, per_plane as int, q as int) is None);
                return Err(e);
            },
        };
        assert(plane_strips(input@, offs, cnts, g, c, per_plane as int, q as int) == Some(plane@));
        planes.push(plane);
        q = q + 1;
    }
    proof {
        assert(plane_bytes(planes@) =~= Seq::new(
            p.samples as nat,
            |q: int| plane_strips(input@, offs, cnts, g, c, per_plane as int, q).unwrap(),
        ));
        assert forall|k: int| 0 <= k < p.samples implies (#[trigger] plane_strips(
            input@,
            offs,
            cnts,
            g,
            c,
            per_plane as int,
            k,
        )) is Some by {
            assert(plane_strips(input@, offs, cnts, g, c, per_plane as int, k) == Some(planes@[k]@));
        }
    }
    interleave_planes(&planes, p.width, p.height, p.bps)
}

/// The samples of a page in tiles of one component each.
pub open spec fn planar_tile_samples(input: Seq<u8>, es: Seq<EntryModel>, bo: ByteOrder, p: PageInfo) -> Option<Seq<u8>> {
    match (tile_grid(es, bo, p), places(es, bo, TAG_TILE_OFFSETS, TAG_TILE_BYTE_COUNTS)) {
        (Some(t), Some(pl)) => {
            let per_plane = t.across() * t.down();
            let c = coding_of(p, bo, 1);
            if p.samples < 2 || p.bps % 8 != 0 || pl.0.len() != per_plane * p.samples {
                None
            } else if exists|q: int|
                0 <= q < p.samples && (#[trigger] tiles_spec(input, pl.0, pl.1, q * per_plane, t, c)) is None {
                None
            } else {
                interleaved(
                    Seq::new(p.samples as nat, |q: int| tiles_spec(input, pl.0, pl.1, q * per_plane, t, c).unwrap()),
                    p.width * p.height,
                    p.bps as int / 8,
                )
            }
        },
        _ => None,
    }
}

/// Reads a page in tiles of one component each.
pub fn decode_tiles_planar(input: &[u8], entries: &[Entry], bo: ByteOrder, p: &PageInfo) -> (r: Result<Vec<u8>>)
    requires
        info_ok(*p),
    ensures
        bytes_or_invalid(r, planar_tile_samples(input@, entry_models(entries@), bo, *p)),
{
    if p.samples < 2 {
        return Err(TiffError::invalid("TIFF: PlanarConfiguration=2 with SamplesPerPixel<2 is meaningless"));
    }
    if p.bps % 8 != 0 {
        return Err(TiffError::invalid("TIFF: planar tiled images at sub-byte bit depths not supported"));
    }
    let t = read_tile_grid(entries, bo, p)?;
    let (offsets, counts) = read_places(entries, bo, TAG_TILE_OFFSETS, TAG_TILE_BYTE_COUNTS)?;
    let per_plane: u64 = tile_count(t);
    proof {
        assert(0 <= per_plane * p.samples <= 0xffff_ffff_ffff_ffff * 0xffff) by (nonlinear_arith)
            requires
                0 <= per_plane <= 0xffff_ffff_ffff_ffff,
                0 <= p.samples <= 0xffff,
        ;
    }
    let expected: u128 = per_plane as u128 * p.samples as u128;
    if offsets.len() as u128 != expected {
        return Err(invalid_with("TIFF: PlanarConfiguration=2 expects ", per_plane, " tile entries for each component"));
    }
    let c = page_coding(p, bo, 1);
    let ghost offs = ints_of(offsets@);
    let ghost cnts = ints_of(counts@);
    let mut planes: Vec<Vec<u8>> = Vec::new();
    let mut q: u16 = 0;
    assert(offsets@.len() == offsets.len());
    while q < p.samples
        invariant
            q <= p.samples,
            info_ok(*p),
            offsets@.len() == counts@.len(),
            offsets@.len() == per_plane * p.samples,
            offsets@.len() <= usize::MAX,
            offs == ints_of(offsets@),
            cnts == ints_of(counts@),
            per_plane == t.across() * t.down(),
            t.tile_w > 0,
            t.tile_h > 0,
            t.width == p.width,
            t.height == p.height,
            planes@.len() == q,
            forall|k: int|
                0 <= k < q ==> tiles_spec(input@, offs, cnts, k * per_plane, t, c) == Some((#[trigger] planes@[k])@),
            places(entry_models(entries@), bo, TAG_TILE_OFFSETS, TAG_TILE_BYTE_COUNTS) == Some((offs, cnts)),
            tile_grid(entry_models(entries@), bo, *p) == Some(t),
            c == coding_of(*p, bo, 1),
        decreases p.samples - q,
    {
        proof {
            assert(q * per_plane + per_plane <= per_plane * p.samples) by (nonlinear_arith)
                requires
                    q + 1 <= p.samples,
                    0 <= per_plane,
            ;
            assert(0 <= q * per_plane) by (nonlinear_arith)
                requires
                    0 <= q,
                    0 <= per_plane,
            ;
        }
        let first: usize = (q as u64 * per_plane) as usize;
        let plane = match read_tiles(input, &offsets, &counts, first, t, c) {
            Ok(v) => v,
            Err(e) => {
                assert(tiles_spec(input@, offs, cnts, q * per_plane, t, c) is None);
                return Err(e);
            },
        };
        assert(tiles_spec(input@, offs, cnts, q * per_plane, t, c) == Some(plane@));
        planes.push(plane);
        q = q + 1;
    }
    proof {
        assert(plane_bytes(planes@) =~= Seq::new(
            p.samples as nat,
            |q: int| tiles_spec(input@, offs, cnts, q * per_plane, t, c).unwrap(),
        ));
        assert forall|k: int| 0 <= k < p.samples implies (#[trigger] tiles_spec(
            input@,
            offs,
            cnts,
            k * per_plane,
            t,
            c,
        )) is Some by {
            assert(tiles_spec(input@, offs, cnts, k * per_plane, t, c) == Some(planes@[k]@));
        }
    }
    interleave_planes(&planes, p.width, p.height, p.bps)
}

/// The samples of a page.
pub open spec fn samples_of(input: Seq<u8>, es: Seq<EntryModel>, bo: ByteOrder, p: PageInfo) -> Option<Seq<u8>> {
    if find_spec(es, TAG_TILE_WIDTH) is Some {
        if p.planar == PLANAR_SEPARATE { planar_tile_samples(input, es, bo, p) } else { tile_samples(input, es, bo, p) }
    } else {
        if p.planar == PLANAR_SEPARATE {
            planar_strip_samples(input, es, bo, p)
        } else {
            strip_samples(input, es, bo, p)
        }
    }
}

/// `len` bytes hold the samples of all pixels of a page.
pub open spec fn enough(p: PageInfo, len: int) -> bool {
    if p.bps == 1 {
        p.samples == 1 ==> len == p.height * ((p.width + 7) / 8)
    } else if p.bps == 4 {
        p.samples == 1 ==> len == p.height * ((p.width + 1) / 2)
    } else {
        len == p.width * p.height * p.samples * (p.bps as int / 8)
    }
}

proof fn lemma_enough(p: PageInfo, bo: ByteOrder)
    requires
        info_ok(p),
    ensures
        enough(p, row_bytes_of(p.width as int, coding_of(p, bo, p.samples)) * p.height),
{
    let c = coding_of(p, bo, p.samples);
    let rb = row_bytes_of(p.width as int, c);
    let w = p.width as int;
    let h = p.height as int;
    let m = p.samples as int;
    let d = p.bps as int;
    let bits = w * m * d;
    assert(rb == (bits + 7) / 8);
    assert(rb * h == h * rb) by (nonlinear_arith);
    if p.bps == 1 {
        if p.samples == 1 {
            assert(bits == w) by (nonlinear_arith)
                requires
                    bits == w * m * d,
                    m == 1,
                    d == 1,
            ;
            assert(rb == (w + 7) / 8);
        }
    } else if p.bps == 4 {
        if p.samples == 1 {
            assert(bits == 4 * w) by (nonlinear_arith)
                requires
                    bits == w * m * d,
                    m == 1,
                    d == 4,
            ;
            assert(rb == (w + 1) / 2);
        }
    } else {
        let b = d / 8;
        assert(d == 8 * b);
        let k = w * m * b;
        assert(bits == 8 * k) by (nonlinear_arith)
            requires
                bits == w * m * d,
                d == 8 * b,
                k == w * m * b,
        ;
        assert(rb == k);
        assert(k * h == w * h * m * b) by (nonlinear_arith)
            requires
                k == w * m * b,
        ;
    }
}

/// Reads the samples of a page.
pub fn decode_samples(input: &[u8], entries: &[Entry], bo: ByteOrder, p: &PageInfo) -> (r: Result<Vec<u8>>)
    requires
        info_ok(*p),
        readable(entry_models(entries@), bo, TAG_PHOTOMETRIC_INTERPRETATION),
    ensures
        bytes_or_invalid(r, samples_of(input@, entry_models(entries@), bo, *p)),
        r matches Ok(v) ==> has_units(entry_models(entries@), bo, *p) || enough(*p, v@.len() as int),
{
    proof {
        lemma_enough(*p, bo);
        let b = p.bps as int / 8;
        let n = p.samples as int;
        let pixels = p.width * p.height;
        assert(n * pixels * b == pixels * n * b) by (nonlinear_arith);
        assert(pixels * n * b >= 0) by (nonlinear_arith)
            requires
                pixels >= 0,
                n >= 0,
                b >= 0,
        ;
    }
    if find(entries, TAG_TILE_WIDTH).is_some() {
        if p.planar == PLANAR_SEPARATE {
            decode_tiles_planar(input, entries, bo, p)
        } else {
            decode_tiles(input, entries, bo, p)
        }
    } else if p.planar == PLANAR_SEPARATE {
        decode_strips_planar(input, entries, bo, p)
    } else {
        decode_strips(input, entries, bo, p)
    }
}

// ----------------------------------------------------------------------
// From samples to a picture
// ----------------------------------------------------------------------

/// The samples of a page of floating-point numbers, in the byte order of the
/// file.
#[derive(Debug, Clone)]
pub struct FloatRaster {
    /// Width in pixels.
    pub width: u32,
    /// Height in pixels.
    pub height: u32,
    /// Samples of a pixel: 1 for gray, 3 for red, green and blue.
    pub components: u16,
    /// Bits of a sample: 16, 32 or 64.
    pub bps: u16,
    /// Whether the lowest value is displayed white.
    pub invert: bool,
    /// Value of the Orientation field.
    pub orientation: u16,
    /// Byte order of the samples and of the two fields below.
    pub byte_order: ByteOrder,
    /// The field that gives the lowest value, if there is one.
    pub low: Option<Entry>,
    /// The field that gives the highest value, if there is one.
    pub high: Option<Entry>,
    /// The samples of all pixels, row by row.
    pub data: Vec<u8>,
}

/// A page as it was read.
#[derive(Debug, Clone)]
pub enum DecodedPage {
    /// A picture.
    Image(TiffImage),
    /// Floating-point samples, whose display range is still to be found.
    Float(FloatRaster),
}

/// A page of floating-point numbers as a mathematical value.
pub struct FloatModel {
    pub width: int,
    pub height: int,
    pub components: int,
    pub bps: int,
    pub invert: bool,
    pub orientation: int,
    pub byte_order: ByteOrder,
    pub low: Option<EntryModel>,
    pub high: Option<EntryModel>,
    pub data: Seq<u8>,
}

/// A page as a mathematical value.
pub enum PageModel {
    Image(ImageModel),
    Float(FloatModel),
}

/// A field is the one described by `m`, or missing like it.
pub open spec fn field_is(e: Option<Entry>, m: Option<EntryModel>) -> bool {
    match (e, m) {
        (Some(a), Some(b)) => a@ == b,
        (None, None) => true,
        _ => false,
    }
}

impl DecodedPage {
    /// The page is the one described by `m`.
    pub open spec fn shows(self, m: PageModel) -> bool {
        match (self, m) {
            (DecodedPage::Image(i), PageModel::Image(n)) => i.shows(n),
            (DecodedPage::Float(f), PageModel::Float(n)) => {
                &&& f.width == n.width
                &&& f.height == n.height
                &&& f.components == n.components
                &&& f.bps == n.bps
                &&& f.invert == n.invert
                &&& f.orientation == n.orientation
                &&& f.byte_order == n.byte_order
                &&& field_is(f.low, n.low)
                &&& field_is(f.high, n.high)
                &&& f.data@ == n.data
            },
            _ => false,
        }
    }
}

/// Layout and bytes of the picture that integer samples show, as they are
/// stored; nothing for a combination of photometric interpretation, samples and
/// bits that has no rendering.
pub open spec fn rendered(p: PageInfo, es: Seq<EntryModel>, bo: ByteOrder, buf: Seq<u8>) -> Option<
    (TiffPixelFormat, Seq<u8>),
> {
    let w = p.width as int;
    let h = p.height as int;
    let inv = p.photometric == PHOTO_WHITE_IS_ZERO;
    let signed = p.sample_format == SAMPLE_FORMAT_SINT;
    if is_gray_page(p.photometric) && p.samples == 1 {
        if p.bps == 1 {
            Some((TiffPixelFormat::Gray8, gray1_data(buf, w, h, (w + 7) / 8, inv)))
        } else if p.bps == 4 {
            Some((TiffPixelFormat::Gray8, gray4_data(buf, w, h, (w + 1) / 2, inv)))
        } else if p.bps == 8 {
            Some((TiffPixelFormat::Gray8, gray8_data(buf, w, h, inv, signed)))
        } else if p.bps == 16 {
            Some((TiffPixelFormat::Gray16Le, gray16_data(buf, w, h, bo, inv, signed)))
        } else {
            None
        }
    } else if p.photometric == PHOTO_TRANSPARENCY_MASK && p.samples == 1 && p.bps == 1 {
        Some((TiffPixelFormat::Gray8, gray1_data(buf, w, h, (w + 7) / 8, false)))
    } else if p.photometric == PHOTO_RGB && p.samples == 3 && p.bps == 8 {
        Some((TiffPixelFormat::Rgb24, buf.take(w * h * 3)))
    } else if p.photometric == PHOTO_RGB && p.samples == 3 && p.bps == 16 {
        Some((TiffPixelFormat::Rgb48Le, rgb16_data(buf, w, h, bo)))
    } else if p.photometric == PHOTO_RGB && p.samples >= 4 && p.bps == 8 {
        Some((TiffPixelFormat::Rgb24, rgb8_data(buf, w, h, p.samples as int)))
    } else if p.photometric == PHOTO_PALETTE && p.samples == 1 && (p.bps == 4 || p.bps == 8) {
        if find_spec(es, TAG_COLOR_MAP) is None || !list_readable(es, bo, TAG_COLOR_MAP) || list_of(
            es,
            bo,
            TAG_COLOR_MAP,
        ).len() < (if p.bps == 4 { 48int } else { 768int }) {
            None
        } else {
            Some(
                (
                    TiffPixelFormat::Rgb24,
                    palette_data(
                        buf,
                        w,
                        h,
                        list_of(es, bo, TAG_COLOR_MAP),
                        p.bps as int,
                        if p.bps == 8 { w } else { (w + 1) / 2 },
                    ),
                ),
            )
        }
    } else if p.photometric == PHOTO_CMYK && p.samples == 4 && p.bps == 8 {
        Some((TiffPixelFormat::Rgb24, cmyk_data(buf, w, h)))
    } else if p.photometric == PHOTO_YCBCR && p.samples == 3 && p.bps == 8 {
        match subsampling(es, bo) {
            None => None,
            Some(s) => match ycbcr_render(buf, w, h, s.0 % 65536, s.1 % 65536) {
                None => None,
                Some(d) => Some((TiffPixelFormat::Rgb24, d)),
            },
        }
    } else if p.photometric == PHOTO_CIELAB && p.samples == 3 && p.bps == 8 {
        Some((TiffPixelFormat::Rgb24, cielab_data(buf, w, h)))
    } else if p.photometric == PHOTO_CIELAB && p.samples == 1 && p.bps == 8 {
        Some((TiffPixelFormat::Gray8, lightness_data(buf, w, h)))
    } else {
        None
    }
}

/// Signed samples can be displayed: gray ones of 8 or 16 bits.
pub open spec fn signed_ok(p: PageInfo) -> bool {
    is_gray_page(p.photometric) && p.samples == 1 && (p.bps == 8 || p.bps == 16)
}

/// Floating-point samples can be displayed: gray, or red, green and blue, of 16,
/// 32 or 64 bits and not differenced.
pub open spec fn float_ok(p: PageInfo) -> bool {
    &&& (is_gray_page(p.photometric) && p.samples == 1) || (p.photometric == PHOTO_RGB && p.samples == 3)
    &&& p.bps == 16 || p.bps == 32 || p.bps == 64
    &&& p.predictor == PREDICTOR_NONE
}

/// What the samples of a page show.
pub open spec fn displayed(p: PageInfo, es: Seq<EntryModel>, bo: ByteOrder, buf: Seq<u8>) -> Outcome<PageModel> {
    if p.sample_format == SAMPLE_FORMAT_SINT && !signed_ok(p) {
        Err(ErrorKind::Unsupported)
    } else if p.sample_format == SAMPLE_FORMAT_IEEE_FP && !float_ok(p) {
        Err(ErrorKind::Unsupported)
    } else if p.sample_format == SAMPLE_FORMAT_IEEE_FP {
        Ok(
            PageModel::Float(
                FloatModel {
                    width: p.width as int,
                    height: p.height as int,
                    components: p.samples as int,
                    bps: p.bps as int,
                    invert: p.photometric == PHOTO_WHITE_IS_ZERO,
                    orientation: p.orientation as int,
                    byte_order: bo,
                    low: find_spec(es, TAG_S_MIN_SAMPLE_VALUE),
                    high: find_spec(es, TAG_S_MAX_SAMPLE_VALUE),
                    data: buf,
                },
            ),
        )
    } else {
        match rendered(p, es, bo, buf) {
            None => Err(ErrorKind::Invalid),
            Some(d) => Ok(
                PageModel::Image(
                    oriented(picture(p.width as int, p.height as int, d.0, d.1), p.orientation as int),
                ),
            ),
        }
    }
}

/// Renders integer samples as they are stored.
fn render_samples(p: &PageInfo, entries: &[Entry], bo: ByteOrder, buf: &Vec<u8>) -> (r: Result<TiffImage>)
    requires
        info_ok(*p),
        p.bps <= 16,
        p.photometric == PHOTO_YCBCR || enough(*p, buf@.len() as int),
    ensures
        (match (r, rendered(*p, entry_models(entries@), bo, buf@)) {
            (Ok(img), Some(d)) => {
                &&& img.shows(picture(p.width as int, p.height as int, d.0, d.1))
                &&& img.planes@.len() == 1
                &&& img.model() == picture(p.width as int, p.height as int, d.0, d.1)
                &&& img.model().wf()
            },
            (Err(e), None) => e is InvalidData,
            _ => false,
        }),
{
    let w: u32 = p.width;
    let h: u32 = p.height;
    let inv: bool = p.photometric == PHOTO_WHITE_IS_ZERO;
    let signed: bool = p.sample_format == SAMPLE_FORMAT_SINT;
    let gray: bool = p.photometric == PHOTO_BLACK_IS_ZERO || p.photometric == PHOTO_WHITE_IS_ZERO;
    proof {
        assert(w * h * p.samples * 1 == w * h * p.samples);
        assert(w * h > 0 && w <= w * h) by (nonlinear_arith)
            requires
                w > 0,
                h > 0,
        ;
        assert(h * w == w * h) by (nonlinear_arith);
    }
    let half: usize = (w as usize / 2) + (w as usize % 2);
    let eighth: usize = (w as usize / 8) + (if w % 8 == 0 { 0usize } else { 1usize });
    if gray && p.samples == 1 {
        if p.bps == 1 {
            return Ok(build_gray8_from_1bpp(buf, w, h, eighth, inv));
        }
        if p.bps == 4 {
            return Ok(build_gray8_from_4bpp(buf, w, h, half, inv));
        }
        if p.bps == 8 {
            return Ok(build_gray8(buf, w, h, inv, signed));
        }
        return Ok(build_gray16le(buf, w, h, bo, inv, signed));
    }
    if p.photometric == PHOTO_TRANSPARENCY_MASK && p.samples == 1 && p.bps == 1 {
        return Ok(build_gray8_from_1bpp(buf, w, h, eighth, false));
    }
    if p.photometric == PHOTO_RGB && p.samples == 3 && p.bps == 8 {
        return Ok(build_rgb24(buf, w, h));
    }
    if p.photometric == PHOTO_RGB && p.samples == 3 && p.bps == 16 {
        return Ok(build_rgb48le(buf, w, h, bo));
    }
    if p.photometric == PHOTO_RGB && p.samples >= 4 && p.bps == 8 {
        return Ok(build_rgb_from_n_chunky_8bit(buf, w, h, p.samples as usize));
    }
    if p.photometric == PHOTO_PALETTE && p.samples == 1 && (p.bps == 4 || p.bps == 8) {
        proof {
            reveal(list_readable);
            reveal(list_of);
        }
        let words = match find(entries, TAG_COLOR_MAP) {
            None => {
                return Err(TiffError::invalid("TIFF: palette image missing ColorMap"));
            },
            Some(e) => e.as_u32_vec(bo)?,
        };
        let ghost ws = list_of(entry_models(entries@), bo, TAG_COLOR_MAP);
        assert(words_of(words@) =~= ws);
        let palette = parse_colormap(&words, p.bps)?;
        let row_bytes: usize = if p.bps == 8 { w as usize } else { half };
        return Ok(build_rgb24_from_palette(buf, w, h, &palette, p.bps, row_bytes, Ghost(ws)));
    }
    if p.photometric == PHOTO_CMYK && p.samples == 4 && p.bps == 8 {
        return Ok(build_rgb24_from_cmyk(buf, w, h));
    }
    if p.photometric == PHOTO_YCBCR && p.samples == 3 && p.bps == 8 {
        let (sh, sv) = read_subsampling(entries, bo)?;
        return build_rgb24_from_ycbcr(buf, w, h, (sh % 65536) as u16, (sv % 65536) as u16);
    }
    if p.photometric == PHOTO_CIELAB && p.samples == 3 && p.bps == 8 {
        return Ok(build_rgb24_from_cielab(buf, w, h));
    }
    if p.photometric == PHOTO_CIELAB && p.samples == 1 && p.bps == 8 {
        return Ok(build_gray8_from_cielab_l(buf, w, h));
    }
    Err(invalid_with("TIFF: photometric=", p.photometric as u64, " not supported with these samples and bits"))
}

/// A copy of a field, if there is one.
fn copy_of(e: Option<&Entry>) -> (r: Option<Entry>)
    ensures
        field_is(
            r,
            match e {
                Some(a) => Some(a@),
                None => None,
            },
        ),
{
    match e {
        Some(a) => Some(a.copied()),
        None => None,
    }
}

/// Makes of samples what they show.
pub fn display_samples(p: &PageInfo, entries: &[Entry], bo: ByteOrder, buf: Vec<u8>) -> (r: Result<DecodedPage>)
    requires
        info_ok(*p),
        p.photometric == PHOTO_YCBCR || enough(*p, buf@.len() as int),
    ensures
        (match (r, displayed(*p, entry_models(entries@), bo, buf@)) {
            (Ok(d), Ok(m)) => d.shows(m),
            (Err(e), Err(k)) => e.kind() == k,
            _ => false,
        }),
{
    let gray: bool = p.photometric == PHOTO_BLACK_IS_ZERO || p.photometric == PHOTO_WHITE_IS_ZERO;
    if p.sample_format == SAMPLE_FORMAT_SINT {
        if !gray || p.samples != 1 || !(p.bps == 8 || p.bps == 16) {
            return Err(
                unsupported_with("TIFF: SampleFormat=2 (signed integer) supported only for 8-/16-bit grayscale; got photometric=", p.photometric as u64, ""),
            );
        }
    }
    if p.sample_format == SAMPLE_FORMAT_IEEE_FP {
        let shape: bool = (gray && p.samples == 1) || (p.photometric == PHOTO_RGB && p.samples == 3);
        if !shape || !(p.bps == 16 || p.bps == 32 || p.bps == 64) {
            return Err(
                unsupported_with("TIFF: SampleFormat=3 (IEEE floating-point) supported only for 16-/32-/64-bit grayscale or RGB; got photometric=", p.photometric as u64, ""),
            );
        }
        if p.predictor != PREDICTOR_NONE {
            return Err(
                unsupported_with("TIFF: SampleFormat=3 (IEEE floating-point) with Predictor=", p.predictor as u64, " not supported"),
            );
        }
        return Ok(
            DecodedPage::Float(
                FloatRaster {
                    width: p.width,
                    height: p.height,
                    components: p.samples,
                    bps: p.bps,
                    invert: p.photometric == PHOTO_WHITE_IS_ZERO,
                    orientation: p.orientation,
                    byte_order: bo,
                    low: copy_of(find(entries, TAG_S_MIN_SAMPLE_VALUE)),
                    high: copy_of(find(entries, TAG_S_MAX_SAMPLE_VALUE)),
                    data: buf,
                },
            ),
        );
    }
    let stored = render_samples(p, entries, bo, &buf)?;
    Ok(DecodedPage::Image(apply_orientation(stored, p.orientation)))
}

// ----------------------------------------------------------------------
// JPEG pages
// ----------------------------------------------------------------------

/// Photometric interpretations that JPEG data can have, with their samples.
pub open spec fn jpeg_shape_ok(p: PageInfo) -> bool {
    ||| is_gray_page(p.photometric) && p.samples == 1
    ||| (p.photometric == PHOTO_RGB || p.photometric == PHOTO_YCBCR) && p.samples == 3
    ||| p.photometric == PHOTO_CMYK && p.samples == 4
}

/// The JPEG tables of a page.
pub open spec fn tables_of(es: Seq<EntryModel>) -> Option<Seq<u8>> {
    match find_spec(es, TAG_JPEG_TABLES) {
        None => None,
        Some(e) => Some(e.data),
    }
}

/// The displayed bytes of a page in JPEG strips or tiles, given what the decoder
/// replied to each of them.
pub open spec fn jpeg_bytes(
    input: Seq<u8>,
    es: Seq<EntryModel>,
    bo: ByteOrder,
    p: PageInfo,
    replies: Seq<JpegReply>,
) -> Option<Seq<u8>> {
    let start = blank(p.width * p.height * page_depth(p.photometric));
    if find_spec(es, TAG_TILE_WIDTH) is Some {
        match (tile_grid(es, bo, p), places(es, bo, TAG_TILE_OFFSETS, TAG_TILE_BYTE_COUNTS)) {
            (Some(t), Some(pl)) => if pl.0.len() != t.across() * t.down() {
                None
            } else {
                jpeg_tiles_from(input, pl.0, pl.1, 0, start, tables_of(es), t, p.photometric, replies)
            },
            _ => None,
        }
    } else {
        match places(es, bo, TAG_STRIP_OFFSETS, TAG_STRIP_BYTE_COUNTS) {
            None => None,
            Some(pl) => if !readable(es, bo, TAG_ROWS_PER_STRIP) {
                None
            } else {
                jpeg_strips_from(
                    input,
                    pl.0,
                    pl.1,
                    0,
                    0,
                    start,
                    tables_of(es),
                    p.width as int,
                    p.height as int,
                    value_of(es, bo, TAG_ROWS_PER_STRIP, p.height as int),
                    p.photometric,
                    replies,
                )
            },
        }
    }
}

/// The picture of a JPEG page, given its displayed bytes.
pub open spec fn jpeg_picture(p: PageInfo, bytes: Option<Seq<u8>>) -> Outcome<ImageModel> {
    if p.bps != 8 {
        Err(ErrorKind::Unsupported)
    } else if !jpeg_shape_ok(p) {
        Err(ErrorKind::Invalid)
    } else {
        match bytes {
            None => Err(ErrorKind::Invalid),
            Some(d) => Ok(
                picture(
                    p.width as int,
                    p.height as int,
                    if is_gray_page(p.photometric) { TiffPixelFormat::Gray8 } else { TiffPixelFormat::Rgb24 },
                    d,
                ),
            ),
        }
    }
}

/// A result on a picture is what a specification calls for.
pub open spec fn image_agrees(r: Result<TiffImage>, s: Outcome<ImageModel>) -> bool {
    match (r, s) {
        (Ok(i), Ok(m)) => i.shows(m),
        (Err(e), Err(k)) => e.kind() == k,
        _ => false,
    }
}

/// Checks that a page can be a JPEG page.
fn check_jpeg_page(p: &PageInfo) -> (r: Result<()>)
    ensures
        (match r {
            Ok(_) => p.bps == 8 && jpeg_shape_ok(*p),
            Err(e) => if p.bps != 8 { e is Unsupported } else { e is InvalidData && !jpeg_shape_ok(*p) },
        }),
{
    if p.bps != 8 {
        return Err(unsupported_with("TIFF/JPEG: BitsPerSample=", p.bps as u64, " (only 8-bit is supported)"));
    }
    let fine: bool = match (p.photometric, p.samples) {
        (PHOTO_BLACK_IS_ZERO, 1) | (PHOTO_WHITE_IS_ZERO, 1) => true,
        (PHOTO_RGB, 3) | (PHOTO_YCBCR, 3) => true,
        (PHOTO_CMYK, 4) => true,
        _ => false,
    };
    if !fine {
        return Err(invalid_with("TIFF/JPEG: photometric=", p.photometric as u64, " not supported with these samples"));
    }
    Ok(())
}

fn jpeg_image(p: &PageInfo, data: Vec<u8>) -> (img: TiffImage)
    requires
        info_ok(*p),
    ensures
        img.shows(
            picture(
                p.width as int,
                p.height as int,
                if is_gray_page(p.photometric) { TiffPixelFormat::Gray8 } else { TiffPixelFormat::Rgb24 },
                data@,
            ),
        ),
{
    proof {
        assert(p.width <= p.width * p.height) by (nonlinear_arith)
            requires
                0 < p.width,
                0 < p.height,
        ;
    }
    if p.photometric == PHOTO_BLACK_IS_ZERO || p.photometric == PHOTO_WHITE_IS_ZERO {
        single_plane(p.width, p.height, TiffPixelFormat::Gray8, p.width as usize, data)
    } else {
        single_plane(p.width, p.height, TiffPixelFormat::Rgb24, p.width as usize * 3, data)
    }
}

/// Reads the displayed bytes of a page in JPEG strips or tiles.
fn read_jpeg_bytes(input: &[u8], entries: &[Entry], bo: ByteOrder, p: &PageInfo) -> (r: Result<Vec<u8>>)
    requires
        info_ok(*p),
    ensures
        exists|replies: Seq<JpegReply>|
            bytes_or_invalid(r, #[trigger] jpeg_bytes(input@, entry_models(entries@), bo, *p, replies)),
{
    let ghost es = entry_models(entries@);
    let ghost silent = jpeg_bytes(input@, es, bo, *p, Seq::empty());
    let tables: Option<&[u8]> = match find(entries, TAG_JPEG_TABLES) {
        None => None,
        Some(e) => Some(e.data.as_slice()),
    };
    assert(bytes_model(tables) == tables_of(es));
    if find(entries, TAG_TILE_WIDTH).is_some() {
        let t = read_tile_grid(entries, bo, p)?;
        let (offsets, counts) = read_places(entries, bo, TAG_TILE_OFFSETS, TAG_TILE_BYTE_COUNTS)?;
        let expected: u64 = tile_count(t);
        if offsets.len() as u64 != expected {
            assert(silent is None);
            return Err(invalid_with("TIFF/JPEG: TileOffsets length != expected ", expected, ""));
        }
        let r = read_jpeg_tiles(input, &offsets, &counts, tables, t, p.photometric);
        proof {
            let replies = choose|replies: Seq<JpegReply>|
                bytes_or_invalid(
                    r,
                    #[trigger] jpeg_tiles_from(
                        input@,
                        ints_of(offsets@),
                        ints_of(counts@),
                        0,
                        blank(t.width * t.height * page_depth(p.photometric)),
                        tables_of(es),
                        t,
                        p.photometric,
                        replies,
                    ),
                );
            assert(bytes_or_invalid(r, jpeg_bytes(input@, es, bo, *p, replies)));
        }
        r
    } else {
        let rows_per_strip: u32 = optional_u32(entries, bo, TAG_ROWS_PER_STRIP, p.height)?;
        let (offsets, counts) = read_places(entries, bo, TAG_STRIP_OFFSETS, TAG_STRIP_BYTE_COUNTS)?;
        let r = read_jpeg_strips(input, &offsets, &counts, tables, p.width, p.height, rows_per_strip, p.photometric);
        proof {
            let replies = choose|replies: Seq<JpegReply>|
                bytes_or_invalid(
                    r,
                    #[trigger] jpeg_strips_from(
                        input@,
                        ints_of(offsets@),
                        ints_of(counts@),
                        0,
                        0,
                        blank(p.width * p.height * page_depth(p.photometric)),
                        tables_of(es),
                        p.width as int,
                        p.height as int,
                        rows_per_strip as int,
                        p.photometric,
                        replies,
                    ),
                );
            assert(bytes_or_invalid(r, jpeg_bytes(input@, es, bo, *p, replies)));
        }
        r
    }
}

/// Reads a page in JPEG strips or tiles. The result is that of what the decoder
/// replied to each of them.
pub fn decode_ifd_jpeg(input: &[u8], entries: &[Entry], bo: ByteOrder, p: &PageInfo) -> (r: Result<TiffImage>)
    requires
        info_ok(*p),
    ensures
        exists|replies: Seq<JpegReply>|
            image_agrees(r, jpeg_picture(*p, #[trigger] jpeg_bytes(input@, entry_models(entries@), bo, *p, replies))),
{
    let ghost silent = jpeg_bytes(input@, entry_models(entries@), bo, *p, Seq::empty());
    check_jpeg_page(p)?;
    let data = read_jpeg_bytes(input, entries, bo, p)?;
    Ok(jpeg_image(p, data))
}

/// The picture of a page with old-style JPEG fields, given what the decoder
/// replied to its stream.
pub open spec fn old_jpeg_picture(
    input: Seq<u8>,
    es: Seq<EntryModel>,
    bo: ByteOrder,
    p: PageInfo,
    reply: JpegReply,
) -> Outcome<ImageModel> {
    match old_fields(es, bo, p.samples as int) {
        Err(k) => Err(k),
        Ok(m) => match stream_of(m, input) {
            None => Err(ErrorKind::Invalid),
            Some(None) => Err(tables_kind(m)),
            Some(Some(stream)) => jpeg_picture(
                p,
                jpeg_whole(stream, p.width as int, p.height as int, p.photometric, reply),
            ),
        },
    }
}

/// Reads a page with old-style JPEG fields. The result is that of what the decoder
/// replied to its stream.
pub fn decode_ifd_old_jpeg(input: &[u8], entries: &[Entry], bo: ByteOrder, p: &PageInfo) -> (r: Result<TiffImage>)
    requires
        info_ok(*p),
    ensures
        exists|reply: JpegReply|
            image_agrees(r, #[trigger] old_jpeg_picture(input@, entry_models(entries@), bo, *p, reply)),
{
    let ghost es = entry_models(entries@);
    let ghost silent = old_jpeg_picture(input@, es, bo, *p, Seq::empty());
    let fields = parse_old_jpeg_fields(entries, bo, p.samples)?;
    match fields.interchange_stream(input)? {
        None => Err(fields.tables_form_error()),
        Some(stream) => {
            check_jpeg_page(p)?;
            let got = read_jpeg_stream(stream, p.width, p.height, p.photometric);
            let ghost reply = choose|reply: JpegReply|
                bytes_or_invalid(
                    got,
                    #[trigger] jpeg_whole(stream@, p.width as int, p.height as int, p.photometric, reply),
                );
            let ghost shown = old_jpeg_picture(input@, es, bo, *p, reply);
            match got {
                Ok(data) => {
                    assert(shown is Ok);
                    Ok(jpeg_image(p, data))
                },
                Err(e) => {
                    assert(shown is Err);
                    Err(e)
                },
            }
        },
    }
}

// ----------------------------------------------------------------------
// Pages and files
// ----------------------------------------------------------------------

pub open spec fn image_page(o: Outcome<ImageModel>) -> Outcome<PageModel> {
    match o {
        Err(k) => Err(k),
        Ok(m) => Ok(PageModel::Image(m)),
    }
}

/// The page whose fields are `es`, given what the JPEG decoder replied to each of
/// its strips or tiles. Pages that are not JPEG pages do not depend on that.
pub open spec fn page_of(input: Seq<u8>, es: Seq<EntryModel>, bo: ByteOrder, replies: Seq<JpegReply>) -> Outcome<
    PageModel,
> {
    match page_spec(es, bo) {
        Err(k) => Err(k),
        Ok(p) => if p.compression == COMPRESSION_JPEG_NEW {
            if p.planar == PLANAR_SEPARATE {
                Err(ErrorKind::Unsupported)
            } else {
                image_page(jpeg_picture(p, jpeg_bytes(input, es, bo, p, replies)))
            }
        } else if p.compression == COMPRESSION_JPEG_OLD {
            image_page(old_jpeg_picture(input, es, bo, p, replies[0]))
        } else {
            match samples_of(input, es, bo, p) {
                None => Err(ErrorKind::Invalid),
                Some(buf) => displayed(p, es, bo, buf),
            }
        },
    }
}

/// A result on a page is what a specification calls for.
pub open spec fn page_agrees(r: Result<DecodedPage>, s: Outcome<PageModel>) -> bool {
    match (r, s) {
        (Ok(d), Ok(m)) => d.shows(m),
        (Err(e), Err(k)) => e.kind() == k,
        _ => false,
    }
}

fn image_as_page(r: Result<TiffImage>) -> (q: Result<DecodedPage>)
    ensures
        (match (r, q) {
            (Ok(i), Ok(DecodedPage::Image(j))) => i == j,
            (Err(e), Err(f)) => e == f,
            _ => false,
        }),
{
    match r {
        Ok(img) => Ok(DecodedPage::Image(img)),
        Err(e) => Err(e),
    }
}

/// Reads a page in JPEG strips or tiles.
fn decode_jpeg_page(input: &[u8], bo: ByteOrder, entries: &[Entry], p: &PageInfo) -> (q: Result<DecodedPage>)
    requires
        info_ok(*p),
        page_spec(entry_models(entries@), bo) == Outcome::<PageInfo>::Ok(*p),
        p.compression == COMPRESSION_JPEG_NEW,
    ensures
        exists|replies: Seq<JpegReply>|
            page_agrees(q, #[trigger] page_of(input@, entry_models(entries@), bo, replies)),
{
    let ghost es = entry_models(entries@);
    let ghost silent = page_of(input@, es, bo, Seq::empty());
    if p.planar == PLANAR_SEPARATE {
        assert(silent is Err);
        return Err(
            TiffError::unsupported("TIFF/JPEG: PlanarConfiguration=2 (separate planes) not supported"),
        );
    }
    let r = decode_ifd_jpeg(input, entries, bo, p);
    let q = image_as_page(r);
    proof {
        let replies = choose|replies: Seq<JpegReply>|
            image_agrees(r, jpeg_picture(*p, #[trigger] jpeg_bytes(input@, es, bo, *p, replies)));
        assert(page_agrees(q, page_of(input@, es, bo, replies)));
    }
    q
}

/// Reads a page with old-style JPEG fields.
fn decode_old_jpeg_page(input: &[u8], bo: ByteOrder, entries: &[Entry], p: &PageInfo) -> (q: Result<DecodedPage>)
    requires
        info_ok(*p),
        page_spec(entry_models(entries@), bo) == Outcome::<PageInfo>::Ok(*p),
        p.compression == COMPRESSION_JPEG_OLD,
    ensures
        exists|replies: Seq<JpegReply>|
            page_agrees(q, #[trigger] page_of(input@, entry_models(entries@), bo, replies)),
{
    let ghost es = entry_models(entries@);
    let r = decode_ifd_old_jpeg(input, entries, bo, p);
    let q = image_as_page(r);
    proof {
        let reply = choose|reply: JpegReply| image_agrees(r, #[trigger] old_jpeg_picture(input@, es, bo, *p, reply));
        assert(seq![reply][0] == reply);
        assert(page_agrees(q, page_of(input@, es, bo, seq![reply])));
    }
    q
}

/// Reads the page whose fields are `entries`. The result is that of what the JPEG
/// decoder replied to each strip or tile of a JPEG page.
pub fn decode_page(input: &[u8], bo: ByteOrder, entries: &[Entry]) -> (r: Result<DecodedPage>)
    ensures
        exists|replies: Seq<JpegReply>|
            page_agrees(r, #[trigger] page_of(input@, entry_models(entries@), bo, replies)),
{
    let ghost es = entry_models(entries@);
    let ghost silent = page_of(input@, es, bo, Seq::empty());
    let p = match read_page_info(entries, bo) {
        Ok(p) => p,
        Err(e) => {
            assert(page_agrees(Err(e), silent));
            return Err(e);
        },
    };
    if p.compression == COMPRESSION_JPEG_NEW {
        return decode_jpeg_page(input, bo, entries, &p);
    }
    if p.compression == COMPRESSION_JPEG_OLD {
        return decode_old_jpeg_page(input, bo, entries, &p);
    }
    let r = match decode_samples(input, entries, bo, &p) {
        Ok(buf) => display_samples(&p, entries, bo, buf),
        Err(e) => Err(e),
    };
    assert(page_agrees(r, silent));
    r
}

/// The picture of the page whose fields are `es`; a page of floating-point
/// samples has none here.
pub open spec fn image_of(input: Seq<u8>, es: Seq<EntryModel>, bo: ByteOrder, replies: Seq<JpegReply>) -> Outcome<
    ImageModel,
> {
    match page_of(input, es, bo, replies) {
        Err(k) => Err(k),
        Ok(PageModel::Image(m)) => Ok(m),
        Ok(PageModel::Float(_)) => Err(ErrorKind::Unsupported),
    }
}

/// The picture of a page that is one.
fn displayable(page: DecodedPage) -> (r: Result<TiffImage>)
    ensures
        (match (r, page) {
            (Ok(i), DecodedPage::Image(j)) => i == j,
            (Err(e), DecodedPage::Float(_)) => e is Unsupported,
            _ => false,
        }),
{
    match page {
        DecodedPage::Image(img) => Ok(img),
        DecodedPage::Float(_) => Err(
            TiffError::unsupported("TIFF: floating-point samples need a display range; read them with decode_page"),
        ),
    }
}

/// Reads the picture of the page whose fields are `entries`.
pub fn decode_ifd(input: &[u8], bo: ByteOrder, entries: &[Entry]) -> (r: Result<TiffImage>)
    ensures
        exists|replies: Seq<JpegReply>|
            #![trigger page_of(input@, entry_models(entries@), bo, replies)]
            image_agrees(r, image_of(input@, entry_models(entries@), bo, replies)),
{
    displayable(decode_page(input, bo, entries)?)
}

/// The first page of a file.
pub struct DecodedTiff {
    /// The picture.
    pub frame: TiffImage,
    /// Its width in pixels.
    pub width: u32,
    /// Its height in pixels.
    pub height: u32,
    /// The layout of its samples.
    pub pixel_format: TiffPixelFormat,
}

/// The picture of the first page of a file, given what the JPEG decoder replied to
/// each of its strips or tiles.
pub open spec fn first_image(input: Seq<u8>, replies: Seq<JpegReply>) -> Outcome<ImageModel> {
    match header_spec(input) {
        Err(k) => Err(k),
        Ok(h) => match ifd_spec(input, h.0, h.1, h.2) {
            Err(k) => Err(k),
            Ok(d) => image_of(input, d.0, h.0, replies),
        },
    }
}

/// A result on the first page of a file is what a specification calls for.
pub open spec fn first_agrees(r: Result<DecodedTiff>, s: Outcome<ImageModel>) -> bool {
    match (r, s) {
        (Ok(d), Ok(m)) => {
            &&& d.frame.shows(m)
            &&& d.width == m.width
            &&& d.height == m.height
            &&& d.pixel_format == m.pixel_format
        },
        (Err(e), Err(k)) => e.kind() == k,
        _ => false,
    }
}

/// Decodes the first page of a file. The result is that of what the JPEG decoder
/// replied to each strip or tile of a JPEG page.
pub fn decode_tiff(input: &[u8]) -> (r: Result<DecodedTiff>)
    ensures
        exists|replies: Seq<JpegReply>| first_agrees(r, #[trigger] first_image(input@, replies)),
{
    let ghost silent = first_image(input@, Seq::empty());
    let header = parse_header(input)?;
    let bo = header.byte_order;
    let (entries, _) = parse_ifd_in(input, bo, header.variant, header.first_ifd_offset)?;
    let got = decode_ifd(input, bo, &entries);
    let ghost replies = choose|replies: Seq<JpegReply>|
        #![trigger page_of(input@, entry_models(entries@), bo, replies)]
        image_agrees(got, image_of(input@, entry_models(entries@), bo, replies));
    let ghost shown = first_image(input@, replies);
    match got {
        Ok(frame) => {
            assert(shown is Ok);
            Ok(DecodedTiff { width: frame.width, height: frame.height, pixel_format: frame.pixel_format, frame })
        },
        Err(e) => {
            assert(shown is Err);
            Err(e)
        },
    }
}

/// The pictures of the pages from the one at `next` on, after those in `out`. A
/// chain that comes back to a page, or that has more pages than the file has
/// bytes and so must come back, is invalid. The JPEG decoder replied to the strips
/// or tiles of each page of the file as given.
pub open spec fn images_from(
    input: Seq<u8>,
    bo: ByteOrder,
    variant: TiffVariant,
    next: int,
    visited: Seq<int>,
    out: Seq<ImageModel>,
    replies: Seq<Seq<JpegReply>>,
) -> Outcome<Seq<ImageModel>>
    decreases input.len() - visited.len(),
{
    if next == 0 {
        Ok(out)
    } else if visited.contains(next) || visited.len() >= input.len() {
        Err(ErrorKind::Invalid)
    } else {
        match ifd_spec(input, bo, variant, next) {
            Err(k) => Err(k),
            Ok(d) => match image_of(input, d.0, bo, replies[out.len() as int]) {
                Err(k) => Err(k),
                Ok(m) => images_from(input, bo, variant, d.1, visited.push(next), out.push(m), replies),
            },
        }
    }
}

/// The pictures of all pages of a file, of which there must be one, given what the
/// JPEG decoder replied to the strips or tiles of each page.
pub open spec fn all_images(input: Seq<u8>, replies: Seq<Seq<JpegReply>>) -> Outcome<Seq<ImageModel>> {
    match header_spec(input) {
        Err(k) => Err(k),
        Ok(h) => match images_from(input, h.0, h.1, h.2, Seq::empty(), Seq::empty(), replies) {
            Err(k) => Err(k),
            Ok(v) => if v.len() == 0 { Err(ErrorKind::Invalid) } else { Ok(v) },
        },
    }
}

/// Pictures are those described by `m`.
pub open spec fn images_show(v: Seq<TiffImage>, m: Seq<ImageModel>) -> bool {
    v.len() == m.len() && forall|i: int| 0 <= i < v.len() ==> (#[trigger] v[i]).shows(m[i])
}

/// Pictures that were found stay where they are.
pub proof fn lemma_images_kept(
    input: Seq<u8>,
    bo: ByteOrder,
    variant: TiffVariant,
    next: int,
    visited: Seq<int>,
    out: Seq<ImageModel>,
    replies: Seq<Seq<JpegReply>>,
)
    ensures
        images_from(input, bo, variant, next, visited, out, replies) matches Ok(v) ==> out.is_prefix_of(v),
    decreases input.len() - visited.len(),
{
    if next != 0 && !visited.contains(next) && visited.len() < input.len() {
        match ifd_spec(input, bo, variant, next) {
            Err(_) => {},
            Ok(d) => match image_of(input, d.0, bo, replies[out.len() as int]) {
                Err(_) => {},
                Ok(m) => {
                    lemma_images_kept(input, bo, variant, d.1, visited.push(next), out.push(m), replies);
                    match images_from(input, bo, variant, next, visited, out, replies) {
                        Err(_) => {},
                        Ok(v) => {
                            assert(out.push(m).is_prefix_of(v));
                            assert(out =~= v.take(out.len() as int));
                        },
                    }
                },
            },
        }
    }
}

/// The places of the directories from the one at `next` on, after those in `visited`.
pub open spec fn places_from(
    input: Seq<u8>,
    bo: ByteOrder,
    variant: TiffVariant,
    next: int,
    visited: Seq<int>,
) -> Seq<int>
    decreases input.len() - visited.len(),
{
    if next == 0 || visited.contains(next) || visited.len() >= input.len() {
        visited
    } else {
        match ifd_spec(input, bo, variant, next) {
            Err(_) => visited,
            Ok(d) => places_from(input, bo, variant, d.1, visited.push(next)),
        }
    }
}

/// The places of the directories of a file.
pub open spec fn directories_of(input: Seq<u8>) -> Seq<int> {
    match header_spec(input) {
        Err(_) => Seq::empty(),
        Ok(h) => places_from(input, h.0, h.1, h.2, Seq::empty()),
    }
}

/// Page `k` of a file is described at `at`, and shows `m`.
pub open spec fn shown_at(
    input: Seq<u8>,
    bo: ByteOrder,
    variant: TiffVariant,
    at: int,
    replies: Seq<JpegReply>,
    m: ImageModel,
) -> bool {
    ifd_spec(input, bo, variant, at) matches Ok(d) && image_of(input, d.0, bo, replies) == Outcome::<ImageModel>::Ok(m)
}

/// Where the directory after the one at `at` is; nothing where there is no directory.
#[verifier::opaque]
pub open spec fn next_at(input: Seq<u8>, bo: ByteOrder, variant: TiffVariant, at: int) -> Option<int> {
    match ifd_spec(input, bo, variant, at) {
        Ok(d) => Some(d.1),
        Err(_) => None,
    }
}

/// Directory `k` of those at `at` says that the next one is after it, or at `end`
/// after the last of them.
pub open spec fn leads_on(input: Seq<u8>, bo: ByteOrder, variant: TiffVariant, at: Seq<int>, end: int, k: int) -> bool {
    next_at(input, bo, variant, at[k]) == Some(if k + 1 < at.len() { at[k + 1] } else { end })
}

/// The directories at `at` form a chain from `first` to `end`: each says where the
/// next one is, and no two are at the same place.
pub open spec fn is_chain(input: Seq<u8>, bo: ByteOrder, variant: TiffVariant, first: int, at: Seq<int>, end: int) -> bool {
    &&& at.no_duplicates()
    &&& first == (if at.len() == 0 { end } else { at[0] })
    &&& forall|k: int| 0 <= k < at.len() ==> #[trigger] leads_on(input, bo, variant, at, end, k)
}

/// A chain goes on with the directory at its end.
proof fn lemma_chain_longer(
    input: Seq<u8>,
    bo: ByteOrder,
    variant: TiffVariant,
    first: int,
    at: Seq<int>,
    end: int,
    d: (Seq<EntryModel>, int),
)
    requires
        is_chain(input, bo, variant, first, at, end),
        !at.contains(end),
        ifd_spec(input, bo, variant, end) == Outcome::<(Seq<EntryModel>, int)>::Ok(d),
    ensures
        is_chain(input, bo, variant, first, at.push(end), d.1),
{
    let longer = at.push(end);
    assert(longer.no_duplicates()) by {
        assert forall|i: int, j: int| 0 <= i < longer.len() && 0 <= j < longer.len() && i != j implies longer[i]
            != longer[j] by {
            if i < at.len() && j < at.len() {
                assert(at[i] != at[j]);
            } else if i < at.len() {
                assert(at.contains(at[i]));
            } else {
                assert(at.contains(at[j]));
            }
        }
    }
    assert forall|k: int| 0 <= k < longer.len() implies #[trigger] leads_on(input, bo, variant, longer, d.1, k) by {
        if k < at.len() {
            assert(leads_on(input, bo, variant, at, end, k));
        } else {
            reveal(next_at);
        }
    }
}

proof fn lemma_chain(
    input: Seq<u8>,
    bo: ByteOrder,
    variant: TiffVariant,
    first: int,
    next: int,
    visited: Seq<int>,
    out: Seq<ImageModel>,
    replies: Seq<Seq<JpegReply>>,
)
    requires
        visited.len() == out.len(),
        is_chain(input, bo, variant, first, visited, next),
        forall|k: int| 0 <= k < out.len() ==> shown_at(input, bo, variant, visited[k], replies[k], #[trigger] out[k]),
    ensures
        images_from(input, bo, variant, next, visited, out, replies) matches Ok(v) ==> {
            let at = places_from(input, bo, variant, next, visited);
            &&& at.len() == v.len()
            &&& is_chain(input, bo, variant, first, at, 0)
            &&& forall|k: int| 0 <= k < v.len() ==> shown_at(input, bo, variant, at[k], replies[k], #[trigger] v[k])
        },
    decreases input.len() - visited.len(),
{
    if next != 0 && !visited.contains(next) && visited.len() < input.len() {
        match ifd_spec(input, bo, variant, next) {
            Err(_) => {},
            Ok(d) => match image_of(input, d.0, bo, replies[out.len() as int]) {
                Err(_) => {},
                Ok(m) => {
                    let visited2 = visited.push(next);
                    let out2 = out.push(m);
                    lemma_chain_longer(input, bo, variant, first, visited, next, d);
                    assert forall|k: int| 0 <= k < out2.len() implies shown_at(
                        input,
                        bo,
                        variant,
                        visited2[k],
                        replies[k],
                        #[trigger] out2[k],
                    ) by {
                        if k < out.len() {
                            assert(out2[k] == out[k]);
                        }
                    }
                    lemma_chain(input, bo, variant, first, d.1, visited2, out2, replies);
                },
            },
        }
    }
}

/// Where all pages of a file can be decoded, its directories form a chain from the one
/// that the header names to the one that names no other, of which there is at least
/// one and no two are at the same place; there are as many pictures, each that of its
/// directory.
pub proof fn law_chain(input: Seq<u8>, replies: Seq<Seq<JpegReply>>)
    ensures
        all_images(input, replies) matches Ok(v) ==> (header_spec(input) matches Ok(h) && {
            let at = directories_of(input);
            &&& at.len() == v.len()
            &&& at.len() >= 1
            &&& is_chain(input, h.0, h.1, h.2, at, 0)
            &&& forall|k: int| 0 <= k < v.len() ==> shown_at(input, h.0, h.1, at[k], replies[k], #[trigger] v[k])
        }),
{
    if let Ok(h) = header_spec(input) {
        lemma_chain(input, h.0, h.1, h.2, h.2, Seq::empty(), Seq::empty(), replies);
    }
}

/// A chain of directories that comes back to one of them, or a header that names none,
/// is an error.
pub proof fn law_no_way_out(input: Seq<u8>, at: Seq<int>, end: int, replies: Seq<Seq<JpegReply>>)
    requires
        header_spec(input) matches Ok(h) && (h.2 == 0 || (is_chain(input, h.0, h.1, h.2, at, end) && at.contains(end)
            && forall|k: int| 0 <= k < at.len() ==> #[trigger] at[k] != 0)),
    ensures
        all_images(input, replies) is Err,
{
    law_chain(input, replies);
    let h = header_spec(input)->Ok_0;
    if h.2 != 0 && all_images(input, replies) is Ok {
        lemma_same_chain(input, h.0, h.1, h.2, at, end, directories_of(input), at.len() as int);
        let j = choose|j: int| 0 <= j < at.len() && at[j] == end;
        let way = directories_of(input);
        let last = at.len() - 1;
        assert(way[last] == at[last]);
        assert(leads_on(input, h.0, h.1, at, end, last));
        assert(leads_on(input, h.0, h.1, way, 0, last));
        assert(at[j] != 0);
        assert(way[j] == at[j]);
    }
}

/// A chain that ends at 0 follows any other from the same directory.
proof fn lemma_same_chain(
    input: Seq<u8>,
    bo: ByteOrder,
    variant: TiffVariant,
    first: int,
    at: Seq<int>,
    end: int,
    way: Seq<int>,
    n: int,
)
    requires
        is_chain(input, bo, variant, first, at, end),
        is_chain(input, bo, variant, first, way, 0),
        forall|k: int| 0 <= k < at.len() ==> #[trigger] at[k] != 0,
        0 <= n <= at.len(),
    ensures
        n <= way.len(),
        forall|k: int| 0 <= k < n ==> way[k] == #[trigger] at[k],
    decreases n,
{
    if n > 0 {
        lemma_same_chain(input, bo, variant, first, at, end, way, n - 1);
        assert(at[n - 1] != 0);
        if n > 1 {
            assert(way[n - 2] == at[n - 2]);
            assert(leads_on(input, bo, variant, at, end, n - 2));
            assert(leads_on(input, bo, variant, way, 0, n - 2));
        }
    }
}

fn contains(v: &Vec<u64>, x: u64) -> (b: bool)
    ensures
        b == ints_of(v@).contains(x as int),
{
    let mut i: usize = 0;
    while i < v.len()
        invariant
            i <= v@.len(),
            forall|k: int| 0 <= k < i ==> (#[trigger] v@[k]) != x,
        decreases v@.len() - i,
    {
        if v[i] == x {
            assert(ints_of(v@)[i as int] == x);
            return true;
        }
        i = i + 1;
    }
    false
}

/// The pages of a file one after the other.
#[derive(Debug, Clone)]
pub struct PageWalk {
    /// Byte order of the file.
    pub byte_order: ByteOrder,
    /// Kind of the file.
    pub variant: TiffVariant,
    /// Where the next page is described; 0 after the last one.
    pub next: u64,
    /// Where the pages that were read are described.
    pub visited: Vec<u64>,
}

/// The page that a walk comes to, with the place of the one after it; nothing
/// after the last page. The JPEG decoder replied to its strips or tiles as given.
pub open spec fn page_step(
    input: Seq<u8>,
    bo: ByteOrder,
    variant: TiffVariant,
    next: int,
    visited: Seq<int>,
    replies: Seq<JpegReply>,
) -> Outcome<Option<(PageModel, int)>> {
    if next == 0 {
        Ok(None)
    } else if visited.contains(next) || visited.len() >= input.len() {
        Err(ErrorKind::Invalid)
    } else {
        match ifd_spec(input, bo, variant, next) {
            Err(k) => Err(k),
            Ok(d) => match page_of(input, d.0, bo, replies) {
                Err(k) => Err(k),
                Ok(m) => Ok(Some((m, d.1))),
            },
        }
    }
}

impl PageWalk {
    /// A walk that starts at the first page of a file.
    pub fn new(input: &[u8]) -> (r: Result<PageWalk>)
        ensures
            (match (r, header_spec(input@)) {
                (Ok(w), Ok(h)) => {
                    &&& w.byte_order == h.0
                    &&& w.variant == h.1
                    &&& w.next == h.2
                    &&& w.visited@.len() == 0
                },
                (Err(e), Err(k)) => e.kind() == k,
                _ => false,
            }),
    {
        let header = parse_header(input)?;
        Ok(
            PageWalk {
                byte_order: header.byte_order,
                variant: header.variant,
                next: header.first_ifd_offset,
                visited: Vec::new(),
            },
        )
    }

    /// A step of the walk `before` that left it as `after` is what a specification
    /// calls for.
    pub open spec fn stepped(
        before: PageWalk,
        after: PageWalk,
        r: Result<Option<DecodedPage>>,
        s: Outcome<Option<(PageModel, int)>>,
    ) -> bool {
        &&& after.byte_order == before.byte_order
        &&& after.variant == before.variant
        &&& match (r, s) {
            (Ok(None), Ok(None)) => after == before,
            (Ok(Some(d)), Ok(Some(m))) => {
                &&& d.shows(m.0)
                &&& after.next == m.1
                &&& after.visited@ == before.visited@.push(before.next)
            },
            (Err(e), Err(k)) => e.kind() == k && after == before,
            _ => false,
        }
    }

    /// Reads the next page and goes on to the one after it; nothing after the
    /// last page. A walk that fails stays where it is.
    pub fn advance(&mut self, input: &[u8]) -> (r: Result<Option<DecodedPage>>)
        ensures
            exists|replies: Seq<JpegReply>|
                PageWalk::stepped(
                    *old(self),
                    *final(self),
                    r,
                    #[trigger] page_step(
                        input@,
                        old(self).byte_order,
                        old(self).variant,
                        old(self).next as int,
                        ints_of(old(self).visited@),
                        replies,
                    ),
                ),
    {
        let ghost before = *self;
        let ghost silent = page_step(
            input@,
            self.byte_order,
            self.variant,
            self.next as int,
            ints_of(self.visited@),
            Seq::empty(),
        );
        if self.next == 0 {
            assert(silent == Outcome::<Option<(PageModel, int)>>::Ok(None));
            return Ok(None);
        }
        if self.visited.len() >= input.len() || contains(&self.visited, self.next) {
            assert(silent is Err);
            return Err(TiffError::invalid("TIFF: cyclic next-IFD pointer"));
        }
        let (entries, after) = parse_ifd_in(input, self.byte_order, self.variant, self.next)?;
        let got = decode_page(input, self.byte_order, &entries);
        let ghost replies = choose|replies: Seq<JpegReply>|
            page_agrees(got, #[trigger] page_of(input@, entry_models(entries@), self.byte_order, replies));
        let ghost step = page_step(
            input@,
            self.byte_order,
            self.variant,
            self.next as int,
            ints_of(self.visited@),
            replies,
        );
        match got {
            Ok(page) => {
                assert(step is Ok);
                self.visited.push(self.next);
                self.next = after;
                assert(PageWalk::stepped(before, *self, Ok(Some(page)), step));
                Ok(Some(page))
            },
            Err(e) => {
                assert(step is Err);
                Err(e)
            },
        }
    }
}

/// A result on the pages of a file is what a specification calls for.
pub open spec fn images_agree(r: Result<Vec<TiffImage>>, s: Outcome<Seq<ImageModel>>) -> bool {
    match (r, s) {
        (Ok(v), Ok(m)) => images_show(v@, m),
        (Err(e), Err(k)) => e.kind() == k,
        _ => false,
    }
}

/// The replies on the first pages are those in `so_far`.
pub open spec fn pages_begin(replies: Seq<Seq<JpegReply>>, so_far: Seq<Seq<JpegReply>>) -> bool {
    &&& so_far.len() <= replies.len()
    &&& forall|k: int| 0 <= k < so_far.len() ==> #[trigger] replies[k] == so_far[k]
}

/// Decodes every page of a file. The result is that of what the JPEG decoder
/// replied to each strip or tile of the JPEG pages.
pub fn decode_tiff_all(input: &[u8]) -> (r: Result<Vec<TiffImage>>)
    ensures
        exists|replies: Seq<Seq<JpegReply>>| images_agree(r, #[trigger] all_images(input@, replies)),
{
    let ghost silent = all_images(input@, Seq::empty());
    let mut walk = PageWalk::new(input)?;
    let ghost bo = walk.byte_order;
    let ghost variant = walk.variant;
    let ghost first = walk.next as int;
    let ghost mut models: Seq<ImageModel> = Seq::empty();
    let ghost mut so_far: Seq<Seq<JpegReply>> = Seq::empty();
    let mut out: Vec<TiffImage> = Vec::new();
    assert(ints_of(walk.visited@) =~= Seq::empty());
    while walk.next != 0
        invariant
            header_spec(input@) matches Ok(h) && h.0 == bo && h.1 == variant && h.2 == first,
            walk.byte_order == bo,
            walk.variant == variant,
            so_far.len() == models.len(),
            forall|rs: Seq<Seq<JpegReply>>| #[trigger]
                pages_begin(rs, so_far) ==> images_from(input@, bo, variant, first, Seq::empty(), Seq::empty(), rs)
                    == images_from(input@, bo, variant, walk.next as int, ints_of(walk.visited@), models, rs),
            images_show(out@, models),
            walk.visited@.len() <= input@.len(),
        decreases input@.len() - walk.visited@.len(),
    {
        let ghost here = walk.next as int;
        let ghost before = walk;
        let got = walk.advance(input);
        let ghost replies = choose|replies: Seq<JpegReply>|
            PageWalk::stepped(
                before,
                walk,
                got,
                #[trigger] page_step(input@, bo, variant, here, ints_of(before.visited@), replies),
            );
        let ghost now = so_far.push(replies);
        let ghost all = all_images(input@, now);
        let ghost n = models.len() as int;
        proof {
            assert forall|rs: Seq<Seq<JpegReply>>| #[trigger] pages_begin(rs, now) implies pages_begin(rs, so_far) && rs[n]
                == replies by {
                assert(now[n] == replies);
                assert forall|k: int| 0 <= k < so_far.len() implies #[trigger] rs[k] == so_far[k] by {
                    assert(rs[k] == now[k]);
                }
            }
            assert(pages_begin(now, now));
        }
        let page = match got {
            Ok(Some(page)) => page,
            Ok(None) => {
                return Err(TiffError::invalid("TIFF: no IFDs in file"));
            },
            Err(e) => {
                assert(all is Err);
                return Err(e);
            },
        };
        let image = match displayable(page) {
            Ok(image) => image,
            Err(e) => {
                assert(all is Err);
                return Err(e);
            },
        };
        proof {
            assert(ints_of(walk.visited@) =~= ints_of(before.visited@).push(here));
            let d = ifd_spec(input@, bo, variant, here)->Ok_0;
            models = models.push(image_of(input@, d.0, bo, replies)->Ok_0);
            so_far = now;
        }
        out.push(image);
    }
    let ghost all = all_images(input@, so_far);
    assert(pages_begin(so_far, so_far));
    if out.len() == 0 {
        assert(all is Err);
        return Err(TiffError::invalid("TIFF: no IFDs in file"));
    }
    assert(all is Ok);
    Ok(out)
}

} // verus!
