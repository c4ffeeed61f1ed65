//! What is written can be read: decoding an encoded file gives the pictures of
//! its pages.
use vstd::prelude::*;
use crate::ccitt::{clean_rows, row_of, row_size, FillOrder};
use crate::compress::{min_int, MAX_CODEC_OUTPUT};
use crate::decoder::{coding_of, displayed, image_of, needed_list, plane_strips};
use crate::decoder::{planar_strip_samples, planar_tile_samples, samples_of, strip_samples, tile_grid, tile_samples};
use crate::decoder::{units_of, PageModel};
use crate::encoder::{lemma_bits_list, lemma_plan_wf, map_words, page_tag, EncodePage};
use crate::encoder::{lemma_fields_known, EncodePixelFormat};
use crate::error::{ErrorKind, Outcome};
use crate::ifd::{find_spec, short_uint_size, tag_position, uint_at, ByteOrder, EntryModel, TiffVariant};
use crate::image::{ImageModel, TiffPixelFormat};
use crate::layout::{le, le_list, lemma_le_len, lemma_le_list, lemma_le_read, lemma_segment_placed, room_of};
use crate::layout::{lemma_places_small, PlanModel, ValueModel};
use crate::page::{bits_spec, list_of, list_readable, page_spec, readable, uniform, value_of, PageInfo};
use crate::predictor::law_predictor_roundtrip;
use crate::segments::{block, interleaved, lemma_tile_rows, row_bytes_of, stored_block, strip_size, strips_from, tile_block};
use crate::segments::{tiles_aligned, tiles_spec, unpacked, Coding, StripGrid, TileGrid};
use crate::bits::{bits_of, bytes_of, lemma_bits_of_bytes_of};
use crate::decoder::rendered;
use crate::encoder::{all_addressable, directory_at, file_bytes, header_bytes, header_size, lemma_header_len};
use crate::encoder::{lemma_pages_len, page_start, pages_bytes, RgbColor};
use crate::encoder::{all_planned, reply_at};
use crate::ifd::{header_spec, ifd_spec};
use crate::jpeg::JpegReply;
use crate::webp::WebpReply;
use crate::layout::{lemma_order, lemma_page_len, lemma_page_parses};
use crate::render::{le16_byte, gray16_data, gray8_data, lemma_upright, map_byte, palette_data, palette_index};
use crate::types::{BIGTIFF_MAGIC, BYTE_ORDER_LE, TIFF_MAGIC};
use crate::render::{lemma_cell_of_byte, lemma_pixel_place, lemma_row_byte};
use crate::encoder::lemma_segment_rows;
use crate::render::{ceil_div, cielab_data, cmyk_data, gray1_data, lightness_data, page_size_ok, picture};
use crate::types::{PLANAR_CHUNKY, PLANAR_SEPARATE, PREDICTOR_HORIZONTAL, PREDICTOR_NONE};
use crate::types::{SAMPLE_FORMAT_UINT, TAG_BITS_PER_SAMPLE, TAG_COLOR_MAP, TAG_COMPRESSION, TAG_EXTRA_SAMPLES};
use crate::types::{TAG_FILL_ORDER, TAG_IMAGE_LENGTH, TAG_IMAGE_WIDTH, TAG_NEW_SUBFILE_TYPE, TAG_ORIENTATION};
use crate::types::{TAG_PHOTOMETRIC_INTERPRETATION, TAG_PLANAR_CONFIGURATION, TAG_PREDICTOR, TAG_RESOLUTION_UNIT};
use crate::types::{TAG_ROWS_PER_STRIP, TAG_SAMPLES_PER_PIXEL, TAG_SAMPLE_FORMAT, TAG_STRIP_BYTE_COUNTS, TAG_STRIP_OFFSETS};
use crate::types::{TAG_T4_OPTIONS, TAG_T6_OPTIONS, TAG_TILE_BYTE_COUNTS, TAG_TILE_LENGTH, TAG_TILE_OFFSETS};
use crate::types::{TAG_TILE_WIDTH, TYPE_LONG, TYPE_SHORT};

verus! {

// ----------------------------------------------------------------------
// Fields
// ----------------------------------------------------------------------

/// A field with a tag is found at the first place that has the tag.
proof fn lemma_position(es: Seq<EntryModel>, tag: u16, i: int)
    requires
        0 <= i <= es.len(),
    ensures
        i <= tag_position(es, tag, i) <= es.len(),
        tag_position(es, tag, i) < es.len() ==> es[tag_position(es, tag, i)].tag == tag,
        forall|k: int| i <= k < tag_position(es, tag, i) ==> (#[trigger] es[k]).tag != tag,
    decreases es.len() - i,
{
    if i < es.len() && es[i].tag != tag {
        lemma_position(es, tag, i + 1);
    }
}

/// A field that the page has stands among its fields.
proof fn lemma_has_field(p: EncodePage<'_>, v: TiffVariant, n: int, i: int, j: int)
    requires
        0 <= i <= j < 19,
        p.field(v, n, page_tag(j)) is Some,
    ensures
        exists|k: int|
            0 <= k < p.fields_from(v, n, i).len() && #[trigger] p.fields_from(v, n, i)[k] == p.field(
                v,
                n,
                page_tag(j),
            ).unwrap(),
    decreases 19 - i,
{
    let f = p.field(v, n, page_tag(j)).unwrap();
    let all = p.fields_from(v, n, i);
    if i == j {
        assert(all[0] == f);
    } else {
        lemma_has_field(p, v, n, i + 1, j);
        let rest = p.fields_from(v, n, i + 1);
        let k = choose|k: int| 0 <= k < rest.len() && #[trigger] rest[k] == f;
        match p.field(v, n, page_tag(i)) {
            None => {
                assert(all[k] == f);
            },
            Some(g) => {
                assert(all[k + 1] == f);
            },
        }
    }
}

/// The tag of every field of a page is one that pages can have.
proof fn lemma_listed(p: EncodePage<'_>, v: TiffVariant, n: int, tag: u16) -> (j: int)
    requires
        p.field(v, n, tag) is Some,
    ensures
        0 <= j < 19,
        page_tag(j) == tag,
{
    reveal(page_tag);
    if tag == TAG_NEW_SUBFILE_TYPE {
        0
    } else if tag == TAG_IMAGE_WIDTH {
        1
    } else if tag == TAG_IMAGE_LENGTH {
        2
    } else if tag == TAG_BITS_PER_SAMPLE {
        3
    } else if tag == TAG_COMPRESSION {
        4
    } else if tag == TAG_PHOTOMETRIC_INTERPRETATION {
        5
    } else if tag == TAG_STRIP_OFFSETS {
        6
    } else if tag == TAG_SAMPLES_PER_PIXEL {
        7
    } else if tag == TAG_ROWS_PER_STRIP {
        8
    } else if tag == TAG_STRIP_BYTE_COUNTS {
        9
    } else if tag == TAG_PLANAR_CONFIGURATION {
        10
    } else if tag == TAG_T4_OPTIONS {
        11
    } else if tag == TAG_T6_OPTIONS {
        12
    } else if tag == TAG_PREDICTOR {
        13
    } else if tag == TAG_COLOR_MAP {
        14
    } else if tag == TAG_TILE_WIDTH {
        15
    } else if tag == TAG_TILE_LENGTH {
        16
    } else if tag == TAG_TILE_OFFSETS {
        17
    } else {
        18
    }
}

/// A field of a planned page is found by its tag, and no other.
pub proof fn lemma_find_field(p: EncodePage<'_>, m: PlanModel, a: int, v: TiffVariant, tag: u16)
    requires
        p.planned(v, m),
    ensures
        find_spec(m.read_fields(a, v), tag) == (match p.field(v, m.segments.len() as int, tag) {
            None => None,
            Some(f) => Some(m.read_field(a, v, f)),
        }),
{
    let n = m.segments.len() as int;
    let es = m.read_fields(a, v);
    lemma_position(es, tag, 0);
    lemma_fields_known(p, v, n, 0);
    let i = tag_position(es, tag, 0);
    if i < es.len() {
        assert(es[i] == m.read_field(a, v, m.fields[i]));
        assert(p.field(v, n, m.fields[i].tag) == Some(m.fields[i]));
    } else {
        if p.field(v, n, tag) is Some {
            let f = p.field(v, n, tag).unwrap();
            let j = lemma_listed(p, v, n, tag);
            lemma_has_field(p, v, n, 0, j);
            let k = choose|k: int| 0 <= k < m.fields.len() && #[trigger] m.fields[k] == f;
            assert(es[k].tag == f.tag);
            assert(f.tag == tag);
        }
    }
}

/// A field that the page does not have is absent.
proof fn lemma_absent(p: EncodePage<'_>, m: PlanModel, a: int, v: TiffVariant, tag: u16)
    requires
        p.planned(v, m),
        p.field(v, m.segments.len() as int, tag) is None,
    ensures
        ({
            let es = m.read_fields(a, v);
            let bo = ByteOrder::Little;
            &&& find_spec(es, tag) is None
            &&& readable(es, bo, tag)
            &&& list_readable(es, bo, tag)
            &&& forall|d: int| #[trigger] value_of(es, bo, tag, d) == d
        }),
{
    lemma_find_field(p, m, a, v, tag);
    reveal(readable);
    reveal(list_readable);
    reveal(value_of);
}

/// A field of one number holds the number.
pub proof fn lemma_number(p: EncodePage<'_>, m: PlanModel, a: int, v: TiffVariant, tag: u16, x: int, size: nat)
    requires
        p.planned(v, m),
        p.field(v, m.segments.len() as int, tag) matches Some(f) && f.count == 1 && f.value == ValueModel::Inline(
            le(x, size),
        ) && ((f.field_type == TYPE_SHORT && size == 2) || (f.field_type == TYPE_LONG && size == 4)),
        0 <= x < room_of(size),
    ensures
        ({
            let es = m.read_fields(a, v);
            let bo = ByteOrder::Little;
            &&& find_spec(es, tag) is Some
            &&& readable(es, bo, tag)
            &&& forall|d: int| #[trigger] value_of(es, bo, tag, d) == x
        }),
{
    lemma_find_field(p, m, a, v, tag);
    reveal(readable);
    reveal(value_of);
    let es = m.read_fields(a, v);
    let e = find_spec(es, tag).unwrap();
    lemma_le_len(x, size);
    assert(e.data.subrange(0, size as int) =~= e.data);
    lemma_le_read(e.data, 0, x, size);
    assert(0 * size == 0) by (nonlinear_arith);
    assert(e.count == 1 && e.data.len() == size && short_uint_size(e.field_type) == size);
    assert(e.count * size == size) by (nonlinear_arith)
        requires
            e.count == 1,
    ;
    let vals = e.u32s(ByteOrder::Little)->Ok_0;
    assert(vals.len() == 1);
    assert(vals[0] == uint_at(ByteOrder::Little, e.data, 0, size));
}

/// A field of places or sizes holds them.
pub proof fn lemma_place_list(p: EncodePage<'_>, m: PlanModel, a: int, v: TiffVariant, tag: u16, vals: Seq<int>)
    requires
        a >= 0,
        p.planned(v, m),
        m.addressable(a, v),
        p.field(v, m.segments.len() as int, tag) matches Some(f) && {
            ||| f.value is Offsets && vals == m.offsets(a)
            ||| f.value is Counts && vals == m.counts()
        },
    ensures
        needed_list(m.read_fields(a, v), ByteOrder::Little, tag) == Some(vals),
{
    lemma_find_field(p, m, a, v, tag);
    reveal(needed_list);
    let es = m.read_fields(a, v);
    let n = m.segments.len() as int;
    let f = p.field(v, n, tag).unwrap();
    let e = find_spec(es, tag).unwrap();
    let size = v.offset_size();
    lemma_places_small(m, a, v);
    lemma_le_list(vals, size);
    lemma_has_tag(p, m, v, tag);
    let k = choose|k: int| 0 <= k < m.fields.len() && #[trigger] m.fields[k] == f;
    assert(f.count < room_of(size));
    reveal_with_fuel(room_of, 9);
    assert(e.count == n);
    let got = e.u64s(ByteOrder::Little)->Ok_0;
    assert(got =~= vals) by {
        assert forall|i: int| 0 <= i < n implies got[i] == vals[i] by {
            assert(uint_at(ByteOrder::Little, e.data, i * size, size) == vals[i]);
        }
    }
}

/// A field of the page stands among its planned fields.
proof fn lemma_has_tag(p: EncodePage<'_>, m: PlanModel, v: TiffVariant, tag: u16)
    requires
        p.planned(v, m),
        p.field(v, m.segments.len() as int, tag) is Some,
    ensures
        exists|k: int|
            0 <= k < m.fields.len() && #[trigger] m.fields[k] == p.field(v, m.segments.len() as int, tag).unwrap(),
{
    let n = m.segments.len() as int;
    let j = lemma_listed(p, v, n, tag);
    lemma_has_field(p, v, n, 0, j);
    let f = p.field(v, n, tag).unwrap();
    let all = p.fields_from(v, n, 0);
    let k = choose|k: int| 0 <= k < all.len() && #[trigger] all[k] == f;
    assert(m.fields[k] == f);
}

// ----------------------------------------------------------------------
// Layout
// ----------------------------------------------------------------------

/// The layout of a page, as it is read.
pub open spec fn info_of(p: EncodePage<'_>) -> PageInfo {
    PageInfo {
        width: p.width,
        height: p.height,
        compression: p.compression.tag(),
        photometric: p.kind.photometric(),
        samples: p.kind.samples(),
        bps: p.kind.bits(),
        planar: if p.planar { PLANAR_SEPARATE } else { PLANAR_CHUNKY },
        predictor: if p.predictor { PREDICTOR_HORIZONTAL } else { PREDICTOR_NONE },
        sample_format: SAMPLE_FORMAT_UINT,
        orientation: 1,
        fill: FillOrder::MsbFirst,
        t4_options: p.compression.t4_flags(),
        t6_options: 0,
    }
}

/// The bits of the samples are read as they were written.
proof fn lemma_bits_read(p: EncodePage<'_>, m: PlanModel, a: int, v: TiffVariant)
    requires
        p.planned(v, m),
    ensures
        bits_spec(
            find_spec(m.read_fields(a, v), TAG_BITS_PER_SAMPLE),
            ByteOrder::Little,
            p.kind.samples() as int,
        ) == Some(p.bits_list()),
{
    lemma_find_field(p, m, a, v, TAG_BITS_PER_SAMPLE);
    reveal_with_fuel(room_of, 3);
    lemma_bits_list(p);
    lemma_le_list(p.bits_list(), 2);
    let e = find_spec(m.read_fields(a, v), TAG_BITS_PER_SAMPLE).unwrap();
    assert(e.data == le_list(p.bits_list(), 2));
    let vals = e.u32s(ByteOrder::Little)->Ok_0;
    assert(Seq::new(vals.len(), |i: int| vals[i] % 65536) =~= p.bits_list()) by {
        assert forall|i: int| 0 <= i < p.kind.samples() implies vals[i] == p.kind.bits() by {
            assert(p.bits_list()[i] == p.kind.bits());
            assert(uint_at(ByteOrder::Little, e.data, i * 2, 2) == p.bits_list()[i]);
        }
    }
}

/// A field is read as a number.
pub open spec fn holds(es: Seq<EntryModel>, tag: u16, x: int) -> bool {
    &&& find_spec(es, tag) is Some
    &&& readable(es, ByteOrder::Little, tag)
    &&& forall|d: int| #[trigger] value_of(es, ByteOrder::Little, tag, d) == x
}

/// A field is missing.
spec fn lacks(es: Seq<EntryModel>, tag: u16) -> bool {
    &&& find_spec(es, tag) is None
    &&& readable(es, ByteOrder::Little, tag)
    &&& list_readable(es, ByteOrder::Little, tag)
    &&& forall|d: int| #[trigger] value_of(es, ByteOrder::Little, tag, d) == d
}

/// The fields that say what the pixels are.
pub proof fn lemma_pixel_fields(p: EncodePage<'_>, m: PlanModel, a: int, v: TiffVariant)
    requires
        p.planned(v, m),
    ensures
        holds(m.read_fields(a, v), TAG_IMAGE_WIDTH, p.width as int),
        holds(m.read_fields(a, v), TAG_IMAGE_LENGTH, p.height as int),
        holds(m.read_fields(a, v), TAG_COMPRESSION, p.compression.tag() as int),
        holds(m.read_fields(a, v), TAG_PHOTOMETRIC_INTERPRETATION, p.kind.photometric() as int),
        holds(m.read_fields(a, v), TAG_SAMPLES_PER_PIXEL, p.kind.samples() as int),
{
    reveal_with_fuel(room_of, 5);
    lemma_number(p, m, a, v, TAG_IMAGE_WIDTH, p.width as int, 4);
    lemma_number(p, m, a, v, TAG_IMAGE_LENGTH, p.height as int, 4);
    lemma_number(p, m, a, v, TAG_COMPRESSION, p.compression.tag() as int, 2);
    lemma_number(p, m, a, v, TAG_PHOTOMETRIC_INTERPRETATION, p.kind.photometric() as int, 2);
    lemma_number(p, m, a, v, TAG_SAMPLES_PER_PIXEL, p.kind.samples() as int, 2);
}

/// The fields that say how pixels are stored.
proof fn lemma_storage_fields(p: EncodePage<'_>, m: PlanModel, a: int, v: TiffVariant)
    requires
        p.planned(v, m),
    ensures
        holds(
            m.read_fields(a, v),
            TAG_PLANAR_CONFIGURATION,
            if p.planar { PLANAR_SEPARATE as int } else { PLANAR_CHUNKY as int },
        ),
        p.predictor ==> holds(m.read_fields(a, v), TAG_PREDICTOR, PREDICTOR_HORIZONTAL as int),
        !p.predictor ==> lacks(m.read_fields(a, v), TAG_PREDICTOR),
{
    reveal_with_fuel(room_of, 5);
    lemma_number(
        p,
        m,
        a,
        v,
        TAG_PLANAR_CONFIGURATION,
        if p.planar { PLANAR_SEPARATE as int } else { PLANAR_CHUNKY as int },
        2,
    );
    if p.predictor {
        lemma_number(p, m, a, v, TAG_PREDICTOR, PREDICTOR_HORIZONTAL as int, 2);
    } else {
        lemma_absent(p, m, a, v, TAG_PREDICTOR);
    }
}

/// The fields that say how CCITT schemes are used.
proof fn lemma_fax_fields(p: EncodePage<'_>, m: PlanModel, a: int, v: TiffVariant)
    requires
        p.planned(v, m),
    ensures
        readable(m.read_fields(a, v), ByteOrder::Little, TAG_T4_OPTIONS),
        readable(m.read_fields(a, v), ByteOrder::Little, TAG_T6_OPTIONS),
        value_of(m.read_fields(a, v), ByteOrder::Little, TAG_T4_OPTIONS, 0) == p.compression.t4_flags(),
        value_of(m.read_fields(a, v), ByteOrder::Little, TAG_T6_OPTIONS, 0) == 0,
{
    reveal_with_fuel(room_of, 5);
    if p.compression is CcittT4OneD || p.compression is CcittT4TwoD {
        lemma_number(p, m, a, v, TAG_T4_OPTIONS, p.compression.t4_flags() as int, 4);
    } else {
        lemma_absent(p, m, a, v, TAG_T4_OPTIONS);
    }
    if p.compression is CcittT6 {
        lemma_number(p, m, a, v, TAG_T6_OPTIONS, 0, 4);
    } else {
        lemma_absent(p, m, a, v, TAG_T6_OPTIONS);
    }
}

/// The fields that are not written.
proof fn lemma_missing_fields(p: EncodePage<'_>, m: PlanModel, a: int, v: TiffVariant)
    requires
        p.planned(v, m),
    ensures
        lacks(m.read_fields(a, v), TAG_SAMPLE_FORMAT),
        lacks(m.read_fields(a, v), TAG_ORIENTATION),
        lacks(m.read_fields(a, v), TAG_RESOLUTION_UNIT),
        lacks(m.read_fields(a, v), TAG_EXTRA_SAMPLES),
        lacks(m.read_fields(a, v), TAG_FILL_ORDER),
{
    lemma_absent(p, m, a, v, TAG_SAMPLE_FORMAT);
    lemma_absent(p, m, a, v, TAG_ORIENTATION);
    lemma_absent(p, m, a, v, TAG_RESOLUTION_UNIT);
    lemma_absent(p, m, a, v, TAG_EXTRA_SAMPLES);
    lemma_absent(p, m, a, v, TAG_FILL_ORDER);
}

/// The layout of a page is read as it was asked for.
pub proof fn lemma_layout_read(p: EncodePage<'_>, m: PlanModel, a: int, v: TiffVariant)
    requires
        a >= 0,
        p.planned(v, m),
        page_size_ok(p.width as int, p.height as int),
    ensures
        page_spec(m.read_fields(a, v), ByteOrder::Little) == Outcome::<PageInfo>::Ok(info_of(p)),
        value_of(m.read_fields(a, v), ByteOrder::Little, TAG_PHOTOMETRIC_INTERPRETATION, 0) == p.kind.photometric(),
{
    lemma_pixel_fields(p, m, a, v);
    lemma_storage_fields(p, m, a, v);
    lemma_fax_fields(p, m, a, v);
    lemma_missing_fields(p, m, a, v);
    lemma_bits_read(p, m, a, v);
    assert(p.bits_list()[0] == p.kind.bits());
    assert(uniform(p.bits_list()));
}

// ----------------------------------------------------------------------
// Samples
// ----------------------------------------------------------------------

/// What a page must be like to be read back: it has pixels, but not too many, and
/// no strip or tile is too large for its codec.
pub open spec fn readable_page(p: EncodePage<'_>) -> bool {
    &&& page_size_ok(p.width as int, p.height as int)
    &&& p.compression is Deflate || p.compression is Zstd ==> p.seg_size() <= MAX_CODEC_OUTPUT
}

/// The coding of the strips or tiles of a page.
pub open spec fn page_coding(p: EncodePage<'_>) -> Coding {
    coding_of(info_of(p), ByteOrder::Little, p.seg_samples())
}

/// The bytes of strip or tile `i` as they are read: those of the page, with the
/// bits that fill up the rows of one-bit samples cleared by CCITT schemes.
pub open spec fn read_segment(p: EncodePage<'_>, i: int) -> Seq<u8> {
    if p.compression.ccitt() {
        clean_rows(p.kind.bytes(), p.width as int, 0, p.height as int)
    } else {
        p.raw_segment(i)
    }
}

/// Bytes of a row of a strip or tile, and of the strip or tile.
pub proof fn lemma_row_bytes(p: EncodePage<'_>, width: int)
    requires
        p.consistent(),
        0 <= width,
    ensures
        p.kind.bits() != 1 ==> row_bytes_of(width, page_coding(p)) == width * p.seg_pixel(),
        p.kind.bits() == 1 ==> row_bytes_of(width, page_coding(p)) == row_size(width),
        p.kind.bits() != 1 ==> p.seg_pixel() >= 1 && p.sample_bytes() >= 1,
{
    let c = page_coding(p);
    let n = p.seg_samples() as int;
    if p.kind.bits() == 1 {
        assert(width * c.samples * c.bps == width) by (nonlinear_arith)
            requires
                c.samples == 1,
                c.bps == 1,
        ;
    } else {
        let sb = p.sample_bytes();
        assert(c.bps == 8 * sb);
        assert(width * c.samples * c.bps == 8 * (width * (n * sb))) by (nonlinear_arith)
            requires
                c.bps == 8 * sb,
                c.samples == n,
        ;
        assert(n * sb >= 1) by (nonlinear_arith)
            requires
                n >= 1,
                sb >= 1,
        ;
    }
}

/// Clean rows are as long as packed rows.
proof fn lemma_clean_len(input: Seq<u8>, width: int, r: int, rows: int)
    requires
        0 <= width,
        0 <= r <= rows,
    ensures
        clean_rows(input, width, r, rows).len() == row_size(width) * (rows - r),
    decreases rows - r,
{
    if r < rows {
        lemma_clean_len(input, width, r + 1, rows);
        let n = row_size(width);
        assert(n * (rows - r) == n + n * (rows - (r + 1))) by (nonlinear_arith);
    } else {
        assert(row_size(width) * 0 == 0) by (nonlinear_arith);
    }
}

/// A strip or tile is read as it was written.
proof fn lemma_block_read(p: EncodePage<'_>, m: PlanModel, v: TiffVariant, i: int)
    requires
        p.planned(v, m),
        p.segments_unpack(m.segments),
        readable_page(p),
        0 <= i < p.seg_count(),
    ensures
        block(m.segments[i], p.seg_size(), p.seg_w() as int, p.seg_h() as int, page_coding(p)) == Some(
            read_segment(p, i),
        ),
        read_segment(p, i).len() == p.seg_size(),
        0 <= p.seg_size() <= usize::MAX,
{
    let c = page_coding(p);
    let w = p.seg_w() as int;
    let h = p.seg_h() as int;
    let stored = p.stored_segment(i);
    let replies = choose|replies: Seq<WebpReply>| #[trigger] p.plan(v, replies) == Some(m);
    assert(p.packed_segment(i, replies) is Some);
    assert(p.packed_segment(i, replies) == Some(m.segments[i]));
    if p.kind.bits() == 1 {
        assert(stored == p.kind.bytes());
        assert(p.raw_segment(i) == p.kind.bytes());
        lemma_clean_len(p.kind.bytes(), p.width as int, 0, p.height as int);
    } else {
        assert(0 <= p.seg_h() * p.seg_row()) by {
            lemma_row_bytes(p, w);
            let row = p.seg_row();
            assert(0 <= w * p.seg_pixel()) by (nonlinear_arith)
                requires
                    0 <= w,
                    1 <= p.seg_pixel(),
            ;
            assert(0 <= h * row) by (nonlinear_arith)
                requires
                    0 <= h,
                    0 <= row,
            ;
        }
        lemma_segment_rows(p, i);
    }
    if p.compression is WebP {
        lemma_webp_size(p, stored, w, h, reply_at(replies, i));
    }
    assert(p.compression.read_by(c));
    assert(p.compression.restorable(stored, w, h, c.samples as int));
    let back = unpacked(m.segments[i], stored.len() as int, w, h, c);
    assert(back == Some(p.compression.restored(stored, w, h)));
    let d = back.unwrap();
    assert(d.take(p.seg_size()) =~= d);
    if p.predictor {
        lemma_row_bytes(p, w);
        law_predictor_roundtrip(
            p.raw_segment(i),
            w,
            h,
            p.seg_samples() as int,
            p.kind.bits() as int,
            p.seg_row(),
        );
    }
}

/// Bytes that a WebP file was made of are those of pixels of the samples they
/// should have.
proof fn lemma_webp_size(p: EncodePage<'_>, stored: Seq<u8>, w: int, h: int, reply: WebpReply)
    requires
        p.compression is WebP,
        p.consistent(),
        w == p.seg_w(),
        h == p.seg_h(),
        stored.len() == p.seg_size(),
        p.compression.packed(stored, p.seg_w(), p.seg_h(), reply) is Some,
    ensures
        stored.len() == w * h * p.seg_samples(),
{
    let n = p.seg_samples() as int;
    let sb = p.sample_bytes();
    let pixels = w * h;
    assert(pixels > 0);
    if p.kind.bits() == 1 {
        // A page of one-bit samples has fewer bytes than pixels.
        let row = row_size(w);
        assert(row * h <= w * h) by (nonlinear_arith)
            requires
                row <= w,
                0 <= h,
        ;
        assert(false);
    } else {
        assert(h * (w * (n * sb)) == pixels * (n * sb)) by (nonlinear_arith)
            requires
                pixels == w * h,
        ;
        if p.kind.bits() == 16 {
            assert(n == 1 && sb == 2);
            assert(n * sb == 2) by (nonlinear_arith)
                requires
                    n == 1,
                    sb == 2,
            ;
            assert(pixels * 2 != pixels * 3 && pixels * 2 != pixels * 4) by (nonlinear_arith)
                requires
                    pixels > 0,
            ;
        } else {
            assert(n * sb == n) by (nonlinear_arith)
                requires
                    sb == 1,
            ;
        }
    }
}

/// A strip or tile that stands in a file is read as it was written.
proof fn lemma_stored_read(
    file: Seq<u8>,
    p: EncodePage<'_>,
    m: PlanModel,
    a: int,
    v: TiffVariant,
    next: int,
    i: int,
    size: int,
)
    requires
        0 <= a,
        p.planned(v, m),
        p.segments_unpack(m.segments),
        readable_page(p),
        m.addressable(a, v),
        m.end(a, v) <= file.len(),
        file.subrange(a, m.end(a, v)) == m.bytes(a, v, next),
        0 <= i < p.seg_count(),
        size == p.seg_size(),
    ensures
        stored_block(
            file,
            m.offsets(a)[i],
            m.counts()[i],
            size,
            p.seg_w() as int,
            p.seg_h() as int,
            page_coding(p),
        ) == Some(read_segment(p, i)),
        read_segment(p, i).len() == size,
{
    lemma_segment_placed(file, m, a, v, next, i);
    lemma_block_read(p, m, v, i);
}

/// The bytes of all pixels of a page, as they are read.
pub open spec fn read_bytes(p: EncodePage<'_>) -> Seq<u8> {
    if p.compression.ccitt() {
        clean_rows(p.kind.bytes(), p.width as int, 0, p.height as int)
    } else {
        p.kind.bytes()
    }
}

/// The page stands in the file.
pub open spec fn placed_in(file: Seq<u8>, p: EncodePage<'_>, m: PlanModel, a: int, v: TiffVariant, next: int) -> bool {
    &&& 0 <= a
    &&& p.planned(v, m)
    &&& m.addressable(a, v)
    &&& m.end(a, v) <= file.len()
    &&& file.subrange(a, m.end(a, v)) == m.bytes(a, v, next)
}

/// The page stands in the file, and can be read back.
pub open spec fn stands_in(file: Seq<u8>, p: EncodePage<'_>, m: PlanModel, a: int, v: TiffVariant, next: int) -> bool {
    &&& placed_in(file, p, m, a, v, next)
    &&& p.segments_unpack(m.segments)
    &&& readable_page(p)
}

/// A page of one strip gives its bytes back.
proof fn lemma_strip_samples(file: Seq<u8>, p: EncodePage<'_>, m: PlanModel, a: int, v: TiffVariant, next: int)
    requires
        stands_in(file, p, m, a, v, next),
        p.tiling is None,
        !p.planar,
    ensures
        strip_samples(file, m.read_fields(a, v), ByteOrder::Little, info_of(p)) == Some(read_bytes(p)),
{
    let es = m.read_fields(a, v);
    let bo = ByteOrder::Little;
    let c = page_coding(p);
    lemma_layout_read(p, m, a, v);
    reveal_with_fuel(room_of, 5);
    lemma_number(p, m, a, v, TAG_ROWS_PER_STRIP, p.height as int, 4);
    lemma_place_list(p, m, a, v, TAG_STRIP_OFFSETS, m.offsets(a));
    lemma_place_list(p, m, a, v, TAG_STRIP_BYTE_COUNTS, m.counts());
    assert(p.seg_count() == 1);
    let g = StripGrid { width: p.width, height: p.height, rows_per_strip: p.height, units: None };
    lemma_row_bytes(p, p.width as int);
    let rb = row_bytes_of(p.width as int, c);
    assert(rb * p.height == p.height * rb) by (nonlinear_arith);
    lemma_stored_read(file, p, m, a, v, next, 0, rb * p.height);
    assert(units_of(es, bo, info_of(p)) == Some(None::<(u32, u32)>));
    reveal_with_fuel(strips_from, 3);
    let b = read_segment(p, 0);
    assert(Seq::<u8>::empty() + b =~= b);
    assert(strip_size(g, p.height as int, c) == rb * p.height);
    assert(value_of(es, bo, TAG_ROWS_PER_STRIP, p.height as int) == p.height);
}

/// Component `q` of all pixels.
pub open spec fn component(p: EncodePage<'_>, q: int) -> Seq<u8> {
    let sb = p.sample_bytes();
    Seq::new(
        (p.width * p.height * sb) as nat,
        |k: int| p.kind.bytes()[k / sb * (p.kind.samples() * sb) + (q * sb + k % sb)],
    )
}

/// The components of all pixels make up the pixels.
proof fn lemma_components(p: EncodePage<'_>)
    requires
        p.consistent(),
        p.planar,
        page_size_ok(p.width as int, p.height as int),
    ensures
        interleaved(
            Seq::new(p.kind.samples() as nat, |q: int| component(p, q)),
            p.width * p.height,
            p.kind.bits() as int / 8,
        ) == Some(p.kind.bytes()),
{
    let n = p.kind.samples() as int;
    let sb = p.sample_bytes();
    let pixels = p.width * p.height;
    let planes = Seq::new(n as nat, |q: int| component(p, q));
    assert(p.kind.bits() != 1 && sb >= 1);
    assert(pixels >= 0 && pixels * sb >= 0) by (nonlinear_arith)
        requires
            pixels == p.width * p.height,
            sb >= 0,
    ;
    assert forall|q: int| 0 <= q < planes.len() implies (#[trigger] planes[q]).len() == pixels * sb by {}
    let whole = interleaved(planes, pixels, sb).unwrap();
    assert(n * pixels * sb == pixels * (n * sb)) by (nonlinear_arith);
    assert(p.kind.bytes().len() == pixels * (n * sb));
    assert forall|k: int| 0 <= k < whole.len() implies whole[k] == p.kind.bytes()[k] by {
        lemma_cell_of_byte(k, n, pixels, sb);
        let px = k / sb / n;
        let q = k / sb % n;
        let b = k % sb;
        let j = px * sb + b;
        lemma_row_byte(px, b, sb, pixels);
        vstd::arithmetic::div_mod::lemma_fundamental_div_mod_converse(j, sb, px, b);
        assert((px * n + q) * sb + b == px * (n * sb) + (q * sb + b)) by (nonlinear_arith);
        assert(planes[q][j] == p.kind.bytes()[k]);
    }
    assert(whole =~= p.kind.bytes());
}

/// Where byte `k` of a component, or of all pixels, stands: in which strip or
/// tile, and at which place in it.
proof fn lemma_source_of(p: EncodePage<'_>, q: int, k: int)
    requires
        p.consistent(),
        p.tiling is Some || p.planar,
        page_size_ok(p.width as int, p.height as int),
        0 <= q < p.planes(),
        0 <= k < p.width * p.seg_pixel() * p.height,
    ensures
        ({
            let row = p.width * p.seg_pixel();
            let grid = p.across() * p.down();
            let i = q * grid + (k / row / (p.seg_h() as int) * p.across() + k % row / p.seg_row());
            let j = k / row % (p.seg_h() as int) * p.seg_row() + k % row % p.seg_row();
            &&& 0 <= i < p.seg_count()
            &&& 0 <= j < p.seg_h() * p.seg_row()
            &&& p.source_byte(i, j) == k / p.seg_pixel() * (p.kind.samples() * p.sample_bytes()) + (q * p.sample_bytes()
                + k % p.seg_pixel())
        }),
{
    let w = p.width as int;
    let h = p.height as int;
    let px = p.seg_pixel();
    let row = w * px;
    let sh = p.seg_h() as int;
    let sw = p.seg_w() as int;
    let sr = p.seg_row();
    let across = p.across();
    let down = p.down();
    let grid = across * down;
    lemma_row_bytes(p, w);
    assert(row > 0) by (nonlinear_arith)
        requires
            row == w * px,
            w > 0,
            px >= 1,
    ;
    assert(sw > 0 && sh > 0);
    assert(sr > 0) by (nonlinear_arith)
        requires
            sr == sw * px,
            sw > 0,
            px >= 1,
    ;
    lemma_pixel_place(k, row, h);
    let y = k / row;
    let xb = k % row;
    // The row of tiles.
    let ty = y / sh;
    let r = y % sh;
    vstd::arithmetic::div_mod::lemma_fundamental_div_mod(y, sh);
    vstd::arithmetic::div_mod::lemma_mod_bound(y, sh);
    assert(sh * ty == ty * sh) by (nonlinear_arith);
    // The column of tiles.
    let tx = xb / sr;
    let rest = xb % sr;
    vstd::arithmetic::div_mod::lemma_fundamental_div_mod(xb, sr);
    vstd::arithmetic::div_mod::lemma_mod_bound(xb, sr);
    assert(sr * tx == tx * sr) by (nonlinear_arith);
    assert(w * px == px * w) by (nonlinear_arith);
    lemma_pixel_place(xb, px, w);
    let x = xb / px;
    let b = xb % px;
    vstd::arithmetic::div_mod::lemma_fundamental_div_mod(rest, px);
    vstd::arithmetic::div_mod::lemma_mod_bound(rest, px);
    let c = rest / px;
    let b2 = rest % px;
    assert(px * c == c * px) by (nonlinear_arith);
    assert(tx * (sw * px) + (c * px + b2) == (tx * sw + c) * px + b2) by (nonlinear_arith);
    assert(xb == (tx * sw + c) * px + b2);
    vstd::arithmetic::div_mod::lemma_fundamental_div_mod_converse(xb, px, tx * sw + c, b2);
    assert(x == tx * sw + c && b == b2);
    assert(0 <= tx) by (nonlinear_arith)
        requires
            tx * sr + rest == xb,
            xb >= 0,
            0 <= rest < sr,
    ;
    assert(0 <= ty) by (nonlinear_arith)
        requires
            ty * sh + r == y,
            y >= 0,
            0 <= r < sh,
    ;
    assert(c >= 0) by (nonlinear_arith)
        requires
            c * px + b2 == rest,
            rest >= 0,
            0 <= b2 < px,
    ;
    if p.tiling is Some {
        lemma_tile_rows(y, h, sh);
        lemma_tile_rows(x, w, sw);
        assert(c < sw) by (nonlinear_arith)
            requires
                c * px + b2 == rest,
                rest < sw * px,
                0 <= b2,
                px >= 1,
        ;
        vstd::arithmetic::div_mod::lemma_fundamental_div_mod_converse(x, sw, tx, c);
    } else {
        vstd::arithmetic::div_mod::lemma_fundamental_div_mod_converse(y, sh, 0, y);
        vstd::arithmetic::div_mod::lemma_fundamental_div_mod_converse(xb, sr, 0, xb);
    }
    assert(0 <= tx < across && 0 <= ty < down);
    let t = ty * across + tx;
    lemma_row_byte(ty, tx, across, down);
    assert(down * across == across * down) by (nonlinear_arith);
    vstd::arithmetic::div_mod::lemma_fundamental_div_mod_converse(t, across, ty, tx);
    let i = q * grid + t;
    lemma_row_byte(q, t, grid, p.planes());
    vstd::arithmetic::div_mod::lemma_fundamental_div_mod_converse(i, grid, q, t);
    let j = r * sr + rest;
    lemma_row_byte(r, rest, sr, sh);
    vstd::arithmetic::div_mod::lemma_fundamental_div_mod_converse(j, sr, r, rest);
    // Back in the bytes of all pixels.
    assert(min_int(ty * sh + r, h - 1) == y);
    assert(min_int(tx * sw + c, w - 1) == x);
    let per = p.kind.samples() * p.sample_bytes();
    assert(k == y * (w * px) + (x * px + b));
    assert(y * (w * px) + (x * px + b) == (y * w + x) * px + b) by (nonlinear_arith);
    vstd::arithmetic::div_mod::lemma_fundamental_div_mod_converse(k, px, y * w + x, b);
    assert(p.source_byte(i, j) == (y * w + x) * per + (q * p.sample_bytes() + b));
}

/// Component `q` of all pixels, or all bytes of the pixels, as the strips or tiles
/// from `q` grids on hold them.
pub open spec fn part(p: EncodePage<'_>, q: int) -> Seq<u8> {
    let px = p.seg_pixel();
    let sb = p.sample_bytes();
    Seq::new(
        (p.width * px * p.height) as nat,
        |k: int| p.kind.bytes()[k / px * (p.kind.samples() * sb) + (q * sb + k % px)],
    )
}

/// A part is a component of the pixels, or all of them.
proof fn lemma_part(p: EncodePage<'_>, q: int)
    requires
        p.consistent(),
        p.kind.bits() != 1,
        page_size_ok(p.width as int, p.height as int),
        0 <= q < p.planes(),
    ensures
        p.planar ==> part(p, q) == component(p, q),
        !p.planar ==> part(p, q) == p.kind.bytes(),
{
    let px = p.seg_pixel();
    let sb = p.sample_bytes();
    let w = p.width as int;
    let h = p.height as int;
    lemma_row_bytes(p, w);
    assert(w * px * h == w * h * px) by (nonlinear_arith);
    if p.planar {
        assert(px == sb) by (nonlinear_arith)
            requires
                px == p.seg_samples() * sb,
                p.seg_samples() == 1,
        ;
        assert(part(p, q) =~= component(p, q));
    } else {
        let per = p.kind.samples() * sb;
        assert(per == px);
        assert(0 * sb == 0) by (nonlinear_arith);
        assert forall|k: int| 0 <= k < part(p, q).len() implies part(p, q)[k] == p.kind.bytes()[k] by {
            vstd::arithmetic::div_mod::lemma_fundamental_div_mod(k, px);
            assert(px * (k / px) == k / px * px) by (nonlinear_arith);
        }
        assert(part(p, q) =~= p.kind.bytes());
    }
}

/// A strip of one component holds that component.
proof fn lemma_plane_strip(p: EncodePage<'_>, q: int)
    requires
        p.consistent(),
        p.tiling is None,
        p.planar,
        page_size_ok(p.width as int, p.height as int),
        0 <= q < p.planes(),
    ensures
        p.raw_segment(q) == part(p, q),
        p.seg_count() == p.planes(),
        p.seg_size() == p.width * p.seg_pixel() * p.height,
{
    let row = p.width * p.seg_pixel();
    let h = p.height as int;
    lemma_row_bytes(p, p.width as int);
    assert(p.seg_row() == row);
    assert(h * row == row * h) by (nonlinear_arith);
    assert(p.planes() * 1 == p.planes());
    assert(row > 0) by (nonlinear_arith)
        requires
            row == p.width * p.seg_pixel(),
            p.width > 0,
            p.seg_pixel() >= 1,
    ;
    assert forall|k: int| 0 <= k < row * h implies p.raw_segment(q)[k] == part(p, q)[k] by {
        lemma_source_of(p, q, k);
        lemma_pixel_place(k, row, h);
        let y = k / row;
        vstd::arithmetic::div_mod::lemma_fundamental_div_mod_converse(y, h, 0, y);
        vstd::arithmetic::div_mod::lemma_fundamental_div_mod_converse(k % row, row, 0, k % row);
        assert(0 * 1 + 0 == 0int);
        assert(q * 1 + 0 == q);
    }
    assert(p.raw_segment(q) =~= part(p, q));
}

/// A page of one strip for each component gives its bytes back.
proof fn lemma_planar_strip_samples(file: Seq<u8>, p: EncodePage<'_>, m: PlanModel, a: int, v: TiffVariant, next: int)
    requires
        stands_in(file, p, m, a, v, next),
        p.tiling is None,
        p.planar,
    ensures
        planar_strip_samples(file, m.read_fields(a, v), ByteOrder::Little, info_of(p)) == Some(read_bytes(p)),
{
    let es = m.read_fields(a, v);
    let bo = ByteOrder::Little;
    let c = page_coding(p);
    let h = p.height as int;
    let n = p.kind.samples() as int;
    lemma_layout_read(p, m, a, v);
    reveal_with_fuel(room_of, 5);
    lemma_number(p, m, a, v, TAG_ROWS_PER_STRIP, h, 4);
    lemma_place_list(p, m, a, v, TAG_STRIP_OFFSETS, m.offsets(a));
    lemma_place_list(p, m, a, v, TAG_STRIP_BYTE_COUNTS, m.counts());
    vstd::arithmetic::div_mod::lemma_fundamental_div_mod_converse(h + h - 1, h, 1, h - 1);
    assert(ceil_div(h, h) == 1);
    assert(p.kind.bits() != 1);
    let g = StripGrid { width: p.width, height: p.height, rows_per_strip: p.height, units: None };
    lemma_row_bytes(p, p.width as int);
    let rb = row_bytes_of(p.width as int, c);
    let offs = m.offsets(a);
    let cnts = m.counts();
    assert forall|q: int| 0 <= q < n implies (#[trigger] plane_strips(file, offs, cnts, g, c, 1, q)) == Some(
        component(p, q),
    ) by {
        lemma_plane_strip(p, q);
        lemma_part(p, q);
        lemma_stored_read(file, p, m, a, v, next, q, rb * h);
        reveal_with_fuel(strips_from, 3);
        let b = read_segment(p, q);
        assert(Seq::<u8>::empty() + b =~= b);
        assert(strip_size(g, h, c) == rb * h);
        assert(q * 1 == q);
    }
    assert(Seq::new(n as nat, |q: int| plane_strips(file, offs, cnts, g, c, 1, q).unwrap()) =~= Seq::new(
        n as nat,
        |q: int| component(p, q),
    ));
    lemma_components(p);
    lemma_plane_strip(p, 0);
}

/// The tiles of a page.
pub open spec fn grid_of(p: EncodePage<'_>) -> TileGrid {
    TileGrid { width: p.width, height: p.height, tile_w: p.seg_w(), tile_h: p.seg_h() }
}

/// The tiles from `q` grids on give a part of the page back.
proof fn lemma_tiles_read(file: Seq<u8>, p: EncodePage<'_>, m: PlanModel, a: int, v: TiffVariant, next: int, q: int)
    requires
        stands_in(file, p, m, a, v, next),
        p.tiling is Some,
        0 <= q < p.planes(),
    ensures
        tiles_spec(
            file,
            m.offsets(a),
            m.counts(),
            q * (p.across() * p.down()),
            grid_of(p),
            page_coding(p),
        ) == Some(part(p, q)),
{
    let t = grid_of(p);
    let c = page_coding(p);
    let offs = m.offsets(a);
    let cnts = m.counts();
    let grid = p.across() * p.down();
    let first = q * grid;
    let h = p.height as int;
    let w = p.width as int;
    assert(t.across() == p.across() && t.down() == p.down());
    lemma_row_bytes(p, w);
    lemma_row_bytes(p, p.seg_w() as int);
    let px = p.seg_pixel();
    assert(row_bytes_of(p.seg_w() as int, c) == p.seg_row());
    assert(p.seg_row() * p.seg_h() == p.seg_h() * p.seg_row()) by (nonlinear_arith);
    // Tiles start on byte boundaries.
    assert(c.bps == 8 * p.sample_bytes());
    let n8 = t.tile_w * c.samples;
    assert(n8 * c.bps == 8 * (n8 * p.sample_bytes())) by (nonlinear_arith)
        requires
            c.bps == 8 * p.sample_bytes(),
    ;
    assert(tiles_aligned(t, c));
    assert(q * grid + grid <= p.planes() * grid) by (nonlinear_arith)
        requires
            q + 1 <= p.planes(),
            grid >= 0,
    ;
    lemma_grid_positive(p);
    assert(0 <= q * grid) by (nonlinear_arith)
        requires
            0 <= q,
            grid >= 0,
    ;
    assert forall|i: int| 0 <= i < p.seg_count() implies (#[trigger] tile_block(file, offs, cnts, i, t, c)) == Some(
        p.raw_segment(i),
    ) by {
        lemma_stored_read(file, p, m, a, v, next, i, p.seg_h() * p.seg_row());
    }
    assert forall|i: int| first <= i < first + t.across() * t.down() implies (#[trigger] tile_block(
        file,
        offs,
        cnts,
        i,
        t,
        c,
    )) is Some by {
        assert(tile_block(file, offs, cnts, i, t, c) == Some(p.raw_segment(i)));
    }
    let whole = tiles_spec(file, offs, cnts, first, t, c).unwrap();
    let row = w * px;
    assert forall|k: int| 0 <= k < row * h implies whole[k] == part(p, q)[k] by {
        lemma_source_of(p, q, k);
        let i = crate::segments::tile_of(k, first, t, c);
        let j = crate::segments::byte_in_tile(k, t, c);
        assert(tile_block(file, offs, cnts, i, t, c) == Some(p.raw_segment(i)));
        assert(p.raw_segment(i)[j] == p.kind.bytes()[p.source_byte(i, j)]);
    }
    assert(whole =~= part(p, q));
}

/// A page in tiles has a tile.
pub proof fn lemma_grid_positive(p: EncodePage<'_>)
    requires
        p.consistent(),
        p.tiling is Some,
        page_size_ok(p.width as int, p.height as int),
    ensures
        p.across() > 0,
        p.down() > 0,
        p.across() * p.down() > 0,
{
    lemma_tile_rows(0, p.width as int, p.seg_w() as int);
    lemma_tile_rows(0, p.height as int, p.seg_h() as int);
    let a = p.across();
    let d = p.down();
    assert(a * d > 0) by (nonlinear_arith)
        requires
            a > 0,
            d > 0,
    ;
}

/// A page in tiles gives its bytes back.
proof fn lemma_tile_samples(file: Seq<u8>, p: EncodePage<'_>, m: PlanModel, a: int, v: TiffVariant, next: int)
    requires
        stands_in(file, p, m, a, v, next),
        p.tiling is Some,
    ensures
        !p.planar ==> tile_samples(file, m.read_fields(a, v), ByteOrder::Little, info_of(p)) == Some(read_bytes(p)),
        p.planar ==> planar_tile_samples(file, m.read_fields(a, v), ByteOrder::Little, info_of(p)) == Some(
            read_bytes(p),
        ),
{
    let es = m.read_fields(a, v);
    let bo = ByteOrder::Little;
    let c = page_coding(p);
    let n = p.kind.samples() as int;
    let grid = p.across() * p.down();
    lemma_layout_read(p, m, a, v);
    reveal_with_fuel(room_of, 5);
    lemma_number(p, m, a, v, TAG_TILE_WIDTH, p.seg_w() as int, 4);
    lemma_number(p, m, a, v, TAG_TILE_LENGTH, p.seg_h() as int, 4);
    lemma_place_list(p, m, a, v, TAG_TILE_OFFSETS, m.offsets(a));
    lemma_place_list(p, m, a, v, TAG_TILE_BYTE_COUNTS, m.counts());
    assert(value_of(es, bo, TAG_TILE_WIDTH, 0) == p.seg_w());
    assert(value_of(es, bo, TAG_TILE_LENGTH, 0) == p.seg_h());
    let t = grid_of(p);
    assert(tile_grid(es, bo, info_of(p)) == Some(t));
    assert(p.kind.bits() != 1);
    if !p.planar {
        lemma_tiles_read(file, p, m, a, v, next, 0);
        lemma_part(p, 0);
        assert(0 * grid == 0) by (nonlinear_arith);
        assert(1 * grid == grid);
    } else {
        assert(n * grid == grid * n) by (nonlinear_arith);
        let offs = m.offsets(a);
        let cnts = m.counts();
        assert forall|q: int| 0 <= q < n implies (#[trigger] tiles_spec(file, offs, cnts, q * grid, t, c)) == Some(
            component(p, q),
        ) by {
            lemma_tiles_read(file, p, m, a, v, next, q);
            lemma_part(p, q);
        }
        assert(Seq::new(n as nat, |q: int| tiles_spec(file, offs, cnts, q * grid, t, c).unwrap()) =~= Seq::new(
            n as nat,
            |q: int| component(p, q),
        ));
        lemma_components(p);
    }
}

/// A page gives its bytes back.
pub proof fn lemma_samples_read(file: Seq<u8>, p: EncodePage<'_>, m: PlanModel, a: int, v: TiffVariant, next: int)
    requires
        stands_in(file, p, m, a, v, next),
    ensures
        samples_of(file, m.read_fields(a, v), ByteOrder::Little, info_of(p)) == Some(read_bytes(p)),
{
    lemma_find_field(p, m, a, v, TAG_TILE_WIDTH);
    if p.tiling is Some {
        lemma_tile_samples(file, p, m, a, v, next);
    } else if p.planar {
        lemma_planar_strip_samples(file, p, m, a, v, next);
    } else {
        lemma_strip_samples(file, p, m, a, v, next);
    }
}

// ----------------------------------------------------------------------
// Pictures
// ----------------------------------------------------------------------

/// The picture that a page shows: its own pixels where it has displayed ones, its
/// palette colours, or the displayed colours of its inks or of its L*a*b* values.
pub open spec fn shown(p: EncodePage<'_>) -> ImageModel {
    let w = p.width as int;
    let h = p.height as int;
    let b = p.kind.bytes();
    match p.kind {
        EncodePixelFormat::Bilevel { .. } => picture(
            w,
            h,
            TiffPixelFormat::Gray8,
            gray1_data(b, w, h, row_size(w), true),
        ),
        EncodePixelFormat::TransparencyMask { .. } => picture(
            w,
            h,
            TiffPixelFormat::Gray8,
            gray1_data(b, w, h, row_size(w), false),
        ),
        EncodePixelFormat::Gray8 { .. } => picture(w, h, TiffPixelFormat::Gray8, b),
        EncodePixelFormat::Gray16Le { .. } => picture(w, h, TiffPixelFormat::Gray16Le, b),
        EncodePixelFormat::Rgb24 { .. } => picture(w, h, TiffPixelFormat::Rgb24, b),
        EncodePixelFormat::Palette8 { indices, palette } => picture(
            w,
            h,
            TiffPixelFormat::Rgb24,
            Seq::new(
                (w * h * 3) as nat,
                |k: int| if b[k / 3] < palette@.len() { palette@[b[k / 3] as int]@[k % 3] } else { 0u8 },
            ),
        ),
        EncodePixelFormat::CieLab8 { .. } => picture(w, h, TiffPixelFormat::Rgb24, cielab_data(b, w, h)),
        EncodePixelFormat::CieLabL8 { .. } => picture(w, h, TiffPixelFormat::Gray8, lightness_data(b, w, h)),
        EncodePixelFormat::Cmyk32 { .. } => picture(w, h, TiffPixelFormat::Rgb24, cmyk_data(b, w, h)),
    }
}

/// What a page is decoded to: the picture it shows where it can be read back, and an
/// error elsewhere.
pub open spec fn page_outcome(p: EncodePage<'_>) -> Outcome<ImageModel> {
    if readable_page(p) { Ok(shown(p)) } else { Err(ErrorKind::Invalid) }
}

/// All pages can be read back.
pub open spec fn all_readable(pages: Seq<EncodePage<'_>>) -> bool {
    forall|k: int| 0 <= k < pages.len() ==> readable_page(#[trigger] pages[k])
}

/// What all pages of a file are decoded to.
pub open spec fn pages_outcome(pages: Seq<EncodePage<'_>>) -> Outcome<Seq<ImageModel>> {
    if all_readable(pages) { Ok(Seq::new(pages.len(), |k: int| shown(pages[k]))) } else { Err(ErrorKind::Invalid) }
}

/// Clean rows have the pixels of the rows they were made of.
proof fn lemma_clean_bit(input: Seq<u8>, width: int, first: int, rows: int, r: int, x: int)
    requires
        0 <= first <= r < rows,
        0 <= x < width,
    ensures
        bits_of(clean_rows(input, width, first, rows))[8 * (row_size(width) * (r - first)) + x] == bits_of(input)[8 * (
        row_size(width) * r) + x],
    decreases r - first,
{
    let n = row_size(width);
    let row = row_of(input, width, first);
    let head = bytes_of(row);
    let rest = clean_rows(input, width, first + 1, rows);
    let all = clean_rows(input, width, first, rows);
    lemma_bits_of_bytes_of(row);
    lemma_clean_len(input, width, first + 1, rows);
    assert(head.len() == n);
    assert(0 <= n * (rows - (first + 1))) by (nonlinear_arith)
        requires
            n >= 0,
            first + 1 <= rows,
    ;
    if r == first {
        assert(n * 0 == 0) by (nonlinear_arith);
        assert(all[x / 8] == head[x / 8]);
        assert(bits_of(head)[x] == row[x]);
        assert(bits_of(all)[x] == bits_of(head)[x]);
    } else {
        lemma_clean_bit(input, width, first + 1, rows, r, x);
        let d = n * (r - (first + 1));
        assert(n * (r - first) == n + d) by (nonlinear_arith)
            requires
                d == n * (r - (first + 1)),
        ;
        assert(0 <= d) by (nonlinear_arith)
            requires
                d == n * (r - (first + 1)),
                n >= 0,
                r >= first + 1,
        ;
        assert(d + n <= n * (rows - (first + 1))) by (nonlinear_arith)
            requires
                d == n * (r - (first + 1)),
                n >= 0,
                r + 1 <= rows,
        ;
        let k = 8 * d + x;
        assert((8 * (n + d) + x) / 8 == n + k / 8);
        assert((8 * (n + d) + x) % 8 == k % 8);
        assert(all[n + k / 8] == rest[k / 8]);
        assert(bits_of(all)[8 * (n + d) + x] == bits_of(rest)[k]);
    }
}

/// Clean rows show what the rows show that they were made of.
proof fn lemma_clean_shown(input: Seq<u8>, w: int, h: int, invert: bool)
    requires
        0 < w,
        0 < h,
    ensures
        gray1_data(clean_rows(input, w, 0, h), w, h, row_size(w), invert) == gray1_data(input, w, h, row_size(w), invert),
{
    let n = row_size(w);
    let a = gray1_data(clean_rows(input, w, 0, h), w, h, n, invert);
    let b = gray1_data(input, w, h, n, invert);
    assert forall|i: int| 0 <= i < a.len() implies a[i] == b[i] by {
        lemma_pixel_place(i, w, h);
        lemma_clean_bit(input, w, 0, h, i / w, i % w);
        let y = i / w;
        assert(n * (y - 0) == y * n) by (nonlinear_arith);
        assert(n * y == y * n) by (nonlinear_arith);
    }
    assert(a =~= b);
}

/// The colour map is read as it was written.
proof fn lemma_colours_read(p: EncodePage<'_>, m: PlanModel, a: int, v: TiffVariant)
    requires
        p.planned(v, m),
        p.kind is Palette8,
    ensures
        ({
            let es = m.read_fields(a, v);
            let bo = ByteOrder::Little;
            &&& find_spec(es, TAG_COLOR_MAP) is Some
            &&& list_readable(es, bo, TAG_COLOR_MAP)
            &&& p.kind matches EncodePixelFormat::Palette8 { indices, palette } && list_of(es, bo, TAG_COLOR_MAP)
                == map_words(palette@)
        }),
{
    if let EncodePixelFormat::Palette8 { indices, palette } = p.kind {
        lemma_find_field(p, m, a, v, TAG_COLOR_MAP);
        reveal(list_readable);
        reveal(list_of);
        reveal_with_fuel(room_of, 3);
        let words = map_words(palette@);
        lemma_le_list(words, 2);
        let e = find_spec(m.read_fields(a, v), TAG_COLOR_MAP).unwrap();
        assert(e.data == le_list(words, 2));
        let vals = e.u32s(ByteOrder::Little)->Ok_0;
        assert(vals =~= words) by {
            assert forall|i: int| 0 <= i < 768 implies vals[i] == words[i] by {
                assert(uint_at(ByteOrder::Little, e.data, i * 2, 2) == words[i]);
            }
        }
    }
}

/// Gray samples are displayed as they are.
proof fn lemma_gray_shown(b: Seq<u8>, w: int, h: int)
    requires
        b.len() == w * h,
    ensures
        gray8_data(b, w, h, false, false) == b,
{
    assert(gray8_data(b, w, h, false, false) =~= b);
}

/// A sample of two bytes is displayed as these bytes.
proof fn lemma_word_shown(b: Seq<u8>, k: int)
    requires
        0 <= k < b.len(),
        b.len() % 2 == 0,
    ensures
        le16_byte(uint_at(ByteOrder::Little, b, k / 2 * 2, 2) as int, k) == b[k],
{
    let i = k / 2 * 2;
    assert(k == i || k == i + 1);
    reveal_with_fuel(uint_at, 3);
    assert(uint_at(ByteOrder::Little, b, i, 2) == b[i] + 256 * b[i + 1]);
}

/// Gray samples of two bytes are displayed as they are.
proof fn lemma_gray16_shown(b: Seq<u8>, w: int, h: int)
    requires
        b.len() == w * h * 2,
    ensures
        gray16_data(b, w, h, ByteOrder::Little, false, false) == b,
{
    let d = gray16_data(b, w, h, ByteOrder::Little, false, false);
    assert forall|k: int| 0 <= k < b.len() implies d[k] == b[k] by {
        lemma_word_shown(b, k);
    }
    assert(d =~= b);
}

/// Indices are displayed as the colours of the palette.
proof fn lemma_palette_shown(b: Seq<u8>, w: int, h: int, palette: Seq<RgbColor>)
    requires
        0 < w,
        0 < h,
        b.len() == w * h,
    ensures
        palette_data(b, w, h, map_words(palette), 8, w) == Seq::new(
            (w * h * 3) as nat,
            |k: int| if b[k / 3] < palette.len() { palette[b[k / 3] as int]@[k % 3] } else { 0u8 },
        ),
{
    let words = map_words(palette);
    let d = palette_data(b, w, h, words, 8, w);
    let e = Seq::new(
        (w * h * 3) as nat,
        |k: int| if b[k / 3] < palette.len() { palette[b[k / 3] as int]@[k % 3] } else { 0u8 },
    );
    assert forall|k: int| 0 <= k < d.len() implies d[k] == e[k] by {
        let i = k / 3;
        let c = k % 3;
        lemma_pixel_place(i, w, h);
        let x = b[i] as int;
        assert(palette_index(b, w, 8, w, i) == x);
        let j = c * 256 + x;
        assert(j % 256 == x && j / 256 == c);
        assert(words[j] == (if x < palette.len() { 257 * palette[x]@[c] as int } else { 0 }));
        assert(map_byte(words, 256, x, c) == e[k]);
    }
    assert(d =~= e);
}

/// Bytes of a page of samples of more than one bit.
proof fn lemma_pixel_bytes(p: EncodePage<'_>)
    requires
        p.consistent(),
        p.kind.bits() != 1,
    ensures
        p.kind.bytes().len() == p.width * p.height * (p.kind.samples() * p.sample_bytes()),
        p.kind is Gray8 || p.kind is Palette8 || p.kind is CieLabL8 ==> p.kind.bytes().len() == p.width * p.height,
        p.kind is Gray16Le ==> p.kind.bytes().len() == p.width * p.height * 2,
        p.kind is Rgb24 || p.kind is CieLab8 ==> p.kind.bytes().len() == p.width * p.height * 3,
        p.kind is Cmyk32 ==> p.kind.bytes().len() == p.width * p.height * 4,
        read_bytes(p) == p.kind.bytes(),
{
    let n = p.kind.samples() as int;
    let sb = p.sample_bytes();
    let pixels = p.width * p.height;
    if p.kind is Gray16Le {
        assert(n * sb == 2) by (nonlinear_arith)
            requires
                n == 1,
                sb == 2,
        ;
    } else {
        assert(n * sb == n) by (nonlinear_arith)
            requires
                sb == 1,
        ;
        assert(pixels * 1 == pixels);
    }
}

/// The bytes of a page are rendered as its picture.
proof fn lemma_rendered(p: EncodePage<'_>, m: PlanModel, a: int, v: TiffVariant)
    requires
        a >= 0,
        p.planned(v, m),
        readable_page(p),
    ensures
        ({
            let d = rendered(info_of(p), m.read_fields(a, v), ByteOrder::Little, read_bytes(p));
            d is Some && picture(p.width as int, p.height as int, d.unwrap().0, d.unwrap().1) == shown(p)
        }),
        shown(p).wf(),
{
    let w = p.width as int;
    let h = p.height as int;
    let b = p.kind.bytes();
    assert(w * h > 0) by (nonlinear_arith)
        requires
            w > 0,
            h > 0,
    ;
    if p.kind.bits() == 1 {
        lemma_clean_shown(b, w, h, true);
        lemma_clean_shown(b, w, h, false);
    } else {
        lemma_pixel_bytes(p);
        match p.kind {
            EncodePixelFormat::Gray8 { .. } => lemma_gray_shown(b, w, h),
            EncodePixelFormat::Gray16Le { .. } => lemma_gray16_shown(b, w, h),
            EncodePixelFormat::Rgb24 { .. } => {
                assert(b.take(w * h * 3) =~= b);
            },
            EncodePixelFormat::Palette8 { indices, palette } => {
                lemma_colours_read(p, m, a, v);
                lemma_palette_shown(b, w, h, palette@);
            },
            _ => {},
        }
    }
}

/// The bytes of a page are displayed as its picture.
proof fn lemma_displayed(p: EncodePage<'_>, m: PlanModel, a: int, v: TiffVariant)
    requires
        a >= 0,
        p.planned(v, m),
        readable_page(p),
    ensures
        displayed(info_of(p), m.read_fields(a, v), ByteOrder::Little, read_bytes(p)) == Outcome::<PageModel>::Ok(
            PageModel::Image(shown(p)),
        ),
{
    lemma_rendered(p, m, a, v);
    lemma_upright(shown(p));
}

/// A page that stands in a file is decoded to its picture.
pub proof fn lemma_page_shown(
    file: Seq<u8>,
    p: EncodePage<'_>,
    m: PlanModel,
    a: int,
    v: TiffVariant,
    next: int,
    replies: Seq<JpegReply>,
)
    requires
        stands_in(file, p, m, a, v, next),
    ensures
        image_of(file, m.read_fields(a, v), ByteOrder::Little, replies) == Outcome::<ImageModel>::Ok(shown(p)),
{
    lemma_layout_read(p, m, a, v);
    lemma_samples_read(file, p, m, a, v, next);
    lemma_displayed(p, m, a, v);
}

// ----------------------------------------------------------------------
// Files
// ----------------------------------------------------------------------

/// The header of a file is read as it was written.
pub proof fn lemma_header_read(file: Seq<u8>, v: TiffVariant, first: int)
    requires
        header_size(v) <= file.len(),
        file.take(header_size(v)) == header_bytes(v, first),
        0 <= first < room_of(v.offset_size()),
    ensures
        header_spec(file) == Outcome::<(ByteOrder, TiffVariant, int)>::Ok((ByteOrder::Little, v, first)),
{
    let head = header_bytes(v, first);
    lemma_header_len(v, first);
    lemma_le_len(BYTE_ORDER_LE as int, 2);
    lemma_le_len(TIFF_MAGIC as int, 2);
    lemma_le_len(BIGTIFF_MAGIC as int, 2);
    lemma_le_len(8, 2);
    lemma_le_len(0, 2);
    lemma_le_len(first, 4);
    lemma_le_len(first, 8);
    reveal_with_fuel(room_of, 9);
    assert(file.subrange(0, 2) =~= le(BYTE_ORDER_LE as int, 2)) by {
        assert(file.subrange(0, 2) =~= head.subrange(0, 2)) by {
            assert(file.take(header_size(v)).subrange(0, 2) =~= file.subrange(0, 2));
        }
    }
    lemma_le_read(file, 0, BYTE_ORDER_LE as int, 2);
    match v {
        TiffVariant::Classic => {
            assert(file.subrange(2, 4) =~= le(TIFF_MAGIC as int, 2)) by {
                assert(file.take(8).subrange(2, 4) =~= file.subrange(2, 4));
                assert(head.subrange(2, 4) =~= le(TIFF_MAGIC as int, 2));
            }
            assert(file.subrange(4, 8) =~= le(first, 4)) by {
                assert(file.take(8).subrange(4, 8) =~= file.subrange(4, 8));
                assert(head.subrange(4, 8) =~= le(first, 4));
            }
            lemma_le_read(file, 2, TIFF_MAGIC as int, 2);
            lemma_le_read(file, 4, first, 4);
        },
        TiffVariant::Big => {
            assert(file.subrange(2, 4) =~= le(BIGTIFF_MAGIC as int, 2)) by {
                assert(file.take(16).subrange(2, 4) =~= file.subrange(2, 4));
                assert(head.subrange(2, 4) =~= le(BIGTIFF_MAGIC as int, 2));
            }
            assert(file.subrange(4, 6) =~= le(8, 2)) by {
                assert(file.take(16).subrange(4, 6) =~= file.subrange(4, 6));
                assert(head.subrange(4, 6) =~= le(8, 2));
            }
            assert(file.subrange(6, 8) =~= le(0, 2)) by {
                assert(file.take(16).subrange(6, 8) =~= file.subrange(6, 8));
                assert(head.subrange(6, 8) =~= le(0, 2));
            }
            assert(file.subrange(8, 16) =~= le(first, 8)) by {
                assert(file.take(16).subrange(8, 16) =~= file.subrange(8, 16));
                assert(head.subrange(8, 16) =~= le(first, 8));
            }
            lemma_le_read(file, 2, BIGTIFF_MAGIC as int, 2);
            lemma_le_read(file, 4, 8, 2);
            lemma_le_read(file, 6, 0, 2);
            lemma_le_read(file, 8, first, 8);
        },
    }
}

/// A page takes the place from its start to that of the next one.
pub proof fn lemma_extent(plans: Seq<PlanModel>, v: TiffVariant, k: int)
    requires
        0 <= k < plans.len(),
        all_addressable(plans, v),
    ensures
        plans[k].addressable(page_start(plans, v, k), v),
        page_start(plans, v, k + 1) == plans[k].end(page_start(plans, v, k), v),
        header_size(v) <= page_start(plans, v, k) <= directory_at(plans, v, k) < page_start(plans, v, k + 1),
        directory_at(plans, v, k) == plans[k].ifd_at(page_start(plans, v, k), v),
        plans[k].bytes(page_start(plans, v, k), v, directory_at(plans, v, k + 1)).len() == page_start(plans, v, k + 1)
            - page_start(plans, v, k),
        page_start(plans, v, k + 1) < room_of(v.offset_size()),
{
    let a = page_start(plans, v, k);
    lemma_pages_len(plans, v, k);
    assert(plans[k].addressable(a, v));
    lemma_page_len(plans[k], a, v, directory_at(plans, v, k + 1));
    lemma_order(plans[k], a, v);
}

/// What stands in the first of two parts.
proof fn lemma_in_first(x: Seq<u8>, y: Seq<u8>, i: int, j: int)
    requires
        0 <= i <= j <= x.len(),
    ensures
        (x + y).subrange(i, j) == x.subrange(i, j),
{
    assert((x + y).subrange(i, j) =~= x.subrange(i, j));
}

/// What stands in the second of two parts.
pub proof fn lemma_in_second(x: Seq<u8>, y: Seq<u8>, i: int, j: int)
    requires
        x.len() <= i <= j <= x.len() + y.len(),
    ensures
        (x + y).subrange(i, j) == y.subrange(i - x.len(), j - x.len()),
{
    assert((x + y).subrange(i, j) =~= y.subrange(i - x.len(), j - x.len()));
}

/// A page stands where it starts.
pub proof fn lemma_page_in_file(plans: Seq<PlanModel>, v: TiffVariant, n: int, k: int)
    requires
        0 <= k < n <= plans.len(),
        all_addressable(plans, v),
    ensures
        ({
            let hs = header_size(v);
            let a = page_start(plans, v, k);
            let e = page_start(plans, v, k + 1);
            &&& e <= page_start(plans, v, n)
            &&& pages_bytes(plans, v, n).subrange(a - hs, e - hs) == plans[k].bytes(a, v, directory_at(plans, v, k + 1))
        }),
    decreases n,
{
    let hs = header_size(v);
    let a = page_start(plans, v, k);
    let e = page_start(plans, v, k + 1);
    lemma_extent(plans, v, k);
    lemma_extent(plans, v, n - 1);
    lemma_pages_len(plans, v, n - 1);
    let head = pages_bytes(plans, v, n - 1);
    let tail = plans[n - 1].bytes(page_start(plans, v, n - 1), v, directory_at(plans, v, n));
    assert(pages_bytes(plans, v, n) == head + tail);
    if k == n - 1 {
        lemma_in_second(head, tail, a - hs, e - hs);
        assert(tail.subrange(0, tail.len() as int) =~= tail);
    } else {
        lemma_page_in_file(plans, v, n - 1, k);
        lemma_in_first(head, tail, a - hs, e - hs);
    }
}

/// Directories follow each other in the file, and there are more bytes than
/// pages.
pub proof fn lemma_directories(plans: Seq<PlanModel>, v: TiffVariant, j: int, k: int)
    requires
        0 <= j < k <= plans.len(),
        all_addressable(plans, v),
    ensures
        0 < directory_at(plans, v, j) < page_start(plans, v, k),
        k < plans.len() ==> directory_at(plans, v, j) < directory_at(plans, v, k),
        page_start(plans, v, k) >= header_size(v) + k,
    decreases k,
{
    lemma_extent(plans, v, k - 1);
    lemma_extent(plans, v, j);
    if j < k - 1 {
        lemma_directories(plans, v, j, k - 1);
    } else if k - 1 > 0 {
        lemma_directories(plans, v, 0, k - 1);
    }
    if k < plans.len() {
        lemma_extent(plans, v, k);
    }
}

/// Every directory can be addressed.
pub proof fn lemma_directory_small(plans: Seq<PlanModel>, v: TiffVariant, k: int)
    requires
        0 <= k,
        all_addressable(plans, v),
    ensures
        0 <= directory_at(plans, v, k) < room_of(v.offset_size()),
{
    reveal_with_fuel(room_of, 9);
    if k < plans.len() {
        lemma_extent(plans, v, k);
    }
}

/// Every page of a file stands in it.
pub proof fn lemma_page_placed(file: Seq<u8>, pages: Seq<EncodePage<'_>>, plans: Seq<PlanModel>, v: TiffVariant, k: int)
    requires
        0 <= k < pages.len(),
        all_planned(pages, v, plans),
        all_addressable(plans, v),
        file == file_bytes(plans, v),
    ensures
        placed_in(file, pages[k], plans[k], page_start(plans, v, k), v, directory_at(plans, v, k + 1)),
{
    let n = plans.len() as int;
    let a = page_start(plans, v, k);
    let e = page_start(plans, v, k + 1);
    lemma_extent(plans, v, k);
    lemma_page_in_file(plans, v, n, k);
    lemma_pages_len(plans, v, n);
    lemma_header_len(v, directory_at(plans, v, 0));
    assert(pages[k].planned(v, plans[k]));
    lemma_in_second(header_bytes(v, directory_at(plans, v, 0)), pages_bytes(plans, v, n), a, e);
}

/// The directory of every page is read.
pub proof fn lemma_directory_read(file: Seq<u8>, pages: Seq<EncodePage<'_>>, plans: Seq<PlanModel>, v: TiffVariant, k: int)
    requires
        0 <= k < pages.len(),
        all_planned(pages, v, plans),
        all_addressable(plans, v),
        file == file_bytes(plans, v),
    ensures
        ifd_spec(file, ByteOrder::Little, v, directory_at(plans, v, k)) == Outcome::<(Seq<EntryModel>, int)>::Ok(
            (plans[k].read_fields(page_start(plans, v, k), v), directory_at(plans, v, k + 1)),
        ),
{
    lemma_extent(plans, v, k);
    lemma_page_placed(file, pages, plans, v, k);
    assert(pages[k].planned(v, plans[k]));
    lemma_plan_wf(pages[k], v, plans[k]);
    lemma_directory_small(plans, v, k + 1);
    lemma_page_parses(file, plans[k], page_start(plans, v, k), v, directory_at(plans, v, k + 1));
}

} // verus!
