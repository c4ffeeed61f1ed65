//! Where the samples of a page stand in a file: which strip or tile holds them, and where
//! they are in it.
use vstd::prelude::*;
use crate::bits::byte_bit;
use crate::ccitt::{law_reversed_bit, FillOrder};
use crate::compress::min_int;
use crate::decoder::{needed_list, plane_strips, samples_of};
use crate::decoder::{subsampling, tile_grid, units_of};
use crate::error::Outcome;
use crate::fields::word_at;
use crate::ifd::{find_spec, ByteOrder, EntryModel};
use crate::jpeg_exact::lemma_packed;
use crate::metadata::number_of;
use crate::page::{info_ok, readable, value_of, PageInfo};
use crate::predictor::{running_sum, sample, summed_rows};
use crate::render::{ceil_div, lemma_row_byte};
use crate::segments::{block, interleaved, lemma_block_size, lemma_tile_columns, lemma_tile_rows, row_bytes_of};
use crate::segments::{stored_block, strip_size, strips_from, tile_block, tile_of, tiles_spec, Coding};
use crate::segments::{unit_rows_size, StripGrid, TileGrid};

verus! {

/// The numbers of a field that gives places or sizes.
pub open spec fn listed(es: Seq<EntryModel>, bo: ByteOrder, tag: u16, v: Seq<int>) -> bool {
    find_spec(es, tag) matches Some(e) && e.u64s(bo) == Outcome::<Seq<int>>::Ok(v)
}

/// How strips and tiles of a page are packed.
pub open spec fn packing(p: PageInfo, bo: ByteOrder, samples: u16) -> Coding {
    Coding {
        compression: p.compression,
        predictor: p.predictor,
        t4_options: p.t4_options,
        t6_options: p.t6_options,
        fill: p.fill,
        bps: p.bps,
        samples,
        bo,
    }
}

// ----------------------------------------------------------------------
// Strips
// ----------------------------------------------------------------------

proof fn lemma_rows_positive(width: int, c: Coding)
    requires
        0 < width,
        1 <= c.samples,
        1 <= c.bps,
    ensures
        row_bytes_of(width, c) >= 1,
        row_bytes_of(width, c) == (width * c.samples * c.bps + 7) / 8,
{
    let n = width * c.samples;
    assert(n >= 1) by (nonlinear_arith)
        requires
            n == width * c.samples,
            width >= 1,
            c.samples >= 1,
    ;
    assert(n * c.bps >= 1) by (nonlinear_arith)
        requires
            n >= 1,
            c.bps >= 1,
    ;
}

/// What strips come to begins with what was there before.
proof fn lemma_strips_kept(
    input: Seq<u8>,
    offsets: Seq<int>,
    counts: Seq<int>,
    i: int,
    end: int,
    done: int,
    out: Seq<u8>,
    g: StripGrid,
    c: Coding,
)
    ensures
        strips_from(input, offsets, counts, i, end, done, out, g, c) matches Some(s) ==> out.is_prefix_of(s),
    decreases end - i,
{
    if done >= g.height {
        assert(out =~= out.take(out.len() as int));
    } else if i < end {
        let rows = min_int(g.rows_per_strip as int, g.height - done);
        match stored_block(input, offsets[i], counts[i], strip_size(g, rows, c), g.width as int, rows, c) {
            None => {},
            Some(b) => {
                lemma_strips_kept(input, offsets, counts, i + 1, end, done + rows, out + b, g, c);
                if let Some(s) = strips_from(input, offsets, counts, i, end, done, out, g, c) {
                    assert((out + b).is_prefix_of(s));
                    assert(out =~= s.take(out.len() as int)) by {
                        assert forall|k: int| 0 <= k < out.len() implies out[k] == s[k] by {
                            assert((out + b)[k] == s.take((out + b).len() as int)[k]);
                        }
                    }
                }
            },
        }
    }
}

/// The block of strip `k` of those from `first` on.
spec fn strip_block(input: Seq<u8>, offsets: Seq<int>, counts: Seq<int>, first: int, k: int, g: StripGrid, c: Coding) -> Option<Seq<u8>> {
    let rows = min_int(g.rows_per_strip as int, g.height - k * g.rows_per_strip);
    stored_block(input, offsets[first + k], counts[first + k], row_bytes_of(g.width as int, c) * rows, g.width as int, rows, c)
}

proof fn lemma_strip_byte(
    input: Seq<u8>,
    offsets: Seq<int>,
    counts: Seq<int>,
    first: int,
    i: int,
    end: int,
    done: int,
    out: Seq<u8>,
    g: StripGrid,
    c: Coding,
    y: int,
    j: int,
)
    requires
        g.units is None,
        0 < g.width,
        1 <= c.samples,
        1 <= c.bps,
        first <= i,
        0 <= done <= y < g.height,
        done == (i - first) * g.rows_per_strip,
        out.len() == done * row_bytes_of(g.width as int, c),
        0 <= j < row_bytes_of(g.width as int, c),
        strips_from(input, offsets, counts, i, end, done, out, g, c) is Some,
    ensures
        ({
            let s = strips_from(input, offsets, counts, i, end, done, out, g, c).unwrap();
            let r = g.rows_per_strip as int;
            let row = row_bytes_of(g.width as int, c);
            &&& r > 0
            &&& first <= first + y / r < end
            &&& strip_block(input, offsets, counts, first, y / r, g, c) matches Some(b)
            &&& 0 <= y % r * row + j < b.len()
            &&& y * row + j < s.len()
            &&& s[y * row + j] == b[y % r * row + j]
        }),
    decreases end - i,
{
    let r = g.rows_per_strip as int;
    let row = row_bytes_of(g.width as int, c);
    let rows = min_int(r, g.height - done);
    let b = stored_block(input, offsets[i], counts[i], strip_size(g, rows, c), g.width as int, rows, c).unwrap();
    let k = i - first;
    lemma_rows_positive(g.width as int, c);
    lemma_block_size(input.subrange(offsets[i], offsets[i] + counts[i]), strip_size(g, rows, c), g.width as int, rows, c);
    assert(b.len() == row * rows) by {
        assert(row * rows >= 0) by (nonlinear_arith)
            requires
                row >= 0,
                rows >= 0,
        ;
    }
    assert((out + b).len() == (done + rows) * row) by (nonlinear_arith)
        requires
            (out + b).len() == done * row + row * rows,
    ;
    if y < done + rows {
        assert(r > 0);
        assert(done == k * r);
        lemma_packed(k, r, y - done);
        lemma_strips_kept(input, offsets, counts, i + 1, end, done + rows, out + b, g, c);
        let s = strips_from(input, offsets, counts, i, end, done, out, g, c).unwrap();
        assert(y * row + j == done * row + ((y - done) * row + j)) by (nonlinear_arith);
        lemma_row_byte(y - done, j, row, rows);
        assert(rows * row == row * rows) by (nonlinear_arith);
        assert((out + b)[y * row + j] == b[(y - done) * row + j]);
        assert(s.take((out + b).len() as int)[y * row + j] == (out + b)[y * row + j]);
    } else {
        assert(rows == r);
        assert(done + r == (k + 1) * r) by (nonlinear_arith)
            requires
                done == k * r,
        ;
        lemma_strip_byte(input, offsets, counts, first, i + 1, end, done + rows, out + b, g, c, y, j);
    }
}

/// Pages in strips: row `y` is row `y` mod the rows of a strip of strip `y` divided by
/// them. Places are in the field with tag 273, sizes in that with tag 279, the rows of a
/// strip in that with tag 278, and the last strip has the rows that are left.
pub proof fn law_strips(
    input: Seq<u8>,
    es: Seq<EntryModel>,
    bo: ByteOrder,
    p: PageInfo,
    offsets: Seq<int>,
    counts: Seq<int>,
    y: int,
    j: int,
)
    requires
        info_ok(p),
        p.planar == 1,
        find_spec(es, 322) is None,
        listed(es, bo, 273, offsets),
        listed(es, bo, 279, counts),
        number_of(es, bo, 262) matches Some(x) && x != 6,
        samples_of(input, es, bo, p) is Some,
        0 <= y < p.height,
        0 <= j < (p.width * p.samples * p.bps + 7) / 8,
    ensures
        ({
            let buf = samples_of(input, es, bo, p).unwrap();
            let row = (p.width * p.samples * p.bps + 7) / 8;
            let r = match number_of(es, bo, 278) {
                Some(x) => x,
                None => p.height as int,
            };
            let k = y / r;
            let left = p.height - k * r;
            let rows = if left < r { left } else { r };
            &&& r > 0
            &&& 0 <= k < offsets.len()
            &&& counts.len() == offsets.len()
            &&& stored_block(input, offsets[k], counts[k], row * rows, p.width as int, rows, packing(p, bo, p.samples)) matches Some(b)
            &&& y * row + j < buf.len()
            &&& buf[y * row + j] == b[y % r * row + j]
        }),
{
    reveal(needed_list);
    reveal(readable);
    reveal(value_of);
    let c = packing(p, bo, p.samples);
    lemma_rows_positive(p.width as int, c);
    let r = value_of(es, bo, 278, p.height as int);
    lemma_small(es, bo, 278);
    let g = StripGrid { width: p.width, height: p.height, rows_per_strip: r as u32, units: None };
    assert(units_of(es, bo, p) == Some(None::<(u32, u32)>)) by {
        assert(value_of(es, bo, 262, 0) == 6 ==> number_of(es, bo, 262) == Some(6int));
    }
    assert(samples_of(input, es, bo, p) == strips_from(input, offsets, counts, 0, offsets.len() as int, 0, Seq::empty(), g, c));
    assert(0 * row_bytes_of(p.width as int, c) == 0) by (nonlinear_arith);
    assert(0 * g.rows_per_strip == 0);
    lemma_strip_byte(input, offsets, counts, 0, 0, offsets.len() as int, 0, Seq::empty(), g, c, y, j);
    assert(r == (match number_of(es, bo, 278) {
        Some(x) => x,
        None => p.height as int,
    }));
}

proof fn lemma_unit_byte(
    input: Seq<u8>,
    offsets: Seq<int>,
    counts: Seq<int>,
    i: int,
    end: int,
    done: int,
    out: Seq<u8>,
    g: StripGrid,
    c: Coding,
    k: int,
    n: int,
)
    requires
        g.units is Some,
        g.units.unwrap().0 > 0,
        g.units.unwrap().1 > 0,
        0 < g.rows_per_strip,
        0 <= i <= k,
        done == i * g.rows_per_strip,
        k * g.rows_per_strip < g.height,
        out.len() == i * strip_size(g, g.rows_per_strip as int, c),
        0 <= n < strip_size(g, min_int(g.rows_per_strip as int, g.height - k * g.rows_per_strip), c),
        strips_from(input, offsets, counts, i, end, done, out, g, c) is Some,
    ensures
        ({
            let s = strips_from(input, offsets, counts, i, end, done, out, g, c).unwrap();
            let rows = min_int(g.rows_per_strip as int, g.height - k * g.rows_per_strip);
            &&& k < end
            &&& stored_block(input, offsets[k], counts[k], strip_size(g, rows, c), g.width as int, rows, c) matches Some(b)
            &&& k * strip_size(g, g.rows_per_strip as int, c) + n < s.len()
            &&& s[k * strip_size(g, g.rows_per_strip as int, c) + n] == b[n]
        }),
    decreases end - i,
{
    let r = g.rows_per_strip as int;
    let full = strip_size(g, r, c);
    assert(i * r <= k * r) by (nonlinear_arith)
        requires
            i <= k,
            r > 0,
    ;
    let rows = min_int(r, g.height - done);
    let size = strip_size(g, rows, c);
    let b = stored_block(input, offsets[i], counts[i], size, g.width as int, rows, c).unwrap();
    lemma_units_size(g.width as int, rows, g.units.unwrap().0 as int, g.units.unwrap().1 as int);
    lemma_block_size(input.subrange(offsets[i], offsets[i] + counts[i]), size, g.width as int, rows, c);
    assert(b.len() == size);
    if i == k {
        lemma_strips_kept(input, offsets, counts, i + 1, end, done + rows, out + b, g, c);
        let s = strips_from(input, offsets, counts, i, end, done, out, g, c).unwrap();
        assert((out + b)[k * full + n] == b[n]);
        assert(s.take((out + b).len() as int)[k * full + n] == (out + b)[k * full + n]);
    } else {
        assert((i + 1) * r <= k * r && (i + 1) * r == i * r + r) by (nonlinear_arith)
            requires
                i + 1 <= k,
                r > 0,
        ;
        assert((i + 1) * full == i * full + full) by (nonlinear_arith);
        lemma_unit_byte(input, offsets, counts, i + 1, end, done + rows, out + b, g, c, k, n);
    }
}

proof fn lemma_units_size(width: int, rows: int, sh: int, sv: int)
    requires
        0 <= width,
        0 <= rows,
        0 < sh,
        0 < sv,
    ensures
        unit_rows_size(width, rows, sh, sv) >= 0,
{
    let a = ceil_div(width, sh);
    let b = ceil_div(rows, sv);
    assert(a >= 0) by (nonlinear_arith)
        requires
            a == (width + sh - 1) / sh,
            width + sh - 1 >= 0,
            sh > 0,
    ;
    assert(b >= 0) by (nonlinear_arith)
        requires
            b == (rows + sv - 1) / sv,
            rows + sv - 1 >= 0,
            sv > 0,
    ;
    assert(a * b >= 0) by (nonlinear_arith)
        requires
            a >= 0,
            b >= 0,
    ;
    assert(sh * sv + 2 >= 0) by (nonlinear_arith)
        requires
            sh > 0,
            sv > 0,
    ;
    let ab = a * b;
    let u = sh * sv + 2;
    assert(ab * u >= 0) by (nonlinear_arith)
        requires
            ab >= 0,
            u >= 0,
    ;
}

/// Luma and chroma pages whose chroma is shared (tag 530, else 2 by 2) have strips of whole
/// units of as many luma samples and two chroma samples; byte `n` of strip `k` follows the
/// bytes of the strips before it.
#[verifier::rlimit(40)]
pub proof fn law_unit_strips(
    input: Seq<u8>,
    es: Seq<EntryModel>,
    bo: ByteOrder,
    p: PageInfo,
    offsets: Seq<int>,
    counts: Seq<int>,
    sh: int,
    sv: int,
    k: int,
    n: int,
)
    requires
        info_ok(p),
        p.planar == 1,
        p.samples == 3,
        p.bps == 8,
        find_spec(es, 322) is None,
        listed(es, bo, 273, offsets),
        listed(es, bo, 279, counts),
        number_of(es, bo, 262) == Some(6int),
        (match find_spec(es, 530) {
            None => sh == 2 && sv == 2,
            Some(e) => e.u32s(bo) matches Ok(v) && v.len() >= 2 && v[0] == sh && v[1] == sv,
        }),
        0 < sh <= 0xffff_ffff,
        0 < sv <= 0xffff_ffff,
        sh > 1 || sv > 1,
        samples_of(input, es, bo, p) is Some,
        0 <= k,
        ({
            let r = match number_of(es, bo, 278) {
                Some(x) => x,
                None => p.height as int,
            };
            let left = p.height - k * r;
            let rows = if left < r { left } else { r };
            r > 0 && left > 0 && 0 <= n < (p.width + sh - 1) / sh * ((rows + sv - 1) / sv) * (sh * sv + 2)
        }),
    ensures
        ({
            let buf = samples_of(input, es, bo, p).unwrap();
            let r = match number_of(es, bo, 278) {
                Some(x) => x,
                None => p.height as int,
            };
            let left = p.height - k * r;
            let rows = if left < r { left } else { r };
            let across = (p.width + sh - 1) / sh;
            let size = across * ((rows + sv - 1) / sv) * (sh * sv + 2);
            let before = across * ((r + sv - 1) / sv) * (sh * sv + 2) * k;
            &&& k < offsets.len()
            &&& stored_block(input, offsets[k], counts[k], size, p.width as int, rows, packing(p, bo, 3)) matches Some(b)
            &&& before + n < buf.len()
            &&& buf[before + n] == b[n]
        }),
{
    reveal(needed_list);
    reveal(readable);
    reveal(value_of);
    reveal(subsampling);
    let c = packing(p, bo, p.samples);
    let r = value_of(es, bo, 278, p.height as int);
    lemma_small(es, bo, 278);
    let g = StripGrid {
        width: p.width,
        height: p.height,
        rows_per_strip: r as u32,
        units: Some((sh as u32, sv as u32)),
    };
    assert(units_of(es, bo, p) == Some(Some((sh as u32, sv as u32))));
    assert(samples_of(input, es, bo, p) == strips_from(input, offsets, counts, 0, offsets.len() as int, 0, Seq::empty(), g, c));
    let full = strip_size(g, r, c);
    assert(0 * full == 0);
    assert(k * full == full * k) by (nonlinear_arith);
    lemma_unit_byte(input, offsets, counts, 0, offsets.len() as int, 0, Seq::empty(), g, c, k, n);
}

pub proof fn lemma_small(es: Seq<EntryModel>, bo: ByteOrder, tag: u16)
    ensures
        number_of(es, bo, tag) matches Some(x) ==> 0 <= x <= 0xffff_ffff,
{
    match find_spec(es, tag) {
        None => {},
        Some(e) => {
            crate::fields::law_numbers(bo, e.data, 0);
        },
    }
}

// ----------------------------------------------------------------------
// Blocks
// ----------------------------------------------------------------------

/// A strip or tile that is not packed and not differenced holds its bytes as they are in
/// the file.
pub proof fn law_plain_block(input: Seq<u8>, offset: int, count: int, size: int, width: int, rows: int, c: Coding, k: int)
    requires
        c.compression == 1,
        c.predictor != 2,
        0 <= offset,
        0 <= count,
        0 <= k < size,
        stored_block(input, offset, count, size, width, rows, c) is Some,
    ensures
        ({
            let b = stored_block(input, offset, count, size, width, rows, c).unwrap();
            &&& size <= count
            &&& offset + count <= input.len()
            &&& b.len() == size
            &&& !(c.fill is LsbFirst && c.bps == 1) ==> b[k] == input[offset + k]
        }),
{
}

// ----------------------------------------------------------------------
// Tiles
// ----------------------------------------------------------------------

proof fn lemma_tile_byte(input: Seq<u8>, offsets: Seq<int>, counts: Seq<int>, first: int, t: TileGrid, c: Coding, y: int, j: int)
    requires
        0 < t.width,
        0 < t.tile_w,
        0 < t.tile_h,
        1 <= c.samples,
        1 <= c.bps,
        tiles_spec(input, offsets, counts, first, t, c) is Some,
        0 <= y < t.height,
        0 <= j < row_bytes_of(t.width as int, c),
    ensures
        ({
            let s = tiles_spec(input, offsets, counts, first, t, c).unwrap();
            let row = row_bytes_of(t.width as int, c);
            let cell = row_bytes_of(t.tile_w as int, c);
            let k = first + (y / (t.tile_h as int) * t.across() + j / cell);
            &&& cell >= 1
            &&& 0 <= j / cell < t.across()
            &&& 0 <= y / (t.tile_h as int) < t.down()
            &&& first <= k < first + t.across() * t.down()
            &&& tile_block(input, offsets, counts, k, t, c) matches Some(b)
            &&& 0 <= y * row + j < s.len()
            &&& s[y * row + j] == b[y % (t.tile_h as int) * cell + j % cell]
        }),
{
    let row = row_bytes_of(t.width as int, c);
    let cell = row_bytes_of(t.tile_w as int, c);
    lemma_tile_columns(t, c, j);
    lemma_tile_rows(y, t.height as int, t.tile_h as int);
    lemma_packed(y, row, j);
    lemma_row_byte(y, j, row, t.height as int);
    assert(t.height * row == row * t.height) by (nonlinear_arith);
    let ty = y / (t.tile_h as int);
    let tx = j / cell;
    let k = first + (ty * t.across() + tx);
    assert(0 <= ty * t.across() + tx < t.across() * t.down()) by (nonlinear_arith)
        requires
            0 <= ty < t.down(),
            0 <= tx < t.across(),
    ;
    assert(tile_of(y * row + j, first, t, c) == k);
    assert(tile_block(input, offsets, counts, k, t, c) is Some);
}

/// Pages in tiles: byte `j` of row `y` is in the tile that covers it, tiles counted row by
/// row, at its row mod the height and its byte mod the bytes of a row of a tile. Places are
/// in the field with tag 324, sizes in that with tag 325, width and height of a tile in
/// those with tags 322 and 323.
#[verifier::rlimit(40)]
pub proof fn law_tiles(
    input: Seq<u8>,
    es: Seq<EntryModel>,
    bo: ByteOrder,
    p: PageInfo,
    offsets: Seq<int>,
    counts: Seq<int>,
    tw: int,
    th: int,
    y: int,
    j: int,
)
    requires
        info_ok(p),
        p.planar == 1,
        number_of(es, bo, 322) == Some(tw),
        number_of(es, bo, 323) == Some(th),
        listed(es, bo, 324, offsets),
        listed(es, bo, 325, counts),
        samples_of(input, es, bo, p) is Some,
        0 <= y < p.height,
        0 <= j < (p.width * p.samples * p.bps + 7) / 8,
    ensures
        ({
            let buf = samples_of(input, es, bo, p).unwrap();
            let row = (p.width * p.samples * p.bps + 7) / 8;
            let cell = (tw * p.samples * p.bps + 7) / 8;
            let across = (p.width + tw - 1) / tw;
            let k = y / th * across + j / cell;
            &&& tw > 0 && th > 0 && cell > 0
            &&& offsets.len() == across * ((p.height + th - 1) / th)
            &&& 0 <= k < offsets.len()
            &&& counts.len() == offsets.len()
            &&& stored_block(input, offsets[k], counts[k], cell * th, tw, th, packing(p, bo, p.samples)) matches Some(b)
            &&& y * row + j < buf.len()
            &&& buf[y * row + j] == b[y % th * cell + j % cell]
        }),
{
    reveal(needed_list);
    reveal(readable);
    reveal(value_of);
    lemma_small(es, bo, 322);
    lemma_small(es, bo, 323);
    let c = packing(p, bo, p.samples);
    lemma_rows_positive(p.width as int, c);
    let t = tile_grid(es, bo, p).unwrap();
    assert(t == (TileGrid { width: p.width, height: p.height, tile_w: tw as u32, tile_h: th as u32 }));
    lemma_tile_byte(input, offsets, counts, 0, t, c, y, j);
}

// ----------------------------------------------------------------------
// Components apart
// ----------------------------------------------------------------------

proof fn lemma_interleaved(planes: Seq<Seq<u8>>, pixels: int, size: int, i: int, s: int, q: int)
    requires
        interleaved(planes, pixels, size) is Some,
        0 <= i < pixels,
        0 <= s < planes.len(),
        0 <= q < size,
    ensures
        ({
            let n = planes.len() as int;
            let b = interleaved(planes, pixels, size).unwrap();
            let k = (i * n + s) * size + q;
            &&& planes[s].len() == pixels * size
            &&& 0 <= k < b.len()
            &&& b[k] == planes[s][i * size + q]
        }),
{
    let n = planes.len() as int;
    let u = i * n + s;
    let k = u * size + q;
    lemma_packed(u, size, q);
    lemma_packed(i, n, s);
    assert(0 <= k < n * pixels * size) by (nonlinear_arith)
        requires
            k == u * size + q,
            u == i * n + s,
            0 <= i < pixels,
            0 <= s < n,
            0 <= q < size,
    ;
}

/// Pages in strips of one component each: the strips of the first component come first.
/// Byte `q` of sample `s` of a pixel is in strip `y` divided by the rows of a strip of its
/// component.
#[verifier::rlimit(40)]
pub proof fn law_planar_strips(
    input: Seq<u8>,
    es: Seq<EntryModel>,
    bo: ByteOrder,
    p: PageInfo,
    offsets: Seq<int>,
    counts: Seq<int>,
    x: int,
    y: int,
    s: int,
    q: int,
)
    requires
        info_ok(p),
        p.planar == 2,
        find_spec(es, 322) is None,
        listed(es, bo, 273, offsets),
        listed(es, bo, 279, counts),
        samples_of(input, es, bo, p) is Some,
        0 <= x < p.width,
        0 <= y < p.height,
        0 <= s < p.samples,
        0 <= q < p.bps as int / 8,
    ensures
        ({
            let buf = samples_of(input, es, bo, p).unwrap();
            let size = p.bps as int / 8;
            let row = p.width * size;
            let r = match number_of(es, bo, 278) {
                Some(x) => x,
                None => p.height as int,
            };
            let per = (p.height + r - 1) / r;
            let k = s * per + y / r;
            let left = p.height - y / r * r;
            let rows = if left < r { left } else { r };
            &&& r > 0
            &&& offsets.len() == per * p.samples
            &&& 0 <= k < offsets.len()
            &&& stored_block(input, offsets[k], counts[k], row * rows, p.width as int, rows, packing(p, bo, 1)) matches Some(b)
            &&& buf[((y * p.width + x) * p.samples + s) * size + q] == b[y % r * row + x * size + q]
        }),
{
    reveal(needed_list);
    reveal(readable);
    reveal(value_of);
    lemma_small(es, bo, 278);
    let c = packing(p, bo, 1);
    let size = p.bps as int / 8;
    let r = value_of(es, bo, 278, p.height as int);
    let per = ceil_div(p.height as int, r);
    let g = StripGrid { width: p.width, height: p.height, rows_per_strip: r as u32, units: None };
    assert(plane_strips(input, offsets, counts, g, c, per, s) is Some);
    assert(samples_of(input, es, bo, p) == interleaved(
        Seq::new(p.samples as nat, |q: int| plane_strips(input, offsets, counts, g, c, per, q).unwrap()),
        p.width * p.height,
        size,
    ));
    lemma_planar_strip_byte(input, offsets, counts, g, c, p.samples as int, per, x, y, s, q);
}

proof fn lemma_planar_strip_byte(
    input: Seq<u8>,
    offsets: Seq<int>,
    counts: Seq<int>,
    g: StripGrid,
    c: Coding,
    samples: int,
    per: int,
    x: int,
    y: int,
    s: int,
    q: int,
)
    requires
        c.samples == 1,
        c.bps == 8 || c.bps == 16 || c.bps == 32 || c.bps == 64,
        g.units is None,
        0 <= per,
        0 <= x < g.width,
        0 <= y < g.height,
        0 <= s < samples,
        0 <= q < c.bps as int / 8,
        plane_strips(input, offsets, counts, g, c, per, s) is Some,
    ensures
        ({
            let size = c.bps as int / 8;
            let row = g.width * size;
            let r = g.rows_per_strip as int;
            let k = s * per + y / r;
            let left = g.height - y / r * r;
            let rows = if left < r { left } else { r };
            let planes = Seq::new(samples as nat, |q: int| plane_strips(input, offsets, counts, g, c, per, q).unwrap());
            &&& r > 0
            &&& 0 <= k < per * samples
            &&& stored_block(input, offsets[k], counts[k], row * rows, g.width as int, rows, c) matches Some(b)
            &&& interleaved(planes, g.width * g.height, size) matches Some(v) ==> v[((y * g.width + x) * samples + s) * size
                + q] == b[y % r * row + x * size + q]
        }),
{
    let size = c.bps as int / 8;
    lemma_rows_positive(g.width as int, c);
    assert(c.bps == 8 * size);
    let row = g.width * size;
    assert(g.width * 1 * c.bps == 8 * row) by (nonlinear_arith)
        requires
            c.bps == 8 * size,
            row == g.width * size,
    ;
    assert(row_bytes_of(g.width as int, c) == row);
    let planes = Seq::new(samples as nat, |q: int| plane_strips(input, offsets, counts, g, c, per, q).unwrap());
    let j = x * size + q;
    assert(0 <= j < row) by (nonlinear_arith)
        requires
            j == x * size + q,
            0 <= x < g.width,
            0 <= q < size,
            row == g.width * size,
    ;
    assert(0 <= s * per) by (nonlinear_arith)
        requires
            0 <= s,
            0 <= per,
    ;
    assert(s * per + per <= per * samples) by (nonlinear_arith)
        requires
            s + 1 <= samples,
            0 <= per,
    ;
    assert(0 * row == 0) by (nonlinear_arith);
    assert((s * per - s * per) * g.rows_per_strip == 0) by (nonlinear_arith);
    lemma_strip_byte(input, offsets, counts, s * per, s * per, s * per + per, 0, Seq::empty(), g, c, y, j);
    let i = y * g.width + x;
    lemma_row_byte(y, x, g.width as int, g.height as int);
    assert(g.height * g.width == g.width * g.height) by (nonlinear_arith);
    if interleaved(planes, g.width * g.height, size) is Some {
        lemma_interleaved(planes, g.width * g.height, size, i, s, q);
    }
    assert(i * size + q == y * row + j) by (nonlinear_arith)
        requires
            i == y * g.width + x,
            row == g.width * size,
            j == x * size + q,
    ;
}

/// Pages in tiles of one component each: the tiles of the first component come first.
#[verifier::rlimit(40)]
pub proof fn law_planar_tiles(
    input: Seq<u8>,
    es: Seq<EntryModel>,
    bo: ByteOrder,
    p: PageInfo,
    offsets: Seq<int>,
    counts: Seq<int>,
    tw: int,
    th: int,
    x: int,
    y: int,
    s: int,
    q: int,
)
    requires
        info_ok(p),
        p.planar == 2,
        number_of(es, bo, 322) == Some(tw),
        number_of(es, bo, 323) == Some(th),
        listed(es, bo, 324, offsets),
        listed(es, bo, 325, counts),
        samples_of(input, es, bo, p) is Some,
        0 <= x < p.width,
        0 <= y < p.height,
        0 <= s < p.samples,
        0 <= q < p.bps as int / 8,
    ensures
        ({
            let buf = samples_of(input, es, bo, p).unwrap();
            let size = p.bps as int / 8;
            let across = (p.width + tw - 1) / tw;
            let per = across * ((p.height + th - 1) / th);
            let k = s * per + y / th * across + x / tw;
            &&& tw > 0 && th > 0
            &&& offsets.len() == per * p.samples
            &&& 0 <= k < offsets.len()
            &&& stored_block(input, offsets[k], counts[k], tw * size * th, tw, th, packing(p, bo, 1)) matches Some(b)
            &&& buf[((y * p.width + x) * p.samples + s) * size + q] == b[(y % th * tw + x % tw) * size + q]
        }),
{
    reveal(needed_list);
    reveal(readable);
    reveal(value_of);
    lemma_small(es, bo, 322);
    lemma_small(es, bo, 323);
    let c = packing(p, bo, 1);
    let t = tile_grid(es, bo, p).unwrap();
    assert(t == (TileGrid { width: p.width, height: p.height, tile_w: tw as u32, tile_h: th as u32 }));
    let per = t.across() * t.down();
    assert(tiles_spec(input, offsets, counts, s * per, t, c) is Some);
    lemma_planar_tile_byte(input, offsets, counts, t, c, p.samples as int, x, y, s, q);
}

proof fn lemma_planar_tile_byte(
    input: Seq<u8>,
    offsets: Seq<int>,
    counts: Seq<int>,
    t: TileGrid,
    c: Coding,
    samples: int,
    x: int,
    y: int,
    s: int,
    q: int,
)
    requires
        c.samples == 1,
        c.bps == 8 || c.bps == 16 || c.bps == 32 || c.bps == 64,
        t.tile_w > 0,
        t.tile_h > 0,
        0 <= x < t.width,
        0 <= y < t.height,
        0 <= s < samples,
        0 <= q < c.bps as int / 8,
        ({
            let per = t.across() * t.down();
            let planes = Seq::new(samples as nat, |q: int| tiles_spec(input, offsets, counts, q * per, t, c).unwrap());
            &&& tiles_spec(input, offsets, counts, s * per, t, c) is Some
            &&& interleaved(planes, t.width * t.height, c.bps as int / 8) is Some
        }),
    ensures
        ({
            let per = t.across() * t.down();
            let tw = t.tile_w as int;
            let th = t.tile_h as int;
            let size = c.bps as int / 8;
            let planes = Seq::new(samples as nat, |q: int| tiles_spec(input, offsets, counts, q * per, t, c).unwrap());
            let buf = interleaved(planes, t.width * t.height, size).unwrap();
            let k = s * per + y / th * t.across() + x / tw;
            &&& 0 <= k < per * samples
            &&& stored_block(input, offsets[k], counts[k], tw * size * th, tw, th, c) matches Some(b)
            &&& buf[((y * t.width + x) * samples + s) * size + q] == b[(y % th * tw + x % tw) * size + q]
        }),
{
    let tw = t.tile_w as int;
    let th = t.tile_h as int;
    let size = c.bps as int / 8;
    lemma_rows_positive(t.width as int, c);
    assert(c.bps == 8 * size);
    let row = t.width * size;
    let cell = tw * size;
    assert(t.width * 1 * c.bps == 8 * row) by (nonlinear_arith)
        requires
            c.bps == 8 * size,
            row == t.width * size,
    ;
    assert(tw * 1 * c.bps == 8 * cell) by (nonlinear_arith)
        requires
            c.bps == 8 * size,
            cell == tw * size,
    ;
    assert(row_bytes_of(t.width as int, c) == row && row_bytes_of(tw, c) == cell);
    let per = t.across() * t.down();
    let planes = Seq::new(samples as nat, |q: int| tiles_spec(input, offsets, counts, q * per, t, c).unwrap());
    let j = x * size + q;
    assert(0 <= j < row) by (nonlinear_arith)
        requires
            j == x * size + q,
            0 <= x < t.width,
            0 <= q < size,
            row == t.width * size,
    ;
    lemma_tile_byte(input, offsets, counts, s * per, t, c, y, j);
    vstd::arithmetic::div_mod::lemma_fundamental_div_mod(x, tw);
    vstd::arithmetic::div_mod::lemma_mod_bound(x, tw);
    let u = x % tw * size + q;
    assert(j == x / tw * cell + u && 0 <= u < cell) by (nonlinear_arith)
        requires
            j == x * size + q,
            x == tw * (x / tw) + x % tw,
            0 <= x % tw < tw,
            0 <= q < size,
            cell == tw * size,
            u == x % tw * size + q,
    ;
    lemma_packed(x / tw, cell, u);
    let i = y * t.width + x;
    lemma_row_byte(y, x, t.width as int, t.height as int);
    assert(t.height * t.width == t.width * t.height) by (nonlinear_arith);
    lemma_interleaved(planes, t.width * t.height, size, i, s, q);
    assert(i * size + q == y * row + j) by (nonlinear_arith)
        requires
            i == y * t.width + x,
            row == t.width * size,
            j == x * size + q,
    ;
    assert(y % th * cell + u == (y % th * tw + x % tw) * size + q) by (nonlinear_arith)
        requires
            cell == tw * size,
            u == x % tw * size + q,
    ;
    assert(s * per + per <= per * samples) by (nonlinear_arith)
        requires
            s + 1 <= samples,
            0 <= per,
    ;
    assert(0 <= s * per) by (nonlinear_arith)
        requires
            0 <= s,
            0 <= per,
    ;
}

// ----------------------------------------------------------------------
// Differences and order of bits
// ----------------------------------------------------------------------

/// The two blocks that the same bytes give with differences undone and left alone.
pub open spec fn undone(raw: Seq<u8>, size: int, width: int, rows: int, c: Coding, b: Seq<u8>, d: Seq<u8>) -> bool {
    &&& block(raw, size, width, rows, Coding { predictor: 2, ..c }) == Some(b)
    &&& block(raw, size, width, rows, Coding { predictor: 1, ..c }) == Some(d)
}

/// Differences of samples of 8 bits: the samples of the first pixel of a row stay, and
/// every other one is the stored one and the sample of the same component of the pixel on
/// the left, modulo 256.
pub proof fn law_differences8(raw: Seq<u8>, size: int, width: int, rows: int, c: Coding, b: Seq<u8>, d: Seq<u8>, y: int, i: int)
    requires
        undone(raw, size, width, rows, c, b, d),
        c.bps == 8,
        c.samples >= 1,
        0 <= y < rows,
        0 <= i < width * c.samples,
        size == width * c.samples * rows,
    ensures
        ({
            let at = y * (width * c.samples) + i;
            &&& 0 <= at < size && b.len() == size && d.len() == size
            &&& i < c.samples ==> b[at] == d[at]
            &&& i >= c.samples ==> b[at] == (d[at] + b[at - c.samples]) % 256
        }),
{
    let n = width * c.samples;
    let at = y * n + i;
    lemma_width(width, c.samples as int, i);
    assert(n * 8 + 7 == 8 * n + 7);
    assert(row_bytes_of(width, Coding { predictor: 2, ..c }) == n);
    lemma_row_byte(y, i, n, rows);
    assert(rows * n == n * rows) by (nonlinear_arith);
    lemma_packed(y, n, i);
    assert(at / n * n == y * n);
    if i >= c.samples {
        let j = i - c.samples;
        lemma_packed(y, n, j);
        assert((at - c.samples) / n == y && (at - c.samples) % n == j);
        lemma_sum_small(d, y * n, c.bo, 8, c.samples as int, j);
        assert(b[at - c.samples] == running_sum(d, y * n, c.bo, 8, c.samples as int, j));
    }
    lemma_sum_small(d, y * n, c.bo, 8, c.samples as int, i);
    assert(b[at] == running_sum(d, y * n, c.bo, 8, c.samples as int, i));
}

proof fn lemma_width(width: int, samples: int, i: int)
    requires
        0 <= i < width * samples,
        samples >= 1,
    ensures
        width >= 1,
        samples <= width * samples,
{
    assert(width >= 1) by (nonlinear_arith)
        requires
            0 < width * samples,
            samples >= 1,
    ;
    assert(samples <= width * samples) by (nonlinear_arith)
        requires
            width >= 1,
            samples >= 1,
    ;
}

proof fn lemma_sum_small(buf: Seq<u8>, base: int, bo: ByteOrder, bps: int, step: int, i: int)
    requires
        bps == 8 || bps == 16 || bps == 4,
    ensures
        0 <= running_sum(buf, base, bo, bps, step, i) < (if bps == 8 {
            256int
        } else if bps == 16 {
            65536
        } else {
            16
        }),
{
}

/// Differences of samples of 16 bits, likewise modulo 65536 and in the order of bytes of
/// the file.
pub proof fn law_differences16(raw: Seq<u8>, size: int, width: int, rows: int, c: Coding, b: Seq<u8>, d: Seq<u8>, y: int, i: int)
    requires
        undone(raw, size, width, rows, c, b, d),
        c.bps == 16,
        c.samples >= 1,
        0 <= y < rows,
        0 <= i < width * c.samples,
        size == 2 * (width * c.samples) * rows,
    ensures
        ({
            let at = y * (2 * (width * c.samples)) + 2 * i;
            &&& 0 <= at && at + 1 < size && b.len() == size && d.len() == size
            &&& i < c.samples ==> word_at(c.bo, b, at) == word_at(c.bo, d, at)
            &&& i >= c.samples ==> word_at(c.bo, b, at) == (word_at(c.bo, d, at) + word_at(c.bo, b, at - 2 * c.samples)) % 65536
        }),
{
    let n = width * c.samples;
    let row = 2 * n;
    let at = y * row + 2 * i;
    lemma_width(width, c.samples as int, i);
    assert(n * 16 + 7 == 8 * row + 7);
    assert(row_bytes_of(width, Coding { predictor: 2, ..c }) == row);
    lemma_row_byte(y, 2 * i, row, rows);
    lemma_row_byte(y, 2 * i + 1, row, rows);
    assert(rows * row == row * rows) by (nonlinear_arith);
    lemma_summed_word(d, width, rows, c, b, y, i);
    if i >= c.samples {
        lemma_summed_word(d, width, rows, c, b, y, i - c.samples);
    }
}

proof fn lemma_summed_word(d: Seq<u8>, width: int, rows: int, c: Coding, b: Seq<u8>, y: int, i: int)
    requires
        c.samples >= 1,
        c.bps == 16,
        0 <= y < rows,
        0 <= i < width * c.samples,
        d.len() == 2 * (width * c.samples) * rows,
        summed_rows(d, width, rows, c.samples as int, 16, 2 * (width * c.samples), c.bo) == Some(b),
    ensures
        ({
            let row = 2 * (width * c.samples);
            word_at(c.bo, b, y * row + 2 * i) == running_sum(d, y * row, c.bo, 16, c.samples as int, i)
        }),
{
    let n = width * c.samples;
    let row = 2 * n;
    lemma_width(width, c.samples as int, i);
    lemma_row_byte(y, 2 * i, row, rows);
    lemma_row_byte(y, 2 * i + 1, row, rows);
    assert(rows * row == row * rows) by (nonlinear_arith);
    lemma_packed(y, row, 2 * i);
    lemma_packed(y, row, 2 * i + 1);
    lemma_sum_small(d, y * row, c.bo, 16, c.samples as int, i);
    let v = running_sum(d, y * row, c.bo, 16, c.samples as int, i);
    let at = y * row + 2 * i;
    assert(at / row * row == y * row && (at + 1) / row * row == y * row);
    assert((2 * i) / 2 == i && (2 * i + 1) / 2 == i);
    assert((2 * i) % 2 == 0 && (2 * i + 1) % 2 == 1);
    match c.bo {
        ByteOrder::Little => {
            assert(b[at] == (v % 256) as u8);
            assert(b[at + 1] == (v / 256) as u8);
        },
        ByteOrder::Big => {
            assert(b[at] == (v / 256) as u8);
            assert(b[at + 1] == (v % 256) as u8);
        },
    }
}

/// Differences of samples of 4 bits, likewise modulo 16, the first of two in a byte high.
pub proof fn law_differences4(raw: Seq<u8>, size: int, width: int, rows: int, c: Coding, b: Seq<u8>, d: Seq<u8>, y: int, i: int)
    requires
        undone(raw, size, width, rows, c, b, d),
        c.bps == 4,
        c.samples >= 1,
        0 <= y < rows,
        0 <= i < width * c.samples,
        size == (width * c.samples + 1) / 2 * rows,
    ensures
        ({
            let base = y * ((width * c.samples + 1) / 2);
            let at = |s: Seq<u8>, k: int| if k % 2 == 0 { s[base + k / 2] as int / 16 } else { s[base + k / 2] as int % 16 };
            &&& b.len() == size && d.len() == size
            &&& 0 <= base + i / 2 < size
            &&& i < c.samples ==> at(b, i) == at(d, i)
            &&& i >= c.samples ==> at(b, i) == (at(d, i) + at(b, i - c.samples)) % 16
        }),
{
    let n = width * c.samples;
    let row = (n + 1) / 2;
    lemma_width(width, c.samples as int, i);
    assert(row_bytes_of(width, Coding { predictor: 2, ..c }) == row);
    lemma_row_byte(y, i / 2, row, rows);
    assert(rows * row == row * rows) by (nonlinear_arith);
    lemma_summed_nibble(d, width, rows, c, b, y, i);
    if i >= c.samples {
        lemma_summed_nibble(d, width, rows, c, b, y, i - c.samples);
    }
}

proof fn lemma_summed_nibble(d: Seq<u8>, width: int, rows: int, c: Coding, b: Seq<u8>, y: int, i: int)
    requires
        c.samples >= 1,
        c.bps == 4,
        0 <= y < rows,
        0 <= i < width * c.samples,
        d.len() == (width * c.samples + 1) / 2 * rows,
        summed_rows(d, width, rows, c.samples as int, 4, (width * c.samples + 1) / 2, c.bo) == Some(b),
    ensures
        ({
            let row = (width * c.samples + 1) / 2;
            let s = b[y * row + i / 2] as int;
            (if i % 2 == 0 { s / 16 } else { s % 16 }) == running_sum(d, y * row, c.bo, 4, c.samples as int, i)
        }),
{
    let n = width * c.samples;
    let row = (n + 1) / 2;
    let x = i / 2;
    lemma_width(width, c.samples as int, i);
    lemma_row_byte(y, x, row, rows);
    assert(rows * row == row * rows) by (nonlinear_arith);
    lemma_packed(y, row, x);
    let at = y * row + x;
    let base = y * row;
    let step = c.samples as int;
    lemma_sum_small(d, base, c.bo, 4, step, 2 * x);
    lemma_sum_small(d, base, c.bo, 4, step, 2 * x + 1);
    assert(at / row * row == base);
    let first = running_sum(d, base, c.bo, 4, step, 2 * x);
    let second = if 2 * x + 1 < n { running_sum(d, base, c.bo, 4, step, 2 * x + 1) } else { sample(d, base, c.bo, 4, 2 * x + 1) };
    assert(0 <= second < 16);
    assert(b[at] == (16 * first + second) as u8);
}

/// Samples of one bit that are stored with the first one low are those of the same bytes
/// stored with the first one high, the bits of every byte turned round.
pub proof fn law_low_bits_first(raw: Seq<u8>, size: int, width: int, rows: int, c: Coding, k: int, i: int)
    requires
        c.compression == 1,
        c.predictor == 1,
        c.bps == 1,
        0 <= k < size,
        size <= raw.len(),
        0 <= i < 8,
    ensures
        ({
            let low = block(raw, size, width, rows, Coding { fill: FillOrder::LsbFirst, ..c });
            let high = block(raw, size, width, rows, Coding { fill: FillOrder::MsbFirst, ..c });
            &&& low matches Some(a)
            &&& high matches Some(b)
            &&& a.len() == size && b.len() == size
            &&& b[k] == raw[k]
            &&& byte_bit(a[k], i) == byte_bit(b[k], 7 - i)
        }),
{
    law_reversed_bit(raw[k], i);
}

} // verus!
