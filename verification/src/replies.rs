//! What the bytes that a JPEG decoder puts into planes can change, and what not:
//! whether a page is decoded, its size and its layout do not depend on them.
use vstd::prelude::*;
use crate::compress::min_int;
use crate::decoder::{all_images, first_image, image_of, images_from, jpeg_bytes, lemma_images_kept, tables_of};
use crate::error::Outcome;
use crate::ifd::{header_spec, ifd_spec, ByteOrder, EntryModel, TiffVariant};
use crate::image::ImageModel;
use crate::jpeg::{blank, blend_of, classified, composited, decoded_segment, filled, jpeg_layout, jpeg_strips_from};
use crate::jpeg::{jpeg_tiles_from, jpeg_whole, layout_of, merged, page_depth, planes_hold, Blend, JpegReply};
use crate::page::{page_spec, PageInfo};
use crate::segments::{segment_at, TileGrid};
use crate::types::{COMPRESSION_JPEG_NEW, COMPRESSION_JPEG_OLD};

verus! {

/// Bytes that are there in both or in none, and are as many.
spec fn as_many(a: Option<Seq<u8>>, b: Option<Seq<u8>>) -> bool {
    match (a, b) {
        (Some(x), Some(y)) => x.len() == y.len(),
        (None, None) => true,
        _ => false,
    }
}

/// Planes of one layout classify alike and hold the same pixels.
proof fn lemma_layout_decides(
    p: Seq<(usize, Seq<u8>)>,
    q: Seq<(usize, Seq<u8>)>,
    w: int,
    h: int,
    photometric: u16,
    b: Blend,
    vw: int,
    vh: int,
)
    requires
        layout_of(p) == layout_of(q),
    ensures
        classified(p, w, h, photometric) == classified(q, w, h, photometric),
        planes_hold(p, b, vw, vh) == planes_hold(q, b, vw, vh),
{
    assert(p.len() == layout_of(p).len() && q.len() == layout_of(q).len());
    assert forall|i: int| 0 <= i < p.len() implies (#[trigger] p[i]).0 == q[i].0 && p[i].1.len() == q[i].1.len() by {
        assert(layout_of(p)[i] == layout_of(q)[i]);
    }
    if p.len() > 0 {
        assert(p[0].0 == q[0].0);
    }
    if p.len() > 1 {
        assert(p[1].0 == q[1].0);
    }
    if p.len() > 2 {
        assert(p[2].0 == q[2].0);
    }
}

/// Whether a strip or tile can be put into a picture does not depend on its bytes.
proof fn lemma_composited_alike(
    dst: Seq<u8>,
    dst2: Seq<u8>,
    stride: int,
    x0: int,
    y0: int,
    tables: Option<Seq<u8>>,
    raw: Seq<u8>,
    w: int,
    h: int,
    photometric: u16,
    vw: int,
    vh: int,
    r: JpegReply,
    r2: JpegReply,
)
    requires
        dst.len() == dst2.len(),
    ensures
        as_many(
            composited(dst, stride, x0, y0, decoded_segment(tables, raw, w, h, photometric, r), photometric, vw, vh),
            composited(dst2, stride, x0, y0, decoded_segment(tables, raw, w, h, photometric, r2), photometric, vw, vh),
        ),
{
    if let Some(m) = merged(tables, raw) {
        let l = jpeg_layout(m);
        if l is Some {
            let p = filled(l, r).unwrap();
            let q = filled(l, r2).unwrap();
            assert(layout_of(p) =~= layout_of(q));
            lemma_layout_decides(p, q, w, h, photometric, Blend::Planar, vw, vh);
            if let Some(f) = classified(p, w, h, photometric) {
                if let Some(b) = blend_of(f, photometric) {
                    lemma_layout_decides(p, q, w, h, photometric, b, vw, vh);
                }
            }
        }
    }
}

proof fn lemma_strips_alike(
    input: Seq<u8>,
    offsets: Seq<int>,
    counts: Seq<int>,
    i: int,
    done: int,
    dst: Seq<u8>,
    dst2: Seq<u8>,
    tables: Option<Seq<u8>>,
    width: int,
    height: int,
    rows_per_strip: int,
    photometric: u16,
    rs: Seq<JpegReply>,
    qs: Seq<JpegReply>,
)
    requires
        dst.len() == dst2.len(),
    ensures
        as_many(
            jpeg_strips_from(
                input,
                offsets,
                counts,
                i,
                done,
                dst,
                tables,
                width,
                height,
                rows_per_strip,
                photometric,
                rs,
            ),
            jpeg_strips_from(
                input,
                offsets,
                counts,
                i,
                done,
                dst2,
                tables,
                width,
                height,
                rows_per_strip,
                photometric,
                qs,
            ),
        ),
    decreases offsets.len() - i,
{
    if done < height && i < offsets.len() {
        let rows = min_int(rows_per_strip, height - done);
        if let Some(raw) = segment_at(input, offsets[i], counts[i]) {
            let stride = width * page_depth(photometric);
            lemma_composited_alike(
                dst,
                dst2,
                stride,
                0,
                done,
                tables,
                raw,
                width,
                rows,
                photometric,
                width,
                rows,
                rs[i],
                qs[i],
            );
            let a = composited(
                dst,
                stride,
                0,
                done,
                decoded_segment(tables, raw, width, rows, photometric, rs[i]),
                photometric,
                width,
                rows,
            );
            let b = composited(
                dst2,
                stride,
                0,
                done,
                decoded_segment(tables, raw, width, rows, photometric, qs[i]),
                photometric,
                width,
                rows,
            );
            if a is Some {
                lemma_strips_alike(
                    input,
                    offsets,
                    counts,
                    i + 1,
                    done + rows,
                    a.unwrap(),
                    b.unwrap(),
                    tables,
                    width,
                    height,
                    rows_per_strip,
                    photometric,
                    rs,
                    qs,
                );
            }
        }
    }
}

proof fn lemma_tiles_alike(
    input: Seq<u8>,
    offsets: Seq<int>,
    counts: Seq<int>,
    i: int,
    dst: Seq<u8>,
    dst2: Seq<u8>,
    tables: Option<Seq<u8>>,
    t: TileGrid,
    photometric: u16,
    rs: Seq<JpegReply>,
    qs: Seq<JpegReply>,
)
    requires
        dst.len() == dst2.len(),
    ensures
        as_many(
            jpeg_tiles_from(input, offsets, counts, i, dst, tables, t, photometric, rs),
            jpeg_tiles_from(input, offsets, counts, i, dst2, tables, t, photometric, qs),
        ),
    decreases offsets.len() - i,
{
    if 0 <= i < offsets.len() {
        let x0 = i % t.across() * t.tile_w;
        let y0 = i / t.across() * t.tile_h;
        let vw = min_int(t.tile_w as int, t.width - x0);
        let vh = min_int(t.tile_h as int, t.height - y0);
        let stride = t.width * page_depth(photometric);
        if let Some(raw) = segment_at(input, offsets[i], counts[i]) {
            lemma_composited_alike(
                dst,
                dst2,
                stride,
                x0,
                y0,
                tables,
                raw,
                t.tile_w as int,
                t.tile_h as int,
                photometric,
                vw,
                vh,
                rs[i],
                qs[i],
            );
            let a = composited(
                dst,
                stride,
                x0,
                y0,
                decoded_segment(tables, raw, t.tile_w as int, t.tile_h as int, photometric, rs[i]),
                photometric,
                vw,
                vh,
            );
            let b = composited(
                dst2,
                stride,
                x0,
                y0,
                decoded_segment(tables, raw, t.tile_w as int, t.tile_h as int, photometric, qs[i]),
                photometric,
                vw,
                vh,
            );
            if a is Some {
                lemma_tiles_alike(
                    input,
                    offsets,
                    counts,
                    i + 1,
                    a.unwrap(),
                    b.unwrap(),
                    tables,
                    t,
                    photometric,
                    rs,
                    qs,
                );
            }
        }
    }
}

proof fn lemma_whole_alike(stream: Seq<u8>, width: int, height: int, photometric: u16, r: JpegReply, r2: JpegReply)
    ensures
        as_many(
            jpeg_whole(stream, width, height, photometric, r),
            jpeg_whole(stream, width, height, photometric, r2),
        ),
{
    let dst = blank(width * height * page_depth(photometric));
    lemma_composited_alike(
        dst,
        dst,
        width * page_depth(photometric),
        0,
        0,
        None,
        stream,
        width,
        height,
        photometric,
        width,
        height,
        r,
        r2,
    );
}

/// The displayed bytes of a JPEG page are there or not, and as many, whatever the
/// decoder put into its planes.
proof fn lemma_bytes_alike(
    input: Seq<u8>,
    es: Seq<EntryModel>,
    bo: ByteOrder,
    p: PageInfo,
    rs: Seq<JpegReply>,
    qs: Seq<JpegReply>,
)
    ensures
        as_many(jpeg_bytes(input, es, bo, p, rs), jpeg_bytes(input, es, bo, p, qs)),
{
    let dst = blank(p.width * p.height * page_depth(p.photometric));
    let tables = tables_of(es);
    assert forall|offsets: Seq<int>, counts: Seq<int>, t: TileGrid| as_many(
        #[trigger] jpeg_tiles_from(input, offsets, counts, 0, dst, tables, t, p.photometric, rs),
        jpeg_tiles_from(input, offsets, counts, 0, dst, tables, t, p.photometric, qs),
    ) by {
        lemma_tiles_alike(input, offsets, counts, 0, dst, dst, tables, t, p.photometric, rs, qs);
    }
    assert forall|offsets: Seq<int>, counts: Seq<int>, n: int| as_many(
        #[trigger] jpeg_strips_from(
            input,
            offsets,
            counts,
            0,
            0,
            dst,
            tables,
            p.width as int,
            p.height as int,
            n,
            p.photometric,
            rs,
        ),
        jpeg_strips_from(
            input,
            offsets,
            counts,
            0,
            0,
            dst,
            tables,
            p.width as int,
            p.height as int,
            n,
            p.photometric,
            qs,
        ),
    ) by {
        lemma_strips_alike(
            input,
            offsets,
            counts,
            0,
            0,
            dst,
            dst,
            tables,
            p.width as int,
            p.height as int,
            n,
            p.photometric,
            rs,
            qs,
        );
    }
}

/// Pictures of the same size and layout.
pub open spec fn same_layout(a: ImageModel, b: ImageModel) -> bool {
    &&& a.width == b.width
    &&& a.height == b.height
    &&& a.pixel_format == b.pixel_format
    &&& a.stride == b.stride
    &&& a.data.len() == b.data.len()
}

/// Pictures of the same size and layout, or the same error.
pub open spec fn alike(a: Outcome<ImageModel>, b: Outcome<ImageModel>) -> bool {
    match (a, b) {
        (Ok(x), Ok(y)) => same_layout(x, y),
        (Err(j), Err(k)) => j == k,
        _ => false,
    }
}

/// The pixels of a page come from a JPEG decoder.
pub open spec fn from_jpeg(es: Seq<EntryModel>, bo: ByteOrder) -> bool {
    page_spec(es, bo) matches Ok(p) && (p.compression == COMPRESSION_JPEG_NEW || p.compression == COMPRESSION_JPEG_OLD)
}

/// Whether a page is decoded, its size and its layout do not depend on the bytes that
/// a JPEG decoder puts into planes; a page that is not a JPEG page does not depend on
/// them at all.
pub proof fn law_page_alike(
    input: Seq<u8>,
    es: Seq<EntryModel>,
    bo: ByteOrder,
    rs: Seq<JpegReply>,
    qs: Seq<JpegReply>,
)
    ensures
        alike(image_of(input, es, bo, rs), image_of(input, es, bo, qs)),
        !from_jpeg(es, bo) ==> image_of(input, es, bo, rs) == image_of(input, es, bo, qs),
{
    if let Ok(p) = page_spec(es, bo) {
        lemma_bytes_alike(input, es, bo, p, rs, qs);
        assert forall|stream: Seq<u8>| as_many(
            #[trigger] jpeg_whole(stream, p.width as int, p.height as int, p.photometric, rs[0]),
            jpeg_whole(stream, p.width as int, p.height as int, p.photometric, qs[0]),
        ) by {
            lemma_whole_alike(stream, p.width as int, p.height as int, p.photometric, rs[0], qs[0]);
        }
    }
}

/// The first page of a file is a JPEG page.
pub open spec fn first_from_jpeg(input: Seq<u8>) -> bool {
    header_spec(input) matches Ok(h) && (ifd_spec(input, h.0, h.1, h.2) matches Ok(d) && from_jpeg(d.0, h.0))
}

/// Two decodings of the first page of a file give pictures of the same size and
/// layout, or the same error; the same picture unless it is a JPEG page.
pub proof fn law_first_alike(input: Seq<u8>, rs: Seq<JpegReply>, qs: Seq<JpegReply>)
    ensures
        alike(first_image(input, rs), first_image(input, qs)),
        !first_from_jpeg(input) ==> first_image(input, rs) == first_image(input, qs),
{
    if let Ok(h) = header_spec(input) {
        if let Ok(d) = ifd_spec(input, h.0, h.1, h.2) {
            law_page_alike(input, d.0, h.0, rs, qs);
        }
    }
}

/// Where all pages of a file can be decoded, there is one, and the first picture is
/// that of the first page: a decoding of the first page gives it too, where the JPEG
/// decoder puts the same bytes into its planes or is not asked, and one of its size
/// and layout in any case.
pub proof fn law_first_of_all(input: Seq<u8>, first: Seq<JpegReply>, replies: Seq<Seq<JpegReply>>)
    ensures
        all_images(input, replies) matches Ok(v) ==> {
            &&& v.len() >= 1
            &&& alike(first_image(input, first), Ok(v[0]))
            &&& first == replies[0] || !first_from_jpeg(input) ==> first_image(input, first) == Outcome::<ImageModel>::Ok(
                v[0],
            )
        },
{
    law_first_alike(input, first, replies[0]);
    if let Ok(h) = header_spec(input) {
        if h.2 != 0 {
            if let Ok(d) = ifd_spec(input, h.0, h.1, h.2) {
                if let Ok(m) = image_of(input, d.0, h.0, replies[0]) {
                    let one = Seq::<ImageModel>::empty().push(m);
                    lemma_images_kept(input, h.0, h.1, d.1, Seq::<int>::empty().push(h.2), one, replies);
                    assert(one[0] == m);
                }
            }
        }
    }
}

/// Pictures of the same sizes and layouts, or the same error.
pub open spec fn all_alike(a: Outcome<Seq<ImageModel>>, b: Outcome<Seq<ImageModel>>) -> bool {
    match (a, b) {
        (Ok(x), Ok(y)) => x.len() == y.len() && forall|k: int| 0 <= k < x.len() ==> same_layout(#[trigger] x[k], y[k]),
        (Err(j), Err(k)) => j == k,
        _ => false,
    }
}

proof fn lemma_images_alike(
    input: Seq<u8>,
    bo: ByteOrder,
    variant: TiffVariant,
    next: int,
    visited: Seq<int>,
    out: Seq<ImageModel>,
    out2: Seq<ImageModel>,
    rs: Seq<Seq<JpegReply>>,
    qs: Seq<Seq<JpegReply>>,
)
    requires
        out.len() == out2.len(),
        forall|k: int| 0 <= k < out.len() ==> same_layout(#[trigger] out[k], out2[k]),
    ensures
        all_alike(
            images_from(input, bo, variant, next, visited, out, rs),
            images_from(input, bo, variant, next, visited, out2, qs),
        ),
    decreases input.len() - visited.len(),
{
    if next != 0 && !visited.contains(next) && visited.len() < input.len() {
        if let Ok(d) = ifd_spec(input, bo, variant, next) {
            let n = out.len() as int;
            law_page_alike(input, d.0, bo, rs[n], qs[n]);
            if image_of(input, d.0, bo, rs[n]) is Ok {
                let m = image_of(input, d.0, bo, rs[n])->Ok_0;
                let m2 = image_of(input, d.0, bo, qs[n])->Ok_0;
                assert forall|k: int| 0 <= k < out.push(m).len() implies same_layout(
                    #[trigger] out.push(m)[k],
                    out2.push(m2)[k],
                ) by {
                    if k < n {
                        assert(same_layout(out[k], out2[k]));
                    }
                }
                lemma_images_alike(
                    input,
                    bo,
                    variant,
                    d.1,
                    visited.push(next),
                    out.push(m),
                    out2.push(m2),
                    rs,
                    qs,
                );
            }
        }
    }
}

/// Two decodings of all pages of a file give as many pictures, of the same sizes and
/// layouts, or the same error.
pub proof fn law_all_alike(input: Seq<u8>, rs: Seq<Seq<JpegReply>>, qs: Seq<Seq<JpegReply>>)
    ensures
        all_alike(all_images(input, rs), all_images(input, qs)),
{
    if let Ok(h) = header_spec(input) {
        lemma_images_alike(input, h.0, h.1, h.2, Seq::empty(), Seq::empty(), Seq::empty(), rs, qs);
    }
}

} // verus!
