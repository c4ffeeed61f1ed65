//! Which encoded pages can be read: a page that is decoded has pixels, but not too
//! many, and no strip or tile that is too large for its codec.
use vstd::prelude::*;
use crate::compress::min_int;
use crate::decoder::{all_images, first_image, image_of, images_from, plane_strips, samples_of, tile_grid, units_of};
use crate::encoder::{all_addressable, all_planned, directory_at, encoded, file_bytes, header_bytes, header_size};
use crate::encoder::{file_of, read_as, written};
use crate::encoder::{lemma_header_len, lemma_pages_len, page_start, plans_of, replies_at, variant_of, EncodePage};
use crate::error::{ErrorKind, Outcome};
use crate::ifd::{header_spec, ifd_spec, ByteOrder, TiffVariant};
use crate::image::ImageModel;
use crate::jpeg::JpegReply;
use crate::layout::{le, lemma_le_len, lemma_segment_placed, room_of, PlanModel};
use crate::page::value_of;
use crate::readback::{grid_of, info_of, lemma_directories, lemma_directory_read, lemma_directory_small};
use crate::readback::{lemma_find_field, lemma_grid_positive, lemma_header_read, lemma_layout_read, lemma_number};
use crate::readback::{lemma_page_placed, lemma_page_shown, lemma_pixel_fields, lemma_place_list, lemma_row_bytes};
use crate::readback::{all_readable, page_coding, page_outcome, pages_outcome, placed_in, readable_page, shown};
use crate::render::{ceil_div, page_size_ok};
use crate::segments::{block, row_bytes_of, strip_size, strips_from, tile_block, tiles_spec, unpacked, StripGrid};
use crate::types::{TAG_ROWS_PER_STRIP, TAG_STRIP_BYTE_COUNTS, TAG_STRIP_OFFSETS, TAG_TILE_BYTE_COUNTS, TAG_TILE_LENGTH};
use crate::types::{BIGTIFF_MAGIC, BYTE_ORDER_LE, TAG_TILE_OFFSETS, TAG_TILE_WIDTH, TIFF_MAGIC};
use crate::webp::WebpReply;

verus! {

/// The first strip or tile of a page must be read for the page to be.
spec fn first_read(p: EncodePage<'_>, m: PlanModel) -> bool {
    block(m.segments[0], p.seg_size(), p.seg_w() as int, p.seg_h() as int, page_coding(p)) is Some
}

/// A page of one strip is read only if the strip is.
proof fn lemma_strip_needed(file: Seq<u8>, p: EncodePage<'_>, m: PlanModel, a: int, v: TiffVariant, next: int)
    requires
        placed_in(file, p, m, a, v, next),
        page_size_ok(p.width as int, p.height as int),
        p.tiling is None,
        samples_of(file, m.read_fields(a, v), ByteOrder::Little, info_of(p)) is Some,
    ensures
        first_read(p, m),
{
    let es = m.read_fields(a, v);
    let bo = ByteOrder::Little;
    let c = page_coding(p);
    let h = p.height as int;
    lemma_find_field(p, m, a, v, TAG_TILE_WIDTH);
    lemma_layout_read(p, m, a, v);
    reveal_with_fuel(room_of, 5);
    lemma_number(p, m, a, v, TAG_ROWS_PER_STRIP, h, 4);
    lemma_place_list(p, m, a, v, TAG_STRIP_OFFSETS, m.offsets(a));
    lemma_place_list(p, m, a, v, TAG_STRIP_BYTE_COUNTS, m.counts());
    assert(value_of(es, bo, TAG_ROWS_PER_STRIP, h) == h);
    let g = StripGrid { width: p.width, height: p.height, rows_per_strip: p.height, units: None };
    lemma_row_bytes(p, p.width as int);
    let rb = row_bytes_of(p.width as int, c);
    assert(rb * h == h * rb) by (nonlinear_arith);
    assert(m.segments.len() > 0);
    lemma_segment_placed(file, m, a, v, next, 0);
    reveal_with_fuel(strips_from, 3);
    assert(strip_size(g, h, c) == rb * h);
    assert(min_int(h, h - 0) == h);
    if p.planar {
        vstd::arithmetic::div_mod::lemma_fundamental_div_mod_converse(h + h - 1, h, 1, h - 1);
        assert(ceil_div(h, h) == 1);
        let offs = m.offsets(a);
        let cnts = m.counts();
        assert(plane_strips(file, offs, cnts, g, c, 1, 0) is Some);
        assert(0 * 1 == 0);
    } else {
        assert(units_of(es, bo, info_of(p)) == Some(None::<(u32, u32)>));
    }
}

/// A page in tiles is read only if the first tile is.
proof fn lemma_tile_needed(file: Seq<u8>, p: EncodePage<'_>, m: PlanModel, a: int, v: TiffVariant, next: int)
    requires
        placed_in(file, p, m, a, v, next),
        page_size_ok(p.width as int, p.height as int),
        p.tiling is Some,
        samples_of(file, m.read_fields(a, v), ByteOrder::Little, info_of(p)) is Some,
    ensures
        first_read(p, m),
{
    let es = m.read_fields(a, v);
    let bo = ByteOrder::Little;
    let c = page_coding(p);
    let grid = p.across() * p.down();
    lemma_find_field(p, m, a, v, TAG_TILE_WIDTH);
    lemma_layout_read(p, m, a, v);
    reveal_with_fuel(room_of, 5);
    lemma_number(p, m, a, v, TAG_TILE_WIDTH, p.seg_w() as int, 4);
    lemma_number(p, m, a, v, TAG_TILE_LENGTH, p.seg_h() as int, 4);
    lemma_place_list(p, m, a, v, TAG_TILE_OFFSETS, m.offsets(a));
    lemma_place_list(p, m, a, v, TAG_TILE_BYTE_COUNTS, m.counts());
    assert(value_of(es, bo, TAG_TILE_WIDTH, 0) == p.seg_w());
    assert(value_of(es, bo, TAG_TILE_LENGTH, 0) == p.seg_h());
    let t = grid_of(p);
    assert(tile_grid(es, bo, info_of(p)) == Some(t));
    lemma_grid_positive(p);
    assert(t.across() == p.across() && t.down() == p.down());
    let offs = m.offsets(a);
    let cnts = m.counts();
    assert(0 * grid == 0) by (nonlinear_arith);
    assert(tiles_spec(file, offs, cnts, 0, t, c) is Some) by {
        if p.planar {
            assert(tiles_spec(file, offs, cnts, 0 * (t.across() * t.down()), t, c) is Some);
        }
    }
    assert(tile_block(file, offs, cnts, 0, t, c) is Some);
    lemma_row_bytes(p, p.seg_w() as int);
    assert(p.seg_row() * p.seg_h() == p.seg_h() * p.seg_row()) by (nonlinear_arith);
    assert(m.segments.len() > 0);
    lemma_segment_placed(file, m, a, v, next, 0);
}

/// A page that is not a readable one is invalid.
proof fn lemma_unreadable(
    file: Seq<u8>,
    p: EncodePage<'_>,
    m: PlanModel,
    a: int,
    v: TiffVariant,
    next: int,
    replies: Seq<JpegReply>,
)
    requires
        placed_in(file, p, m, a, v, next),
        p.segments_bounded(m.segments),
        !readable_page(p),
    ensures
        image_of(file, m.read_fields(a, v), ByteOrder::Little, replies) == Outcome::<ImageModel>::Err(ErrorKind::Invalid),
{
    lemma_pixel_fields(p, m, a, v);
    if page_size_ok(p.width as int, p.height as int) {
        lemma_layout_read(p, m, a, v);
        if samples_of(file, m.read_fields(a, v), ByteOrder::Little, info_of(p)) is Some {
            if p.tiling is Some {
                lemma_tile_needed(file, p, m, a, v, next);
            } else {
                lemma_strip_needed(file, p, m, a, v, next);
            }
            assert(unpacked(m.segments[0], p.seg_size(), p.seg_w() as int, p.seg_h() as int, page_coding(p)) is Some);
        }
    }
}

/// The directory of a page is read, and what the page shows.
proof fn lemma_page_read(
    file: Seq<u8>,
    pages: Seq<EncodePage<'_>>,
    plans: Seq<PlanModel>,
    v: TiffVariant,
    k: int,
    replies: Seq<JpegReply>,
)
    requires
        0 <= k < pages.len(),
        all_planned(pages, v, plans),
        all_addressable(plans, v),
        file == file_bytes(plans, v),
        pages[k].segments_sound(plans[k].segments),
    ensures
        ({
            let d = ifd_spec(file, ByteOrder::Little, v, directory_at(plans, v, k));
            &&& d matches Ok(x) && x.1 == directory_at(plans, v, k + 1)
            &&& d matches Ok(x) && image_of(file, x.0, ByteOrder::Little, replies) == page_outcome(pages[k])
        }),
{
    let a = page_start(plans, v, k);
    let next = directory_at(plans, v, k + 1);
    lemma_directory_read(file, pages, plans, v, k);
    lemma_page_placed(file, pages, plans, v, k);
    if readable_page(pages[k]) {
        lemma_page_shown(file, pages[k], plans[k], a, v, next, replies);
    } else {
        lemma_unreadable(file, pages[k], plans[k], a, v, next, replies);
    }
}

/// The pages from page `k` on can be read back.
spec fn readable_from(pages: Seq<EncodePage<'_>>, k: int) -> bool {
    forall|j: int| k <= j < pages.len() ==> readable_page(#[trigger] pages[j])
}

/// The pages are written to the file, and decompress as they should.
#[verifier::opaque]
spec fn laid(file: Seq<u8>, pages: Seq<EncodePage<'_>>, plans: Seq<PlanModel>, v: TiffVariant) -> bool {
    &&& all_planned(pages, v, plans)
    &&& all_addressable(plans, v)
    &&& file == file_bytes(plans, v)
    &&& forall|k: int| 0 <= k < pages.len() ==> (#[trigger] pages[k]).segments_sound(plans[k].segments)
}

/// What decoding does from page `k` on, one page further.
proof fn lemma_images_step(
    file: Seq<u8>,
    pages: Seq<EncodePage<'_>>,
    plans: Seq<PlanModel>,
    v: TiffVariant,
    k: int,
    replies: Seq<Seq<JpegReply>>,
)
    requires
        0 <= k < pages.len(),
        laid(file, pages, plans, v),
    ensures
        ({
            let visited = Seq::new(k as nat, |j: int| directory_at(plans, v, j));
            let out = Seq::new(k as nat, |j: int| shown(pages[j]));
            let here = directory_at(plans, v, k);
            images_from(file, ByteOrder::Little, v, here, visited, out, replies) == (match page_outcome(pages[k]) {
                Ok(m) => images_from(
                    file,
                    ByteOrder::Little,
                    v,
                    directory_at(plans, v, k + 1),
                    visited.push(here),
                    out.push(m),
                    replies,
                ),
                Err(e) => Err(e),
            })
        }),
{
    reveal(laid);
    let n = pages.len() as int;
    let visited = Seq::new(k as nat, |j: int| directory_at(plans, v, j));
    let here = directory_at(plans, v, k);
    assert(pages[k].segments_sound(plans[k].segments));
    lemma_page_read(file, pages, plans, v, k, replies[k]);
    lemma_directories(plans, v, k, n);
    lemma_header_len(v, directory_at(plans, v, 0));
    lemma_pages_len(plans, v, n);
    assert(!visited.contains(here)) by {
        if visited.contains(here) {
            let j = choose|j: int| 0 <= j < visited.len() && visited[j] == here;
            lemma_directories(plans, v, j, k);
        }
    }
    assert(visited.len() < file.len());
}

/// The pages of a file from page `k` on are decoded to what they show.
proof fn lemma_images_from(
    file: Seq<u8>,
    pages: Seq<EncodePage<'_>>,
    plans: Seq<PlanModel>,
    v: TiffVariant,
    k: int,
    replies: Seq<Seq<JpegReply>>,
)
    requires
        0 <= k <= pages.len(),
        laid(file, pages, plans, v),
    ensures
        images_from(
            file,
            ByteOrder::Little,
            v,
            directory_at(plans, v, k),
            Seq::new(k as nat, |j: int| directory_at(plans, v, j)),
            Seq::new(k as nat, |j: int| shown(pages[j])),
            replies,
        ) == (if readable_from(pages, k) {
            Outcome::<Seq<ImageModel>>::Ok(Seq::new(pages.len(), |j: int| shown(pages[j])))
        } else {
            Err(ErrorKind::Invalid)
        }),
    decreases pages.len() - k,
{
    let n = pages.len() as int;
    let visited = Seq::new(k as nat, |j: int| directory_at(plans, v, j));
    let out = Seq::new(k as nat, |j: int| shown(pages[j]));
    if k == n {
        assert(plans.len() == n) by {
            reveal(laid);
        }
        assert(out =~= Seq::new(pages.len(), |j: int| shown(pages[j])));
    } else {
        lemma_images_step(file, pages, plans, v, k, replies);
        lemma_images_from(file, pages, plans, v, k + 1, replies);
        assert(visited.push(directory_at(plans, v, k)) =~= Seq::new(
            (k + 1) as nat,
            |j: int| directory_at(plans, v, j),
        ));
        assert(out.push(shown(pages[k])) =~= Seq::new((k + 1) as nat, |j: int| shown(pages[j])));
        assert(readable_from(pages, k) <==> readable_page(pages[k]) && readable_from(pages, k + 1)) by {
            if readable_page(pages[k]) && readable_from(pages, k + 1) {
                assert forall|j: int| k <= j < pages.len() implies readable_page(#[trigger] pages[j]) by {
                }
            }
        }
    }
}

/// The header and the pages of a written file.
proof fn lemma_file(pages: Seq<EncodePage<'_>>, replies: Seq<Seq<WebpReply>>, plans: Seq<PlanModel>, file: Seq<u8>)
    requires
        encoded(pages, replies) == Outcome::<Seq<u8>>::Ok(file),
        plans_of(pages, variant_of(pages[0]), replies) == Some(plans),
    ensures
        pages.len() > 0,
        all_planned(pages, variant_of(pages[0]), plans),
        all_addressable(plans, variant_of(pages[0])),
        file == file_bytes(plans, variant_of(pages[0])),
        header_size(variant_of(pages[0])) <= file.len(),
        file.take(header_size(variant_of(pages[0]))) == header_bytes(
            variant_of(pages[0]),
            directory_at(plans, variant_of(pages[0]), 0),
        ),
        header_spec(file) == Outcome::<(ByteOrder, TiffVariant, int)>::Ok(
            (ByteOrder::Little, variant_of(pages[0]), directory_at(plans, variant_of(pages[0]), 0)),
        ),
{
    let v = variant_of(pages[0]);
    let first = directory_at(plans, v, 0);
    assert forall|k: int| 0 <= k < pages.len() implies (#[trigger] pages[k]).planned(v, plans[k]) by {
        assert(pages[k].plan(v, replies_at(replies, k)) is Some);
        assert(pages[k].plan(v, replies_at(replies, k)) == Some(plans[k]));
    }
    lemma_directory_small(plans, v, 0);
    lemma_header_len(v, first);
    lemma_pages_len(plans, v, plans.len() as int);
    assert(file.take(header_size(v)) =~= header_bytes(v, first));
    lemma_header_read(file, v, first);
}

/// Decoding an encoded file gives what its pages show: the first, and all. A page that
/// is decoded is one that can be read back, and the others are errors.
pub proof fn law_read_back(pages: Seq<EncodePage<'_>>, file: Seq<u8>)
    requires
        file_of(pages, file),
    ensures
        read_as(file, pages),
{
    let replies = choose|replies: Seq<Seq<WebpReply>>| #[trigger] written(pages, replies, file);
    let v = variant_of(pages[0]);
    let plans = plans_of(pages, v, replies).unwrap();
    lemma_file(pages, replies, plans, file);
    assert(laid(file, pages, plans, v)) by {
        reveal(laid);
    }
    assert(Seq::new(0, |j: int| directory_at(plans, v, j)) =~= Seq::empty());
    assert(Seq::new(0, |j: int| shown(pages[j])) =~= Seq::empty());
    assert(pages[0].segments_sound(plans[0].segments));
    assert forall|rs: Seq<JpegReply>| #[trigger] first_image(file, rs) == page_outcome(pages[0]) by {
        lemma_page_read(file, pages, plans, v, 0, rs);
    }
    assert(readable_from(pages, 0) == all_readable(pages));
    assert forall|rs: Seq<Seq<JpegReply>>| #[trigger] all_images(file, rs) == pages_outcome(pages) by {
        lemma_images_from(file, pages, plans, v, 0, rs);
    }
}

/// Pages with the same pixels.
pub open spec fn same_pixels(a: Seq<EncodePage<'_>>, b: Seq<EncodePage<'_>>) -> bool {
    &&& a.len() == b.len()
    &&& forall|k: int|
        0 <= k < a.len() ==> (#[trigger] a[k]).width == b[k].width && a[k].height == b[k].height && a[k].kind
            == b[k].kind
}

/// Pages with the same pixels show the same.
proof fn lemma_same_pictures(a: Seq<EncodePage<'_>>, b: Seq<EncodePage<'_>>)
    requires
        same_pixels(a, b),
        a.len() > 0,
    ensures
        shown(a[0]) == shown(b[0]),
        Seq::new(a.len(), |k: int| shown(a[k])) == Seq::new(b.len(), |k: int| shown(b[k])),
{
    let x = Seq::new(a.len(), |k: int| shown(a[k]));
    let y = Seq::new(b.len(), |k: int| shown(b[k]));
    assert forall|k: int| 0 <= k < x.len() implies #[trigger] x[k] == y[k] by {
        assert(a[k].kind == b[k].kind);
    }
    assert(x[0] == y[0]);
    assert(x =~= y);
}

/// How pages are stored does not change what they show: files of pages with the same
/// pixels, where both are decoded, are decoded to the same pictures, whatever their
/// compression, strips, tiles, planes, differences and variant.
pub proof fn law_storage_unseen(
    pages_a: Seq<EncodePage<'_>>,
    file_a: Seq<u8>,
    pages_b: Seq<EncodePage<'_>>,
    file_b: Seq<u8>,
)
    requires
        file_of(pages_a, file_a),
        file_of(pages_b, file_b),
        same_pixels(pages_a, pages_b),
    ensures
        forall|rs: Seq<JpegReply>, qs: Seq<JpegReply>|
            first_image(file_a, rs) is Ok && first_image(file_b, qs) is Ok ==> #[trigger] first_image(file_a, rs)
                == #[trigger] first_image(file_b, qs),
        forall|rs: Seq<Seq<JpegReply>>, qs: Seq<Seq<JpegReply>>|
            all_images(file_a, rs) is Ok && all_images(file_b, qs) is Ok ==> #[trigger] all_images(file_a, rs)
                == #[trigger] all_images(file_b, qs),
{
    law_read_back(pages_a, file_a);
    law_read_back(pages_b, file_b);
    let replies = choose|replies: Seq<Seq<WebpReply>>| #[trigger] written(pages_a, replies, file_a);
    assert(pages_a.len() > 0);
    lemma_same_pictures(pages_a, pages_b);
}

/// Pages that differ in the variant of the format only.
pub open spec fn other_variant(a: Seq<EncodePage<'_>>, b: Seq<EncodePage<'_>>) -> bool {
    &&& a.len() == b.len()
    &&& forall|k: int| 0 <= k < a.len() ==> #[trigger] b[k] == (EncodePage { bigtiff: !a[k].bigtiff, ..a[k] })
}

/// The variant of the format does not change what pages show: written in the one and
/// in the other, they are decoded to the same, pictures or errors.
pub proof fn law_variants_agree(
    pages_a: Seq<EncodePage<'_>>,
    file_a: Seq<u8>,
    pages_b: Seq<EncodePage<'_>>,
    file_b: Seq<u8>,
)
    requires
        file_of(pages_a, file_a),
        file_of(pages_b, file_b),
        other_variant(pages_a, pages_b),
    ensures
        forall|rs: Seq<JpegReply>, qs: Seq<JpegReply>| #[trigger]
            first_image(file_a, rs) == #[trigger] first_image(file_b, qs),
        forall|rs: Seq<Seq<JpegReply>>, qs: Seq<Seq<JpegReply>>| #[trigger]
            all_images(file_a, rs) == #[trigger] all_images(file_b, qs),
{
    law_read_back(pages_a, file_a);
    law_read_back(pages_b, file_b);
    let replies = choose|replies: Seq<Seq<WebpReply>>| #[trigger] written(pages_a, replies, file_a);
    assert(pages_a.len() > 0);
    assert(same_pixels(pages_a, pages_b)) by {
        assert forall|k: int| 0 <= k < pages_a.len() implies (#[trigger] pages_a[k]).width == pages_b[k].width
            && pages_a[k].height == pages_b[k].height && pages_a[k].kind == pages_b[k].kind by {
            assert(pages_b[k] == (EncodePage { bigtiff: !pages_a[k].bigtiff, ..pages_a[k] }));
        }
    }
    lemma_same_pictures(pages_a, pages_b);
    assert forall|k: int| 0 <= k < pages_a.len() implies readable_page(#[trigger] pages_a[k]) == readable_page(
        pages_b[k],
    ) by {
        assert(pages_b[k] == (EncodePage { bigtiff: !pages_a[k].bigtiff, ..pages_a[k] }));
        assert(pages_a[k].seg_size() == pages_b[k].seg_size());
    }
    assert(readable_page(pages_a[0]) == readable_page(pages_b[0]));
    assert(all_readable(pages_a) == all_readable(pages_b)) by {
        if all_readable(pages_a) {
            assert forall|k: int| 0 <= k < pages_b.len() implies readable_page(#[trigger] pages_b[k]) by {
                assert(readable_page(pages_a[k]));
            }
        }
    }
}

/// The first bytes of a header.
proof fn lemma_mark(v: TiffVariant, first: int)
    ensures
        header_bytes(v, first).len() >= 4,
        header_bytes(v, first).take(4) == seq![0x49u8, 0x49, if v is Big { 43u8 } else { 42 }, 0],
{
    let head = header_bytes(v, first);
    let magic: int = if v is Big { BIGTIFF_MAGIC as int } else { TIFF_MAGIC as int };
    let mark = le(BYTE_ORDER_LE as int, 2) + le(magic, 2);
    lemma_header_len(v, first);
    lemma_le_len(BYTE_ORDER_LE as int, 2);
    lemma_le_len(magic, 2);
    assert(head.take(4) =~= mark);
    assert(mark =~= seq![0x49u8, 0x49, if v is Big { 43u8 } else { 42 }, 0]) by {
        reveal_with_fuel(le, 3);
    }
}

/// A file starts with the mark of little-endian files and with the number of its
/// variant.
pub proof fn law_first_bytes(pages: Seq<EncodePage<'_>>, file: Seq<u8>)
    requires
        file_of(pages, file),
    ensures
        file.len() >= 4,
        file.take(4) == seq![0x49u8, 0x49, if pages[0].bigtiff { 43u8 } else { 42 }, 0],
{
    let replies = choose|replies: Seq<Seq<WebpReply>>| #[trigger] written(pages, replies, file);
    let v = variant_of(pages[0]);
    let plans = plans_of(pages, v, replies).unwrap();
    lemma_file(pages, replies, plans, file);
    let first = directory_at(plans, v, 0);
    lemma_mark(v, first);
    assert(file.take(header_size(v)).take(4) =~= file.take(4));
}

} // verus!
