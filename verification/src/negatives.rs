//! Pages of gray samples with 0 for white are the negatives of those with 0 for black.
use vstd::prelude::*;
use crate::decoder::{coding_of, displayed, image_of, needed_list, places, planar_strip_samples, planar_tile_samples, rendered};
use crate::decoder::{samples_of, strip_samples, subsampling, tile_grid, tile_samples, units_of};
use crate::error::Outcome;
use crate::ifd::{find_spec, ByteOrder, EntryModel};
use crate::jpeg::JpegReply;
use crate::metadata::number_of;
use crate::page::{info_ok, layout_fields_ok, list_of, list_readable, one_format, page_spec, readable, size_fields_ok, value_of};
use crate::page::PageInfo;
use crate::render::page_size_ok;
use crate::shown::{lemma_opposite, opposite};

verus! {

proof fn lemma_same_field(es: Seq<EntryModel>, fs: Seq<EntryModel>, bo: ByteOrder, tag: u16)
    requires
        find_spec(es, tag) == find_spec(fs, tag),
    ensures
        readable(es, bo, tag) == readable(fs, bo, tag),
        list_readable(es, bo, tag) == list_readable(fs, bo, tag),
        forall|d: int| #[trigger] value_of(es, bo, tag, d) == value_of(fs, bo, tag, d),
        list_of(es, bo, tag) == list_of(fs, bo, tag),
        needed_list(es, bo, tag) == needed_list(fs, bo, tag),
{
    reveal(readable);
    reveal(list_readable);
    reveal(value_of);
    reveal(list_of);
    reveal(needed_list);
}

/// Two lists of fields that differ under the tag of the photometric interpretation only,
/// 0 in the one and 1 in the other.
pub open spec fn differ_in_white(es: Seq<EntryModel>, fs: Seq<EntryModel>, bo: ByteOrder) -> bool {
    &&& forall|tag: u16| tag != 262 ==> #[trigger] find_spec(es, tag) == find_spec(fs, tag)
    &&& number_of(es, bo, 262) matches Some(x) && x % 65536 == 0
    &&& number_of(fs, bo, 262) matches Some(x) && x % 65536 == 1
}

proof fn lemma_same_fields(es: Seq<EntryModel>, fs: Seq<EntryModel>, bo: ByteOrder)
    requires
        differ_in_white(es, fs, bo),
    ensures
        forall|tag: u16| tag != 262 ==> #[trigger] readable(es, bo, tag) == readable(fs, bo, tag),
        forall|tag: u16| tag != 262 ==> #[trigger] list_readable(es, bo, tag) == list_readable(fs, bo, tag),
        forall|tag: u16, d: int| tag != 262 ==> #[trigger] value_of(es, bo, tag, d) == value_of(fs, bo, tag, d),
        forall|tag: u16| tag != 262 ==> #[trigger] list_of(es, bo, tag) == list_of(fs, bo, tag),
        forall|tag: u16| tag != 262 ==> #[trigger] needed_list(es, bo, tag) == needed_list(fs, bo, tag),
        subsampling(es, bo) == subsampling(fs, bo),
        readable(es, bo, 262) && readable(fs, bo, 262),
        value_of(es, bo, 262, 0) % 65536 == 0,
        value_of(fs, bo, 262, 0) % 65536 == 1,
        find_spec(es, 262) is Some && find_spec(fs, 262) is Some,
{
    assert forall|tag: u16| tag != 262 implies #[trigger] readable(es, bo, tag) == readable(fs, bo, tag) by {
        lemma_same_field(es, fs, bo, tag);
    }
    assert forall|tag: u16| tag != 262 implies #[trigger] list_readable(es, bo, tag) == list_readable(fs, bo, tag) by {
        lemma_same_field(es, fs, bo, tag);
    }
    assert forall|tag: u16, d: int| tag != 262 implies #[trigger] value_of(es, bo, tag, d) == value_of(fs, bo, tag, d) by {
        lemma_same_field(es, fs, bo, tag);
    }
    assert forall|tag: u16| tag != 262 implies #[trigger] list_of(es, bo, tag) == list_of(fs, bo, tag) by {
        lemma_same_field(es, fs, bo, tag);
    }
    assert forall|tag: u16| tag != 262 implies #[trigger] needed_list(es, bo, tag) == needed_list(fs, bo, tag) by {
        lemma_same_field(es, fs, bo, tag);
    }
    reveal(readable);
    reveal(value_of);
    reveal(subsampling);
}

proof fn lemma_white_layout(es: Seq<EntryModel>, fs: Seq<EntryModel>, bo: ByteOrder)
    requires
        differ_in_white(es, fs, bo),
    ensures
        (match page_spec(es, bo) {
            Ok(p) => p.photometric == 0 && page_spec(fs, bo) == Outcome::<PageInfo>::Ok(PageInfo { photometric: 1, ..p }),
            Err(k) => page_spec(fs, bo) == Outcome::<PageInfo>::Err(k),
        }),
{
    lemma_same_fields(es, fs, bo);
    assert(size_fields_ok(es, bo) == size_fields_ok(fs, bo));
    assert(one_format(es, bo) == one_format(fs, bo));
    assert(layout_fields_ok(es, bo) == layout_fields_ok(fs, bo));
}

/// A page that can be read makes sense.
pub proof fn lemma_info(es: Seq<EntryModel>, bo: ByteOrder)
    requires
        page_spec(es, bo) is Ok,
    ensures
        info_ok(page_spec(es, bo)->Ok_0),
        page_spec(es, bo)->Ok_0.width == value_of(es, bo, 256, 0),
        page_spec(es, bo)->Ok_0.height == value_of(es, bo, 257, 0),
{
    let w = value_of(es, bo, 256, 0);
    let h = value_of(es, bo, 257, 0);
    assert(page_size_ok(w, h));
    assert(w <= 268435456 && h <= 268435456) by (nonlinear_arith)
        requires
            0 < w,
            0 < h,
            w * h <= 268435456,
    ;
}

proof fn lemma_white_samples(input: Seq<u8>, es: Seq<EntryModel>, fs: Seq<EntryModel>, bo: ByteOrder, p: PageInfo)
    requires
        differ_in_white(es, fs, bo),
    ensures
        samples_of(input, es, bo, p) == samples_of(input, fs, bo, PageInfo { photometric: 1, ..p }),
{
    let q = PageInfo { photometric: 1, ..p };
    lemma_same_fields(es, fs, bo);
    assert(find_spec(es, 322) == find_spec(fs, 322));
    assert(places(es, bo, 273, 279) == places(fs, bo, 273, 279));
    assert(places(es, bo, 324, 325) == places(fs, bo, 324, 325));
    assert(tile_grid(es, bo, p) == tile_grid(fs, bo, q));
    assert(units_of(es, bo, p) == units_of(fs, bo, q));
    assert(coding_of(p, bo, p.samples) == coding_of(q, bo, q.samples));
    assert(coding_of(p, bo, 1) == coding_of(q, bo, 1));
    assert(tile_samples(input, es, bo, p) == tile_samples(input, fs, bo, q));
    assert(strip_samples(input, es, bo, p) == strip_samples(input, fs, bo, q));
    assert(planar_tile_samples(input, es, bo, p) == planar_tile_samples(input, fs, bo, q));
    assert(planar_strip_samples(input, es, bo, p) == planar_strip_samples(input, fs, bo, q));
}

/// The picture of a gray page with 0 for white is that of the same page with 0 for black,
/// every byte turned to 255 less the byte, and one of them is an error where the other
/// is: fields that differ under tag 262 only, 0 in the one and 1 in the other, with any
/// bits, layout, order of bytes and orientation. Pages of JPEG streams are left out.
#[verifier::rlimit(40)]
pub proof fn law_white_is_zero(
    input: Seq<u8>,
    es: Seq<EntryModel>,
    fs: Seq<EntryModel>,
    bo: ByteOrder,
    rs: Seq<JpegReply>,
    qs: Seq<JpegReply>,
)
    requires
        differ_in_white(es, fs, bo),
        number_of(es, bo, 259) matches Some(x) ==> x % 65536 != 6 && x % 65536 != 7,
    ensures
        opposite(image_of(input, es, bo, rs), image_of(input, fs, bo, qs)),
{
    lemma_white_layout(es, fs, bo);
    match page_spec(es, bo) {
        Err(_) => {},
        Ok(p) => {
            let q = PageInfo { photometric: 1, ..p };
            assert(p.compression != 6 && p.compression != 7) by {
                reveal(readable);
                reveal(value_of);
            }
            lemma_info(es, bo);
            lemma_white_samples(input, es, fs, bo, p);
            if let Some(buf) = samples_of(input, es, bo, p) {
                lemma_opposite(p, es, bo, buf);
                assert(find_spec(es, 340) == find_spec(fs, 340));
                assert(find_spec(es, 341) == find_spec(fs, 341));
                assert(rendered(q, es, bo, buf) == rendered(q, fs, bo, buf));
                assert(displayed(q, fs, bo, buf) == displayed(q, es, bo, buf));
            }
        },
    }
}

} // verus!
