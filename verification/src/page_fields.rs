//! Which fields of a page its layout comes from.
use vstd::prelude::*;
use crate::ifd::{find_spec, ByteOrder, EntryModel};
use crate::metadata::number_of;
use crate::negatives::lemma_info;
use crate::page::{bits_spec, format_of, list_of, list_readable, page_spec, readable, short_of, value_of};
use crate::stored::lemma_small;

verus! {

/// The low 16 bits of the first number of a field, or what it is without the field.
pub open spec fn short(es: Seq<EntryModel>, bo: ByteOrder, tag: u16, default: int) -> int {
    match number_of(es, bo, tag) {
        Some(x) => x % 65536,
        None => default,
    }
}

/// The layout of a page comes from its fields: width from that with tag 256, height 257,
/// bits 258 (1 without it), compression 259 (1), photometric interpretation 262, order of
/// bits 266 (first bit high, 2 for low), orientation 274 (1), samples 277 (1), planes 284
/// (1, and always for one sample), options of CCITT coding 292 and 293 (0), differences 317
/// (1), format of the samples 339 (1, and for 4).
pub proof fn law_page_fields(es: Seq<EntryModel>, bo: ByteOrder)
    requires
        page_spec(es, bo) is Ok,
    ensures
        ({
            let p = page_spec(es, bo)->Ok_0;
            let format = short(es, bo, 339, 1);
            &&& number_of(es, bo, 256) == Some(p.width as int)
            &&& number_of(es, bo, 257) == Some(p.height as int)
            &&& number_of(es, bo, 262) is Some
            &&& p.bps == short(es, bo, 258, 1)
            &&& p.compression == short(es, bo, 259, 1)
            &&& p.photometric == short(es, bo, 262, 0)
            &&& p.fill is LsbFirst <==> short(es, bo, 266, 1) == 2
            &&& p.orientation == short(es, bo, 274, 1)
            &&& p.samples == short(es, bo, 277, 1)
            &&& p.planar == (if p.samples == 1 { 1 } else { short(es, bo, 284, 1) })
            &&& p.t4_options == (match number_of(es, bo, 292) {
                Some(x) => x,
                None => 0,
            })
            &&& p.t6_options == (match number_of(es, bo, 293) {
                Some(x) => x,
                None => 0,
            })
            &&& p.predictor == short(es, bo, 317, 1)
            &&& p.sample_format == (if format == 4 { 1 } else { format })
        }),
{
    lemma_info(es, bo);
    lemma_number(es, bo, 256, 0);
    lemma_number(es, bo, 257, 0);
    lemma_number(es, bo, 259, 1);
    lemma_number(es, bo, 262, 0);
    lemma_number(es, bo, 266, 1);
    lemma_number(es, bo, 274, 1);
    lemma_number(es, bo, 277, 1);
    lemma_number(es, bo, 284, 1);
    lemma_number(es, bo, 292, 0);
    lemma_number(es, bo, 293, 0);
    lemma_number(es, bo, 317, 1);
    lemma_bits(es, bo, short_of(es, bo, 277, 1) as int);
    lemma_format(es, bo);
}

/// The first number of a field that can be read.
proof fn lemma_number(es: Seq<EntryModel>, bo: ByteOrder, tag: u16, d: int)
    requires
        readable(es, bo, tag),
        0 <= d < 65536,
    ensures
        value_of(es, bo, tag, d) == (match number_of(es, bo, tag) {
            Some(x) => x,
            None => d,
        }),
        0 <= value_of(es, bo, tag, d) <= 0xffff_ffff,
        short_of(es, bo, tag, d) == short(es, bo, tag, d),
        find_spec(es, tag) is Some ==> number_of(es, bo, tag) is Some,
{
    reveal(readable);
    reveal(value_of);
    lemma_small(es, bo, tag);
}

proof fn lemma_bits(es: Seq<EntryModel>, bo: ByteOrder, samples: int)
    requires
        0 < samples < 65536,
        bits_spec(find_spec(es, 258), bo, samples) is Some,
    ensures
        bits_spec(find_spec(es, 258), bo, samples).unwrap()[0] == short(es, bo, 258, 1),
        0 <= short(es, bo, 258, 1) < 65536,
{
    match find_spec(es, 258) {
        None => {},
        Some(e) => {
            assert(e.u32s(bo)->Ok_0.len() == e.count);
            assert(e.count > 0);
        },
    }
}

proof fn lemma_format(es: Seq<EntryModel>, bo: ByteOrder)
    requires
        list_readable(es, bo, 339),
        find_spec(es, 339) is Some ==> list_of(es, bo, 339).len() > 0,
    ensures
        format_of(es, bo) == (if short(es, bo, 339, 1) == 4 { 1 } else { short(es, bo, 339, 1) }),
{
    reveal(list_readable);
    reveal(list_of);
}

/// Pages that cannot be read: without width, height or photometric interpretation, with a
/// side of 0 or more than 268435456 pixels, no samples, an unknown arrangement of planes,
/// unknown differences, an unknown orientation or unit, and bits other than 1, 4, 8 or 16
/// for samples that are no floating-point numbers.
pub proof fn law_unreadable(es: Seq<EntryModel>, bo: ByteOrder)
    requires
        ({
            let w = number_of(es, bo, 256);
            let h = number_of(es, bo, 257);
            let planes = short(es, bo, 284, 1);
            let differences = short(es, bo, 317, 1);
            let turned = short(es, bo, 274, 1);
            let unit = short(es, bo, 296, 2);
            let bits = short(es, bo, 258, 1);
            ||| w is None
            ||| h is None
            ||| number_of(es, bo, 262) is None
            ||| w == Some(0int)
            ||| h == Some(0int)
            ||| w.unwrap() * h.unwrap() > 268435456
            ||| short(es, bo, 277, 1) == 0
            ||| planes != 1 && planes != 2
            ||| differences != 1 && differences != 2
            ||| !(1 <= turned <= 8)
            ||| !(1 <= unit <= 3)
            ||| bits != 1 && bits != 4 && bits != 8 && bits != 16 && short(es, bo, 339, 1) != 3
        }),
    ensures
        page_spec(es, bo) is Err,
{
    if page_spec(es, bo) is Ok {
        law_page_fields(es, bo);
        lemma_info(es, bo);
        lemma_number(es, bo, 296, 2);
        lemma_number(es, bo, 284, 1);
    }
}

} // verus!
