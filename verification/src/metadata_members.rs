//! Which field of a page each member of its metadata comes from.
use vstd::prelude::*;
use vstd::utf8::{decode_utf8, valid_utf8};
use crate::fields::{lacks, law_found, law_numbers, law_values, leads, long_at, word_at};
use crate::ifd::{ByteOrder, EntryModel};
use crate::metadata::{metadata_agrees, text_view, ResolutionUnit, TiffMetadata};

verus! {

/// An ASCII field that holds a text, a NUL, and maybe more.
pub open spec fn spells(e: EntryModel, text: Seq<u8>) -> bool {
    &&& e.field_type == 2
    &&& text.len() < e.data.len()
    &&& e.data.take(text.len() as int) == text
    &&& e.data[text.len() as int] == 0
    &&& !text.contains(0u8)
}

proof fn lemma_spelled(e: EntryModel, text: Seq<u8>)
    requires
        spells(e, text),
    ensures
        e.ascii_bytes() == Some(text),
{
    let n = text.len() as int;
    assert(e.data[n] == 0);
    assert(e.data.contains(0u8));
    e.data.index_of_first_ensures(0u8);
    let i = e.data.index_of_first(0u8).unwrap();
    if i < n {
        assert(e.data.take(n)[i] == 0);
        assert(text[i] == 0);
        assert(text.contains(0u8));
    }
    assert(i == n);
}

/// The texts of a page: each comes from the first field with its tag, 269 for the name of
/// the document, 270 for what the picture shows, 271 for the maker and 272 for the model
/// of the device, 285 for the name of the page, 305 for the program, 306 for the time, 315
/// for the artist, 316 for the computer and 33432 for the rights.
pub proof fn law_text_members(m: TiffMetadata, es: Seq<EntryModel>, bo: ByteOrder, j: int, text: Seq<u8>)
    requires
        metadata_agrees(m, es, bo),
        leads(es, j),
        spells(es[j], text),
        valid_utf8(text),
        text.len() > 0,
    ensures
        ({
            let tag = es[j].tag;
            let said = Some(decode_utf8(text));
            &&& tag == 269 ==> text_view(m.document_name) == said
            &&& tag == 270 ==> text_view(m.image_description) == said
            &&& tag == 271 ==> text_view(m.make) == said
            &&& tag == 272 ==> text_view(m.model) == said
            &&& tag == 285 ==> text_view(m.page_name) == said
            &&& tag == 305 ==> text_view(m.software) == said
            &&& tag == 306 ==> text_view(m.date_time) == said
            &&& tag == 315 ==> text_view(m.artist) == said
            &&& tag == 316 ==> text_view(m.host_computer) == said
            &&& tag == 33432 ==> text_view(m.copyright) == said
        }),
{
    law_found(es, es[j].tag);
    lemma_spelled(es[j], text);
    assert(decode_utf8(text).len() > 0);
}

/// A member is missing where no field has its tag.
pub proof fn law_missing_members(m: TiffMetadata, es: Seq<EntryModel>, bo: ByteOrder)
    requires
        metadata_agrees(m, es, bo),
    ensures
        lacks(es, 269) ==> m.document_name is None,
        lacks(es, 270) ==> m.image_description is None,
        lacks(es, 271) ==> m.make is None,
        lacks(es, 272) ==> m.model is None,
        lacks(es, 285) ==> m.page_name is None,
        lacks(es, 305) ==> m.software is None,
        lacks(es, 306) ==> m.date_time is None,
        lacks(es, 315) ==> m.artist is None,
        lacks(es, 316) ==> m.host_computer is None,
        lacks(es, 33432) ==> m.copyright is None,
        lacks(es, 282) ==> m.x_resolution is None,
        lacks(es, 283) ==> m.y_resolution is None,
        lacks(es, 296) ==> m.resolution_unit is None,
        lacks(es, 274) ==> m.orientation is None,
        lacks(es, 297) ==> m.page_number is None,
        lacks(es, 254) ==> m.new_subfile_type is None,
        lacks(es, 255) ==> m.subfile_type is None,
{
    law_found(es, 269);
    law_found(es, 270);
    law_found(es, 271);
    law_found(es, 272);
    law_found(es, 285);
    law_found(es, 305);
    law_found(es, 306);
    law_found(es, 315);
    law_found(es, 316);
    law_found(es, 33432);
    law_found(es, 282);
    law_found(es, 283);
    law_found(es, 296);
    law_found(es, 274);
    law_found(es, 297);
    law_found(es, 254);
    law_found(es, 255);
}

/// Nothing is said where the first field with the tag is of another type, has no NUL, or
/// begins with one.
pub proof fn law_no_text(m: TiffMetadata, es: Seq<EntryModel>, bo: ByteOrder, j: int)
    requires
        metadata_agrees(m, es, bo),
        leads(es, j),
        es[j].field_type != 2 || !es[j].data.contains(0u8) || es[j].data[0] == 0,
    ensures
        ({
            let tag = es[j].tag;
            &&& tag == 269 ==> m.document_name is None
            &&& tag == 270 ==> m.image_description is None
            &&& tag == 271 ==> m.make is None
            &&& tag == 272 ==> m.model is None
            &&& tag == 285 ==> m.page_name is None
            &&& tag == 305 ==> m.software is None
            &&& tag == 306 ==> m.date_time is None
            &&& tag == 315 ==> m.artist is None
            &&& tag == 316 ==> m.host_computer is None
            &&& tag == 33432 ==> m.copyright is None
        }),
{
    let e = es[j];
    law_found(es, e.tag);
    if e.field_type == 2 && e.data.contains(0u8) {
        let z = choose|z: int| 0 <= z < e.data.len() && e.data[z] == 0u8;
        assert(e.data.len() > 0);
        assert(e.data.take(0) =~= Seq::<u8>::empty());
        assert(!Seq::<u8>::empty().contains(0u8));
        lemma_spelled(e, Seq::<u8>::empty());
    }
}

/// The numbers of a page, where the first field with the tag holds one number of two
/// bytes or one of four bytes: 274 for how the picture is turned, 296 for the unit, which
/// is none for 1, inch for 2 and centimetre for 3, 254 and 255 for the sort of picture.
pub proof fn law_number_members(m: TiffMetadata, es: Seq<EntryModel>, bo: ByteOrder, j: int, x: int)
    requires
        metadata_agrees(m, es, bo),
        leads(es, j),
        es[j].count == 1,
        (es[j].field_type == 3 && es[j].data.len() == 2 && x == word_at(bo, es[j].data, 0)) || (es[j].field_type == 4
            && es[j].data.len() == 4 && x == long_at(bo, es[j].data, 0)),
    ensures
        ({
            let tag = es[j].tag;
            &&& tag == 254 ==> m.new_subfile_type == Some(x as u32)
            &&& tag == 255 && x < 65536 ==> m.subfile_type == Some(x as u16)
            &&& tag == 255 && x >= 65536 ==> m.subfile_type is None
            &&& tag == 274 && x < 65536 ==> m.orientation == Some(x as u16)
            &&& tag == 274 && x >= 65536 ==> m.orientation is None
            &&& tag == 296 && x == 1 ==> m.resolution_unit == Some(ResolutionUnit::Unitless)
            &&& tag == 296 && x == 2 ==> m.resolution_unit == Some(ResolutionUnit::Inch)
            &&& tag == 296 && x == 3 ==> m.resolution_unit == Some(ResolutionUnit::Centimeter)
            &&& tag == 296 && !(1 <= x <= 3) ==> m.resolution_unit is None
            &&& tag == 282 ==> m.x_resolution == Some((x as u32, 1u32))
            &&& tag == 283 ==> m.y_resolution == Some((x as u32, 1u32))
        }),
{
    let e = es[j];
    law_found(es, e.tag);
    law_values(e, bo, 0);
    law_numbers(bo, e.data, 0);
    assert(e.first_u32(bo) == crate::error::Outcome::<int>::Ok(x));
}

/// The resolutions of a page: fractions, of four bytes above and four bytes below, in the
/// first field with tag 282 across and 283 down.
pub proof fn law_resolution_members(m: TiffMetadata, es: Seq<EntryModel>, bo: ByteOrder, j: int)
    requires
        metadata_agrees(m, es, bo),
        leads(es, j),
        es[j].field_type == 5,
        es[j].count >= 1,
        es[j].data.len() >= 8,
    ensures
        es[j].tag == 282 ==> m.x_resolution == Some(
            (long_at(bo, es[j].data, 0) as u32, long_at(bo, es[j].data, 4) as u32),
        ),
        es[j].tag == 283 ==> m.y_resolution == Some(
            (long_at(bo, es[j].data, 0) as u32, long_at(bo, es[j].data, 4) as u32),
        ),
{
    law_found(es, es[j].tag);
    law_numbers(bo, es[j].data, 0);
    law_numbers(bo, es[j].data, 4);
}

/// The number of a page and of all pages: the first two words of the first field with tag
/// 297.
pub proof fn law_page_number(m: TiffMetadata, es: Seq<EntryModel>, bo: ByteOrder, j: int)
    requires
        metadata_agrees(m, es, bo),
        leads(es, j),
        es[j].tag == 297,
        es[j].field_type == 3,
        es[j].count >= 2,
        es[j].data.len() >= 2 * es[j].count,
    ensures
        m.page_number == Some((word_at(bo, es[j].data, 0) as u16, word_at(bo, es[j].data, 2) as u16)),
{
    law_found(es, 297);
    law_values(es[j], bo, 0);
    law_values(es[j], bo, 1);
    law_numbers(bo, es[j].data, 0);
    law_numbers(bo, es[j].data, 2);
}

/// A page whose only field is a text says that text under the tag of the field, and
/// nothing else.
pub proof fn law_only_text(m: TiffMetadata, e: EntryModel, bo: ByteOrder, text: Seq<u8>)
    requires
        metadata_agrees(m, seq![e], bo),
        spells(e, text),
        valid_utf8(text),
        text.len() > 0,
    ensures
        ({
            let said = Some(decode_utf8(text));
            &&& text_view(m.document_name) == (if e.tag == 269 { said } else { None })
            &&& text_view(m.image_description) == (if e.tag == 270 { said } else { None })
            &&& text_view(m.make) == (if e.tag == 271 { said } else { None })
            &&& text_view(m.model) == (if e.tag == 272 { said } else { None })
            &&& text_view(m.page_name) == (if e.tag == 285 { said } else { None })
            &&& text_view(m.software) == (if e.tag == 305 { said } else { None })
            &&& text_view(m.date_time) == (if e.tag == 306 { said } else { None })
            &&& text_view(m.artist) == (if e.tag == 315 { said } else { None })
            &&& text_view(m.host_computer) == (if e.tag == 316 { said } else { None })
            &&& text_view(m.copyright) == (if e.tag == 33432 { said } else { None })
            &&& m.x_resolution is None && m.y_resolution is None && m.resolution_unit is None
            &&& m.orientation is None && m.page_number is None && m.new_subfile_type is None
            &&& m.subfile_type is None
        }),
{
    let es = seq![e];
    assert(es[0] == e);
    assert(leads(es, 0));
    law_text_members(m, es, bo, 0, text);
    law_missing_members(m, es, bo);
    law_found(es, e.tag);
    assert(e.u32s(bo) is Err);
}

} // verus!
