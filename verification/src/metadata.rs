//! What a page says about itself besides its pixels: texts, resolution, and its
//! part in a document.
//!
//! Reading it never fails: a field that is malformed is left out.
use vstd::prelude::*;
use crate::ifd::{entry_models, find, find_spec, tag_position, text_from, uint_at, ByteOrder, Entry, EntryModel};
use crate::types::{TAG_ARTIST, TAG_COPYRIGHT, TAG_DATE_TIME, TAG_DOCUMENT_NAME, TAG_HOST_COMPUTER};
use crate::types::{TAG_IMAGE_DESCRIPTION, TAG_MAKE, TAG_MODEL, TAG_NEW_SUBFILE_TYPE, TAG_ORIENTATION, TAG_PAGE_NAME};
use crate::types::{TAG_PAGE_NUMBER, TAG_RESOLUTION_UNIT, TAG_SOFTWARE, TAG_SUBFILE_TYPE, TAG_X_RESOLUTION};
use crate::types::{TAG_Y_RESOLUTION, TYPE_LONG, TYPE_RATIONAL, TYPE_SHORT};

verus! {

/// The unit of a resolution.
#[derive(Debug, Clone, Copy, PartialEq, Eq, Structural)]
pub enum ResolutionUnit {
    /// None: only the ratio of the resolutions means something.
    Unitless,
    /// Inch.
    Inch,
    /// Centimetre.
    Centimeter,
}

impl ResolutionUnit {
    /// The unit that a number stands for.
    pub open spec fn of(v: int) -> Option<ResolutionUnit> {
        if v == 1 {
            Some(ResolutionUnit::Unitless)
        } else if v == 2 {
            Some(ResolutionUnit::Inch)
        } else if v == 3 {
            Some(ResolutionUnit::Centimeter)
        } else {
            None
        }
    }

    /// The unit that a number stands for.
    pub fn from_tag(v: u32) -> (r: Option<ResolutionUnit>)
        ensures
            r == ResolutionUnit::of(v as int),
    {
        match v {
            1 => Some(ResolutionUnit::Unitless),
            2 => Some(ResolutionUnit::Inch),
            3 => Some(ResolutionUnit::Centimeter),
            _ => None,
        }
    }
}

/// What a page says about itself. A field is there if its tag is, and is well
/// formed.
#[derive(Debug, Clone, Default, PartialEq, Eq)]
pub struct TiffMetadata {
    /// Name of the document.
    pub document_name: Option<String>,
    /// What the picture shows.
    pub image_description: Option<String>,
    /// Maker of the device.
    pub make: Option<String>,
    /// The device.
    pub model: Option<String>,
    /// Name of the page.
    pub page_name: Option<String>,
    /// The program that wrote it.
    pub software: Option<String>,
    /// When it was made, as it is written there.
    pub date_time: Option<String>,
    /// Who made it.
    pub artist: Option<String>,
    /// The computer on which it was made.
    pub host_computer: Option<String>,
    /// Who has rights in it.
    pub copyright: Option<String>,
    /// Pixels for each unit across, as a fraction.
    pub x_resolution: Option<(u32, u32)>,
    /// Pixels for each unit down, as a fraction.
    pub y_resolution: Option<(u32, u32)>,
    /// The unit.
    pub resolution_unit: Option<ResolutionUnit>,
    /// How the stored picture is turned.
    pub orientation: Option<u16>,
    /// Number of the page, and of all pages or 0.
    pub page_number: Option<(u16, u16)>,
    /// What sort of picture it is.
    pub new_subfile_type: Option<u32>,
    /// What sort of picture it is, in the older form.
    pub subfile_type: Option<u16>,
}

/// The text of a field, unless it is empty.
pub open spec fn text_of(es: Seq<EntryModel>, tag: u16) -> Option<Seq<char>> {
    match find_spec(es, tag) {
        None => None,
        Some(e) => match e.ascii_bytes() {
            None => None,
            Some(b) => if text_from(b).len() == 0 { None } else { Some(text_from(b)) },
        },
    }
}

/// The characters of a text that may be there.
pub open spec fn text_view(s: Option<String>) -> Option<Seq<char>> {
    match s {
        Some(t) => Some(t@),
        None => None,
    }
}

/// The first number of a field.
pub open spec fn number_of(es: Seq<EntryModel>, bo: ByteOrder, tag: u16) -> Option<int> {
    match find_spec(es, tag) {
        None => None,
        Some(e) => match e.first_u32(bo) {
            Ok(v) => Some(v),
            Err(_) => None,
        },
    }
}

/// The first number of a field, if it has 16 bits.
pub open spec fn short_of(es: Seq<EntryModel>, bo: ByteOrder, tag: u16) -> Option<int> {
    match number_of(es, bo, tag) {
        Some(v) => if v <= 65535 { Some(v) } else { None },
        None => None,
    }
}

/// A fraction: two numbers, or a whole one over 1.
pub open spec fn fraction(e: EntryModel, bo: ByteOrder) -> Option<(int, int)> {
    if e.field_type == TYPE_RATIONAL {
        if e.count >= 1 && e.data.len() >= 8 {
            Some((uint_at(bo, e.data, 0, 4) as int, uint_at(bo, e.data, 4, 4) as int))
        } else {
            None
        }
    } else if e.field_type == TYPE_SHORT || e.field_type == TYPE_LONG {
        match e.first_u32(bo) {
            Ok(v) => Some((v, 1)),
            Err(_) => None,
        }
    } else {
        None
    }
}

/// The fraction of a field.
pub open spec fn fraction_of(es: Seq<EntryModel>, bo: ByteOrder, tag: u16) -> Option<(int, int)> {
    match find_spec(es, tag) {
        None => None,
        Some(e) => fraction(e, bo),
    }
}

/// The low 16 bits of the first two numbers of a field.
pub open spec fn pair_of(es: Seq<EntryModel>, bo: ByteOrder, tag: u16) -> Option<(int, int)> {
    match find_spec(es, tag) {
        None => None,
        Some(e) => match e.u32s(bo) {
            Ok(v) => if v.len() >= 2 { Some((v[0] % 65536, v[1] % 65536)) } else { None },
            Err(_) => None,
        },
    }
}

fn rational(e: &Entry, bo: ByteOrder) -> (r: Option<(u32, u32)>)
    ensures
        (match (r, fraction(e@, bo)) {
            (Some(a), Some(b)) => a.0 == b.0 && a.1 == b.1,
            (None, None) => true,
            _ => false,
        }),
{
    if e.field_type == TYPE_RATIONAL {
        if e.count >= 1 && e.data.len() >= 8 {
            return Some((bo.u32_at(&e.data, 0), bo.u32_at(&e.data, 4)));
        }
        return None;
    }
    if e.field_type == TYPE_SHORT || e.field_type == TYPE_LONG {
        match e.as_u32(bo) {
            Ok(v) => Some((v, 1)),
            Err(_) => None,
        }
    } else {
        None
    }
}

fn ascii(entries: &[Entry], tag: u16) -> (r: Option<String>)
    ensures
        text_view(r) == text_of(entry_models(entries@), tag),
{
    match find(entries, tag) {
        None => None,
        Some(e) => match e.as_ascii() {
            Err(_) => None,
            Ok(s) => {
                if s.as_str().is_empty() {
                    None
                } else {
                    Some(s)
                }
            },
        },
    }
}

fn number(entries: &[Entry], bo: ByteOrder, tag: u16) -> (r: Option<u32>)
    ensures
        (match (r, number_of(entry_models(entries@), bo, tag)) {
            (Some(a), Some(b)) => a == b,
            (None, None) => true,
            _ => false,
        }),
{
    match find(entries, tag) {
        None => None,
        Some(e) => match e.as_u32(bo) {
            Ok(v) => Some(v),
            Err(_) => None,
        },
    }
}

fn short(entries: &[Entry], bo: ByteOrder, tag: u16) -> (r: Option<u16>)
    ensures
        (match (r, short_of(entry_models(entries@), bo, tag)) {
            (Some(a), Some(b)) => a == b,
            (None, None) => true,
            _ => false,
        }),
{
    match number(entries, bo, tag) {
        Some(v) => if v <= 65535 { Some(v as u16) } else { None },
        None => None,
    }
}

fn resolution(entries: &[Entry], bo: ByteOrder, tag: u16) -> (r: Option<(u32, u32)>)
    ensures
        (match (r, fraction_of(entry_models(entries@), bo, tag)) {
            (Some(a), Some(b)) => a.0 == b.0 && a.1 == b.1,
            (None, None) => true,
            _ => false,
        }),
{
    match find(entries, tag) {
        None => None,
        Some(e) => rational(e, bo),
    }
}

fn pair(entries: &[Entry], bo: ByteOrder, tag: u16) -> (r: Option<(u16, u16)>)
    ensures
        (match (r, pair_of(entry_models(entries@), bo, tag)) {
            (Some(a), Some(b)) => a.0 == b.0 && a.1 == b.1,
            (None, None) => true,
            _ => false,
        }),
{
    match find(entries, tag) {
        None => None,
        Some(e) => match e.as_u32_vec(bo) {
            Err(_) => None,
            Ok(v) => if v.len() >= 2 { Some(((v[0] % 65536) as u16, (v[1] % 65536) as u16)) } else { None },
        },
    }
}

/// The texts are those of the page.
pub open spec fn texts_agree(m: TiffMetadata, es: Seq<EntryModel>) -> bool {
    &&& text_view(m.document_name) == text_of(es, TAG_DOCUMENT_NAME)
    &&& text_view(m.image_description) == text_of(es, TAG_IMAGE_DESCRIPTION)
    &&& text_view(m.make) == text_of(es, TAG_MAKE)
    &&& text_view(m.model) == text_of(es, TAG_MODEL)
    &&& text_view(m.page_name) == text_of(es, TAG_PAGE_NAME)
    &&& text_view(m.software) == text_of(es, TAG_SOFTWARE)
    &&& text_view(m.date_time) == text_of(es, TAG_DATE_TIME)
    &&& text_view(m.artist) == text_of(es, TAG_ARTIST)
    &&& text_view(m.host_computer) == text_of(es, TAG_HOST_COMPUTER)
    &&& text_view(m.copyright) == text_of(es, TAG_COPYRIGHT)
}

/// A fraction that may be there is `b`.
pub open spec fn fraction_agrees(a: Option<(u32, u32)>, b: Option<(int, int)>) -> bool {
    match (a, b) {
        (Some(x), Some(y)) => x.0 == y.0 && x.1 == y.1,
        (None, None) => true,
        _ => false,
    }
}

/// A number of 16 bits that may be there is `b`.
pub open spec fn short_agrees(a: Option<u16>, b: Option<int>) -> bool {
    match (a, b) {
        (Some(x), Some(y)) => x == y,
        (None, None) => true,
        _ => false,
    }
}

/// The numbers are those of the page.
pub open spec fn numbers_agree(m: TiffMetadata, es: Seq<EntryModel>, bo: ByteOrder) -> bool {
    &&& fraction_agrees(m.x_resolution, fraction_of(es, bo, TAG_X_RESOLUTION))
    &&& fraction_agrees(m.y_resolution, fraction_of(es, bo, TAG_Y_RESOLUTION))
    &&& m.resolution_unit == match number_of(es, bo, TAG_RESOLUTION_UNIT) {
        Some(v) => ResolutionUnit::of(v),
        None => None,
    }
    &&& short_agrees(m.orientation, short_of(es, bo, TAG_ORIENTATION))
    &&& match (m.page_number, pair_of(es, bo, TAG_PAGE_NUMBER)) {
        (Some(x), Some(y)) => x.0 == y.0 && x.1 == y.1,
        (None, None) => true,
        _ => false,
    }
    &&& match (m.new_subfile_type, number_of(es, bo, TAG_NEW_SUBFILE_TYPE)) {
        (Some(x), Some(y)) => x == y,
        (None, None) => true,
        _ => false,
    }
    &&& short_agrees(m.subfile_type, short_of(es, bo, TAG_SUBFILE_TYPE))
}

/// What a page says about itself is in its fields.
pub open spec fn metadata_agrees(m: TiffMetadata, es: Seq<EntryModel>, bo: ByteOrder) -> bool {
    texts_agree(m, es) && numbers_agree(m, es, bo)
}

/// What a page says about itself that says nothing.
pub open spec fn no_metadata() -> TiffMetadata {
    TiffMetadata {
        document_name: None,
        image_description: None,
        make: None,
        model: None,
        page_name: None,
        software: None,
        date_time: None,
        artist: None,
        host_computer: None,
        copyright: None,
        x_resolution: None,
        y_resolution: None,
        resolution_unit: None,
        orientation: None,
        page_number: None,
        new_subfile_type: None,
        subfile_type: None,
    }
}

/// A page without fields says nothing about itself.
pub proof fn law_no_fields(m: TiffMetadata, bo: ByteOrder)
    ensures
        metadata_agrees(m, Seq::empty(), bo) <==> m == no_metadata(),
{
}

/// A field on its own gives no metadata: it is malformed, or of another kind.
pub open spec fn says_nothing(e: EntryModel, bo: ByteOrder) -> bool {
    metadata_agrees(no_metadata(), seq![e], bo)
}

/// An entry that is found has the tag, and none before it has.
proof fn lemma_position(es: Seq<EntryModel>, tag: u16, i: int)
    requires
        0 <= i <= es.len(),
    ensures
        i <= tag_position(es, tag, i) <= es.len(),
        tag_position(es, tag, i) < es.len() ==> es[tag_position(es, tag, i)].tag == tag,
        forall|k: int| i <= k < tag_position(es, tag, i) ==> (#[trigger] es[k]).tag != tag,
    decreases es.len() - i,
{
    if i < es.len() && es[i].tag != tag {
        lemma_position(es, tag, i + 1);
    }
}

/// An entry that is taken away changes what is found under its own tag only.
proof fn lemma_find_without(es: Seq<EntryModel>, j: int, tag: u16)
    requires
        0 <= j < es.len(),
        forall|a: int, b: int| 0 <= a < b < es.len() ==> (#[trigger] es[a]).tag != (#[trigger] es[b]).tag,
    ensures
        tag != es[j].tag ==> find_spec(es.remove(j), tag) == find_spec(es, tag),
        tag == es[j].tag ==> find_spec(es.remove(j), tag) is None && find_spec(es, tag) == Some(es[j]),
        tag == es[j].tag ==> find_spec(seq![es[j]], tag) == Some(es[j]),
{
    let rest = es.remove(j);
    lemma_position(es, tag, 0);
    lemma_position(rest, tag, 0);
    lemma_position(seq![es[j]], tag, 0);
    let p = tag_position(es, tag, 0);
    let q = tag_position(rest, tag, 0);
    assert forall|k: int| 0 <= k < rest.len() implies #[trigger] rest[k] == (if k < j { es[k] } else { es[k + 1] }) by {
    }
    if tag == es[j].tag {
        assert(p == j);
        assert(q == rest.len()) by {
            if q < rest.len() {
                assert(rest[q].tag == tag);
            }
        }
        assert(seq![es[j]][0] == es[j]);
    } else {
        if p < es.len() {
            let k = if p < j { p } else { p - 1 };
            assert(rest[k] == es[p]);
            assert(q == k) by {
                if q < k {
                    assert(rest[q].tag == tag);
                }
            }
        } else if q < rest.len() {
            assert(rest[q].tag == tag);
        }
    }
}

/// A malformed field costs that field only: a page says the same about itself with
/// it as without it.
pub proof fn law_malformed_dropped(m: TiffMetadata, es: Seq<EntryModel>, bo: ByteOrder, j: int)
    requires
        0 <= j < es.len(),
        forall|a: int, b: int| 0 <= a < b < es.len() ==> (#[trigger] es[a]).tag != (#[trigger] es[b]).tag,
        says_nothing(es[j], bo),
    ensures
        metadata_agrees(m, es, bo) <==> metadata_agrees(m, es.remove(j), bo),
{
    lemma_find_without(es, j, TAG_DOCUMENT_NAME);
    lemma_find_without(es, j, TAG_IMAGE_DESCRIPTION);
    lemma_find_without(es, j, TAG_MAKE);
    lemma_find_without(es, j, TAG_MODEL);
    lemma_find_without(es, j, TAG_PAGE_NAME);
    lemma_find_without(es, j, TAG_SOFTWARE);
    lemma_find_without(es, j, TAG_DATE_TIME);
    lemma_find_without(es, j, TAG_ARTIST);
    lemma_find_without(es, j, TAG_HOST_COMPUTER);
    lemma_find_without(es, j, TAG_COPYRIGHT);
    lemma_find_without(es, j, TAG_X_RESOLUTION);
    lemma_find_without(es, j, TAG_Y_RESOLUTION);
    lemma_find_without(es, j, TAG_RESOLUTION_UNIT);
    lemma_find_without(es, j, TAG_ORIENTATION);
    lemma_find_without(es, j, TAG_PAGE_NUMBER);
    lemma_find_without(es, j, TAG_NEW_SUBFILE_TYPE);
    lemma_find_without(es, j, TAG_SUBFILE_TYPE);
}

/// What a page says about itself.
pub fn extract_metadata(entries: &[Entry], bo: ByteOrder) -> (m: TiffMetadata)
    ensures
        metadata_agrees(m, entry_models(entries@), bo),
{
    let resolution_unit = match number(entries, bo, TAG_RESOLUTION_UNIT) {
        Some(v) => ResolutionUnit::from_tag(v),
        None => None,
    };
    TiffMetadata {
        document_name: ascii(entries, TAG_DOCUMENT_NAME),
        image_description: ascii(entries, TAG_IMAGE_DESCRIPTION),
        make: ascii(entries, TAG_MAKE),
        model: ascii(entries, TAG_MODEL),
        page_name: ascii(entries, TAG_PAGE_NAME),
        software: ascii(entries, TAG_SOFTWARE),
        date_time: ascii(entries, TAG_DATE_TIME),
        artist: ascii(entries, TAG_ARTIST),
        host_computer: ascii(entries, TAG_HOST_COMPUTER),
        copyright: ascii(entries, TAG_COPYRIGHT),
        x_resolution: resolution(entries, bo, TAG_X_RESOLUTION),
        y_resolution: resolution(entries, bo, TAG_Y_RESOLUTION),
        resolution_unit,
        orientation: short(entries, bo, TAG_ORIENTATION),
        page_number: pair(entries, bo, TAG_PAGE_NUMBER),
        new_subfile_type: number(entries, bo, TAG_NEW_SUBFILE_TYPE),
        subfile_type: short(entries, bo, TAG_SUBFILE_TYPE),
    }
}

} // verus!
