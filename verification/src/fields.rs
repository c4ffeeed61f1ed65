//! Where the fields of a page stand in a file, byte by byte, and what they hold.
use vstd::prelude::*;
use crate::error::{ErrorKind, Outcome};
use crate::ifd::{entry_spec, find_spec, header_spec, ifd_spec, tag_position, uint_at, ByteOrder, EntryModel, TiffVariant};
use crate::types::spec_type_size;

verus! {

/// Two bytes as a number.
pub open spec fn word_at(bo: ByteOrder, s: Seq<u8>, i: int) -> int {
    match bo {
        ByteOrder::Little => s[i] + 256 * s[i + 1],
        ByteOrder::Big => 256 * s[i] + s[i + 1],
    }
}

/// Four bytes as a number.
pub open spec fn long_at(bo: ByteOrder, s: Seq<u8>, i: int) -> int {
    match bo {
        ByteOrder::Little => s[i] + 256 * s[i + 1] + 65536 * s[i + 2] + 16777216 * s[i + 3],
        ByteOrder::Big => 16777216 * s[i] + 65536 * s[i + 1] + 256 * s[i + 2] + s[i + 3],
    }
}

/// Eight bytes as a number.
pub open spec fn huge_at(bo: ByteOrder, s: Seq<u8>, i: int) -> int {
    match bo {
        ByteOrder::Little => long_at(bo, s, i) + 0x1_0000_0000 * long_at(bo, s, i + 4),
        ByteOrder::Big => 0x1_0000_0000 * long_at(bo, s, i) + long_at(bo, s, i + 4),
    }
}

/// Numbers of two, four and eight bytes: with low bytes first the byte at `i` counts
/// once, with high bytes first the last one does.
pub proof fn law_numbers(bo: ByteOrder, s: Seq<u8>, i: int)
    ensures
        uint_at(bo, s, i, 1) == s[i],
        uint_at(bo, s, i, 2) == word_at(bo, s, i),
        uint_at(bo, s, i, 4) == long_at(bo, s, i),
        uint_at(bo, s, i, 8) == huge_at(bo, s, i),
        0 <= word_at(bo, s, i) < 0x1_0000,
        0 <= long_at(bo, s, i) < 0x1_0000_0000,
        0 <= huge_at(bo, s, i) < 0x1_0000_0000_0000_0000,
{
    reveal_with_fuel(uint_at, 9);
}

/// A number is the same with its bytes and their order turned round.
pub proof fn law_orders_mirror(s: Seq<u8>)
    ensures
        s.len() == 2 ==> uint_at(ByteOrder::Little, s, 0, 2) == uint_at(ByteOrder::Big, s.reverse(), 0, 2),
        s.len() == 4 ==> uint_at(ByteOrder::Little, s, 0, 4) == uint_at(ByteOrder::Big, s.reverse(), 0, 4),
        s.len() == 8 ==> uint_at(ByteOrder::Little, s, 0, 8) == uint_at(ByteOrder::Big, s.reverse(), 0, 8),
{
    let r = s.reverse();
    law_numbers(ByteOrder::Little, s, 0);
    law_numbers(ByteOrder::Big, r, 0);
    assert forall|k: int| 0 <= k < s.len() implies #[trigger] r[k] == s[s.len() - 1 - k] by {
    }
}

/// The header of a file: `II` for low bytes first or `MM` for high bytes first, then 42
/// and the place of the first directory in four bytes, or 43, the numbers 8 and 0, and
/// the place in eight bytes. Nothing else is a header.
pub proof fn law_header(input: Seq<u8>)
    ensures
        ({
            let bo = if input[0] == 0x49 { ByteOrder::Little } else { ByteOrder::Big };
            let marked = input.len() >= 8 && input[0] == input[1] && (input[0] == 0x49 || input[0] == 0x4D);
            let classic = marked && word_at(bo, input, 2) == 42;
            let big = marked && input.len() >= 16 && word_at(bo, input, 2) == 43 && word_at(bo, input, 4) == 8
                && word_at(bo, input, 6) == 0;
            &&& classic ==> header_spec(input) == Outcome::<(ByteOrder, TiffVariant, int)>::Ok(
                (bo, TiffVariant::Classic, long_at(bo, input, 4)),
            )
            &&& big ==> header_spec(input) == Outcome::<(ByteOrder, TiffVariant, int)>::Ok(
                (bo, TiffVariant::Big, huge_at(bo, input, 8)),
            )
            &&& !classic && !big ==> header_spec(input) == Outcome::<(ByteOrder, TiffVariant, int)>::Err(
                ErrorKind::Invalid,
            )
        }),
{
    let bo = if input[0] == 0x49 { ByteOrder::Little } else { ByteOrder::Big };
    law_numbers(ByteOrder::Little, input, 0);
    law_numbers(bo, input, 2);
    law_numbers(bo, input, 4);
    law_numbers(bo, input, 6);
    law_numbers(bo, input, 8);
}

/// Bytes of one value of each type of field: 1 for BYTE, ASCII, SBYTE and UNDEFINED, 2
/// for SHORT and SSHORT, 4 for LONG, SLONG, FLOAT and IFD, 8 for RATIONAL, SRATIONAL,
/// DOUBLE, LONG8, SLONG8 and IFD8; other types are not known.
pub proof fn law_type_sizes(t: u16)
    ensures
        spec_type_size(t) == 1 <==> t == 1 || t == 2 || t == 6 || t == 7,
        spec_type_size(t) == 2 <==> t == 3 || t == 8,
        spec_type_size(t) == 4 <==> t == 4 || t == 9 || t == 11 || t == 13,
        spec_type_size(t) == 8 <==> t == 5 || t == 10 || t == 12 || 16 <= t <= 18,
        spec_type_size(t) == 0 <==> t == 0 || t == 14 || t == 15 || t > 18,
{
}

/// A directory of a classic file: a count of two bytes, twelve bytes for each field (tag,
/// type, count, and four bytes that hold the values where they fit, else their place),
/// then the place of the next directory.
pub proof fn law_directory(input: Seq<u8>, bo: ByteOrder, at: int, i: int)
    requires
        0 <= at,
        ifd_spec(input, bo, TiffVariant::Classic, at) is Ok,
        0 <= i < word_at(bo, input, at),
    ensures
        ({
            let d = ifd_spec(input, bo, TiffVariant::Classic, at)->Ok_0;
            let n = word_at(bo, input, at);
            let base = at + 2 + 12 * i;
            let e = d.0[i];
            let total = spec_type_size(e.field_type) * e.count;
            &&& d.0.len() == n
            &&& d.1 == long_at(bo, input, at + 2 + 12 * n)
            &&& at + 2 + 12 * n + 4 <= input.len()
            &&& e.tag == word_at(bo, input, base)
            &&& e.field_type == word_at(bo, input, base + 2)
            &&& e.count == long_at(bo, input, base + 4)
            &&& total <= 4 ==> e.data == input.subrange(base + 8, base + 8 + total)
            &&& total > 4 ==> e.data == input.subrange(long_at(bo, input, base + 8), long_at(bo, input, base + 8) + total)
                && long_at(bo, input, base + 8) + total <= input.len()
        }),
{
    let v = TiffVariant::Classic;
    let d = ifd_spec(input, bo, v, at)->Ok_0;
    let n = word_at(bo, input, at);
    let base = at + 2 + 12 * i;
    law_numbers(bo, input, at);
    law_numbers(bo, input, base);
    law_numbers(bo, input, base + 2);
    law_numbers(bo, input, base + 4);
    law_numbers(bo, input, base + 8);
    law_numbers(bo, input, at + 2 + 12 * n);
    assert(at + v.count_size() + i * v.entry_size() == base);
    assert(entry_spec(input, bo, v, at + v.count_size() + i * v.entry_size()) is Ok);
    let e = d.0[i];
    assert(e == entry_spec(input, bo, v, base)->Ok_0);
    if spec_type_size(e.field_type) == 0 {
        assert(spec_type_size(e.field_type) * e.count == 0) by (nonlinear_arith)
            requires
                spec_type_size(e.field_type) == 0,
        ;
        assert(e.data =~= input.subrange(base + 8, base + 8));
    }
}

/// A directory of a BigTIFF file: a count of eight bytes, twenty bytes for each field
/// (tag, type, count, and eight bytes that hold the values where they fit, else their
/// place), then the place of the next directory.
pub proof fn law_big_directory(input: Seq<u8>, bo: ByteOrder, at: int, i: int)
    requires
        0 <= at,
        ifd_spec(input, bo, TiffVariant::Big, at) is Ok,
        0 <= i < huge_at(bo, input, at),
    ensures
        ({
            let d = ifd_spec(input, bo, TiffVariant::Big, at)->Ok_0;
            let n = huge_at(bo, input, at);
            let base = at + 8 + 20 * i;
            let e = d.0[i];
            let total = spec_type_size(e.field_type) * e.count;
            &&& d.0.len() == n
            &&& d.1 == huge_at(bo, input, at + 8 + 20 * n)
            &&& at + 8 + 20 * n + 8 <= input.len()
            &&& e.tag == word_at(bo, input, base)
            &&& e.field_type == word_at(bo, input, base + 2)
            &&& e.count == huge_at(bo, input, base + 4)
            &&& total <= 8 ==> e.data == input.subrange(base + 12, base + 12 + total)
            &&& total > 8 ==> e.data == input.subrange(huge_at(bo, input, base + 12), huge_at(bo, input, base + 12) + total)
                && huge_at(bo, input, base + 12) + total <= input.len()
        }),
{
    let v = TiffVariant::Big;
    let d = ifd_spec(input, bo, v, at)->Ok_0;
    let n = huge_at(bo, input, at);
    let base = at + 8 + 20 * i;
    law_numbers(bo, input, at);
    law_numbers(bo, input, base);
    law_numbers(bo, input, base + 2);
    law_numbers(bo, input, base + 4);
    law_numbers(bo, input, base + 12);
    law_numbers(bo, input, at + 8 + 20 * n);
    assert(at + v.count_size() + i * v.entry_size() == base);
    assert(entry_spec(input, bo, v, at + v.count_size() + i * v.entry_size()) is Ok);
    let e = d.0[i];
    assert(e == entry_spec(input, bo, v, base)->Ok_0);
    if spec_type_size(e.field_type) == 0 {
        assert(spec_type_size(e.field_type) * e.count == 0) by (nonlinear_arith)
            requires
                spec_type_size(e.field_type) == 0,
        ;
        assert(e.data =~= input.subrange(base + 12, base + 12));
    }
}

/// Entry `j` is the first one with its tag.
pub open spec fn leads(es: Seq<EntryModel>, j: int) -> bool {
    0 <= j < es.len() && forall|k: int| 0 <= k < j ==> (#[trigger] es[k]).tag != es[j].tag
}

/// No entry has the tag.
pub open spec fn lacks(es: Seq<EntryModel>, tag: u16) -> bool {
    forall|k: int| 0 <= k < es.len() ==> (#[trigger] es[k]).tag != tag
}

proof fn lemma_position(es: Seq<EntryModel>, tag: u16, i: int)
    requires
        0 <= i <= es.len(),
    ensures
        i <= tag_position(es, tag, i) <= es.len(),
        tag_position(es, tag, i) < es.len() ==> es[tag_position(es, tag, i)].tag == tag,
        forall|k: int| i <= k < tag_position(es, tag, i) ==> (#[trigger] es[k]).tag != tag,
    decreases es.len() - i,
{
    if i < es.len() && es[i].tag != tag {
        lemma_position(es, tag, i + 1);
    }
}

/// Of fields with one tag the first one counts, and a field is found where there is one.
pub proof fn law_found(es: Seq<EntryModel>, tag: u16)
    ensures
        lacks(es, tag) <==> find_spec(es, tag) is None,
        forall|j: int| #[trigger] leads(es, j) && es[j].tag == tag ==> find_spec(es, tag) == Some(es[j]),
{
    lemma_position(es, tag, 0);
    let p = tag_position(es, tag, 0);
    assert forall|j: int| #[trigger] leads(es, j) && es[j].tag == tag implies find_spec(es, tag) == Some(es[j]) by {
        if p < j {
            assert(es[p].tag == tag);
        }
    }
    if p < es.len() {
        assert(es[p].tag == tag);
    }
}

/// The values of a field: bytes for type 1, words for type 3, numbers of four bytes for
/// types 4 and 13, of eight bytes for types 16 and 18; the last three are read for places
/// in a file only, and other types are no numbers.
pub proof fn law_values(e: EntryModel, bo: ByteOrder, i: int)
    requires
        0 <= i < e.count,
    ensures
        e.field_type == 1 && e.data.len() >= e.count ==> {
            &&& e.u32s(bo) matches Ok(v) && v.len() == e.count && v[i] == e.data[i]
            &&& e.u64s(bo) matches Ok(v) && v.len() == e.count && v[i] == e.data[i]
        },
        e.field_type == 3 && e.data.len() >= 2 * e.count ==> {
            &&& e.u32s(bo) matches Ok(v) && v.len() == e.count && v[i] == word_at(bo, e.data, 2 * i)
            &&& e.u64s(bo) matches Ok(v) && v.len() == e.count && v[i] == word_at(bo, e.data, 2 * i)
        },
        e.field_type == 4 && e.data.len() >= 4 * e.count ==> {
            &&& e.u32s(bo) matches Ok(v) && v.len() == e.count && v[i] == long_at(bo, e.data, 4 * i)
            &&& e.u64s(bo) matches Ok(v) && v.len() == e.count && v[i] == long_at(bo, e.data, 4 * i)
        },
        e.field_type == 13 && e.data.len() >= 4 * e.count ==> {
            &&& e.u32s(bo) is Err
            &&& e.u64s(bo) matches Ok(v) && v.len() == e.count && v[i] == long_at(bo, e.data, 4 * i)
        },
        (e.field_type == 16 || e.field_type == 18) && e.data.len() >= 8 * e.count ==> {
            &&& e.u32s(bo) is Err
            &&& e.u64s(bo) matches Ok(v) && v.len() == e.count && v[i] == huge_at(bo, e.data, 8 * i)
        },
        e.field_type != 1 && e.field_type != 3 && e.field_type != 4 && e.field_type != 13 && e.field_type != 16
            && e.field_type != 18 ==> e.u32s(bo) is Err && e.u64s(bo) is Err,
{
    law_numbers(bo, e.data, i);
    law_numbers(bo, e.data, 2 * i);
    law_numbers(bo, e.data, 4 * i);
    law_numbers(bo, e.data, 8 * i);
    if (e.field_type == 16 || e.field_type == 18) && e.data.len() >= 8 * e.count {
        assert(e.u64s(bo) == e.uints(bo, 8));
        assert(e.uints(bo, 8)->Ok_0[i] == uint_at(bo, e.data, i * 8, 8) as int);
        assert(i * 8 == 8 * i);
    }
}

} // verus!
