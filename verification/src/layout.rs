//! Where the parts of a page stand in a file: its strips or tiles, the values
//! that do not fit their fields, and the directory of its fields. Files are
//! written with the low byte first.
use vstd::prelude::*;
use crate::compress::append;
use crate::error::Outcome;
use crate::ifd::{entry_spec, ifd_spec, uint_at, ByteOrder, EntryModel, TiffVariant};
use crate::types::spec_type_size;

verus! {

// ----------------------------------------------------------------------
// Bytes
// ----------------------------------------------------------------------

/// The `n` low bytes of `v`, low byte first.
pub open spec fn le(v: int, n: nat) -> Seq<u8>
    decreases n,
{
    if n == 0 {
        Seq::empty()
    } else {
        seq![(v % 256) as u8] + le(v / 256, (n - 1) as nat)
    }
}

/// Number of values of `n` bytes.
pub open spec fn room_of(n: nat) -> int
    decreases n,
{
    if n == 0 { 1 } else { 256 * room_of((n - 1) as nat) }
}

pub proof fn lemma_le_len(v: int, n: nat)
    ensures
        le(v, n).len() == n,
    decreases n,
{
    if n > 0 {
        lemma_le_len(v / 256, (n - 1) as nat);
    }
}

/// Reading a number where it was written gives it back.
pub proof fn lemma_le_read(s: Seq<u8>, at: int, v: int, n: nat)
    requires
        0 <= at,
        at + n <= s.len(),
        s.subrange(at, at + n) == le(v, n),
        0 <= v < room_of(n),
    ensures
        uint_at(ByteOrder::Little, s, at, n) == v,
    decreases n,
{
    lemma_le_len(v, n);
    if n > 0 {
        let m = (n - 1) as nat;
        lemma_le_len(v / 256, m);
        let b = le(v, n);
        assert(s.subrange(at, at + n)[0] == b[0]);
        let rest = s.subrange(at + 1, at + 1 + m);
        let low = le(v / 256, m);
        assert forall|i: int| 0 <= i < m implies #[trigger] rest[i] == low[i] by {
            assert(s.subrange(at, at + n)[i + 1] == b[i + 1]);
        }
        assert(rest =~= low);
        lemma_le_read(s, at + 1, v / 256, m);
    }
}

/// Zero bytes.
pub open spec fn zeros(n: int) -> Seq<u8> {
    Seq::new(n as nat, |i: int| 0u8)
}

/// The first `n` of some sequences, one after the other.
pub open spec fn joined(parts: Seq<Seq<u8>>, n: int) -> Seq<u8>
    decreases n,
{
    if n <= 0 {
        Seq::empty()
    } else {
        joined(parts, n - 1) + parts[n - 1]
    }
}

/// A part stands behind the parts before it.
pub proof fn lemma_joined_part(parts: Seq<Seq<u8>>, n: int, i: int)
    requires
        0 <= i < n <= parts.len(),
    ensures
        joined(parts, i).len() + parts[i].len() <= joined(parts, n).len(),
        joined(parts, n).subrange(
            joined(parts, i).len() as int,
            (joined(parts, i).len() + parts[i].len()) as int,
        ) == parts[i],
    decreases n,
{
    let a = joined(parts, i).len() as int;
    let b = a + parts[i].len() as int;
    if i == n - 1 {
        assert(joined(parts, n).subrange(a, b) =~= parts[i]);
    } else {
        lemma_joined_part(parts, n - 1, i);
        assert(joined(parts, n).subrange(a, b) =~= joined(parts, n - 1).subrange(a, b));
    }
}

/// The parts before a part are no longer than those before a later one.
pub proof fn lemma_joined_mono(parts: Seq<Seq<u8>>, i: int, n: int)
    requires
        0 <= i <= n,
    ensures
        joined(parts, i).len() <= joined(parts, n).len(),
    decreases n,
{
    if i < n {
        lemma_joined_mono(parts, i, n - 1);
    }
}

/// Length of parts that are all `size` long.
pub proof fn lemma_joined_even(parts: Seq<Seq<u8>>, n: int, size: int)
    requires
        0 <= n <= parts.len(),
        forall|i: int| 0 <= i < n ==> (#[trigger] parts[i]).len() == size,
    ensures
        joined(parts, n).len() == n * size,
    decreases n,
{
    if n > 0 {
        lemma_joined_even(parts, n - 1, size);
        assert((n - 1) * size + size == n * size) by (nonlinear_arith);
    } else {
        assert(0 * size == 0) by (nonlinear_arith);
    }
}

/// Numbers of `size` bytes, one after the other.
pub open spec fn le_parts(v: Seq<int>, size: nat) -> Seq<Seq<u8>> {
    Seq::new(v.len(), |i: int| le(v[i], size))
}

/// Numbers of `size` bytes, one after the other.
pub open spec fn le_list(v: Seq<int>, size: nat) -> Seq<u8> {
    joined(le_parts(v, size), v.len() as int)
}

pub proof fn lemma_le_list(v: Seq<int>, size: nat)
    requires
        forall|i: int| 0 <= i < v.len() ==> 0 <= #[trigger] v[i] < room_of(size),
    ensures
        le_list(v, size).len() == v.len() * size,
        forall|i: int|
            0 <= i < v.len() ==> uint_at(ByteOrder::Little, le_list(v, size), i * size, size) == #[trigger] v[i],
{
    let parts = le_parts(v, size);
    assert forall|i: int| 0 <= i < v.len() implies (#[trigger] parts[i]).len() == size by {
        lemma_le_len(v[i], size);
    }
    lemma_joined_even(parts, v.len() as int, size as int);
    assert forall|i: int| 0 <= i < v.len() implies uint_at(ByteOrder::Little, le_list(v, size), i * size, size)
        == #[trigger] v[i] by {
        lemma_joined_even(parts, i, size as int);
        lemma_joined_part(parts, v.len() as int, i);
        assert(parts[i].len() == size);
        lemma_le_read(le_list(v, size), i * size, v[i], size);
    }
}

/// Appends the low bytes of a number.
pub(crate) fn push_le(out: &mut Vec<u8>, v: u64, n: usize)
    ensures
        final(out)@ == old(out)@ + le(v as int, n as nat),
{
    let ghost before = out@;
    let mut left: u64 = v;
    let mut i: usize = 0;
    assert(out@ + le(v as int, n as nat) =~= before + le(v as int, n as nat));
    while i < n
        invariant
            i <= n,
            out@ + le(left as int, (n - i) as nat) == before + le(v as int, n as nat),
        decreases n - i,
    {
        let ghost prev = out@;
        out.push((left % 256) as u8);
        assert(prev + le(left as int, (n - i) as nat) =~= out@ + le(left as int / 256, (n - i - 1) as nat));
        left = left / 256;
        i = i + 1;
    }
    assert(out@ + le(left as int, 0) =~= out@);
}

/// Appends zero bytes.
pub(crate) fn push_zeros(out: &mut Vec<u8>, n: usize)
    ensures
        final(out)@ == old(out)@ + zeros(n as int),
{
    let ghost before = out@;
    let mut i: usize = 0;
    assert(out@ =~= before + zeros(0));
    while i < n
        invariant
            i <= n,
            out@ == before + zeros(i as int),
        decreases n - i,
    {
        out.push(0);
        i = i + 1;
        assert(out@ =~= before + zeros(i as int));
    }
}

// ----------------------------------------------------------------------
// The parts of a page
// ----------------------------------------------------------------------

/// What a field holds.
#[derive(Debug, Clone)]
pub enum FieldValue {
    /// Bytes that fit the field.
    Inline(Vec<u8>),
    /// The places of the strips or tiles.
    Offsets,
    /// The sizes of the strips or tiles.
    Counts,
    /// The bits of the samples, where they do not fit the field.
    Bits,
    /// The colour map.
    Colours,
}

/// A field to be written.
#[derive(Debug, Clone)]
pub struct PlannedField {
    pub tag: u16,
    pub field_type: u16,
    pub count: u64,
    pub value: FieldValue,
}

/// A page to be written.
#[derive(Debug, Clone)]
pub struct PlannedPage {
    /// The strips or tiles.
    pub segments: Vec<Vec<u8>>,
    /// The bits of the samples, if they do not fit their field.
    pub bits: Vec<u8>,
    /// The colour map, if there is one.
    pub colours: Vec<u8>,
    /// The fields.
    pub fields: Vec<PlannedField>,
}

/// What a field holds, as a mathematical value.
pub enum ValueModel {
    Inline(Seq<u8>),
    Offsets,
    Counts,
    Bits,
    Colours,
}

/// A field to be written, as a mathematical value.
pub struct FieldModel {
    pub tag: u16,
    pub field_type: u16,
    pub count: int,
    pub value: ValueModel,
}

/// A page to be written, as a mathematical value.
pub struct PlanModel {
    pub segments: Seq<Seq<u8>>,
    pub bits: Seq<u8>,
    pub colours: Seq<u8>,
    pub fields: Seq<FieldModel>,
}

impl View for FieldValue {
    type V = ValueModel;

    open spec fn view(&self) -> ValueModel {
        match *self {
            FieldValue::Inline(b) => ValueModel::Inline(b@),
            FieldValue::Offsets => ValueModel::Offsets,
            FieldValue::Counts => ValueModel::Counts,
            FieldValue::Bits => ValueModel::Bits,
            FieldValue::Colours => ValueModel::Colours,
        }
    }
}

impl View for PlannedField {
    type V = FieldModel;

    open spec fn view(&self) -> FieldModel {
        FieldModel { tag: self.tag, field_type: self.field_type, count: self.count as int, value: self.value@ }
    }
}

/// Fields to be written, as mathematical values.
pub open spec fn field_models(v: Seq<PlannedField>) -> Seq<FieldModel> {
    Seq::new(v.len(), |i: int| v[i]@)
}

impl View for PlannedPage {
    type V = PlanModel;

    open spec fn view(&self) -> PlanModel {
        PlanModel {
            segments: crate::segments::plane_bytes(self.segments@),
            bits: self.bits@,
            colours: self.colours@,
            fields: field_models(self.fields@),
        }
    }
}

/// Bytes needed to bring `x` to a multiple of `n`.
pub open spec fn pad(x: int, n: int) -> int {
    (n - x % n) % n
}

impl PlanModel {
    /// End of the strips or tiles of a page that starts at `a`.
    pub open spec fn segments_end(self, a: int) -> int {
        a + joined(self.segments, self.segments.len() as int).len()
    }

    /// Place of the bits of the samples.
    pub open spec fn bits_at(self, a: int) -> int {
        self.segments_end(a) + (if self.bits.len() > 0 { pad(self.segments_end(a), 2) } else { 0 })
    }

    pub open spec fn bits_end(self, a: int) -> int {
        self.bits_at(a) + self.bits.len()
    }

    /// Place of the colour map.
    pub open spec fn colours_at(self, a: int) -> int {
        self.bits_end(a) + (if self.colours.len() > 0 { pad(self.bits_end(a), 2) } else { 0 })
    }

    pub open spec fn colours_end(self, a: int) -> int {
        self.colours_at(a) + self.colours.len()
    }

    /// Whether places and sizes of strips or tiles do not fit their fields.
    pub open spec fn has_arrays(self) -> bool {
        self.segments.len() > 1
    }

    /// Place of the list of places of strips or tiles.
    pub open spec fn arrays_at(self, a: int, size: nat) -> int {
        self.colours_end(a) + (if self.has_arrays() { pad(self.colours_end(a), size as int) } else { 0 })
    }

    pub open spec fn arrays_end(self, a: int, size: nat) -> int {
        self.arrays_at(a, size) + (if self.has_arrays() { 2 * (self.segments.len() * size) } else { 0 })
    }

    /// Place of the directory.
    pub open spec fn ifd_at(self, a: int, v: TiffVariant) -> int {
        let e = self.arrays_end(a, v.offset_size());
        e + pad(e, 2)
    }

    /// End of the page.
    pub open spec fn end(self, a: int, v: TiffVariant) -> int {
        self.ifd_at(a, v) + v.count_size() + self.fields.len() * v.entry_size() + v.offset_size()
    }

    /// Places of the strips or tiles.
    pub open spec fn offsets(self, a: int) -> Seq<int> {
        Seq::new(self.segments.len(), |i: int| a + joined(self.segments, i).len())
    }

    /// Sizes of the strips or tiles.
    pub open spec fn counts(self) -> Seq<int> {
        Seq::new(self.segments.len(), |i: int| self.segments[i].len() as int)
    }

    /// Bytes of a field.
    pub open spec fn data_of(self, a: int, size: nat, f: FieldModel) -> Seq<u8> {
        match f.value {
            ValueModel::Inline(b) => b,
            ValueModel::Offsets => le_list(self.offsets(a), size),
            ValueModel::Counts => le_list(self.counts(), size),
            ValueModel::Bits => self.bits,
            ValueModel::Colours => self.colours,
        }
    }

    /// Place of the bytes of a field that do not fit it.
    pub open spec fn place_of(self, a: int, size: nat, f: FieldModel) -> int {
        match f.value {
            ValueModel::Inline(b) => 0,
            ValueModel::Offsets => self.arrays_at(a, size),
            ValueModel::Counts => self.arrays_at(a, size) + self.segments.len() * size,
            ValueModel::Bits => self.bits_at(a),
            ValueModel::Colours => self.colours_at(a),
        }
    }

    /// The value slot of a field: its bytes, or their place.
    pub open spec fn slot_of(self, a: int, size: nat, f: FieldModel) -> Seq<u8> {
        let d = self.data_of(a, size, f);
        if d.len() <= size { d + zeros(size - d.len()) } else { le(self.place_of(a, size, f), size) }
    }

    /// The bytes of a field in the directory.
    pub open spec fn entry_bytes(self, a: int, size: nat, f: FieldModel) -> Seq<u8> {
        le(f.tag as int, 2) + le(f.field_type as int, 2) + le(f.count, size) + self.slot_of(a, size, f)
    }

    /// The bytes of every field in the directory.
    pub open spec fn entry_parts(self, a: int, size: nat) -> Seq<Seq<u8>> {
        Seq::new(self.fields.len(), |i: int| self.entry_bytes(a, size, self.fields[i]))
    }

    /// The directory, where that of the next page is at `next`.
    pub open spec fn ifd_bytes(self, a: int, v: TiffVariant, next: int) -> Seq<u8> {
        le(self.fields.len() as int, v.count_size()) + joined(
            self.entry_parts(a, v.offset_size()),
            self.fields.len() as int,
        ) + le(next, v.offset_size())
    }

    /// Strips or tiles, and the bits of the samples.
    pub open spec fn through_bits(self, a: int) -> Seq<u8> {
        joined(self.segments, self.segments.len() as int) + zeros(self.bits_at(a) - self.segments_end(a)) + self.bits
    }

    /// What precedes the lists of places and sizes.
    pub open spec fn through_colours(self, a: int) -> Seq<u8> {
        self.through_bits(a) + zeros(self.colours_at(a) - self.bits_end(a)) + self.colours
    }

    /// The lists of places and sizes, if they do not fit their fields.
    pub open spec fn arrays(self, a: int, size: nat) -> Seq<u8> {
        if self.has_arrays() {
            le_list(self.offsets(a), size) + le_list(self.counts(), size)
        } else {
            Seq::empty()
        }
    }

    /// What precedes the directory.
    pub open spec fn through_arrays(self, a: int, v: TiffVariant) -> Seq<u8> {
        let size = v.offset_size();
        self.through_colours(a) + zeros(self.arrays_at(a, size) - self.colours_end(a)) + self.arrays(a, size) + zeros(
            self.ifd_at(a, v) - self.arrays_end(a, size),
        )
    }

    /// A page that starts at `a`, with the directory of the next page at `next`.
    #[verifier::opaque]
    pub open spec fn bytes(self, a: int, v: TiffVariant, next: int) -> Seq<u8> {
        self.through_arrays(a, v) + self.ifd_bytes(a, v, next)
    }

    /// Every field has as many bytes as its count says, and a slot for them.
    pub open spec fn wf(self, v: TiffVariant) -> bool {
        let size = v.offset_size();
        &&& self.segments.len() >= 1
        &&& self.fields.len() < 256
        &&& forall|i: int|
            0 <= i < self.fields.len() ==> {
                let f = #[trigger] self.fields[i];
                &&& 0 <= f.count
                &&& match f.value {
                    ValueModel::Inline(b) => b.len() <= size && b.len() == spec_type_size(f.field_type) * f.count
                        && spec_type_size(f.field_type) > 0,
                    ValueModel::Offsets | ValueModel::Counts => f.count == self.segments.len() && spec_type_size(
                        f.field_type,
                    ) == size,
                    ValueModel::Bits => self.bits.len() > size && self.bits.len() == spec_type_size(f.field_type)
                        * f.count && spec_type_size(f.field_type) > 0,
                    ValueModel::Colours => self.colours.len() > size && self.colours.len() == spec_type_size(
                        f.field_type,
                    ) * f.count && spec_type_size(f.field_type) > 0,
                }
            }
    }

    /// Everything can be addressed: the page ends below `room`, and so do the
    /// counts of its fields.
    pub open spec fn addressable(self, a: int, v: TiffVariant) -> bool {
        &&& self.end(a, v) < room_of(v.offset_size())
        &&& forall|i: int| 0 <= i < self.fields.len() ==> (#[trigger] self.fields[i]).count < room_of(v.offset_size())
    }

    /// A field as it is read.
    pub open spec fn read_field(self, a: int, v: TiffVariant, f: FieldModel) -> EntryModel {
        EntryModel {
            tag: f.tag,
            field_type: f.field_type,
            count: f.count as u64,
            data: self.data_of(a, v.offset_size(), f),
        }
    }

    /// The fields as they are read.
    pub open spec fn read_fields(self, a: int, v: TiffVariant) -> Seq<EntryModel> {
        Seq::new(self.fields.len(), |i: int| self.read_field(a, v, self.fields[i]))
    }
}

/// Directories and the values of 16 bits stand at even places, tables of offsets and
/// sizes at multiples of their numbers.
pub proof fn law_aligned(p: PlanModel, a: int, v: TiffVariant)
    requires
        0 <= a,
    ensures
        p.ifd_at(a, v) % 2 == 0,
        p.bits.len() > 0 ==> p.bits_at(a) % 2 == 0,
        p.colours.len() > 0 ==> p.colours_at(a) % 2 == 0,
        p.has_arrays() ==> p.arrays_at(a, v.offset_size()) % (v.offset_size() as int) == 0,
{
}

/// The parts of a page follow each other.
pub proof fn lemma_order(p: PlanModel, a: int, v: TiffVariant)
    requires
        a >= 0,
    ensures
        a <= p.segments_end(a) <= p.bits_at(a) <= p.bits_end(a) <= p.colours_at(a) <= p.colours_end(a),
        p.colours_end(a) <= p.arrays_at(a, v.offset_size()) <= p.arrays_end(a, v.offset_size()),
        p.arrays_end(a, v.offset_size()) <= p.ifd_at(a, v) <= p.end(a, v),
        p.ifd_at(a, v) + v.count_size() + p.fields.len() * v.entry_size() + v.offset_size() == p.end(a, v),
{
    let size = v.offset_size();
    assert(0 <= p.segments.len() * size) by (nonlinear_arith);
    assert(0 <= p.fields.len() * v.entry_size()) by (nonlinear_arith);
}

/// Places and sizes of strips or tiles stay below the end of the page.
pub proof fn lemma_places_small(p: PlanModel, a: int, v: TiffVariant)
    requires
        a >= 0,
        p.addressable(a, v),
    ensures
        forall|i: int| 0 <= i < p.segments.len() ==> 0 <= #[trigger] p.offsets(a)[i] < room_of(v.offset_size()),
        forall|i: int| 0 <= i < p.segments.len() ==> 0 <= #[trigger] p.counts()[i] < room_of(v.offset_size()),
        le_list(p.offsets(a), v.offset_size()).len() == p.segments.len() * v.offset_size(),
        le_list(p.counts(), v.offset_size()).len() == p.segments.len() * v.offset_size(),
{
    let n = p.segments.len() as int;
    lemma_order(p, a, v);
    assert forall|i: int| 0 <= i < n implies 0 <= #[trigger] p.offsets(a)[i] < room_of(v.offset_size()) by {
        lemma_joined_part(p.segments, n, i);
    }
    assert forall|i: int| 0 <= i < n implies 0 <= #[trigger] p.counts()[i] < room_of(v.offset_size()) by {
        lemma_joined_part(p.segments, n, i);
    }
    lemma_le_list(p.offsets(a), v.offset_size());
    lemma_le_list(p.counts(), v.offset_size());
}

/// A page is as long as its end says.
pub proof fn lemma_page_len(p: PlanModel, a: int, v: TiffVariant, next: int)
    requires
        a >= 0,
        p.addressable(a, v),
    ensures
        p.through_bits(a).len() == p.bits_end(a) - a,
        p.through_colours(a).len() == p.colours_end(a) - a,
        p.through_arrays(a, v).len() == p.ifd_at(a, v) - a,
        forall|i: int|
            0 <= i < p.fields.len() ==> (#[trigger] p.entry_parts(a, v.offset_size())[i]).len() == v.entry_size(),
        joined(p.entry_parts(a, v.offset_size()), p.fields.len() as int).len() == p.fields.len() * v.entry_size(),
        p.ifd_bytes(a, v, next).len() == p.end(a, v) - p.ifd_at(a, v),
        p.bytes(a, v, next).len() == p.end(a, v) - a,
{
    reveal(PlanModel::bytes);
    let size = v.offset_size();
    lemma_order(p, a, v);
    lemma_places_small(p, a, v);
    let parts = p.entry_parts(a, size);
    assert forall|i: int| 0 <= i < p.fields.len() implies (#[trigger] parts[i]).len() == v.entry_size() by {
        let f = p.fields[i];
        lemma_le_len(f.tag as int, 2);
        lemma_le_len(f.field_type as int, 2);
        lemma_le_len(f.count, size);
        lemma_le_len(p.place_of(a, size, f), size);
    }
    lemma_joined_even(parts, p.fields.len() as int, v.entry_size() as int);
    lemma_le_len(p.fields.len() as int, v.count_size());
    lemma_le_len(next, size);
}

/// A part of what stands in a file stands in the file.
proof fn lemma_within(file: Seq<u8>, at: int, whole: Seq<u8>, x: int, y: int)
    requires
        0 <= at,
        at + whole.len() <= file.len(),
        file.subrange(at, at + whole.len()) == whole,
        0 <= x <= y <= whole.len(),
    ensures
        file.subrange(at + x, at + y) == whole.subrange(x, y),
{
    assert forall|i: int| 0 <= i < y - x implies #[trigger] file.subrange(at + x, at + y)[i] == whole.subrange(x, y)[i] by {
        assert(file.subrange(at, at + whole.len())[x + i] == whole[x + i]);
    }
    assert(file.subrange(at + x, at + y) =~= whole.subrange(x, y));
}

/// A field is read as it was written.
proof fn lemma_entry_parses(file: Seq<u8>, p: PlanModel, a: int, v: TiffVariant, f: FieldModel, base: int)
    requires
        0 <= base,
        base + v.entry_size() <= file.len(),
        file.subrange(base, base + v.entry_size()) == p.entry_bytes(a, v.offset_size(), f),
        0 <= f.count < room_of(v.offset_size()),
        spec_type_size(f.field_type) > 0,
        ({
            let d = p.data_of(a, v.offset_size(), f);
            let at = p.place_of(a, v.offset_size(), f);
            &&& d.len() == spec_type_size(f.field_type) * f.count
            &&& d.len() > v.offset_size() ==> 0 <= at < room_of(v.offset_size()) && at + d.len() <= file.len()
                && file.subrange(at, at + d.len()) == d
        }),
    ensures
        entry_spec(file, ByteOrder::Little, v, base) == Outcome::<EntryModel>::Ok(p.read_field(a, v, f)),
{
    let size = v.offset_size();
    let whole = p.entry_bytes(a, size, f);
    let d = p.data_of(a, size, f);
    let slot = p.slot_of(a, size, f);
    lemma_le_len(f.tag as int, 2);
    lemma_le_len(f.field_type as int, 2);
    lemma_le_len(f.count, size);
    lemma_le_len(p.place_of(a, size, f), size);
    reveal_with_fuel(room_of, 9);
    assert(whole.subrange(0, 2) =~= le(f.tag as int, 2));
    assert(whole.subrange(2, 4) =~= le(f.field_type as int, 2));
    assert(whole.subrange(4, 4 + size as int) =~= le(f.count, size));
    assert(whole.subrange(4 + size as int, 4 + 2 * size as int) =~= slot);
    lemma_within(file, base, whole, 0, 2);
    lemma_within(file, base, whole, 2, 4);
    lemma_within(file, base, whole, 4, 4 + size as int);
    lemma_within(file, base, whole, 4 + size as int, 4 + 2 * size as int);
    lemma_le_read(file, base, f.tag as int, 2);
    lemma_le_read(file, base + 2, f.field_type as int, 2);
    lemma_le_read(file, base + 4, f.count, size);
    let at = base + 4 + size;
    if d.len() <= size {
        lemma_within(file, at, slot, 0, d.len() as int);
        assert(slot.subrange(0, d.len() as int) =~= d);
    } else {
        lemma_le_read(file, at, p.place_of(a, size, f), size);
    }
}

/// What stands in the first of two sequences stands in both.
proof fn lemma_in_first(x: Seq<u8>, y: Seq<u8>, i: int, j: int)
    requires
        0 <= i <= j <= x.len(),
    ensures
        (x + y).subrange(i, j) == x.subrange(i, j),
{
    assert((x + y).subrange(i, j) =~= x.subrange(i, j));
}

/// Where the bits of the samples and the colour map stand in a page.
proof fn lemma_values_in_page(p: PlanModel, a: int, v: TiffVariant, next: int)
    requires
        0 <= a,
        p.addressable(a, v),
    ensures
        p.bytes(a, v, next).subrange(p.bits_at(a) - a, p.bits_end(a) - a) == p.bits,
        p.bytes(a, v, next).subrange(p.colours_at(a) - a, p.colours_end(a) - a) == p.colours,
{
    reveal(PlanModel::bytes);
    lemma_order(p, a, v);
    lemma_page_len(p, a, v, next);
    let size = v.offset_size();
    let head = joined(p.segments, p.segments.len() as int) + zeros(p.bits_at(a) - p.segments_end(a));
    let tb = p.through_bits(a);
    let tc = p.through_colours(a);
    let z1 = zeros(p.colours_at(a) - p.bits_end(a));
    let z2 = zeros(p.arrays_at(a, size) - p.colours_end(a));
    let z3 = zeros(p.ifd_at(a, v) - p.arrays_end(a, size));
    let arrays = p.arrays(a, size);
    let ta = p.through_arrays(a, v);
    let ifd = p.ifd_bytes(a, v, next);
    let (b0, b1) = (p.bits_at(a) - a, p.bits_end(a) - a);
    let (c0, c1) = (p.colours_at(a) - a, p.colours_end(a) - a);
    assert(tb.subrange(b0, b1) =~= p.bits);
    lemma_in_first(tb, z1, b0, b1);
    lemma_in_first(tb + z1, p.colours, b0, b1);
    assert(tc.subrange(c0, c1) =~= p.colours);
    lemma_in_first(tc, z2, b0, b1);
    lemma_in_first(tc + z2, arrays, b0, b1);
    lemma_in_first(tc + z2 + arrays, z3, b0, b1);
    lemma_in_first(ta, ifd, b0, b1);
    lemma_in_first(tc, z2, c0, c1);
    lemma_in_first(tc + z2, arrays, c0, c1);
    lemma_in_first(tc + z2 + arrays, z3, c0, c1);
    lemma_in_first(ta, ifd, c0, c1);
}

/// Where the lists of places and sizes stand in a page.
proof fn lemma_arrays_in_page(p: PlanModel, a: int, v: TiffVariant, next: int)
    requires
        0 <= a,
        p.addressable(a, v),
        p.has_arrays(),
    ensures
        ({
            let size = v.offset_size();
            let x = p.arrays_at(a, size) - a;
            let n = p.segments.len() * size;
            &&& p.bytes(a, v, next).subrange(x, x + n) == le_list(p.offsets(a), size)
            &&& p.bytes(a, v, next).subrange(x + n, x + n + n) == le_list(p.counts(), size)
        }),
{
    reveal(PlanModel::bytes);
    lemma_order(p, a, v);
    lemma_places_small(p, a, v);
    lemma_page_len(p, a, v, next);
    let size = v.offset_size();
    let n = p.segments.len() * size;
    let x = p.arrays_at(a, size) - a;
    let tc = p.through_colours(a);
    let z2 = zeros(p.arrays_at(a, size) - p.colours_end(a));
    let z3 = zeros(p.ifd_at(a, v) - p.arrays_end(a, size));
    let offs = le_list(p.offsets(a), size);
    let cnts = le_list(p.counts(), size);
    let arrays = p.arrays(a, size);
    let ta = p.through_arrays(a, v);
    let ifd = p.ifd_bytes(a, v, next);
    let both = tc + z2 + arrays;
    assert(both.subrange(x, x + n) =~= offs);
    assert(both.subrange(x + n, x + n + n) =~= cnts);
    lemma_in_first(both, z3, x, x + n);
    lemma_in_first(both, z3, x + n, x + n + n);
    lemma_in_first(ta, ifd, x, x + n);
    lemma_in_first(ta, ifd, x + n, x + n + n);
}

/// Every strip or tile stands where the list of places says.
pub proof fn lemma_segment_placed(file: Seq<u8>, p: PlanModel, a: int, v: TiffVariant, next: int, i: int)
    requires
        0 <= a,
        p.addressable(a, v),
        p.end(a, v) <= file.len(),
        file.subrange(a, p.end(a, v)) == p.bytes(a, v, next),
        0 <= i < p.segments.len(),
    ensures
        0 <= p.offsets(a)[i],
        p.offsets(a)[i] + p.counts()[i] <= file.len(),
        file.subrange(p.offsets(a)[i], p.offsets(a)[i] + p.counts()[i]) == p.segments[i],
{
    reveal(PlanModel::bytes);
    let n = p.segments.len() as int;
    lemma_order(p, a, v);
    lemma_page_len(p, a, v, next);
    lemma_joined_part(p.segments, n, i);
    let size = v.offset_size();
    let x = joined(p.segments, i).len() as int;
    let y = x + p.segments[i].len() as int;
    let all = joined(p.segments, n);
    let z0 = zeros(p.bits_at(a) - p.segments_end(a));
    let tb = p.through_bits(a);
    let tc = p.through_colours(a);
    let z1 = zeros(p.colours_at(a) - p.bits_end(a));
    let z2 = zeros(p.arrays_at(a, size) - p.colours_end(a));
    let z3 = zeros(p.ifd_at(a, v) - p.arrays_end(a, size));
    let arrays = p.arrays(a, size);
    let ta = p.through_arrays(a, v);
    lemma_in_first(all, z0, x, y);
    lemma_in_first(all + z0, p.bits, x, y);
    lemma_in_first(tb, z1, x, y);
    lemma_in_first(tb + z1, p.colours, x, y);
    lemma_in_first(tc, z2, x, y);
    lemma_in_first(tc + z2, arrays, x, y);
    lemma_in_first(tc + z2 + arrays, z3, x, y);
    lemma_in_first(ta, p.ifd_bytes(a, v, next), x, y);
    lemma_within(file, a, p.bytes(a, v, next), x, y);
}

/// The bytes of every field that do not fit it stand where its slot says.
proof fn lemma_data_placed(file: Seq<u8>, p: PlanModel, a: int, v: TiffVariant, next: int, i: int)
    requires
        0 <= a,
        p.wf(v),
        p.addressable(a, v),
        p.end(a, v) <= file.len(),
        file.subrange(a, p.end(a, v)) == p.bytes(a, v, next),
        0 <= i < p.fields.len(),
    ensures
        ({
            let f = p.fields[i];
            let d = p.data_of(a, v.offset_size(), f);
            let at = p.place_of(a, v.offset_size(), f);
            &&& d.len() == spec_type_size(f.field_type) * f.count
            &&& d.len() > v.offset_size() ==> 0 <= at < room_of(v.offset_size()) && at + d.len() <= file.len()
                && file.subrange(at, at + d.len()) == d
        }),
{
    let size = v.offset_size();
    let f = p.fields[i];
    let d = p.data_of(a, size, f);
    let whole = p.bytes(a, v, next);
    lemma_order(p, a, v);
    lemma_places_small(p, a, v);
    lemma_page_len(p, a, v, next);
    lemma_values_in_page(p, a, v, next);
    let n = p.segments.len() as int;
    assert(n * size == size * n) by (nonlinear_arith);
    if (f.value is Offsets || f.value is Counts) && d.len() > size {
        assert(n > 1) by (nonlinear_arith)
            requires
                n * size > size,
                n >= 1,
                size > 0,
        ;
        lemma_arrays_in_page(p, a, v, next);
        let x = p.arrays_at(a, size) - a;
        lemma_within(file, a, whole, x, x + n * size);
        lemma_within(file, a, whole, x + n * size, x + n * size + n * size);
    }
    if f.value is Bits {
        lemma_within(file, a, whole, p.bits_at(a) - a, p.bits_end(a) - a);
    }
    if f.value is Colours {
        lemma_within(file, a, whole, p.colours_at(a) - a, p.colours_end(a) - a);
    }
}

/// A page that stands in a file is read with the fields it was written with.
pub proof fn lemma_page_parses(file: Seq<u8>, p: PlanModel, a: int, v: TiffVariant, next: int)
    requires
        0 <= a,
        p.wf(v),
        p.addressable(a, v),
        0 <= next < room_of(v.offset_size()),
        p.end(a, v) <= file.len(),
        file.subrange(a, p.end(a, v)) == p.bytes(a, v, next),
    ensures
        ifd_spec(file, ByteOrder::Little, v, p.ifd_at(a, v)) == Outcome::<(Seq<EntryModel>, int)>::Ok(
            (p.read_fields(a, v), next),
        ),
{
    reveal(PlanModel::bytes);
    let size = v.offset_size();
    let es = v.entry_size() as int;
    let bo = ByteOrder::Little;
    let whole = p.bytes(a, v, next);
    let n = p.fields.len() as int;
    let ifd = p.ifd_bytes(a, v, next);
    let at = p.ifd_at(a, v);
    let cs = v.count_size() as int;
    lemma_order(p, a, v);
    lemma_page_len(p, a, v, next);
    lemma_le_len(n, v.count_size());
    lemma_le_len(next, size);
    reveal_with_fuel(room_of, 9);
    let parts = p.entry_parts(a, size);
    let x = at - a;
    assert(whole.subrange(x, x + ifd.len()) =~= ifd);
    lemma_within(file, a, whole, x, x + ifd.len());
    assert(file.subrange(at, at + ifd.len()) == ifd);
    assert(ifd.subrange(0, cs) =~= le(n, v.count_size()));
    lemma_within(file, at, ifd, 0, cs);
    lemma_le_read(file, at, n, v.count_size());
    let end = cs + n * es;
    assert(ifd.subrange(end, end + size) =~= le(next, size));
    lemma_within(file, at, ifd, end, end + size);
    lemma_le_read(file, at + end, next, size);
    let start = at + cs;
    assert forall|i: int| 0 <= i < n implies (#[trigger] entry_spec(file, bo, v, start + i * v.entry_size()))
        == Outcome::<EntryModel>::Ok(p.read_field(a, v, p.fields[i])) by {
        lemma_joined_even(parts, i, es);
        lemma_joined_part(parts, n, i);
        assert(parts[i].len() == es);
        assert(i * es + es <= n * es) by (nonlinear_arith)
            requires
                i + 1 <= n,
                es >= 0,
        ;
        assert(0 <= i * es) by (nonlinear_arith)
            requires
                0 <= i,
                es >= 0,
        ;
        let y = cs + i * es;
        let list = joined(parts, n);
        assert(ifd.subrange(y, y + es) =~= parts[i]) by {
            assert(list.subrange(i * es, i * es + es) == parts[i]);
            assert(ifd.subrange(y, y + es) =~= list.subrange(i * es, i * es + es));
        }
        lemma_within(file, at, ifd, y, y + es);
        lemma_data_placed(file, p, a, v, next, i);
        lemma_entry_parses(file, p, a, v, p.fields[i], start + i * es);
    }
    assert(Seq::new(n as nat, |i: int| entry_spec(file, bo, v, start + i * v.entry_size())->Ok_0) =~= p.read_fields(a, v));
}

// ----------------------------------------------------------------------
// Writing
// ----------------------------------------------------------------------

/// Appends numbers of `size` bytes.
fn push_list(out: &mut Vec<u8>, list: &Vec<u64>, size: usize, Ghost(vals): Ghost<Seq<int>>)
    requires
        vals.len() == list@.len(),
        forall|i: int| 0 <= i < vals.len() ==> #[trigger] vals[i] == list@[i],
    ensures
        final(out)@ == old(out)@ + le_list(vals, size as nat),
{
    let ghost before = out@;
    let ghost parts = le_parts(vals, size as nat);
    let n: usize = list.len();
    let mut i: usize = 0;
    assert(out@ =~= before + joined(parts, 0));
    while i < n
        invariant
            i <= n,
            n == list@.len(),
            n == vals.len(),
            parts == le_parts(vals, size as nat),
            forall|k: int| 0 <= k < vals.len() ==> #[trigger] vals[k] == list@[k],
            out@ == before + joined(parts, i as int),
        decreases n - i,
    {
        push_le(out, list[i], size);
        proof {
            assert(vals[i as int] == list@[i as int]);
            assert(parts[i as int] == le(vals[i as int], size as nat));
            assert(before + joined(parts, i as int) + parts[i as int] =~= before + joined(parts, i + 1));
        }
        i = i + 1;
    }
}

/// Appends the value slot of a field.
fn push_slot(
    out: &mut Vec<u8>,
    f: &PlannedField,
    size: usize,
    offsets: &Vec<u64>,
    counts: &Vec<u64>,
    arrays_at: u64,
    bits_at: u64,
    colours_at: u64,
    Ghost(p): Ghost<PlanModel>,
    Ghost(a): Ghost<int>,
    Ghost(v): Ghost<TiffVariant>,
    Ghost(k): Ghost<int>,
)
    requires
        size == v.offset_size(),
        a >= 0,
        p.wf(v),
        p.addressable(a, v),
        0 <= k < p.fields.len(),
        p.fields[k] == f@,
        offsets@.len() == p.segments.len(),
        counts@.len() == p.segments.len(),
        forall|i: int| 0 <= i < p.segments.len() ==> #[trigger] offsets@[i] == p.offsets(a)[i],
        forall|i: int| 0 <= i < p.segments.len() ==> #[trigger] counts@[i] == p.counts()[i],
        arrays_at == p.arrays_at(a, size as nat),
        bits_at == p.bits_at(a),
        colours_at == p.colours_at(a),
        arrays_at + p.segments.len() * size <= u64::MAX,
    ensures
        final(out)@ == old(out)@ + p.slot_of(a, size as nat, f@),
{
    let ghost before = out@;
    let n: usize = offsets.len();
    proof {
        lemma_places_small(p, a, v);
        lemma_order(p, a, v);
        assert(n * size <= size <==> n <= 1) by (nonlinear_arith)
            requires
                n >= 1,
                size > 0,
        ;
        assert(1 * size == size);
    }
    match &f.value {
        FieldValue::Inline(b) => {
            append(out, b);
            push_zeros(out, size - b.len());
            assert(out@ =~= before + (b@ + zeros(size - b@.len())));
        },
        FieldValue::Offsets => {
            if n > 1 {
                push_le(out, arrays_at, size);
            } else {
                proof {
                    let parts = le_parts(p.offsets(a), size as nat);
                    assert(joined(parts, 1) =~= parts[0]) by {
                        assert(joined(parts, 0) =~= Seq::empty());
                    }
                    assert(offsets@[0] == p.offsets(a)[0]);
                }
                push_le(out, offsets[0], size);
                assert(out@ =~= before + p.slot_of(a, size as nat, f@));
            }
        },
        FieldValue::Counts => {
            if n > 1 {
                push_le(out, arrays_at + (n as u64 * size as u64), size);
            } else {
                proof {
                    let parts = le_parts(p.counts(), size as nat);
                    assert(joined(parts, 1) =~= parts[0]) by {
                        assert(joined(parts, 0) =~= Seq::empty());
                    }
                    assert(counts@[0] == p.counts()[0]);
                }
                push_le(out, counts[0], size);
                assert(out@ =~= before + p.slot_of(a, size as nat, f@));
            }
        },
        FieldValue::Bits => {
            push_le(out, bits_at, size);
        },
        FieldValue::Colours => {
            push_le(out, colours_at, size);
        },
    }
}

/// Bytes needed to bring a length to a multiple of `n`.
fn padding(len: usize, n: usize) -> (k: usize)
    requires
        n == 2 || n == 4 || n == 8,
    ensures
        k == pad(len as int, n as int),
{
    (n - len % n) % n
}

/// Where the parts of a page stand that its fields point at.
struct Places {
    offsets: Vec<u64>,
    counts: Vec<u64>,
    bits_at: u64,
    colours_at: u64,
    arrays_at: u64,
}

impl Places {
    /// The places are those of a page that starts at `a`.
    spec fn of(self, p: PlanModel, a: int, size: nat) -> bool {
        &&& self.offsets@.len() == p.segments.len()
        &&& self.counts@.len() == p.segments.len()
        &&& forall|k: int| 0 <= k < p.segments.len() ==> #[trigger] self.offsets@[k] == p.offsets(a)[k]
        &&& forall|k: int| 0 <= k < p.segments.len() ==> #[trigger] self.counts@[k] == p.counts()[k]
        &&& self.bits_at == p.bits_at(a)
        &&& self.colours_at == p.colours_at(a)
        &&& self.arrays_at == p.arrays_at(a, size)
    }
}

/// Appends the strips or tiles of a page.
fn write_segments(out: &mut Vec<u8>, page: &PlannedPage) -> (r: (Vec<u64>, Vec<u64>))
    ensures
        final(out)@ == old(out)@ + joined(page@.segments, page@.segments.len() as int),
        r.0@.len() == page@.segments.len(),
        r.1@.len() == page@.segments.len(),
        forall|k: int|
            0 <= k < page@.segments.len() ==> #[trigger] r.0@[k] == page@.offsets(old(out)@.len() as int)[k],
        forall|k: int| 0 <= k < page@.segments.len() ==> #[trigger] r.1@[k] == page@.counts()[k],
{
    let ghost before = out@;
    let ghost p = page@;
    let ghost a = before.len() as int;
    let n: usize = page.segments.len();
    let mut offsets: Vec<u64> = Vec::new();
    let mut counts: Vec<u64> = Vec::new();
    let mut i: usize = 0;
    assert(out@ =~= before + joined(p.segments, 0));
    while i < n
        invariant
            i <= n,
            n == page.segments@.len(),
            n == p.segments.len(),
            p == page@,
            a == before.len(),
            out@ == before + joined(p.segments, i as int),
            offsets@.len() == i,
            counts@.len() == i,
            forall|k: int| 0 <= k < i ==> #[trigger] offsets@[k] == p.offsets(a)[k],
            forall|k: int| 0 <= k < i ==> #[trigger] counts@[k] == p.counts()[k],
        decreases n - i,
    {
        offsets.push(out.len() as u64);
        counts.push(page.segments[i].len() as u64);
        append(out, &page.segments[i]);
        proof {
            assert(p.segments[i as int] == page.segments@[i as int]@);
            assert(before + joined(p.segments, i as int) + p.segments[i as int] =~= before + joined(p.segments, i + 1));
        }
        i = i + 1;
    }
    (offsets, counts)
}

/// Appends bytes, if there are any, at an even place.
fn push_value(out: &mut Vec<u8>, b: &Vec<u8>) -> (at: u64)
    ensures
        ({
            let k = if b@.len() > 0 { pad(old(out)@.len() as int, 2) } else { 0 };
            &&& final(out)@ == old(out)@ + zeros(k) + b@
            &&& at == old(out)@.len() + k
        }),
{
    let ghost before = out@;
    let k: usize = if b.len() > 0 { padding(out.len(), 2) } else { 0 };
    push_zeros(out, k);
    let at: u64 = out.len() as u64;
    append(out, b);
    at
}

/// Appends the lists of places and sizes, if they do not fit their fields, and
/// brings the length to an even number.
fn write_arrays(out: &mut Vec<u8>, offsets: &Vec<u64>, counts: &Vec<u64>, size: usize, Ghost(p): Ghost<PlanModel>, Ghost(a): Ghost<int>, Ghost(v): Ghost<TiffVariant>) -> (at: u64)
    requires
        a >= 0,
        size == v.offset_size(),
        p.addressable(a, v),
        old(out)@.len() == p.colours_end(a),
        offsets@.len() == p.segments.len(),
        counts@.len() == p.segments.len(),
        forall|k: int| 0 <= k < p.segments.len() ==> #[trigger] offsets@[k] == p.offsets(a)[k],
        forall|k: int| 0 <= k < p.segments.len() ==> #[trigger] counts@[k] == p.counts()[k],
    ensures
        final(out)@ == old(out)@ + zeros(p.arrays_at(a, size as nat) - p.colours_end(a)) + p.arrays(a, size as nat) + zeros(
            p.ifd_at(a, v) - p.arrays_end(a, size as nat),
        ),
        at == p.arrays_at(a, size as nat),
{
    let ghost before = out@;
    proof {
        lemma_places_small(p, a, v);
    }
    let n: usize = offsets.len();
    let k: usize = if n > 1 { padding(out.len(), size) } else { 0 };
    push_zeros(out, k);
    let at: u64 = out.len() as u64;
    let ghost padded = out@;
    if n > 1 {
        push_list(out, offsets, size, Ghost(p.offsets(a)));
        push_list(out, counts, size, Ghost(p.counts()));
    }
    assert(out@ =~= padded + p.arrays(a, size as nat));
    let k: usize = padding(out.len(), 2);
    push_zeros(out, k);
    at
}

/// Appends what precedes the directory of a page.
fn write_values(out: &mut Vec<u8>, page: &PlannedPage, v: TiffVariant) -> (r: Places)
    requires
        page@.addressable(old(out)@.len() as int, v),
    ensures
        final(out)@ == old(out)@ + page@.through_arrays(old(out)@.len() as int, v),
        r.of(page@, old(out)@.len() as int, v.offset_size()),
{
    let ghost before = out@;
    let ghost p = page@;
    let ghost a = before.len() as int;
    let size: usize = match v {
        TiffVariant::Classic => 4,
        TiffVariant::Big => 8,
    };
    let (offsets, counts) = write_segments(out, page);
    let bits_at: u64 = push_value(out, &page.bits);
    assert(out@ =~= before + p.through_bits(a));
    let colours_at: u64 = push_value(out, &page.colours);
    assert(out@ =~= before + p.through_colours(a));
    let arrays_at: u64 = write_arrays(out, &offsets, &counts, size, Ghost(p), Ghost(a), Ghost(v));
    assert(out@ =~= before + p.through_arrays(a, v));
    Places { offsets, counts, bits_at, colours_at, arrays_at }
}

/// Appends the directory of a page.
fn write_ifd(
    out: &mut Vec<u8>,
    page: &PlannedPage,
    v: TiffVariant,
    next: u64,
    places: &Places,
    Ghost(a): Ghost<int>,
)
    requires
        a >= 0,
        page@.wf(v),
        page@.addressable(a, v),
        places.of(page@, a, v.offset_size()),
    ensures
        final(out)@ == old(out)@ + page@.ifd_bytes(a, v, next as int),
{
    let ghost p = page@;
    let size: usize = match v {
        TiffVariant::Classic => 4,
        TiffVariant::Big => 8,
    };
    let count_size: usize = match v {
        TiffVariant::Classic => 2,
        TiffVariant::Big => 8,
    };
    let fields: usize = page.fields.len();
    let ghost before = out@;
    proof {
        reveal_with_fuel(room_of, 9);
        lemma_order(p, a, v);
        let n = p.segments.len() as int;
        assert(n * size >= size) by (nonlinear_arith)
            requires
                n >= 1,
                size >= 0,
        ;
        if n == 1 {
            assert(n * size == size) by (nonlinear_arith)
                requires
                    n == 1,
            ;
        }
        assert(p.arrays_at(a, size as nat) + n * size <= p.end(a, v));
    }
    push_le(out, fields as u64, count_size);
    let ghost head = before + le(fields as int, count_size as nat);
    let ghost parts = p.entry_parts(a, size as nat);
    let mut j: usize = 0;
    assert(out@ =~= head + joined(parts, 0));
    while j < fields
        invariant
            j <= fields,
            fields == page.fields@.len(),
            p == page@,
            a >= 0,
            size == v.offset_size(),
            parts == p.entry_parts(a, size as nat),
            p.wf(v),
            p.addressable(a, v),
            places.of(p, a, size as nat),
            p.arrays_at(a, size as nat) + p.segments.len() * size <= u64::MAX,
            out@ == head + joined(parts, j as int),
        decreases fields - j,
    {
        let ghost start = out@;
        let f = &page.fields[j];
        push_le(out, f.tag as u64, 2);
        push_le(out, f.field_type as u64, 2);
        push_le(out, f.count, size);
        assert(p.fields[j as int] == f@);
        push_slot(
            out,
            f,
            size,
            &places.offsets,
            &places.counts,
            places.arrays_at,
            places.bits_at,
            places.colours_at,
            Ghost(p),
            Ghost(a),
            Ghost(v),
            Ghost(j as int),
        );
        proof {
            assert(out@ =~= start + p.entry_bytes(a, size as nat, f@));
            assert(parts[j as int] == p.entry_bytes(a, size as nat, f@));
            assert(start + parts[j as int] =~= head + joined(parts, j + 1));
        }
        j = j + 1;
    }
    push_le(out, next, size);
    assert(out@ =~= before + p.ifd_bytes(a, v, next as int));
}

/// Appends a page; the directory of the next one is at `next`.
pub fn write_page(out: &mut Vec<u8>, page: &PlannedPage, v: TiffVariant, next: u64)
    requires
        page@.wf(v),
        page@.addressable(old(out)@.len() as int, v),
    ensures
        final(out)@ == old(out)@ + page@.bytes(old(out)@.len() as int, v, next as int),
{
    let ghost before = out@;
    let places = write_values(out, page, v);
    write_ifd(out, page, v, next, &places, Ghost(before.len() as int));
    assert(out@ =~= before + page@.bytes(before.len() as int, v, next as int)) by {
        reveal(PlanModel::bytes);
    }
}

} // verus!
