//! File header and image file directories.
//!
//! A file starts with a byte-order mark, a magic number and the offset of the
//! first directory. A directory holds a count, that many entries, and the
//! offset of the next directory. An entry holds a tag, a field type, a count
//! and a slot: the values themselves where they fit, else their offset. Classic
//! files use 32-bit offsets, BigTIFF files use 64-bit ones.
use vstd::prelude::*;
use vstd::utf8::{decode_utf8, valid_utf8};
use crate::compress::append_range;
use crate::error::{invalid_with, ErrorKind, Outcome, Result, TiffError};
use crate::types::{spec_type_size, type_size, BIGTIFF_MAGIC, BYTE_ORDER_BE, BYTE_ORDER_LE, TIFF_MAGIC};
use crate::types::{TYPE_ASCII, TYPE_BYTE, TYPE_IFD, TYPE_IFD8, TYPE_LONG, TYPE_LONG8, TYPE_SHORT};

verus! {

/// Order of the bytes of a number.
#[derive(Debug, Clone, Copy, PartialEq, Eq, Structural)]
pub enum ByteOrder {
    /// Least significant byte first.
    Little,
    /// Most significant byte first.
    Big,
}

/// The number written by the `n` bytes of `s` that start at `at`.
pub open spec fn uint_at(bo: ByteOrder, s: Seq<u8>, at: int, n: nat) -> nat
    decreases n,
{
    if n == 0 {
        0
    } else {
        match bo {
            ByteOrder::Little => s[at] as nat + 256 * uint_at(bo, s, at + 1, (n - 1) as nat),
            ByteOrder::Big => 256 * uint_at(bo, s, at, (n - 1) as nat) + s[at + n - 1] as nat,
        }
    }
}

/// The two's complement reading of a 32-bit number.
pub open spec fn as_signed32(v: int) -> int {
    if v < 0x8000_0000 { v } else { v - 0x1_0000_0000 }
}

impl ByteOrder {
    /// Reads a 16-bit number.
    pub fn read_u16(self, b: &[u8]) -> (v: u16)
        requires
            b@.len() >= 2,
        ensures
            v == uint_at(self, b@, 0, 2),
    {
        proof {
            reveal_with_fuel(uint_at, 3);
        }
        match self {
            ByteOrder::Little => b[0] as u16 + 256 * (b[1] as u16),
            ByteOrder::Big => 256 * (b[0] as u16) + b[1] as u16,
        }
    }

    /// Reads a 32-bit number.
    pub fn read_u32(self, b: &[u8]) -> (v: u32)
        requires
            b@.len() >= 4,
        ensures
            v == uint_at(self, b@, 0, 4),
    {
        self.u32_at(b, 0)
    }

    /// Reads a 32-bit number in two's complement.
    pub fn read_i32(self, b: &[u8]) -> (v: i32)
        requires
            b@.len() >= 4,
        ensures
            v == as_signed32(uint_at(self, b@, 0, 4) as int),
    {
        let u: u32 = self.read_u32(b);
        if u < 0x8000_0000 {
            u as i32
        } else {
            (u as i64 - 0x1_0000_0000) as i32
        }
    }

    /// Reads the 16-bit number at `at`.
    pub fn u16_at(self, s: &[u8], at: usize) -> (v: u16)
        requires
            at + 2 <= s@.len(),
        ensures
            v == uint_at(self, s@, at as int, 2),
    {
        proof {
            reveal_with_fuel(uint_at, 3);
        }
        match self {
            ByteOrder::Little => s[at] as u16 + 256 * (s[at + 1] as u16),
            ByteOrder::Big => 256 * (s[at] as u16) + s[at + 1] as u16,
        }
    }

    /// Reads the 32-bit number at `at`.
    pub fn u32_at(self, s: &[u8], at: usize) -> (v: u32)
        requires
            at + 4 <= s@.len(),
        ensures
            v == uint_at(self, s@, at as int, 4),
    {
        proof {
            reveal_with_fuel(uint_at, 5);
        }
        match self {
            ByteOrder::Little => s[at] as u32 + 0x100 * (s[at + 1] as u32) + 0x1_0000 * (s[at + 2] as u32)
                + 0x100_0000 * (s[at + 3] as u32),
            ByteOrder::Big => 0x100_0000 * (s[at] as u32) + 0x1_0000 * (s[at + 1] as u32) + 0x100 * (s[at
                + 2] as u32) + s[at + 3] as u32,
        }
    }

    /// Reads the 64-bit number at `at`.
    pub fn u64_at(self, s: &[u8], at: usize) -> (v: u64)
        requires
            at + 8 <= s@.len(),
        ensures
            v == uint_at(self, s@, at as int, 8),
    {
        proof {
            reveal_with_fuel(uint_at, 9);
            assert(s@.len() == s.len());
        }
        let a: u64 = self.u32_at(s, at) as u64;
        let b: u64 = self.u32_at(s, at + 4) as u64;
        match self {
            ByteOrder::Little => a + 0x1_0000_0000 * b,
            ByteOrder::Big => 0x1_0000_0000 * a + b,
        }
    }
}

/// The two sizes of offsets.
#[derive(Debug, Clone, Copy, PartialEq, Eq, Structural)]
pub enum TiffVariant {
    /// 32-bit offsets.
    Classic,
    /// 64-bit offsets.
    Big,
}

impl TiffVariant {
    /// Bytes of the entry count of a directory.
    pub open spec fn count_size(self) -> nat {
        match self {
            TiffVariant::Classic => 2,
            TiffVariant::Big => 8,
        }
    }

    /// Bytes of one entry.
    pub open spec fn entry_size(self) -> nat {
        match self {
            TiffVariant::Classic => 12,
            TiffVariant::Big => 20,
        }
    }

    /// Bytes of an offset, and of the slot of an entry.
    pub open spec fn offset_size(self) -> nat {
        match self {
            TiffVariant::Classic => 4,
            TiffVariant::Big => 8,
        }
    }
}

/// One directory entry with the bytes of its values.
#[derive(Debug, Clone)]
pub struct Entry {
    /// What the entry describes.
    pub tag: u16,
    /// Type of the values.
    pub field_type: u16,
    /// Number of values.
    pub count: u64,
    /// The values in file byte order; none for an unknown type.
    pub data: Vec<u8>,
}

/// An entry as a mathematical value.
pub struct EntryModel {
    pub tag: u16,
    pub field_type: u16,
    pub count: u64,
    pub data: Seq<u8>,
}

impl View for Entry {
    type V = EntryModel;

    open spec fn view(&self) -> EntryModel {
        EntryModel { tag: self.tag, field_type: self.field_type, count: self.count, data: self.data@ }
    }
}

/// Entries as mathematical values.
pub open spec fn entry_models(es: Seq<Entry>) -> Seq<EntryModel> {
    Seq::new(es.len(), |i: int| es[i]@)
}

/// Bytes of one value of a type that counts as an unsigned number of at most
/// 32 bits.
pub open spec fn short_uint_size(t: u16) -> nat {
    if t == TYPE_BYTE {
        1
    } else if t == TYPE_SHORT {
        2
    } else if t == TYPE_LONG {
        4
    } else {
        0
    }
}

/// Bytes of one value of a type that counts as an unsigned number of at most
/// 64 bits.
pub open spec fn long_uint_size(t: u16) -> nat {
    if t == TYPE_IFD {
        4
    } else if t == TYPE_LONG8 || t == TYPE_IFD8 {
        8
    } else {
        short_uint_size(t)
    }
}

impl EntryModel {
    /// The values as numbers of `size` bytes each; an error where the entry is
    /// too short for them, or `size` is 0.
    pub open spec fn uints(self, bo: ByteOrder, size: nat) -> Outcome<Seq<int>> {
        if size == 0 || self.data.len() < self.count * size {
            Err(ErrorKind::Invalid)
        } else {
            Ok(Seq::new(self.count as nat, |i: int| uint_at(bo, self.data, i * size, size) as int))
        }
    }

    /// The values of an entry of BYTE, SHORT or LONG.
    pub open spec fn u32s(self, bo: ByteOrder) -> Outcome<Seq<int>> {
        self.uints(bo, short_uint_size(self.field_type))
    }

    /// The values of an entry of any unsigned type, up to 64 bits.
    pub open spec fn u64s(self, bo: ByteOrder) -> Outcome<Seq<int>> {
        self.uints(bo, long_uint_size(self.field_type))
    }

    /// The first value of an entry of BYTE, SHORT or LONG.
    pub open spec fn first_u32(self, bo: ByteOrder) -> Outcome<int> {
        match self.u32s(bo) {
            Err(k) => Err(k),
            Ok(v) => if v.len() == 0 { Err(ErrorKind::Invalid) } else { Ok(v[0]) },
        }
    }

    /// The text of an ASCII entry: its bytes up to the first NUL; none where
    /// the type is another one or there is no NUL.
    pub open spec fn ascii_bytes(self) -> Option<Seq<u8>> {
        if self.field_type != TYPE_ASCII || !self.data.contains(0u8) {
            None
        } else {
            Some(self.data.take(self.data.index_of_first(0u8).unwrap()))
        }
    }
}

proof fn lemma_product_mono(i: int, n: int, size: int)
    by (nonlinear_arith)
    requires
        0 <= i < n,
        0 < size,
    ensures
        0 <= i * size,
        i * size + size <= n * size,
{
}

impl Entry {
    /// A copy of the entry.
    pub fn copied(&self) -> (e: Entry)
        ensures
            e@ == self@,
    {
        let data: Vec<u8> = self.data.clone();
        assert(data@ =~= self.data@);
        Entry { tag: self.tag, field_type: self.field_type, count: self.count, data }
    }

    /// The values of an entry of BYTE, SHORT or LONG.
    pub fn as_u32_vec(&self, bo: ByteOrder) -> (r: Result<Vec<u32>>)
        ensures
            (match (r, self@.u32s(bo)) {
                (Ok(v), Ok(s)) => v@.len() == s.len() && forall|i: int| 0 <= i < s.len() ==> #[trigger] v@[i] == s[i],
                (Err(e), Err(k)) => e.kind() == k,
                _ => false,
            }),
    {
        let size: u64 = match self.field_type {
            TYPE_BYTE => 1,
            TYPE_SHORT => 2,
            TYPE_LONG => 4,
            t => {
                return Err(invalid_with("TIFF: cannot read field type ", t as u64, " as integer"));
            },
        };
        if (self.data.len() as u128) < self.count as u128 * size as u128 {
            return Err(TiffError::invalid("TIFF: integer entry truncated"));
        }
        assert(self.count <= self.data.len()) by {
            assert(self.count <= self.count * size) by (nonlinear_arith)
                requires
                    size >= 1,
                    self.count >= 0,
            ;
        }
        let n: usize = self.count as usize;
        let step: usize = size as usize;
        let mut out: Vec<u32> = Vec::new();
        let mut i: usize = 0;
        while i < n
            invariant
                i <= n,
                n == self.count,
                step == short_uint_size(self.field_type),
                step == 1 || step == 2 || step == 4,
                self@.data.len() >= n * step,
                out@.len() == i,
                forall|k: int| 0 <= k < i ==> #[trigger] out@[k] == uint_at(bo, self@.data, k * step, step as nat),
            decreases n - i,
        {
            proof {
                lemma_product_mono(i as int, n as int, step as int);
                assert(self.data@.len() == self.data.len());
            }
            let at: usize = i * step;
            let v: u32 = if step == 1 {
                proof {
                    reveal_with_fuel(uint_at, 2);
                }
                self.data[at] as u32
            } else if step == 2 {
                bo.u16_at(&self.data, at) as u32
            } else {
                bo.u32_at(&self.data, at)
            };
            out.push(v);
            i = i + 1;
        }
        Ok(out)
    }

    /// The values of an entry of any unsigned type, up to 64 bits.
    pub fn as_u64_vec(&self, bo: ByteOrder) -> (r: Result<Vec<u64>>)
        ensures
            (match (r, self@.u64s(bo)) {
                (Ok(v), Ok(s)) => v@.len() == s.len() && forall|i: int| 0 <= i < s.len() ==> #[trigger] v@[i] == s[i],
                (Err(e), Err(k)) => e.kind() == k,
                _ => false,
            }),
    {
        let size: u64 = match self.field_type {
            TYPE_BYTE => 1,
            TYPE_SHORT => 2,
            TYPE_LONG | TYPE_IFD => 4,
            TYPE_LONG8 | TYPE_IFD8 => 8,
            t => {
                return Err(invalid_with("TIFF: cannot read field type ", t as u64, " as integer"));
            },
        };
        if (self.data.len() as u128) < self.count as u128 * size as u128 {
            return Err(TiffError::invalid("TIFF: integer entry truncated"));
        }
        assert(self.count <= self.data.len()) by {
            assert(self.count <= self.count * size) by (nonlinear_arith)
                requires
                    size >= 1,
                    self.count >= 0,
            ;
        }
        let n: usize = self.count as usize;
        let step: usize = size as usize;
        let mut out: Vec<u64> = Vec::new();
        let mut i: usize = 0;
        while i < n
            invariant
                i <= n,
                n == self.count,
                step == long_uint_size(self.field_type),
                step == 1 || step == 2 || step == 4 || step == 8,
                self@.data.len() >= n * step,
                out@.len() == i,
                forall|k: int| 0 <= k < i ==> #[trigger] out@[k] == uint_at(bo, self@.data, k * step, step as nat),
            decreases n - i,
        {
            proof {
                lemma_product_mono(i as int, n as int, step as int);
                assert(self.data@.len() == self.data.len());
            }
            let at: usize = i * step;
            let v: u64 = if step == 1 {
                proof {
                    reveal_with_fuel(uint_at, 2);
                }
                self.data[at] as u64
            } else if step == 2 {
                bo.u16_at(&self.data, at) as u64
            } else if step == 4 {
                bo.u32_at(&self.data, at) as u64
            } else {
                bo.u64_at(&self.data, at)
            };
            out.push(v);
            i = i + 1;
        }
        Ok(out)
    }

    /// The first value of an entry of BYTE, SHORT or LONG.
    pub fn as_u32(&self, bo: ByteOrder) -> (r: Result<u32>)
        ensures
            (match (r, self@.first_u32(bo)) {
                (Ok(v), Ok(s)) => v == s,
                (Err(e), Err(k)) => e.kind() == k,
                _ => false,
            }),
    {
        let v = self.as_u32_vec(bo)?;
        if v.len() == 0 {
            return Err(TiffError::invalid("TIFF: empty integer entry"));
        }
        Ok(v[0])
    }

    /// The text of an ASCII entry.
    pub fn as_ascii(&self) -> (r: Result<String>)
        ensures
            (match (r, self@.ascii_bytes()) {
                (Ok(s), Some(b)) => s@ == text_from(b),
                (Err(e), None) => e is InvalidData,
                _ => false,
            }),
    {
        if self.field_type != TYPE_ASCII {
            return Err(TiffError::invalid("TIFF: not an ASCII entry"));
        }
        let n: usize = self.data.len();
        let mut i: usize = 0;
        while i < n
            invariant
                i <= n,
                n == self.data@.len(),
                self.field_type == TYPE_ASCII,
                forall|k: int| 0 <= k < i ==> #[trigger] self.data@[k] != 0,
            decreases n - i,
        {
            if self.data[i] == 0 {
                proof {
                    assert(self.data@[i as int] == 0);
                    assert(self.data@.contains(0u8));
                    self.data@.index_of_first_ensures(0u8);
                }
                let part = copy_range(&self.data, 0, i);
                proof {
                    assert(part@ =~= self.data@.take(i as int));
                }
                return Ok(decode_lossy(&part));
            }
            i = i + 1;
        }
        Err(TiffError::invalid("TIFF: ASCII entry without a terminator"))
    }
}

/// The text of bytes, in which `String::from_utf8_lossy` puts U+FFFD for what is
/// not UTF-8.
pub uninterp spec fn lossy_text(bytes: Seq<u8>) -> Seq<char>;

/// The text that bytes encode, or the nearest to it where they are not UTF-8.
pub open spec fn text_from(bytes: Seq<u8>) -> Seq<char> {
    if valid_utf8(bytes) { decode_utf8(bytes) } else { lossy_text(bytes) }
}

/// `String::from_utf8_lossy`. Claimed of it: the text depends on the bytes alone,
/// and is what they encode where they are UTF-8.
#[verifier::external_body]
fn decode_lossy(bytes: &Vec<u8>) -> (s: String)
    ensures
        s@ == lossy_text(bytes@),
        valid_utf8(bytes@) ==> s@ == decode_utf8(bytes@),
{
    String::from_utf8_lossy(bytes).into_owned()
}

/// What the header of a file says.
pub struct ParsedHeader {
    /// Order of the bytes of every number of the file.
    pub byte_order: ByteOrder,
    /// Size of the offsets.
    pub variant: TiffVariant,
    /// Offset of the first directory.
    pub first_ifd_offset: u64,
}

/// What the header of `input` says: byte order, offset size and offset of the
/// first directory.
pub open spec fn header_spec(input: Seq<u8>) -> Outcome<(ByteOrder, TiffVariant, int)> {
    if input.len() < 8 {
        Err(ErrorKind::Invalid)
    } else {
        let mark = uint_at(ByteOrder::Little, input, 0, 2);
        if mark != BYTE_ORDER_LE && mark != BYTE_ORDER_BE {
            Err(ErrorKind::Invalid)
        } else {
            let bo = if mark == BYTE_ORDER_LE { ByteOrder::Little } else { ByteOrder::Big };
            let magic = uint_at(bo, input, 2, 2);
            if magic == TIFF_MAGIC {
                Ok((bo, TiffVariant::Classic, uint_at(bo, input, 4, 4) as int))
            } else if magic == BIGTIFF_MAGIC && input.len() >= 16 && uint_at(bo, input, 4, 2) == 8 && uint_at(
                bo,
                input,
                6,
                2,
            ) == 0 {
                Ok((bo, TiffVariant::Big, uint_at(bo, input, 8, 8) as int))
            } else {
                Err(ErrorKind::Invalid)
            }
        }
    }
}

/// Reads the file header.
pub fn parse_header(input: &[u8]) -> (r: Result<ParsedHeader>)
    ensures
        (match (r, header_spec(input@)) {
            (Ok(h), Ok(s)) => h.byte_order == s.0 && h.variant == s.1 && h.first_ifd_offset == s.2,
            (Err(e), Err(k)) => e.kind() == k,
            _ => false,
        }),
{
    if input.len() < 8 {
        return Err(TiffError::invalid("TIFF: file shorter than 8-byte header"));
    }
    let mark: u16 = ByteOrder::Little.u16_at(input, 0);
    let bo = match mark {
        BYTE_ORDER_LE => ByteOrder::Little,
        BYTE_ORDER_BE => ByteOrder::Big,
        _ => {
            return Err(TiffError::invalid("TIFF: missing II/MM byte-order tag"));
        },
    };
    let magic: u16 = bo.u16_at(input, 2);
    if magic == TIFF_MAGIC {
        let first: u32 = bo.u32_at(input, 4);
        return Ok(
            ParsedHeader { byte_order: bo, variant: TiffVariant::Classic, first_ifd_offset: first as u64 },
        );
    }
    if magic != BIGTIFF_MAGIC {
        return Err(invalid_with("TIFF: magic=", magic as u64, " (expected 42 or 43)"));
    }
    if input.len() < 16 {
        return Err(TiffError::invalid("TIFF: file shorter than 16-byte BigTIFF header"));
    }
    if bo.u16_at(input, 4) != 8 || bo.u16_at(input, 6) != 0 {
        return Err(TiffError::invalid("TIFF: BigTIFF header does not announce 8-byte offsets"));
    }
    let first: u64 = bo.u64_at(input, 8);
    Ok(ParsedHeader { byte_order: bo, variant: TiffVariant::Big, first_ifd_offset: first })
}

/// The directory entry at `base`, with its values; an error where they lie
/// outside the file.
pub open spec fn entry_spec(input: Seq<u8>, bo: ByteOrder, variant: TiffVariant, base: int) -> Outcome<EntryModel> {
    let slot_size = variant.offset_size();
    let tag = uint_at(bo, input, base, 2) as u16;
    let field_type = uint_at(bo, input, base + 2, 2) as u16;
    let count = uint_at(bo, input, base + 4, slot_size) as u64;
    let slot = base + 4 + slot_size;
    let size = spec_type_size(field_type) as int;
    let total = size * count;
    if size == 0 {
        Ok(EntryModel { tag, field_type, count, data: Seq::empty() })
    } else if total <= slot_size {
        Ok(EntryModel { tag, field_type, count, data: input.subrange(slot, slot + total) })
    } else {
        let p = uint_at(bo, input, slot, slot_size) as int;
        if p + total > input.len() {
            Err(ErrorKind::Invalid)
        } else {
            Ok(EntryModel { tag, field_type, count, data: input.subrange(p, p + total) })
        }
    }
}

/// The directory at `offset`: its entries and the offset of the next one.
pub open spec fn ifd_spec(input: Seq<u8>, bo: ByteOrder, variant: TiffVariant, offset: int) -> Outcome<
    (Seq<EntryModel>, int),
> {
    if offset + variant.count_size() > input.len() {
        Err(ErrorKind::Invalid)
    } else {
        let n = uint_at(bo, input, offset, variant.count_size());
        let start = offset + variant.count_size();
        let end = start + n * variant.entry_size();
        if end + variant.offset_size() > input.len() {
            Err(ErrorKind::Invalid)
        } else if exists|i: int|
            0 <= i < n && (#[trigger] entry_spec(input, bo, variant, start + i * variant.entry_size())) is Err {
            Err(ErrorKind::Invalid)
        } else {
            Ok(
                (
                    Seq::new(n, |i: int| entry_spec(input, bo, variant, start + i * variant.entry_size())->Ok_0),
                    uint_at(bo, input, end, variant.offset_size()) as int,
                ),
            )
        }
    }
}

/// The result of reading a directory is what `s` calls for.
pub open spec fn ifd_agrees(r: Result<(Vec<Entry>, u64)>, s: Outcome<(Seq<EntryModel>, int)>) -> bool {
    match (r, s) {
        (Ok(v), Ok(w)) => entry_models(v.0@) == w.0 && v.1 == w.1,
        (Err(e), Err(k)) => e.kind() == k,
        _ => false,
    }
}

/// Reads an offset-sized number.
fn offset_at(bo: ByteOrder, variant: TiffVariant, s: &[u8], at: usize) -> (v: u64)
    requires
        at + variant.offset_size() <= s@.len(),
    ensures
        v == uint_at(bo, s@, at as int, variant.offset_size()),
{
    match variant {
        TiffVariant::Classic => bo.u32_at(s, at) as u64,
        TiffVariant::Big => bo.u64_at(s, at),
    }
}

/// A copy of the bytes `s[from..to]`.
pub(crate) fn copy_range(s: &[u8], from: usize, to: usize) -> (v: Vec<u8>)
    requires
        from <= to <= s@.len(),
    ensures
        v@ == s@.subrange(from as int, to as int),
{
    let mut v: Vec<u8> = Vec::new();
    append_range(&mut v, s, from, to);
    assert(v@ =~= s@.subrange(from as int, to as int));
    v
}

/// Reads the entry at `base`.
fn parse_entry(input: &[u8], bo: ByteOrder, variant: TiffVariant, base: usize) -> (r: Result<Entry>)
    requires
        base + variant.entry_size() <= input@.len(),
    ensures
        (match (r, entry_spec(input@, bo, variant, base as int)) {
            (Ok(e), Ok(m)) => e@ == m,
            (Err(e), Err(k)) => e.kind() == k,
            _ => false,
        }),
{
    let slot_size: usize = match variant {
        TiffVariant::Classic => 4,
        TiffVariant::Big => 8,
    };
    assert(input@.len() == input.len());
    let tag: u16 = bo.u16_at(input, base);
    let field_type: u16 = bo.u16_at(input, base + 2);
    let count: u64 = offset_at(bo, variant, input, base + 4);
    let slot: usize = base + 4 + slot_size;
    let size: u32 = type_size(field_type);
    if size == 0 {
        return Ok(Entry { tag, field_type, count, data: Vec::new() });
    }
    proof {
        assert(size * count <= 8 * 0xffff_ffff_ffff_ffff) by (nonlinear_arith)
            requires
                0 <= size <= 8,
                0 <= count <= 0xffff_ffff_ffff_ffff,
        ;
    }
    let total: u128 = size as u128 * count as u128;
    if total <= slot_size as u128 {
        return Ok(Entry { tag, field_type, count, data: copy_range(input, slot, slot + total as usize) });
    }
    let p: u64 = offset_at(bo, variant, input, slot);
    if p as u128 + total > input.len() as u128 {
        return Err(invalid_with("TIFF: entry tag=", tag as u64, " value offset past EOF"));
    }
    Ok(Entry { tag, field_type, count, data: copy_range(input, p as usize, p as usize + total as usize) })
}

/// Reads the directory at `offset` of a file of either variant.
pub fn parse_ifd_in(input: &[u8], bo: ByteOrder, variant: TiffVariant, offset: u64) -> (r: Result<(Vec<Entry>, u64)>)
    ensures
        ifd_agrees(r, ifd_spec(input@, bo, variant, offset as int)),
{
    let (count_size, entry_size, offset_size): (u128, u128, u128) = match variant {
        TiffVariant::Classic => (2, 12, 4),
        TiffVariant::Big => (8, 20, 8),
    };
    let len: u128 = input.len() as u128;
    if offset as u128 + count_size > len {
        return Err(TiffError::invalid("TIFF: IFD start past EOF"));
    }
    let off: usize = offset as usize;
    let count: u64 = match variant {
        TiffVariant::Classic => bo.u16_at(input, off) as u64,
        TiffVariant::Big => bo.u64_at(input, off),
    };
    let start: u128 = offset as u128 + count_size;
    let end: u128 = start + count as u128 * entry_size;
    if end + offset_size > len {
        return Err(TiffError::invalid("TIFF: IFD truncated"));
    }
    let mut out: Vec<Entry> = Vec::new();
    let mut i: u64 = 0;
    while i < count
        invariant
            i <= count,
            entry_size == variant.entry_size(),
            12 <= entry_size <= 20,
            start == offset + variant.count_size(),
            count_size == variant.count_size(),
            offset_size == variant.offset_size(),
            count == uint_at(bo, input@, offset as int, variant.count_size()),
            end == start + count * entry_size,
            end + offset_size <= len,
            len == input@.len(),
            len <= usize::MAX,
            out@.len() == i,
            forall|k: int|
                0 <= k < i ==> entry_spec(input@, bo, variant, start + k * variant.entry_size()) == Outcome::<
                    EntryModel,
                >::Ok((#[trigger] out@[k])@),
        decreases count - i,
    {
        proof {
            lemma_product_mono(i as int, count as int, entry_size as int);
        }
        let base: usize = (start + i as u128 * entry_size) as usize;
        match parse_entry(input, bo, variant, base) {
            Ok(e) => out.push(e),
            Err(e) => {
                proof {
                    assert(entry_spec(input@, bo, variant, start + i * variant.entry_size()) is Err);
                }
                return Err(e);
            },
        }
        i = i + 1;
    }
    let next: u64 = offset_at(bo, variant, input, end as usize);
    proof {
        let n = count as nat;
        assert forall|k: int| 0 <= k < n implies (#[trigger] entry_spec(
            input@,
            bo,
            variant,
            start + k * variant.entry_size(),
        )) is Ok by {
            assert(entry_spec(input@, bo, variant, start + k * variant.entry_size()) == Outcome::<EntryModel>::Ok(
                out@[k]@,
            ));
        }
        assert(entry_models(out@) =~= Seq::new(
            n,
            |i: int| entry_spec(input@, bo, variant, start + i * variant.entry_size())->Ok_0,
        ));
    }
    Ok((out, next))
}

/// Reads the directory at `offset` of a classic file.
pub fn parse_ifd(input: &[u8], bo: ByteOrder, offset: u64) -> (r: Result<(Vec<Entry>, u64)>)
    ensures
        ifd_agrees(r, ifd_spec(input@, bo, TiffVariant::Classic, offset as int)),
{
    parse_ifd_in(input, bo, TiffVariant::Classic, offset)
}

/// Position of the first entry with the given tag at or after `i`.
pub open spec fn tag_position(es: Seq<EntryModel>, tag: u16, i: int) -> int
    decreases es.len() - i,
{
    if i < 0 || i >= es.len() || es[i].tag == tag {
        i
    } else {
        tag_position(es, tag, i + 1)
    }
}

/// The first entry with the given tag.
pub open spec fn find_spec(es: Seq<EntryModel>, tag: u16) -> Option<EntryModel> {
    let i = tag_position(es, tag, 0);
    if i < es.len() { Some(es[i]) } else { None }
}

/// Finds the first entry with the given tag.
pub fn find(entries: &[Entry], tag: u16) -> (r: Option<&Entry>)
    ensures
        (match (r, find_spec(entry_models(entries@), tag)) {
            (Some(e), Some(m)) => e@ == m && e.tag == tag,
            (None, None) => true,
            _ => false,
        }),
{
    let mut i: usize = 0;
    while i < entries.len()
        invariant
            i <= entries@.len(),
            tag_position(entry_models(entries@), tag, 0) == tag_position(entry_models(entries@), tag, i as int),
        decreases entries@.len() - i,
    {
        if entries[i].tag == tag {
            return Some(&entries[i]);
        }
        i = i + 1;
    }
    None
}

} // verus!
