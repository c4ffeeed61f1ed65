//! LZW compression as TIFF uses it: codes of 9 to 12 bits, most significant
//! bit first, code 256 to start over and code 257 to end.
use vstd::prelude::*;
use vstd::arithmetic::power2::pow2;
use crate::bits::{bits_of, bits_value, bytes_of, read_value, value_bits, stands_at, MsbWriter};
use crate::bits::{lemma_bits_of_bytes_of, lemma_read_where_written, lemma_stands_split, lemma_value_bits_len};
use crate::error::{bytes_agree, decimal, invalid_with, ErrorKind, Outcome, Result};

verus! {

pub const LZW_CLEAR_CODE: u16 = 256;

pub const LZW_EOI_CODE: u16 = 257;

pub const LZW_FIRST_CODE: u16 = 258;

pub const LZW_MAX_CODE: u16 = 4095;

/// Number of codes, and size of every table indexed by code.
pub const LZW_TABLE_SIZE: usize = 4096;

/// Marks a table entry without a prefix, that is a single byte.
const NO_PREFIX: u16 = 65535;

/// Width of the next code when the reader knows `known` codes.
pub open spec fn lzw_width(known: int) -> nat {
    if known < 511 {
        9
    } else if known < 1023 {
        10
    } else if known < 2047 {
        11
    } else {
        12
    }
}

/// The strings of the codes after a Clear: every single byte, then the two
/// control codes, which stand for nothing.
pub open spec fn lzw_leaves() -> Seq<Seq<u8>> {
    Seq::new(258, |c: int| if c < 256 { seq![c as u8] } else { Seq::empty() })
}

/// Why a strip cannot be decoded.
#[derive(Debug, Clone, Copy, PartialEq, Eq, Structural)]
pub enum LzwFault {
    /// The first code after a Clear does not stand for a single byte.
    NotALeaf { code: u64 },
    /// A code is beyond the one that would be known next.
    Beyond { code: u64 },
}

impl LzwFault {
    /// The fault in words.
    pub open spec fn text(self) -> Seq<char> {
        match self {
            LzwFault::NotALeaf { code } => "TIFF/LZW: first code after Clear is "@ + decimal(code as nat)
                + ", must be a leaf (<256)"@,
            LzwFault::Beyond { code } => "TIFF/LZW: code "@ + decimal(code as nat)
                + " is beyond the next table entry"@,
        }
    }
}

/// LZW decoding of `bits` from `pos` on, when the codes known so far stand for
/// the strings of `table`, `prev` is the string of the code before (none after
/// a Clear) and `out` has been produced already.
pub open spec fn lzw_decode_from(
    bits: Seq<bool>,
    pos: int,
    table: Seq<Seq<u8>>,
    prev: Option<Seq<u8>>,
    out: Seq<u8>,
    expected: int,
) -> std::result::Result<Seq<u8>, LzwFault>
    decreases bits.len() - pos,
{
    let w = lzw_width(table.len() as int);
    if pos < 0 || pos + w > bits.len() {
        Ok(out)
    } else {
        let code = bits_value(bits, pos, w) as int;
        if code == LZW_EOI_CODE {
            Ok(out)
        } else if code == LZW_CLEAR_CODE {
            lzw_decode_from(bits, pos + w, lzw_leaves(), None, out, expected)
        } else {
            match prev {
                None => if code > LZW_EOI_CODE {
                    Err(LzwFault::NotALeaf { code: code as u64 })
                } else {
                    let out2 = out + table[code];
                    if out2.len() >= expected {
                        Ok(out2)
                    } else {
                        lzw_decode_from(bits, pos + w, table, Some(table[code]), out2, expected)
                    }
                },
                Some(p) => if code > table.len() {
                    Err(LzwFault::Beyond { code: code as u64 })
                } else {
                    let s = if code < table.len() { table[code] } else { p.push(p[0]) };
                    let out2 = out + s;
                    let table2 = if table.len() <= LZW_MAX_CODE { table.push(p.push(s[0])) } else { table };
                    if out2.len() >= expected {
                        Ok(out2)
                    } else {
                        lzw_decode_from(bits, pos + w, table2, Some(s), out2, expected)
                    }
                },
            }
        }
    }
}

/// LZW decoding of a strip: ends with the End code, with the input, or once
/// `expected` bytes are there.
pub open spec fn lzw_run(input: Seq<u8>, expected: int) -> std::result::Result<Seq<u8>, LzwFault> {
    lzw_decode_from(bits_of(input), 0, lzw_leaves(), None, Seq::empty(), expected)
}

/// The bytes of an LZW strip; a strip with a fault is invalid.
pub open spec fn lzw_decode(input: Seq<u8>, expected: int) -> Outcome<Seq<u8>> {
    match lzw_run(input, expected) {
        Ok(v) => Ok(v),
        Err(_) => Err(ErrorKind::Invalid),
    }
}

/// The strings of a decoder's table, shared by prefix: a code's string is the
/// string of its prefix code and one more byte.
struct StringTable {
    prefix: Vec<u16>,
    suffix: Vec<u8>,
}

/// A code that stands for a string.
pub open spec fn is_string_code(c: int) -> bool {
    0 <= c < 256 || 258 <= c
}

impl StringTable {
    /// The table holds the strings of `table`.
    spec fn holds(self, table: Seq<Seq<u8>>) -> bool {
        &&& self.prefix@.len() == LZW_TABLE_SIZE
        &&& self.suffix@.len() == LZW_TABLE_SIZE
        &&& 258 <= table.len() <= LZW_TABLE_SIZE
        &&& forall|c: int| 0 <= c < 256 ==> #[trigger] table[c] == seq![self.suffix@[c]]
        &&& forall|c: int| 0 <= c < 256 ==> #[trigger] self.prefix@[c] == NO_PREFIX
        &&& forall|c: int|
            258 <= c < table.len() ==> {
                &&& #[trigger] self.prefix@[c] < c
                &&& is_string_code(self.prefix@[c] as int)
            }
        &&& forall|c: int|
            258 <= c < table.len() ==> #[trigger] table[c] == table[self.prefix@[c] as int].push(self.suffix@[c])
    }

    fn new() -> (t: StringTable)
        ensures
            t.holds(lzw_leaves()),
    {
        let mut prefix: Vec<u16> = vec![NO_PREFIX; LZW_TABLE_SIZE];
        let mut suffix: Vec<u8> = vec![0; LZW_TABLE_SIZE];
        let mut c: usize = 0;
        while c < 256
            invariant
                c <= 256,
                prefix@.len() == LZW_TABLE_SIZE,
                suffix@.len() == LZW_TABLE_SIZE,
                forall|k: int| 0 <= k < 256 ==> #[trigger] prefix@[k] == NO_PREFIX,
                forall|k: int| 0 <= k < c ==> #[trigger] suffix@[k] == k,
            decreases 256 - c,
        {
            suffix[c] = c as u8;
            c = c + 1;
        }
        let t = StringTable { prefix, suffix };
        assert forall|k: int| 0 <= k < 256 implies #[trigger] lzw_leaves()[k] == seq![t.suffix@[k]] by {
            assert(t.suffix@[k] == k);
        }
        t
    }

    /// Every code's string is longer than its prefix chain allows for less.
    proof fn lemma_strings(self, table: Seq<Seq<u8>>, c: int)
        requires
            self.holds(table),
            c < table.len(),
            is_string_code(c),
        ensures
            1 <= table[c].len() <= c + 1,
        decreases c,
    {
        if c >= 258 {
            assert(self.prefix@[c] < c);
            self.lemma_strings(table, self.prefix@[c] as int);
        }
    }

    /// Appends the string of `code` to `out` and returns its first byte.
    fn emit(&self, code: u16, out: &mut Vec<u8>, Ghost(table): Ghost<Seq<Seq<u8>>>) -> (first: u8)
        requires
            self.holds(table),
            code < table.len(),
            is_string_code(code as int),
        ensures
            table[code as int].len() >= 1,
            final(out)@ == old(out)@ + table[code as int],
            first == table[code as int][0],
    {
        let mut scratch: Vec<u8> = Vec::new();
        let mut c: u16 = code;
        let ghost whole = table[code as int];
        proof {
            self.lemma_strings(table, c as int);
        }
        while self.prefix[c as usize] != NO_PREFIX
            invariant
                self.holds(table),
                c < table.len(),
                is_string_code(c as int),
                whole == table[c as int] + scratch@.reverse(),
            decreases c,
        {
            assert(c >= 258);
            assert(self.prefix@[c as int] < c);
            let ghost before = scratch@.reverse();
            scratch.push(self.suffix[c as usize]);
            proof {
                let p = self.prefix@[c as int] as int;
                assert(table[c as int] == table[p].push(self.suffix@[c as int]));
                assert(scratch@.reverse() =~= seq![self.suffix@[c as int]] + before);
                assert(whole =~= table[p] + scratch@.reverse());
            }
            c = self.prefix[c as usize];
        }
        assert(c < 256) by {
            if c >= 258 {
                assert(self.prefix@[c as int] < c);
            }
        }
        let first: u8 = self.suffix[c as usize];
        assert(table[c as int] == seq![self.suffix@[c as int]]);
        out.push(first);
        let ghost start = old(out)@;
        let mut k: usize = scratch.len();
        proof {
            assert(out@ =~= start + whole.take(1 + (scratch@.len() - k)));
        }
        while k > 0
            invariant
                k <= scratch@.len(),
                whole == seq![first] + scratch@.reverse(),
                out@ == start + whole.take(1 + (scratch@.len() - k)),
            decreases k,
        {
            k = k - 1;
            let ghost before = out@;
            out.push(scratch[k]);
            proof {
                assert(scratch@.reverse()[scratch@.len() - 1 - k] == scratch@[k as int]);
                assert(out@ =~= start + whole.take(1 + (scratch@.len() - k)));
            }
        }
        assert(whole.take(whole.len() as int) =~= whole);
        first
    }

    /// Makes `next` the code of the string of `prev` and one more byte.
    fn add_entry(&mut self, next: u16, prev: u16, byte: u8, Ghost(table): Ghost<Seq<Seq<u8>>>)
        requires
            old(self).holds(table),
            next == table.len(),
            next <= LZW_MAX_CODE,
            prev < next,
            is_string_code(prev as int),
        ensures
            final(self).holds(table.push(table[prev as int].push(byte))),
    {
        let ghost before = *self;
        self.prefix[next as usize] = prev;
        self.suffix[next as usize] = byte;
        proof {
            let t2 = table.push(table[prev as int].push(byte));
            assert forall|c: int| 0 <= c < 256 implies #[trigger] t2[c] == seq![self.suffix@[c]] by {
                assert(t2[c] == table[c]);
            }
            assert forall|c: int| 258 <= c < t2.len() implies {
                &&& #[trigger] self.prefix@[c] < c
                &&& is_string_code(self.prefix@[c] as int)
            } by {
                if c < table.len() {
                    assert(self.prefix@[c] == before.prefix@[c]);
                }
            }
            assert forall|c: int| 258 <= c < t2.len() implies #[trigger] t2[c] == t2[self.prefix@[c] as int].push(self.suffix@[c]) by {
                if c < table.len() {
                    assert(self.prefix@[c] == before.prefix@[c]);
                    assert(self.prefix@[c] < c);
                    assert(t2[c] == table[c]);
                }
            }
        }
    }
}

/// Decodes an LZW strip.
pub fn unpack_lzw(input: &[u8], expected_len: usize) -> (r: Result<Vec<u8>>)
    ensures
        bytes_agree(r, lzw_decode(input@, expected_len as int)),
        lzw_run(input@, expected_len as int) matches Err(f) ==> (r matches Err(e) && e.message() == f.text()),
{
    let mut strings = StringTable::new();
    let ghost mut table = lzw_leaves();
    let mut out: Vec<u8> = Vec::new();
    let mut next_code: u16 = LZW_FIRST_CODE;
    let mut prev_code: Option<u16> = None;
    let mut pos: u128 = 0;
    let ghost bits = bits_of(input@);
    let total: u128 = 8 * (input.len() as u128);
    let ghost goal = lzw_run(input@, expected_len as int);
    loop
        invariant
            bits == bits_of(input@),
            total == 8 * input@.len(),
            total <= 8 * usize::MAX,
            pos <= total,
            goal == lzw_run(input@, expected_len as int),
            strings.holds(table),
            next_code == table.len(),
            258 <= next_code <= 4096,
            prev_code matches Some(p) ==> p < next_code && is_string_code(p as int),
            prev_code is None ==> table == lzw_leaves(),
            goal == lzw_decode_from(
                bits,
                pos as int,
                table,
                (match prev_code {
                    None => None,
                    Some(p) => Some(table[p as int]),
                }),
                out@,
                expected_len as int,
            ),
        decreases total - pos,
    {
        let width: u32 = if next_code < 511 {
            9
        } else if next_code < 1023 {
            10
        } else if next_code < 2047 {
            11
        } else {
            12
        };
        if pos + width as u128 > total {
            return Ok(out);
        }
        let code: u16 = {
            proof {
                vstd::arithmetic::power2::lemma2_to64();
            }
            let v: u32 = read_value(input, pos, width);
            v as u16
        };
        assert(code == bits_value(bits, pos as int, width as nat));
        pos = pos + width as u128;
        if code == LZW_EOI_CODE {
            return Ok(out);
        }
        if code == LZW_CLEAR_CODE {
            strings = StringTable::new();
            proof {
                table = lzw_leaves();
            }
            next_code = LZW_FIRST_CODE;
            prev_code = None;
            continue;
        }
        if let Some(prev) = prev_code {
            if code > next_code {
                return Err(
                    invalid_with("TIFF/LZW: code ", code as u64, " is beyond the next table entry"),
                );
            }
            proof {
                strings.lemma_strings(table, prev as int);
            }
            let ghost p = table[prev as int];
            let ghost s = if code < next_code { table[code as int] } else { p.push(p[0]) };
            let ghost out0 = out@;
            let first: u8 = if code < next_code {
                strings.emit(code, &mut out, Ghost(table))
            } else {
                let f: u8 = strings.emit(prev, &mut out, Ghost(table));
                out.push(f);
                f
            };
            assert(out@ =~= out0 + s);
            assert(first == s[0]);
            if next_code <= LZW_MAX_CODE {
                strings.add_entry(next_code, prev, first, Ghost(table));
                proof {
                    table = table.push(p.push(first));
                }
                next_code = next_code + 1;
            }
            assert(table[code as int] =~= s);
        } else {
            if code >= LZW_CLEAR_CODE {
                return Err(
                    invalid_with("TIFF/LZW: first code after Clear is ", code as u64, ", must be a leaf (<256)"),
                );
            }
            let _first: u8 = strings.emit(code, &mut out, Ghost(table));
        }
        prev_code = Some(code);
        if out.len() >= expected_len {
            return Ok(out);
        }
    }
}

// ----------------------------------------------------------------------
// Encoder
// ----------------------------------------------------------------------

/// LZW encoding of `input[i..]` when `cur` is the code of the longest known
/// string that ends just before `i`, `dict` gives the code of a known string
/// and one more byte, and `next` is the next free code.
pub open spec fn lzw_encode_from(input: Seq<u8>, i: int, dict: Map<(u16, u8), u16>, next: int, cur: u16) -> Seq<bool>
    decreases input.len() - i,
{
    let w = lzw_width(next - 1);
    if i < 0 || i >= input.len() {
        value_bits(cur as nat, w) + value_bits(LZW_EOI_CODE as nat, lzw_width(next))
    } else if dict.contains_key((cur, input[i])) {
        lzw_encode_from(input, i + 1, dict, next, dict[(cur, input[i])])
    } else if next <= LZW_MAX_CODE {
        value_bits(cur as nat, w) + lzw_encode_from(
            input,
            i + 1,
            dict.insert((cur, input[i]), next as u16),
            next + 1,
            input[i] as u16,
        )
    } else {
        value_bits(cur as nat, w) + (value_bits(LZW_CLEAR_CODE as nat, w) + lzw_encode_from(
            input,
            i + 1,
            Map::empty(),
            LZW_FIRST_CODE as int,
            input[i] as u16,
        ))
    }
}

/// The bits of an encoded strip: a Clear, then greedily the code of the
/// longest known string, over and over, then the End code.
pub open spec fn lzw_encode_bits(input: Seq<u8>) -> Seq<bool> {
    value_bits(LZW_CLEAR_CODE as nat, 9) + if input.len() == 0 {
        value_bits(LZW_EOI_CODE as nat, 9)
    } else {
        lzw_encode_from(input, 1, Map::empty(), LZW_FIRST_CODE as int, input[0] as u16)
    }
}

/// LZW encoding of a strip.
pub open spec fn lzw_encode(input: Seq<u8>) -> Seq<u8> {
    bytes_of(lzw_encode_bits(input))
}

/// The encoder's dictionary: for a code and a byte, the code of the longer
/// string. The entries below one code form a linked list.
pub struct LzwTrie {
    first_child: Vec<u16>,
    next_sibling: Vec<u16>,
    suffix: Vec<u8>,
    entries: Ghost<Map<(u16, u8), u16>>,
    chains: Ghost<Seq<Seq<u16>>>,
}

impl LzwTrie {
    /// The dictionary as a map.
    pub closed spec fn view(&self) -> Map<(u16, u8), u16> {
        self.entries@
    }

    /// Code `c` is the code of an entry.
    pub closed spec fn uses(&self, c: u16) -> bool {
        exists|p: int, k: int| 0 <= p < LZW_TABLE_SIZE && 0 <= k < self.chains@[p].len() && #[trigger] self.chains@[p][k] == c
    }

    /// List `p` runs through the codes of `chains[p]`.
    closed spec fn chain_wf(self, p: int) -> bool {
        let ch = self.chains@[p];
        &&& self.first_child@[p] == (if ch.len() > 0 { ch[0] } else { 0u16 })
        &&& forall|k: int| 0 <= k < ch.len() ==> 0 < #[trigger] ch[k] < LZW_TABLE_SIZE
        &&& forall|k: int|
            0 <= k < ch.len() ==> self.next_sibling@[(#[trigger] ch[k]) as int] == (if k + 1 < ch.len() {
                ch[k + 1]
            } else {
                0u16
            })
        &&& forall|k: int|
            0 <= k < ch.len() ==> self.entries@.contains_key((p as u16, self.suffix@[(#[trigger] ch[k]) as int]))
                && self.entries@[(p as u16, self.suffix@[ch[k] as int])] == ch[k]
    }

    /// Entry `(p, b)` of the map stands in list `p`.
    closed spec fn listed(self, p: u16, b: u8) -> bool {
        exists|k: int|
            0 <= k < self.chains@[p as int].len() && self.suffix@[(#[trigger] self.chains@[p as int][k]) as int] == b
    }

    pub closed spec fn wf(self) -> bool {
        &&& self.first_child@.len() == LZW_TABLE_SIZE
        &&& self.next_sibling@.len() == LZW_TABLE_SIZE
        &&& self.suffix@.len() == LZW_TABLE_SIZE
        &&& self.chains@.len() == LZW_TABLE_SIZE
        &&& forall|p: int| 0 <= p < LZW_TABLE_SIZE ==> #[trigger] self.chain_wf(p)
        &&& forall|p: u16, b: u8| #[trigger] self.entries@.contains_key((p, b)) ==> p < LZW_TABLE_SIZE && self.listed(p, b)
    }

    /// An empty dictionary.
    pub fn new() -> (t: LzwTrie)
        ensures
            t.wf(),
            t@ == Map::<(u16, u8), u16>::empty(),
            forall|c: u16| !t.uses(c),
    {
        let t = LzwTrie {
            first_child: vec![0; LZW_TABLE_SIZE],
            next_sibling: vec![0; LZW_TABLE_SIZE],
            suffix: vec![0; LZW_TABLE_SIZE],
            entries: Ghost(Map::empty()),
            chains: Ghost(Seq::new(LZW_TABLE_SIZE as nat, |p: int| Seq::empty())),
        };
        t
    }

    /// Forgets every entry.
    pub fn reset(&mut self)
        requires
            old(self).wf(),
        ensures
            final(self).wf(),
            final(self)@ == Map::<(u16, u8), u16>::empty(),
            forall|c: u16| !final(self).uses(c),
    {
        let mut p: usize = 0;
        while p < LZW_TABLE_SIZE
            invariant
                p <= LZW_TABLE_SIZE,
                self.first_child@.len() == LZW_TABLE_SIZE,
                self.next_sibling@.len() == LZW_TABLE_SIZE,
                self.suffix@.len() == LZW_TABLE_SIZE,
                forall|k: int| 0 <= k < p ==> #[trigger] self.first_child@[k] == 0,
            decreases LZW_TABLE_SIZE - p,
        {
            self.first_child[p] = 0;
            p = p + 1;
        }
        proof {
            self.entries@ = Map::empty();
            self.chains@ = Seq::new(LZW_TABLE_SIZE as nat, |p: int| Seq::empty());
        }
    }

    /// The code of the string of `parent` and `byte`, if it is known.
    pub fn lookup(&self, parent: u16, byte: u8) -> (r: Option<u16>)
        requires
            self.wf(),
            parent < LZW_TABLE_SIZE,
        ensures
            r == (if self@.contains_key((parent, byte)) { Some(self@[(parent, byte)]) } else { None }),
    {
        let ghost ch = self.chains@[parent as int];
        assert(self.chain_wf(parent as int));
        let mut c: u16 = self.first_child[parent as usize];
        let ghost mut k: int = 0;
        while c != 0
            invariant
                self.wf(),
                parent < LZW_TABLE_SIZE,
                ch == self.chains@[parent as int],
                self.chain_wf(parent as int),
                0 <= k <= ch.len(),
                c == (if k < ch.len() { ch[k] } else { 0u16 }),
                forall|j: int| 0 <= j < k ==> self.suffix@[(#[trigger] ch[j]) as int] != byte,
            decreases ch.len() - k,
        {
            assert(0 < ch[k] < LZW_TABLE_SIZE);
            if self.suffix[c as usize] == byte {
                return Some(c);
            }
            c = self.next_sibling[c as usize];
            proof {
                k = k + 1;
            }
        }
        proof {
            if self@.contains_key((parent, byte)) {
                assert(self.listed(parent, byte));
                assert(k >= ch.len()) by {
                    if k < ch.len() {
                        assert(0 < ch[k]);
                    }
                }
            }
        }
        None
    }

    /// Makes `new_code` the code of the string of `parent` and `byte`.
    pub fn insert(&mut self, parent: u16, byte: u8, new_code: u16)
        requires
            old(self).wf(),
            parent < LZW_TABLE_SIZE,
            0 < new_code < LZW_TABLE_SIZE,
            !old(self).uses(new_code),
            !old(self)@.contains_key((parent, byte)),
        ensures
            final(self).wf(),
            final(self)@ == old(self)@.insert((parent, byte), new_code),
            forall|c: u16| final(self).uses(c) <==> old(self).uses(c) || c == new_code,
    {
        let ghost before = *self;
        self.suffix[new_code as usize] = byte;
        self.next_sibling[new_code as usize] = self.first_child[parent as usize];
        self.first_child[parent as usize] = new_code;
        proof {
            let ch = self.chains@[parent as int];
            let ch2 = seq![new_code] + ch;
            self.chains@ = self.chains@.update(parent as int, ch2);
            self.entries@ = self.entries@.insert((parent, byte), new_code);
            assert forall|p: int| 0 <= p < LZW_TABLE_SIZE implies #[trigger] self.chain_wf(p) by {
                assert(before.chain_wf(p));
                let old_ch = before.chains@[p];
                assert forall|k: int| 0 <= k < old_ch.len() implies #[trigger] old_ch[k] != new_code by {
                    assert(before.chains@[p][k] == old_ch[k]);
                    assert(before.uses(old_ch[k]));
                }
                if p == parent {
                    let c = self.chains@[p];
                    assert forall|k: int| 0 <= k < c.len() implies 0 < #[trigger] c[k] < LZW_TABLE_SIZE by {
                        if k > 0 {
                            assert(c[k] == old_ch[k - 1]);
                        }
                    }
                    assert forall|k: int| 0 <= k < c.len() implies self.next_sibling@[(#[trigger] c[k]) as int] == (if k + 1 < c.len() {
                        c[k + 1]
                    } else {
                        0u16
                    }) by {
                        if k > 0 {
                            assert(c[k] == old_ch[k - 1]);
                        }
                    }
                    assert forall|k: int| 0 <= k < c.len() implies self.entries@.contains_key((p as u16, self.suffix@[(#[trigger] c[k]) as int]))
                        && self.entries@[(p as u16, self.suffix@[c[k] as int])] == c[k] by {
                        if k > 0 {
                            assert(c[k] == old_ch[k - 1]);
                            assert(before.entries@.contains_key((p as u16, before.suffix@[old_ch[k - 1] as int])));
                        }
                    }
                } else {
                    assert(self.chains@[p] == old_ch);
                }
            }
            assert forall|p: u16, b: u8| #[trigger] self.entries@.contains_key((p, b)) implies p < LZW_TABLE_SIZE && self.listed(p, b) by {
                if p == parent && b == byte {
                    assert(self.chains@[p as int][0] == new_code);
                } else {
                    assert(before.entries@.contains_key((p, b)));
                    assert(before.listed(p, b));
                    let k = choose|k: int|
                        0 <= k < before.chains@[p as int].len() && before.suffix@[(#[trigger] before.chains@[p as int][k]) as int] == b;
                    let c = before.chains@[p as int][k];
                    assert(before.uses(c));
                    assert(before.chain_wf(p as int));
                    assert(self.suffix@[c as int] == b);
                    if p == parent {
                        assert(self.chains@[p as int][k + 1] == c);
                    } else {
                        assert(self.chains@[p as int][k] == c);
                    }
                }
            }
            assert forall|c: u16| self.uses(c) <==> before.uses(c) || c == new_code by {
                if self.uses(c) && c != new_code {
                    let (p, k) = choose|p: int, k: int|
                        0 <= p < LZW_TABLE_SIZE && 0 <= k < self.chains@[p].len() && #[trigger] self.chains@[p][k] == c;
                    if p == parent {
                        assert(before.chains@[p][k - 1] == c);
                    } else {
                        assert(before.chains@[p][k] == c);
                    }
                }
                if before.uses(c) {
                    let (p, k) = choose|p: int, k: int|
                        0 <= p < LZW_TABLE_SIZE && 0 <= k < before.chains@[p].len() && #[trigger] before.chains@[p][k] == c;
                    if p == parent {
                        assert(self.chains@[p][k + 1] == c);
                    } else {
                        assert(self.chains@[p][k] == c);
                    }
                }
                if c == new_code {
                    assert(self.chains@[parent as int][0] == c);
                }
            }
        }
    }
}

/// Encodes a strip with LZW.
pub fn pack_lzw(input: &[u8]) -> (out: Vec<u8>)
    ensures
        out@ == lzw_encode(input@),
{
    let mut writer = MsbWriter::new();
    writer.put_value(LZW_CLEAR_CODE as u32, 9);
    let ghost goal = lzw_encode_bits(input@);
    assert(writer@ =~= value_bits(LZW_CLEAR_CODE as nat, 9));
    if input.len() == 0 {
        writer.put_value(LZW_EOI_CODE as u32, 9);
        return writer.finish();
    }
    let mut trie = LzwTrie::new();
    let mut next_code: u16 = LZW_FIRST_CODE;
    let mut width: u32 = 9;
    let mut current: u16 = input[0] as u16;
    let mut i: usize = 1;
    while i < input.len()
        invariant
            1 <= i <= input@.len(),
            writer.wf(),
            trie.wf(),
            258 <= next_code <= 4096,
            width == lzw_width(next_code - 1),
            current < next_code,
            forall|c: u16| trie.uses(c) ==> c < next_code,
            forall|k: (u16, u8)| trie@.contains_key(k) ==> #[trigger] trie@[k] < next_code,
            goal == writer@ + lzw_encode_from(input@, i as int, trie@, next_code as int, current),
        decreases input@.len() - i,
    {
        let b: u8 = input[i];
        let ghost start = writer@;
        let ghost rest = lzw_encode_from(input@, i as int, trie@, next_code as int, current);
        match trie.lookup(current, b) {
            Some(c) => {
                current = c;
            },
            None => {
                writer.put_value(current as u32, width);
                if next_code <= LZW_MAX_CODE {
                    trie.insert(current, b, next_code);
                    if next_code == 511 || next_code == 1023 || next_code == 2047 {
                        width = width + 1;
                    }
                    next_code = next_code + 1;
                } else {
                    writer.put_value(LZW_CLEAR_CODE as u32, width);
                    trie.reset();
                    next_code = LZW_FIRST_CODE;
                    width = 9;
                }
                current = b as u16;
                proof {
                    assert(start + rest =~= writer@ + lzw_encode_from(input@, i + 1, trie@, next_code as int, current));
                }
            },
        }
        i = i + 1;
    }
    writer.put_value(current as u32, width);
    if next_code == 511 || next_code == 1023 || next_code == 2047 {
        width = width + 1;
    }
    writer.put_value(LZW_EOI_CODE as u32, width);
    assert(writer@ =~= goal);
    writer.finish()
}

// ----------------------------------------------------------------------
// Decoding what was encoded
// ----------------------------------------------------------------------

/// The dictionary of an encoder gives the codes of the strings of `table`.
spec fn dict_matches(dict: Map<(u16, u8), u16>, table: Seq<Seq<u8>>) -> bool {
    &&& 258 <= table.len() <= 4096
    &&& forall|c: int| 0 <= c < 256 ==> #[trigger] table[c] == seq![c as u8]
    &&& forall|c: int| 258 <= c < table.len() ==> (#[trigger] table[c]).len() >= 1
    &&& forall|p: u16, b: u8| #[trigger]
        dict.contains_key((p, b)) ==> {
            let c = dict[(p, b)] as int;
            &&& 258 <= c < table.len()
            &&& p < table.len()
            &&& is_string_code(p as int)
            &&& table[c] == table[p as int].push(b)
        }
}

/// The decoder is one table entry behind the encoder, or just after a Clear.
spec fn decoder_follows(table: Seq<Seq<u8>>, dec: Seq<Seq<u8>>, prev: Option<Seq<u8>>, first: u8) -> bool {
    match prev {
        None => table == lzw_leaves() && dec == table,
        Some(p) => {
            &&& table.len() >= 259
            &&& p.len() >= 1
            &&& dec == table.take(table.len() - 1)
            &&& table[table.len() - 1] == p.push(first)
        },
    }
}

proof fn lemma_width_fits(known: int, code: nat)
    requires
        257 <= known <= 4096,
        code <= known || code <= 257,
        code <= 4095,
    ensures
        code < pow2(lzw_width(known)),
{
    vstd::arithmetic::power2::lemma2_to64();
}

proof fn lemma_lzw_roundtrip_from(
    bits: Seq<bool>,
    pos: int,
    input: Seq<u8>,
    i: int,
    dict: Map<(u16, u8), u16>,
    table: Seq<Seq<u8>>,
    cur: u16,
    dec: Seq<Seq<u8>>,
    prev: Option<Seq<u8>>,
    expected: int,
)
    requires
        1 <= i <= input.len(),
        input.len() <= expected,
        dict_matches(dict, table),
        cur < table.len(),
        is_string_code(cur as int),
        table[cur as int].len() <= i,
        input.subrange(i - table[cur as int].len(), i) == table[cur as int],
        decoder_follows(table, dec, prev, table[cur as int][0]),
        prev is None ==> cur < 256 && dict == Map::<(u16, u8), u16>::empty(),
        stands_at(bits, pos, lzw_encode_from(input, i, dict, table.len() as int, cur)),
    ensures
        lzw_decode_from(bits, pos, dec, prev, input.take(i - table[cur as int].len()), expected)
            == std::result::Result::<Seq<u8>, LzwFault>::Ok(input),
    decreases input.len() - i,
{
    let next = table.len() as int;
    let w = lzw_width(next - 1);
    let s = table[cur as int];
    let out = input.take(i - s.len());
    if i < input.len() && dict.contains_key((cur, input[i])) {
        let c2 = dict[(cur, input[i])];
        assert(table[c2 as int] == s.push(input[i]));
        assert(input.subrange(i + 1 - table[c2 as int].len(), i + 1) =~= table[c2 as int]);
        assert(table[c2 as int][0] == s[0]);
        lemma_lzw_roundtrip_from(bits, pos, input, i + 1, dict, table, c2, dec, prev, expected);
        assert(i + 1 - table[c2 as int].len() == i - s.len());
    } else {
        // The encoder emits `cur`; the decoder reads it and catches up.
        let rest = if i >= input.len() {
            value_bits(LZW_EOI_CODE as nat, lzw_width(next))
        } else if next <= LZW_MAX_CODE {
            lzw_encode_from(input, i + 1, dict.insert((cur, input[i]), next as u16), next + 1, input[i] as u16)
        } else {
            value_bits(LZW_CLEAR_CODE as nat, w) + lzw_encode_from(
                input,
                i + 1,
                Map::empty(),
                LZW_FIRST_CODE as int,
                input[i] as u16,
            )
        };
        lemma_stands_split(bits, pos, value_bits(cur as nat, w), rest);
        lemma_value_bits_len(cur as nat, w);
        assert(lzw_width(dec.len() as int) == w);
        lemma_width_fits(next - 1, cur as nat);
        lemma_read_where_written(bits, pos, cur as nat, w);
        let out2 = out + s;
        assert(out2 =~= input.take(i));
        let dec2 = if prev is None { dec } else { table };
        if prev is Some {
            let p = prev->0;
            let got = if cur < dec.len() { dec[cur as int] } else { p.push(p[0]) };
            if cur < dec.len() {
                assert(dec[cur as int] == table[cur as int]);
            } else {
                assert(table[cur as int] == p.push(s[0]));
                assert(s[0] == p[0]);
            }
            assert(got =~= s);
            assert(dec.push(p.push(got[0])) =~= table);
        } else {
            assert(dec[cur as int] == s);
        }
        if i >= input.len() {
            assert(input.take(i) =~= input);
            assert(dec2.len() == next);
            let w2 = lzw_width(next);
            lemma_value_bits_len(LZW_EOI_CODE as nat, w2);
            lemma_width_fits(next, LZW_EOI_CODE as nat);
            lemma_read_where_written(bits, pos + w, LZW_EOI_CODE as nat, w2);
            assert(lzw_decode_from(bits, pos + w, dec2, Some(s), out2, expected) == std::result::Result::<
                Seq<u8>,
                LzwFault,
            >::Ok(input));
        } else {
            let b = input[i];
            assert(lzw_decode_from(bits, pos, dec, prev, out, expected) == lzw_decode_from(
                bits,
                pos + w,
                dec2,
                Some(s),
                out2,
                expected,
            ));
            if next <= LZW_MAX_CODE {
                let dict2 = dict.insert((cur, b), next as u16);
                let table2 = table.push(s.push(b));
                assert(dict_matches(dict2, table2)) by {
                    assert forall|c: int| 0 <= c < 256 implies #[trigger] table2[c] == seq![c as u8] by {
                        assert(table2[c] == table[c]);
                    }
                    assert forall|c: int| 258 <= c < table2.len() implies (#[trigger] table2[c]).len() >= 1 by {
                        if c < table.len() {
                            assert(table2[c] == table[c]);
                        }
                    }
                    assert forall|p: u16, x: u8| #[trigger] dict2.contains_key((p, x)) implies {
                        let c = dict2[(p, x)] as int;
                        &&& 258 <= c < table2.len()
                        &&& p < table2.len()
                        &&& is_string_code(p as int)
                        &&& table2[c] == table2[p as int].push(x)
                    } by {
                        if !(p == cur && x == b) {
                            assert(dict.contains_key((p, x)));
                        }
                    }
                }
                assert(table2[b as int] == seq![b]);
                assert(input.subrange(i + 1 - 1, i + 1) =~= seq![b]);
                assert(table2.take(table2.len() - 1) =~= table);
                assert(dec2 == table2.take(table2.len() - 1));
                lemma_lzw_roundtrip_from(bits, pos + w, input, i + 1, dict2, table2, b as u16, dec2, Some(s), expected);
            } else {
                let tail = lzw_encode_from(input, i + 1, Map::empty(), LZW_FIRST_CODE as int, b as u16);
                lemma_stands_split(bits, pos + w, value_bits(LZW_CLEAR_CODE as nat, w), tail);
                lemma_value_bits_len(LZW_CLEAR_CODE as nat, w);
                lemma_width_fits(dec2.len() as int, LZW_CLEAR_CODE as nat);
                lemma_read_where_written(bits, pos + w, LZW_CLEAR_CODE as nat, w);
                assert(prev is Some);
                assert(lzw_leaves()[b as int] == seq![b]);
                assert(input.subrange(i + 1 - 1, i + 1) =~= seq![b]);
                lemma_lzw_roundtrip_from(
                    bits,
                    pos + w + w,
                    input,
                    i + 1,
                    Map::empty(),
                    lzw_leaves(),
                    b as u16,
                    lzw_leaves(),
                    None,
                    expected,
                );
            }
        }
    }
}

/// Unpacking what was packed gives the bytes back, whatever they are, and however
/// many more than they are expected.
pub proof fn law_lzw_roundtrip(input: Seq<u8>, expected: int)
    requires
        input.len() <= expected,
    ensures
        lzw_decode(lzw_encode(input), expected) == Outcome::<Seq<u8>>::Ok(input),
{
    let e = lzw_encode_bits(input);
    let bits = bits_of(lzw_encode(input));
    lemma_bits_of_bytes_of(e);
    assert(stands_at(bits, 0, e));
    let rest = if input.len() == 0 {
        value_bits(LZW_EOI_CODE as nat, 9)
    } else {
        lzw_encode_from(input, 1, Map::empty(), LZW_FIRST_CODE as int, input[0] as u16)
    };
    lemma_stands_split(bits, 0, value_bits(LZW_CLEAR_CODE as nat, 9), rest);
    lemma_value_bits_len(LZW_CLEAR_CODE as nat, 9);
    lemma_width_fits(258, LZW_CLEAR_CODE as nat);
    lemma_read_where_written(bits, 0, LZW_CLEAR_CODE as nat, 9);
    if input.len() == 0 {
        lemma_value_bits_len(LZW_EOI_CODE as nat, 9);
        lemma_width_fits(258, LZW_EOI_CODE as nat);
        lemma_read_where_written(bits, 9, LZW_EOI_CODE as nat, 9);
        assert(input =~= Seq::empty());
    } else {
        assert(lzw_leaves()[input[0] as int] == seq![input[0]]);
        assert(input.subrange(0, 1) =~= seq![input[0]]);
        assert(input.take(0) =~= Seq::empty());
        lemma_lzw_roundtrip_from(bits, 9, input, 1, Map::empty(), lzw_leaves(), input[0] as u16, lzw_leaves(), None, expected);
    }
}

} // verus!
