//! The byte-oriented compression schemes: PackBits, LZW, Deflate, Zstandard.
use vstd::prelude::*;
use crate::error::{bytes_agree, ErrorKind, Outcome, Result, TiffError};
pub use crate::lzw::{pack_lzw, unpack_lzw, LzwTrie};

verus! {

/// Appends the bytes `s[from..to]` to `out`.
pub(crate) fn append_range(out: &mut Vec<u8>, s: &[u8], from: usize, to: usize)
    requires
        from <= to <= s@.len(),
    ensures
        final(out)@ == old(out)@ + s@.subrange(from as int, to as int),
{
    let ghost before = out@;
    out.extend_from_slice(&s[from..to]);
    assert(out@ =~= before + s@.subrange(from as int, to as int));
}

/// Appends the bytes `s` to `out`.
pub(crate) fn append(out: &mut Vec<u8>, s: &[u8])
    ensures
        final(out)@ == old(out)@ + s@,
{
    let ghost before = out@;
    out.extend_from_slice(s);
    assert(out@ =~= before + s@);
}

/// The same byte `n` times.
pub open spec fn repeated(b: u8, n: nat) -> Seq<u8> {
    Seq::new(n, |i: int| b)
}

/// The smaller of two numbers.
pub open spec fn min_int(a: int, b: int) -> int {
    if a <= b { a } else { b }
}

// ----------------------------------------------------------------------
// PackBits
// ----------------------------------------------------------------------

/// PackBits decoding of `input[i..]` when `out` has been produced already.
///
/// A header byte below 128 is followed by one more literal byte than its
/// value; 128 stands for nothing; a header `h` above 128 is followed by a
/// byte to be repeated `257 - h` times. Decoding ends with the input, or once
/// `expected` bytes are there; only a repetition is cut off at that point.
pub open spec fn packbits_decode(input: Seq<u8>, i: int, out: Seq<u8>, expected: int) -> Outcome<Seq<u8>>
    decreases input.len() - i,
{
    if i < 0 || i >= input.len() || out.len() >= expected {
        Ok(out)
    } else {
        let h = input[i] as int;
        if h < 128 {
            if i + 2 + h > input.len() {
                Err(ErrorKind::Invalid)
            } else {
                packbits_decode(input, i + 2 + h, out + input.subrange(i + 1, i + 2 + h), expected)
            }
        } else if h == 128 {
            packbits_decode(input, i + 1, out, expected)
        } else if i + 1 >= input.len() {
            Err(ErrorKind::Invalid)
        } else {
            let n = min_int(257 - h, expected - out.len());
            packbits_decode(input, i + 2, out + repeated(input[i + 1], n as nat), expected)
        }
    }
}

/// PackBits decoding fails in one way only.
pub proof fn lemma_packbits_error(input: Seq<u8>, i: int, out: Seq<u8>, expected: int)
    ensures
        packbits_decode(input, i, out, expected) matches Err(k) ==> k == ErrorKind::Invalid,
    decreases input.len() - i,
{
    if i < 0 || i >= input.len() || out.len() >= expected {
    } else {
        let h = input[i] as int;
        if h < 128 {
            if i + 2 + h <= input.len() {
                lemma_packbits_error(input, i + 2 + h, out + input.subrange(i + 1, i + 2 + h), expected);
            }
        } else if h == 128 {
            lemma_packbits_error(input, i + 1, out, expected);
        } else if i + 1 < input.len() {
            let n = min_int(257 - h, expected - out.len());
            lemma_packbits_error(input, i + 2, out + repeated(input[i + 1], n as nat), expected);
        }
    }
}

/// Decodes a PackBits strip.
pub fn unpack_packbits(input: &[u8], expected_len: usize) -> (r: Result<Vec<u8>>)
    ensures
        bytes_agree(r, packbits_decode(input@, 0, Seq::empty(), expected_len as int)),
{
    let mut out: Vec<u8> = Vec::new();
    let mut i: usize = 0;
    while i < input.len() && out.len() < expected_len
        invariant
            i <= input@.len(),
            packbits_decode(input@, 0, Seq::empty(), expected_len as int) == packbits_decode(
                input@,
                i as int,
                out@,
                expected_len as int,
            ),
        decreases input@.len() - i,
    {
        let h: usize = input[i] as usize;
        i = i + 1;
        if h < 128 {
            if input.len() - i < h + 1 {
                return Err(TiffError::invalid("TIFF/PackBits: literal run past EOF"));
            }
            append_range(&mut out, input, i, i + h + 1);
            i = i + h + 1;
        } else if h > 128 {
            if i >= input.len() {
                return Err(TiffError::invalid("TIFF/PackBits: replicate run past EOF"));
            }
            let b: u8 = input[i];
            i = i + 1;
            let left: usize = expected_len - out.len();
            let want: usize = 257 - h;
            let n: usize = if want <= left { want } else { left };
            let ghost start = out@;
            let mut k: usize = 0;
            while k < n
                invariant
                    k <= n,
                    out@ == start + repeated(b, k as nat),
                decreases n - k,
            {
                out.push(b);
                k = k + 1;
                assert(out@ =~= start + repeated(b, k as nat));
            }
        }
    }
    Ok(out)
}

/// Length of the run of equal bytes at `i`, known to be at least `n`;
/// runs longer than 128 count as 128.
pub open spec fn run_length(input: Seq<u8>, i: int, n: int) -> int
    decreases 128 - n,
{
    if n < 128 && i + n < input.len() && input[i + n] == input[i] {
        run_length(input, i, n + 1)
    } else {
        n
    }
}

/// Three equal bytes start at `i`.
pub open spec fn triple_at(input: Seq<u8>, i: int) -> bool {
    i + 2 < input.len() && input[i] == input[i + 1] && input[i + 1] == input[i + 2]
}

/// End of the literal run that starts at `start` and is known to reach `end`:
/// the next place where three equal bytes start, 128 bytes at most.
pub open spec fn literal_end(input: Seq<u8>, start: int, end: int) -> int
    decreases input.len() - end,
{
    if end - start < 128 && end < input.len() && !triple_at(input, end) {
        literal_end(input, start, end + 1)
    } else {
        end
    }
}

pub proof fn lemma_run_length(input: Seq<u8>, i: int, n: int)
    requires
        0 <= i,
        1 <= n <= 128,
        i + n <= input.len(),
        forall|j: int| i <= j < i + n ==> #[trigger] input[j] == input[i],
    ensures
        n <= run_length(input, i, n) <= 128,
        i + run_length(input, i, n) <= input.len(),
        forall|j: int| i <= j < i + run_length(input, i, n) ==> #[trigger] input[j] == input[i],
    decreases 128 - n,
{
    if n < 128 && i + n < input.len() && input[i + n] == input[i] {
        lemma_run_length(input, i, n + 1);
    }
}

pub proof fn lemma_literal_end(input: Seq<u8>, start: int, end: int)
    requires
        0 <= start < end <= input.len(),
        end - start <= 128,
    ensures
        end <= literal_end(input, start, end) <= input.len(),
        literal_end(input, start, end) - start <= 128,
    decreases input.len() - end,
{
    if end - start < 128 && end < input.len() && !triple_at(input, end) {
        lemma_literal_end(input, start, end + 1);
    }
}

/// PackBits encoding of `input[i..]`: runs of three or more equal bytes become
/// repetitions, the bytes between them become literal runs.
pub open spec fn packbits_encode(input: Seq<u8>, i: int) -> Seq<u8>
    decreases input.len() - i,
{
    if i < 0 || i >= input.len() {
        Seq::empty()
    } else {
        let n = run_length(input, i, 1);
        let e = literal_end(input, i, i + 1);
        proof {
            lemma_run_length(input, i, 1);
            lemma_literal_end(input, i, i + 1);
        }
        if n >= 3 {
            seq![(257 - n) as u8, input[i]] + packbits_encode(input, i + n)
        } else {
            seq![(e - i - 1) as u8] + input.subrange(i, e) + packbits_encode(input, e)
        }
    }
}

/// Encodes a strip with PackBits.
pub fn pack_packbits(input: &[u8]) -> (out: Vec<u8>)
    ensures
        out@ == packbits_encode(input@, 0),
{
    let mut out: Vec<u8> = Vec::new();
    let mut i: usize = 0;
    while i < input.len()
        invariant
            i <= input@.len(),
            out@ + packbits_encode(input@, i as int) == packbits_encode(input@, 0),
        decreases input@.len() - i,
    {
        let ghost start = out@;
        let mut run: usize = 1;
        proof {
            lemma_run_length(input@, i as int, 1);
        }
        while run < 128 && run < input.len() - i && input[i + run] == input[i]
            invariant
                i < input@.len(),
                1 <= run <= 128,
                i + run <= input@.len(),
                run_length(input@, i as int, run as int) == run_length(input@, i as int, 1),
            decreases 128 - run,
        {
            run = run + 1;
        }
        if run >= 3 {
            let header: u8 = (257 - run) as u8;
            out.push(header);
            out.push(input[i]);
            proof {
                assert(start + packbits_encode(input@, i as int) =~= out@ + packbits_encode(input@, i + run));
            }
            i = i + run;
        } else {
            let lit_start: usize = i;
            let mut lit_end: usize = i + 1;
            proof {
                lemma_literal_end(input@, i as int, i + 1);
            }
            while lit_end - lit_start < 128 && lit_end < input.len() && !(input.len() - lit_end > 2
                && input[lit_end] == input[lit_end + 1] && input[lit_end + 1] == input[lit_end + 2])
                invariant
                    lit_start < lit_end <= input@.len(),
                    lit_end - lit_start <= 128,
                    literal_end(input@, lit_start as int, lit_end as int) == literal_end(
                        input@,
                        lit_start as int,
                        lit_start + 1,
                    ),
                decreases input@.len() - lit_end,
            {
                lit_end = lit_end + 1;
            }
            let header: u8 = (lit_end - lit_start - 1) as u8;
            out.push(header);
            append_range(&mut out, input, lit_start, lit_end);
            proof {
                assert(start + packbits_encode(input@, i as int) =~= out@ + packbits_encode(input@, lit_end as int));
            }
            i = lit_end;
        }
    }
    proof {
        assert(out@ =~= out@ + packbits_encode(input@, i as int));
    }
    out
}

/// Decoding resumes where an encoded prefix ends.
proof fn lemma_packbits_roundtrip_from(prefix: Seq<u8>, input: Seq<u8>, i: int)
    requires
        0 <= i <= input.len(),
    ensures
        packbits_decode(
            prefix + packbits_encode(input, i),
            prefix.len() as int,
            input.take(i),
            input.len() as int,
        ) == Outcome::<Seq<u8>>::Ok(input),
    decreases input.len() - i,
{
    let all = prefix + packbits_encode(input, i);
    if i == input.len() {
        assert(input.take(i) =~= input);
    } else {
        let n = run_length(input, i, 1);
        let e = literal_end(input, i, i + 1);
        lemma_run_length(input, i, 1);
        lemma_literal_end(input, i, i + 1);
        let at = prefix.len() as int;
        if n >= 3 {
            let p2 = prefix + seq![(257 - n) as u8, input[i]];
            assert(all =~= p2 + packbits_encode(input, i + n));
            lemma_packbits_roundtrip_from(p2, input, i + n);
            assert(all[at] == (257 - n) as u8);
            assert(all[at + 1] == input[i]);
            assert(input.take(i) + repeated(input[i], n as nat) =~= input.take(i + n));
        } else {
            let p2 = prefix + (seq![(e - i - 1) as u8] + input.subrange(i, e));
            assert(all =~= p2 + packbits_encode(input, e));
            lemma_packbits_roundtrip_from(p2, input, e);
            assert(all[at] == (e - i - 1) as u8);
            assert(all.subrange(at + 1, at + 1 + (e - i)) =~= input.subrange(i, e));
            assert(input.take(i) + input.subrange(i, e) =~= input.take(e));
        }
    }
}

/// Unpacking what was packed gives the bytes back, whatever they are.
pub proof fn law_packbits_roundtrip(input: Seq<u8>)
    ensures
        packbits_decode(packbits_encode(input, 0), 0, Seq::empty(), input.len() as int) == Outcome::<Seq<u8>>::Ok(
            input,
        ),
{
    lemma_packbits_roundtrip_from(Seq::empty(), input, 0);
    assert(Seq::<u8>::empty() + packbits_encode(input, 0) =~= packbits_encode(input, 0));
    assert(input.take(0) =~= Seq::empty());
}

// ----------------------------------------------------------------------
// Deflate and Zstandard, through the `compcol` crate
// ----------------------------------------------------------------------

/// Most bytes that one Deflate or Zstandard strip may expand to.
pub const MAX_CODEC_OUTPUT: usize = 67108864;

/// The error type of `compcol`, carried through unread.
#[verifier::external_type_specification]
#[verifier::external_body]
pub struct ExCodecError(compcol::Error);

/// What `compcol` inflates a zlib stream to when at most `limit` bytes are
/// allowed; `None` where it reports an error.
pub uninterp spec fn zlib_inflated(input: Seq<u8>, limit: u64) -> Option<Seq<u8>>;

/// The zlib stream that `compcol` makes of some bytes at its default level;
/// `None` where it reports an error.
pub uninterp spec fn zlib_deflated(input: Seq<u8>) -> Option<Seq<u8>>;

/// What `compcol` decodes a Zstandard frame to when at most `limit` bytes are
/// allowed; `None` where it reports an error.
pub uninterp spec fn zstd_expanded(input: Seq<u8>, limit: u64) -> Option<Seq<u8>>;

/// The Zstandard frame that `compcol` makes of some bytes at its default level;
/// `None` where it reports an error.
pub uninterp spec fn zstd_frame(input: Seq<u8>) -> Option<Seq<u8>>;

/// Calls `compcol::vec::decompress_to_vec_capped` for zlib. Claimed of it: the
/// result depends on the bytes and the cap alone, and is never longer than the
/// cap.
#[verifier::external_body]
fn zlib_decompress(input: &[u8], limit: u64) -> (r: std::result::Result<Vec<u8>, compcol::Error>)
    ensures
        (match r {
            Ok(v) => zlib_inflated(input@, limit) == Some(v@) && v@.len() <= limit,
            Err(_) => zlib_inflated(input@, limit) is None,
        }),
{
    compcol::vec::decompress_to_vec_capped::<compcol::zlib::Zlib>(input, limit)
}

/// Calls `compcol::vec::compress_to_vec` for zlib. Claimed of it: the result
/// depends on the bytes alone, inflating it under any cap that leaves room gives
/// the bytes back, and inflating it under any cap gives no more than the cap.
#[verifier::external_body]
fn zlib_compress(input: &[u8]) -> (r: std::result::Result<Vec<u8>, compcol::Error>)
    ensures
        (match r {
            Ok(v) => {
                &&& zlib_deflated(input@) == Some(v@)
                &&& forall|limit: u64| input@.len() <= limit ==> #[trigger] zlib_inflated(v@, limit) == Some(input@)
                &&& forall|limit: u64| (#[trigger] zlib_inflated(v@, limit)) matches Some(d) ==> d.len() <= limit
            },
            Err(_) => zlib_deflated(input@) is None,
        }),
{
    compcol::vec::compress_to_vec::<compcol::zlib::Zlib>(input)
}

/// Calls `compcol::vec::decompress_to_vec_capped` for Zstandard. Claimed of it:
/// the result depends on the bytes and the cap alone, and is never longer than
/// the cap.
#[verifier::external_body]
fn zstd_decompress(input: &[u8], limit: u64) -> (r: std::result::Result<Vec<u8>, compcol::Error>)
    ensures
        (match r {
            Ok(v) => zstd_expanded(input@, limit) == Some(v@) && v@.len() <= limit,
            Err(_) => zstd_expanded(input@, limit) is None,
        }),
{
    compcol::vec::decompress_to_vec_capped::<compcol::zstd::Zstd>(input, limit)
}

/// Calls `compcol::vec::compress_to_vec` for Zstandard. Claimed of it: the
/// result depends on the bytes alone, decoding it under any cap that leaves room
/// gives the bytes back, and decoding it under any cap gives no more than the cap.
#[verifier::external_body]
fn zstd_compress(input: &[u8]) -> (r: std::result::Result<Vec<u8>, compcol::Error>)
    ensures
        (match r {
            Ok(v) => {
                &&& zstd_frame(input@) == Some(v@)
                &&& forall|limit: u64| input@.len() <= limit ==> #[trigger] zstd_expanded(v@, limit) == Some(input@)
                &&& forall|limit: u64| (#[trigger] zstd_expanded(v@, limit)) matches Some(d) ==> d.len() <= limit
            },
            Err(_) => zstd_frame(input@) is None,
        }),
{
    compcol::vec::compress_to_vec::<compcol::zstd::Zstd>(input)
}

/// The cap on the output of a strip that should hold `expected_len` bytes.
pub open spec fn codec_limit(expected_len: int) -> u64 {
    min_int(expected_len, MAX_CODEC_OUTPUT as int) as u64
}

fn output_limit(expected_len: usize) -> (n: u64)
    ensures
        n == codec_limit(expected_len as int),
{
    if expected_len <= MAX_CODEC_OUTPUT {
        expected_len as u64
    } else {
        MAX_CODEC_OUTPUT as u64
    }
}

/// The result of an outside codec as a result of the library: its errors all
/// mean that the data is invalid.
pub open spec fn codec_outcome(o: Option<Seq<u8>>) -> Outcome<Seq<u8>> {
    match o {
        Some(v) => Ok(v),
        None => Err(ErrorKind::Invalid),
    }
}

/// Decodes a Deflate strip: a zlib stream of at most `expected_len` bytes, and
/// of at most [`MAX_CODEC_OUTPUT`].
pub fn unpack_deflate(input: &[u8], expected_len: usize) -> (r: Result<Vec<u8>>)
    ensures
        bytes_agree(r, codec_outcome(zlib_inflated(input@, codec_limit(expected_len as int)))),
        r matches Ok(v) ==> v@.len() <= expected_len && v@.len() <= MAX_CODEC_OUTPUT,
{
    match zlib_decompress(input, output_limit(expected_len)) {
        Ok(v) => Ok(v),
        Err(_) => Err(TiffError::invalid("TIFF/Deflate: zlib inflate failed")),
    }
}

/// Decodes a Zstandard strip: one frame of at most `expected_len` bytes, and of
/// at most [`MAX_CODEC_OUTPUT`].
pub fn unpack_zstd(input: &[u8], expected_len: usize) -> (r: Result<Vec<u8>>)
    ensures
        bytes_agree(r, codec_outcome(zstd_expanded(input@, codec_limit(expected_len as int)))),
        r matches Ok(v) ==> v@.len() <= expected_len && v@.len() <= MAX_CODEC_OUTPUT,
{
    match zstd_decompress(input, output_limit(expected_len)) {
        Ok(v) => Ok(v),
        Err(_) => Err(TiffError::invalid("TIFF/ZSTD: Zstandard frame decode failed")),
    }
}

/// Encodes a strip with Deflate. Unpacking it, for any expected length that
/// leaves room, gives the bytes back, and never more than allowed.
pub fn pack_deflate(input: &[u8]) -> (r: Result<Vec<u8>>)
    ensures
        bytes_agree(r, codec_outcome(zlib_deflated(input@))),
        r matches Ok(v) ==> forall|limit: u64|
            input@.len() <= limit ==> #[trigger] zlib_inflated(v@, limit) == Some(input@),
        r matches Ok(v) ==> forall|limit: u64| (#[trigger] zlib_inflated(v@, limit)) matches Some(d) ==> d.len() <= limit,
{
    match zlib_compress(input) {
        Ok(v) => Ok(v),
        Err(_) => Err(TiffError::invalid("TIFF/Deflate: zlib deflate failed")),
    }
}

/// Encodes a strip as one Zstandard frame. Unpacking it, for any expected
/// length that leaves room, gives the bytes back, and never more than allowed.
pub fn pack_zstd(input: &[u8]) -> (r: Result<Vec<u8>>)
    ensures
        bytes_agree(r, codec_outcome(zstd_frame(input@))),
        r matches Ok(v) ==> forall|limit: u64|
            input@.len() <= limit ==> #[trigger] zstd_expanded(v@, limit) == Some(input@),
        r matches Ok(v) ==> forall|limit: u64| (#[trigger] zstd_expanded(v@, limit)) matches Some(d) ==> d.len() <= limit,
{
    match zstd_compress(input) {
        Ok(v) => Ok(v),
        Err(_) => Err(TiffError::invalid("TIFF/ZSTD: Zstandard frame encode failed")),
    }
}

} // verus!
