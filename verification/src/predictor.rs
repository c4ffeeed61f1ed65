//! Horizontal differencing: every sample is stored as its difference from the
//! sample of the same component one pixel to the left.
use vstd::prelude::*;
use crate::error::{Result, TiffError};
use crate::ifd::ByteOrder;

verus! {

/// Number of values a sample of `bps` bits can have.
pub open spec fn modulus(bps: int) -> int {
    if bps == 4 {
        16
    } else if bps == 8 {
        256
    } else {
        65536
    }
}

/// A sample size that can be differenced when reading.
pub open spec fn readable_size(bps: int) -> bool {
    bps == 4 || bps == 8 || bps == 16
}

/// Sample number `i` of the row that starts at byte `base`.
pub open spec fn sample(buf: Seq<u8>, base: int, bo: ByteOrder, bps: int, i: int) -> int {
    if bps == 4 {
        if i % 2 == 0 { buf[base + i / 2] as int / 16 } else { buf[base + i / 2] as int % 16 }
    } else if bps == 8 {
        buf[base + i] as int
    } else {
        match bo {
            ByteOrder::Little => buf[base + 2 * i] + 256 * buf[base + 2 * i + 1],
            ByteOrder::Big => 256 * buf[base + 2 * i] + buf[base + 2 * i + 1],
        }
    }
}

/// Number of samples that fit a row of `row_bytes` bytes.
pub open spec fn slots(row_bytes: int, bps: int) -> int {
    if bps == 4 {
        2 * row_bytes
    } else if bps == 8 {
        row_bytes
    } else {
        row_bytes / 2
    }
}

/// Bytes of a row that its samples make up; a byte may be left over.
pub open spec fn whole(row_bytes: int, bps: int) -> int {
    if bps == 16 { row_bytes / 2 * 2 } else { row_bytes }
}

/// Byte `x` of a row whose samples are given by `v`.
pub open spec fn byte_of_samples(v: spec_fn(int) -> int, bo: ByteOrder, bps: int, x: int) -> u8 {
    (if bps == 4 {
        16 * v(2 * x) + v(2 * x + 1)
    } else if bps == 8 {
        v(x)
    } else if (x % 2 == 0) == (bo == ByteOrder::Little) {
        v(x / 2) % 256
    } else {
        v(x / 2) / 256
    }) as u8
}

/// Sum, modulo the number of values, of sample `i` and of those `step`, `2 *
/// step`, ... samples before it.
pub open spec fn running_sum(buf: Seq<u8>, base: int, bo: ByteOrder, bps: int, step: int, i: int) -> int
    decreases i,
{
    if step <= 0 || i < step {
        sample(buf, base, bo, bps, i)
    } else {
        (sample(buf, base, bo, bps, i) + running_sum(buf, base, bo, bps, step, i - step)) % modulus(bps)
    }
}

/// Difference, modulo the number of values, of sample `i` and the one `step`
/// samples before it.
pub open spec fn difference(buf: Seq<u8>, base: int, bo: ByteOrder, bps: int, step: int, i: int) -> int {
    if step <= 0 || i < step {
        sample(buf, base, bo, bps, i)
    } else {
        (sample(buf, base, bo, bps, i) - sample(buf, base, bo, bps, i - step)) % modulus(bps)
    }
}

/// Sample `i` of a row after undoing the differences of its first `n` samples.
pub open spec fn summed_sample(buf: Seq<u8>, base: int, bo: ByteOrder, bps: int, step: int, n: int, i: int) -> int {
    if i < n { running_sum(buf, base, bo, bps, step, i) } else { sample(buf, base, bo, bps, i) }
}

/// Sample `i` of a row after taking the differences of its first `n` samples.
pub open spec fn differenced_sample(buf: Seq<u8>, base: int, bo: ByteOrder, bps: int, step: int, n: int, i: int) -> int {
    if i < n { difference(buf, base, bo, bps, step, i) } else { sample(buf, base, bo, bps, i) }
}

/// Rows of `width` pixels of `samples` samples with the differences undone;
/// nothing for a sample size that has none.
pub open spec fn summed_rows(
    buf: Seq<u8>,
    width: int,
    rows: int,
    samples: int,
    bps: int,
    row_bytes: int,
    bo: ByteOrder,
) -> Option<Seq<u8>> {
    if width == 0 || rows == 0 {
        Some(buf)
    } else if !readable_size(bps) {
        None
    } else {
        Some(
            Seq::new(
                buf.len(),
                |k: int|
                    if k / row_bytes < rows && k % row_bytes < whole(row_bytes, bps) {
                        byte_of_samples(
                            |i: int|
                                summed_sample(
                                    buf,
                                    k / row_bytes * row_bytes,
                                    bo,
                                    bps,
                                    samples,
                                    width * samples,
                                    i,
                                ),
                            bo,
                            bps,
                            k % row_bytes,
                        )
                    } else {
                        buf[k]
                    },
            ),
        )
    }
}

/// Rows of `width` pixels of `samples` little-endian samples with the
/// differences taken; nothing for a sample size that has none.
pub open spec fn differenced_rows(
    buf: Seq<u8>,
    width: int,
    rows: int,
    samples: int,
    bps: int,
    row_bytes: int,
) -> Option<Seq<u8>> {
    if width == 0 || rows == 0 {
        Some(buf)
    } else if bps != 8 && bps != 16 {
        None
    } else {
        Some(
            Seq::new(
                buf.len(),
                |k: int|
                    if k / row_bytes < rows && k % row_bytes < whole(row_bytes, bps) {
                        byte_of_samples(
                            |i: int|
                                differenced_sample(
                                    buf,
                                    k / row_bytes * row_bytes,
                                    ByteOrder::Little,
                                    bps,
                                    samples,
                                    width * samples,
                                    i,
                                ),
                            ByteOrder::Little,
                            bps,
                            k % row_bytes,
                        )
                    } else {
                        buf[k]
                    },
            ),
        )
    }
}

/// A buffer of `rows` rows whose samples all lie in their row, in whole bytes.
pub open spec fn rows_fit(len: int, width: int, rows: int, samples: int, bps: int, row_bytes: int) -> bool {
    &&& 0 <= width
    &&& 0 <= rows
    &&& 1 <= samples
    &&& 0 <= row_bytes
    &&& rows * row_bytes <= len
    &&& width * samples <= slots(row_bytes, bps)
}

proof fn lemma_sample_range(buf: Seq<u8>, base: int, bo: ByteOrder, bps: int, i: int)
    requires
        readable_size(bps),
    ensures
        0 <= sample(buf, base, bo, bps, i) < modulus(bps),
{
}

/// Reads sample `i` of the row that starts at byte `base`.
fn read_sample(buf: &[u8], base: usize, bo: ByteOrder, bps: usize, i: u128, row_bytes: usize) -> (v: u32)
    requires
        readable_size(bps as int),
        base + row_bytes <= buf@.len(),
        i < slots(row_bytes as int, bps as int),
    ensures
        v == sample(buf@, base as int, bo, bps as int, i as int),
        v < modulus(bps as int),
{
    assert(buf@.len() == buf.len());
    if bps == 4 {
        let b: u8 = buf[base + (i / 2) as usize];
        if i % 2 == 0 {
            (b / 16) as u32
        } else {
            (b % 16) as u32
        }
    } else if bps == 8 {
        buf[base + i as usize] as u32
    } else {
        let at: usize = base + 2 * (i as usize);
        let a: u32 = buf[at] as u32;
        let b: u32 = buf[at + 1] as u32;
        match bo {
            ByteOrder::Little => a + 256 * b,
            ByteOrder::Big => 256 * a + b,
        }
    }
}

/// `after` is `before` with sample `i` of the row at `base` replaced by `v`.
spec fn replaced(
    before: Seq<u8>,
    after: Seq<u8>,
    base: int,
    bo: ByteOrder,
    bps: int,
    i: int,
    row_bytes: int,
    v: int,
) -> bool {
    &&& after.len() == before.len()
    &&& forall|k: int|
        0 <= k < before.len() && !(base <= k < base + whole(row_bytes, bps)) ==> #[trigger] after[k] == before[k]
    &&& forall|j: int|
        0 <= j < slots(row_bytes, bps) ==> #[trigger] sample(after, base, bo, bps, j) == (if j == i {
            v
        } else {
            sample(before, base, bo, bps, j)
        })
}

/// Replaces sample `i` of the row that starts at byte `base`.
fn write_sample(buf: &mut Vec<u8>, base: usize, bo: ByteOrder, bps: usize, i: u128, row_bytes: usize, v: u32)
    requires
        readable_size(bps as int),
        base + row_bytes <= old(buf)@.len(),
        i < slots(row_bytes as int, bps as int),
        v < modulus(bps as int),
    ensures
        replaced(old(buf)@, final(buf)@, base as int, bo, bps as int, i as int, row_bytes as int, v as int),
{
    assert(buf@.len() == buf.len());
    if bps == 4 {
        let at: usize = base + (i / 2) as usize;
        let b: u8 = buf[at];
        if i % 2 == 0 {
            buf[at] = b % 16 + 16 * (v as u8);
        } else {
            buf[at] = b / 16 * 16 + v as u8;
        }
    } else if bps == 8 {
        buf[base + i as usize] = v as u8;
    } else {
        let lo: u8 = (v % 256) as u8;
        let hi: u8 = (v / 256) as u8;
        let at: usize = base + 2 * (i as usize);
        match bo {
            ByteOrder::Little => {
                buf[at] = lo;
                buf[at + 1] = hi;
            },
            ByteOrder::Big => {
                buf[at] = hi;
                buf[at + 1] = lo;
            },
        }
    }
}

/// A byte of a row is made of its samples.
proof fn lemma_byte_of_samples(buf: Seq<u8>, base: int, bo: ByteOrder, bps: int, v: spec_fn(int) -> int, row_bytes: int, x: int)
    requires
        readable_size(bps),
        0 <= x < whole(row_bytes, bps),
        forall|i: int| 0 <= i < slots(row_bytes, bps) ==> #[trigger] sample(buf, base, bo, bps, i) == v(i),
    ensures
        buf[base + x] == byte_of_samples(v, bo, bps, x),
{
    if bps == 4 {
        assert(sample(buf, base, bo, bps, 2 * x) == v(2 * x));
        assert(sample(buf, base, bo, bps, 2 * x + 1) == v(2 * x + 1));
    } else if bps == 8 {
        assert(sample(buf, base, bo, bps, x) == v(x));
    } else {
        assert(sample(buf, base, bo, bps, x / 2) == v(x / 2));
        assert(x == 2 * (x / 2) || x == 2 * (x / 2) + 1);
    }
}

proof fn lemma_row_place(k: int, row_bytes: int, rows: int, len: int)
    requires
        0 <= k < len,
        0 < row_bytes,
        0 <= rows,
        rows * row_bytes <= len,
    ensures
        k / row_bytes * row_bytes <= k < k / row_bytes * row_bytes + row_bytes,
        k == k / row_bytes * row_bytes + k % row_bytes,
        0 <= k / row_bytes * row_bytes,
        0 <= k % row_bytes < row_bytes,
        k / row_bytes < rows ==> k / row_bytes * row_bytes + row_bytes <= rows * row_bytes,
        k / row_bytes < rows <==> k < rows * row_bytes,
{
    vstd::arithmetic::div_mod::lemma_fundamental_div_mod(k, row_bytes);
    vstd::arithmetic::div_mod::lemma_mod_bound(k, row_bytes);
    let q = k / row_bytes;
    assert(row_bytes * q == q * row_bytes) by (nonlinear_arith);
    assert(0 <= q) by (nonlinear_arith)
        requires
            k >= 0,
            row_bytes > 0,
            q == k / row_bytes,
    ;
    assert(0 <= q * row_bytes) by (nonlinear_arith)
        requires
            q >= 0,
            row_bytes > 0,
    ;
    if q < rows {
        assert(q * row_bytes + row_bytes <= rows * row_bytes) by (nonlinear_arith)
            requires
                q + 1 <= rows,
                row_bytes > 0,
        ;
    } else {
        assert(rows * row_bytes <= q * row_bytes) by (nonlinear_arith)
            requires
                rows <= q,
                row_bytes > 0,
        ;
    }
}

/// The rows before `r` of `now` are those of `orig` after undoing their
/// differences; the rest is as in `orig`.
spec fn summed_up_to(
    orig: Seq<u8>,
    now: Seq<u8>,
    r: int,
    width: int,
    samples: int,
    bps: int,
    row_bytes: int,
    bo: ByteOrder,
) -> bool {
    &&& now.len() == orig.len()
    &&& forall|k: int|
        0 <= k < orig.len() ==> #[trigger] now[k] == (if k / row_bytes < r && k % row_bytes < whole(row_bytes, bps) {
            byte_of_samples(
                |i: int| summed_sample(orig, k / row_bytes * row_bytes, bo, bps, samples, width * samples, i),
                bo,
                bps,
                k % row_bytes,
            )
        } else {
            orig[k]
        })
}

/// Undoes horizontal differencing in place.
#[verifier::loop_isolation(false)]
pub fn apply_horizontal_predictor(
    buf: &mut Vec<u8>,
    width: usize,
    rows: usize,
    samples: usize,
    bps: usize,
    row_bytes: usize,
    bo: ByteOrder,
) -> (res: Result<()>)
    requires
        rows_fit(old(buf)@.len() as int, width as int, rows as int, samples as int, bps as int, row_bytes as int),
    ensures
        (match (res, summed_rows(
            old(buf)@,
            width as int,
            rows as int,
            samples as int,
            bps as int,
            row_bytes as int,
            bo,
        )) {
            (Ok(_), Some(s)) => final(buf)@ == s,
            (Err(e), None) => e is InvalidData && final(buf)@ == old(buf)@,
            _ => false,
        }),
{
    if width == 0 || rows == 0 {
        return Ok(());
    }
    if bps != 4 && bps != 8 && bps != 16 {
        return Err(TiffError::invalid("TIFF: predictor at this bits_per_sample unsupported"));
    }
    let ghost orig = buf@;
    assert(buf@.len() == buf.len());
    proof {
        assert(1 <= width * samples) by (nonlinear_arith)
            requires
                1 <= width,
                1 <= samples,
        ;
        assert(row_bytes > 0);
        assert(row_bytes <= rows * row_bytes) by (nonlinear_arith)
            requires
                1 <= rows,
                0 <= row_bytes,
        ;
        assert(width * samples <= 2 * row_bytes);
    }
    let m: u32 = if bps == 4 {
        16
    } else if bps == 8 {
        256
    } else {
        65536
    };
    let mut r: usize = 0;
    while r < rows
        invariant
            r <= rows,
            summed_up_to(
                orig,
                buf@,
                r as int,
                width as int,
                samples as int,
                bps as int,
                row_bytes as int,
                bo,
            ),
        decreases rows - r,
    {
        proof {
            assert(r * row_bytes + row_bytes <= rows * row_bytes) by (nonlinear_arith)
                requires
                    r + 1 <= rows,
                    0 <= row_bytes,
            ;
            assert(0 <= r * row_bytes) by (nonlinear_arith)
                requires
                    0 <= r,
                    0 <= row_bytes,
            ;
        }
        let base: usize = r * row_bytes;
        let ghost before = buf@;
        let ghost b = base as int;
        let ghost sz = slots(row_bytes as int, bps as int);
        proof {
            assert forall|k: int| b <= k < b + row_bytes implies #[trigger] before[k] == orig[k] by {
                lemma_row_place(k, row_bytes as int, rows as int, orig.len() as int);
                assert(k / (row_bytes as int) >= r) by (nonlinear_arith)
                    requires
                        k >= r * row_bytes,
                        row_bytes > 0,
                ;
            }
            assert forall|j: int| 0 <= j < sz implies #[trigger] sample(before, b, bo, bps as int, j) == sample(
                orig,
                b,
                bo,
                bps as int,
                j,
            ) by {}
        }
        let mut x: u128 = samples as u128;
        let n: u128 = width as u128 * samples as u128;
        while x < n
            invariant
                samples <= x,
                n == width * samples,
                buf@.len() == orig.len(),
                forall|k: int|
                    0 <= k < orig.len() && !(b <= k < b + whole(row_bytes as int, bps as int)) ==> #[trigger] buf@[k]
                        == before[k],
                forall|j: int|
                    0 <= j < sz ==> #[trigger] sample(buf@, b, bo, bps as int, j) == (if j < x && j < n {
                        running_sum(orig, b, bo, bps as int, samples as int, j)
                    } else {
                        sample(orig, b, bo, bps as int, j)
                    }),
            decreases n - x,
        {
            let cur: u32 = read_sample(buf, base, bo, bps, x, row_bytes);
            let prev: u32 = read_sample(buf, base, bo, bps, x - samples as u128, row_bytes);
            let sum: u32 = (cur + prev) % m;
            let ghost mid = buf@;
            write_sample(buf, base, bo, bps, x, row_bytes, sum);
            proof {
                assert(sample(mid, b, bo, bps as int, x as int) == sample(orig, b, bo, bps as int, x as int));
                assert(sum == running_sum(orig, b, bo, bps as int, samples as int, x as int));
            }
            x = x + 1;
        }
        proof {
            assert forall|k: int| 0 <= k < orig.len() implies #[trigger] buf@[k] == (if k / (row_bytes as int) < r + 1 && k % (row_bytes as int) < whole(
                row_bytes as int,
                bps as int,
            ) {
                byte_of_samples(
                    |i: int|
                        summed_sample(
                            orig,
                            k / (row_bytes as int) * row_bytes,
                            bo,
                            bps as int,
                            samples as int,
                            width * samples,
                            i,
                        ),
                    bo,
                    bps as int,
                    k % (row_bytes as int),
                )
            } else {
                orig[k]
            }) by {
                lemma_row_place(k, row_bytes as int, rows as int, orig.len() as int);
                lemma_row_place(k, row_bytes as int, r as int, orig.len() as int);
                let q = k / (row_bytes as int);
                if q == r && k % (row_bytes as int) < whole(row_bytes as int, bps as int) {
                    let v = |i: int| summed_sample(orig, b, bo, bps as int, samples as int, width * samples, i);
                    assert forall|i: int| 0 <= i < sz implies #[trigger] sample(buf@, b, bo, bps as int, i) == v(i) by {}
                    lemma_byte_of_samples(buf@, b, bo, bps as int, v, row_bytes as int, k % (row_bytes as int));
                } else if q == r {
                    assert(buf@[k] == before[k]);
                } else {
                    assert(!(b <= k < b + row_bytes)) by {
                        if b <= k < b + row_bytes {
                            assert(q == r) by (nonlinear_arith)
                                requires
                                    q * row_bytes <= k < q * row_bytes + row_bytes,
                                    r * row_bytes <= k < r * row_bytes + row_bytes,
                            ;
                        }
                    }
                    assert(buf@[k] == before[k]);
                }
            }
        }
        r = r + 1;
    }
    proof {
        assert(buf@ =~= summed_rows(
            orig,
            width as int,
            rows as int,
            samples as int,
            bps as int,
            row_bytes as int,
            bo,
        )->0);
    }
    Ok(())
}

/// Takes horizontal differences of little-endian samples in place.
#[verifier::loop_isolation(false)]
pub fn forward_horizontal_predictor(
    buf: &mut Vec<u8>,
    width: usize,
    rows: usize,
    samples: usize,
    bps: usize,
    row_bytes: usize,
) -> (res: Result<()>)
    requires
        rows_fit(old(buf)@.len() as int, width as int, rows as int, samples as int, bps as int, row_bytes as int),
    ensures
        (match (res, differenced_rows(
            old(buf)@,
            width as int,
            rows as int,
            samples as int,
            bps as int,
            row_bytes as int,
        )) {
            (Ok(_), Some(s)) => final(buf)@ == s,
            (Err(e), None) => e is InvalidData && final(buf)@ == old(buf)@,
            _ => false,
        }),
{
    if width == 0 || rows == 0 {
        return Ok(());
    }
    if bps != 8 && bps != 16 {
        return Err(TiffError::invalid("TIFF encode: Predictor=2 at this bits_per_sample unsupported"));
    }
    let bo = ByteOrder::Little;
    let ghost orig = buf@;
    assert(buf@.len() == buf.len());
    proof {
        assert(1 <= width * samples) by (nonlinear_arith)
            requires
                1 <= width,
                1 <= samples,
        ;
        assert(row_bytes > 0);
    }
    let m: u32 = if bps == 8 {
        256
    } else {
        65536
    };
    let mut r: usize = 0;
    while r < rows
        invariant
            r <= rows,
            differenced_up_to(orig, buf@, r as int, width as int, samples as int, bps as int, row_bytes as int),
        decreases rows - r,
    {
        proof {
            assert(r * row_bytes + row_bytes <= rows * row_bytes) by (nonlinear_arith)
                requires
                    r + 1 <= rows,
                    0 <= row_bytes,
            ;
            assert(0 <= r * row_bytes) by (nonlinear_arith)
                requires
                    0 <= r,
                    0 <= row_bytes,
            ;
        }
        let base: usize = r * row_bytes;
        let ghost before = buf@;
        let ghost b = base as int;
        let ghost sz = slots(row_bytes as int, bps as int);
        proof {
            assert forall|k: int| b <= k < b + row_bytes implies #[trigger] before[k] == orig[k] by {
                lemma_row_place(k, row_bytes as int, rows as int, orig.len() as int);
                assert(k / (row_bytes as int) >= r) by (nonlinear_arith)
                    requires
                        k >= r * row_bytes,
                        row_bytes > 0,
                ;
            }
            assert forall|j: int| 0 <= j < sz implies #[trigger] sample(before, b, bo, bps as int, j) == sample(
                orig,
                b,
                bo,
                bps as int,
                j,
            ) by {}
        }
        let n: u128 = width as u128 * samples as u128;
        let mut x: u128 = n;
        while x > samples as u128
            invariant
                x <= n,
                n == width * samples,
                buf@.len() == orig.len(),
                forall|k: int|
                    0 <= k < orig.len() && !(b <= k < b + whole(row_bytes as int, bps as int)) ==> #[trigger] buf@[k]
                        == before[k],
                forall|j: int|
                    0 <= j < sz ==> #[trigger] sample(buf@, b, bo, bps as int, j) == (if x <= j < n {
                        difference(orig, b, bo, bps as int, samples as int, j)
                    } else {
                        sample(orig, b, bo, bps as int, j)
                    }),
            decreases x,
        {
            x = x - 1;
            let cur: u32 = read_sample(buf, base, bo, bps, x, row_bytes);
            let prev: u32 = read_sample(buf, base, bo, bps, x - samples as u128, row_bytes);
            let diff: u32 = (cur + (m - prev)) % m;
            let ghost mid = buf@;
            write_sample(buf, base, bo, bps, x, row_bytes, diff);
            proof {
                assert(diff == difference(orig, b, bo, bps as int, samples as int, x as int));
            }
        }
        proof {
            assert forall|k: int| 0 <= k < orig.len() implies #[trigger] buf@[k] == (if k / (row_bytes as int) < r + 1 && k % (row_bytes as int) < whole(
                row_bytes as int,
                bps as int,
            ) {
                byte_of_samples(
                    |i: int|
                        differenced_sample(
                            orig,
                            k / (row_bytes as int) * row_bytes,
                            bo,
                            bps as int,
                            samples as int,
                            width * samples,
                            i,
                        ),
                    bo,
                    bps as int,
                    k % (row_bytes as int),
                )
            } else {
                orig[k]
            }) by {
                lemma_row_place(k, row_bytes as int, rows as int, orig.len() as int);
                lemma_row_place(k, row_bytes as int, r as int, orig.len() as int);
                let q = k / (row_bytes as int);
                if q == r && k % (row_bytes as int) < whole(row_bytes as int, bps as int) {
                    let v = |i: int| differenced_sample(orig, b, bo, bps as int, samples as int, width * samples, i);
                    assert forall|i: int| 0 <= i < sz implies #[trigger] sample(buf@, b, bo, bps as int, i) == v(i) by {}
                    lemma_byte_of_samples(buf@, b, bo, bps as int, v, row_bytes as int, k % (row_bytes as int));
                } else if q == r {
                    assert(buf@[k] == before[k]);
                } else {
                    assert(!(b <= k < b + row_bytes)) by {
                        if b <= k < b + row_bytes {
                            assert(q == r) by (nonlinear_arith)
                                requires
                                    q * row_bytes <= k < q * row_bytes + row_bytes,
                                    r * row_bytes <= k < r * row_bytes + row_bytes,
                            ;
                        }
                    }
                    assert(buf@[k] == before[k]);
                }
            }
        }
        r = r + 1;
    }
    proof {
        assert(buf@ =~= differenced_rows(
            orig,
            width as int,
            rows as int,
            samples as int,
            bps as int,
            row_bytes as int,
        )->0);
    }
    Ok(())
}

/// The rows before `r` of `now` are the differences of those of `orig`; the
/// rest is as in `orig`.
spec fn differenced_up_to(
    orig: Seq<u8>,
    now: Seq<u8>,
    r: int,
    width: int,
    samples: int,
    bps: int,
    row_bytes: int,
) -> bool {
    &&& now.len() == orig.len()
    &&& forall|k: int|
        0 <= k < orig.len() ==> #[trigger] now[k] == (if k / row_bytes < r && k % row_bytes < whole(row_bytes, bps) {
            byte_of_samples(
                |i: int|
                    differenced_sample(
                        orig,
                        k / row_bytes * row_bytes,
                        ByteOrder::Little,
                        bps,
                        samples,
                        width * samples,
                        i,
                    ),
                ByteOrder::Little,
                bps,
                k % row_bytes,
            )
        } else {
            orig[k]
        })
}

/// A sample of a row that was made of samples.
proof fn lemma_sample_of_bytes(buf: Seq<u8>, base: int, bo: ByteOrder, bps: int, v: spec_fn(int) -> int, row_bytes: int, i: int)
    requires
        readable_size(bps),
        0 <= i < slots(row_bytes, bps),
        forall|j: int| 0 <= j < slots(row_bytes, bps) ==> 0 <= #[trigger] v(j) < modulus(bps),
        forall|x: int|
            0 <= x < whole(row_bytes, bps) ==> #[trigger] buf[base + x] == byte_of_samples(v, bo, bps, x),
    ensures
        sample(buf, base, bo, bps, i) == v(i),
{
    assert(0 <= v(i) < modulus(bps));
    if bps == 4 {
        let x = i / 2;
        assert(buf[base + x] == byte_of_samples(v, bo, bps, x));
        assert(0 <= v(2 * x) < 16 && 0 <= v(2 * x + 1) < 16);
    } else if bps == 8 {
        assert(buf[base + i] == byte_of_samples(v, bo, bps, i));
    } else {
        assert(buf[base + 2 * i] == byte_of_samples(v, bo, bps, 2 * i)) by {
            assert(buf[base + (2 * i)] == byte_of_samples(v, bo, bps, 2 * i));
        }
        assert(buf[base + 2 * i + 1] == byte_of_samples(v, bo, bps, 2 * i + 1)) by {
            assert(buf[base + (2 * i + 1)] == byte_of_samples(v, bo, bps, 2 * i + 1));
        }
    }
}

/// Summing up differences gives the samples.
proof fn lemma_sum_of_differences(orig: Seq<u8>, diff: Seq<u8>, base: int, bps: int, step: int, n: int, i: int)
    requires
        readable_size(bps),
        0 <= i < n,
        1 <= step,
        forall|j: int|
            0 <= j < n ==> #[trigger] sample(diff, base, ByteOrder::Little, bps, j) == difference(
                orig,
                base,
                ByteOrder::Little,
                bps,
                step,
                j,
            ),
    ensures
        running_sum(diff, base, ByteOrder::Little, bps, step, i) == sample(orig, base, ByteOrder::Little, bps, i),
    decreases i,
{
    let bo = ByteOrder::Little;
    assert(sample(diff, base, bo, bps, i) == difference(orig, base, bo, bps, step, i));
    lemma_sample_range(orig, base, bo, bps, i);
    if i >= step {
        lemma_sample_range(orig, base, bo, bps, i - step);
        lemma_sum_of_differences(orig, diff, base, bps, step, n, i - step);
        let a = sample(orig, base, bo, bps, i);
        let b = sample(orig, base, bo, bps, i - step);
        let m = modulus(bps);
        assert(((a - b) % m + b) % m == a);
    }
}

/// Undoing the differences of rows gives the rows back.
pub proof fn law_predictor_roundtrip(buf: Seq<u8>, width: int, rows: int, samples: int, bps: int, row_bytes: int)
    requires
        rows_fit(buf.len() as int, width, rows, samples, bps, row_bytes),
        differenced_rows(buf, width, rows, samples, bps, row_bytes) is Some,
    ensures
        summed_rows(
            differenced_rows(buf, width, rows, samples, bps, row_bytes)->0,
            width,
            rows,
            samples,
            bps,
            row_bytes,
            ByteOrder::Little,
        ) == Some(buf),
{
    let bo = ByteOrder::Little;
    let diff = differenced_rows(buf, width, rows, samples, bps, row_bytes)->0;
    if width != 0 && rows != 0 {
        let back = summed_rows(diff, width, rows, samples, bps, row_bytes, bo)->0;
        let n = width * samples;
        assert(1 <= n) by (nonlinear_arith)
            requires
                1 <= width,
                1 <= samples,
                n == width * samples,
        ;
        assert forall|k: int| 0 <= k < buf.len() implies back[k] == buf[k] by {
            lemma_row_place(k, row_bytes, rows, buf.len() as int);
            let q = k / row_bytes;
            let base = q * row_bytes;
            let x = k % row_bytes;
            if q < rows && x < whole(row_bytes, bps) {
                let dv = |i: int| differenced_sample(buf, base, bo, bps, samples, n, i);
                assert forall|y: int| 0 <= y < whole(row_bytes, bps) implies #[trigger] diff[base + y] == byte_of_samples(
                    dv,
                    bo,
                    bps,
                    y,
                ) by {
                    let j = base + y;
                    lemma_row_place(j, row_bytes, rows, buf.len() as int);
                    assert(j / row_bytes == q && j % row_bytes == y) by {
                        vstd::arithmetic::div_mod::lemma_fundamental_div_mod_converse(j, row_bytes, q, y);
                    }
                    assert(dv =~= (|i: int| differenced_sample(buf, j / row_bytes * row_bytes, bo, bps, samples, n, i)));
                }
                assert forall|j: int| 0 <= j < slots(row_bytes, bps) implies 0 <= #[trigger] dv(j) < modulus(bps) by {
                    lemma_sample_range(buf, base, bo, bps, j);
                }
                assert forall|j: int| 0 <= j < slots(row_bytes, bps) implies #[trigger] sample(diff, base, bo, bps, j)
                    == dv(j) by {
                    lemma_sample_of_bytes(diff, base, bo, bps, dv, row_bytes, j);
                }
                let sv = |i: int| summed_sample(diff, base, bo, bps, samples, n, i);
                assert forall|i: int| 0 <= i < slots(row_bytes, bps) implies #[trigger] sample(buf, base, bo, bps, i)
                    == sv(i) by {
                    assert(sample(diff, base, bo, bps, i) == dv(i));
                    if i < n {
                        lemma_sum_of_differences(buf, diff, base, bps, samples, n, i);
                    }
                }
                lemma_byte_of_samples(buf, base, bo, bps, sv, row_bytes, x);
                assert(back[k] == byte_of_samples(sv, bo, bps, x));
            }
        }
        assert(back =~= buf);
    }
}

/// What lies in a row beyond its samples stays as it is, when differences are taken
/// and when they are undone.
pub proof fn law_rest_of_rows(
    buf: Seq<u8>,
    width: int,
    rows: int,
    samples: int,
    bps: int,
    row_bytes: int,
    bo: ByteOrder,
    k: int,
)
    requires
        rows_fit(buf.len() as int, width, rows, samples, bps, row_bytes),
        0 <= k < buf.len(),
        row_bytes > 0,
        8 * (k % row_bytes) >= width * samples * bps,
    ensures
        summed_rows(buf, width, rows, samples, bps, row_bytes, bo) matches Some(s) ==> s[k] == buf[k],
        differenced_rows(buf, width, rows, samples, bps, row_bytes) matches Some(s) ==> s[k] == buf[k],
{
    lemma_row_place(k, row_bytes, rows, buf.len() as int);
    let base = k / row_bytes * row_bytes;
    let x = k % row_bytes;
    let n = width * samples;
    if readable_size(bps) && k / row_bytes < rows && x < whole(row_bytes, bps) {
        let sv = |i: int| summed_sample(buf, base, bo, bps, samples, n, i);
        let dv = |i: int| differenced_sample(buf, base, ByteOrder::Little, bps, samples, n, i);
        assert(n * 4 == 4 * n && n * 8 == 8 * n && n * 16 == 16 * n) by (nonlinear_arith);
        assert(sv(x) == summed_sample(buf, base, bo, bps, samples, n, x));
        assert(base + x == k);
        if bps == 4 {
            assert(sv(2 * x) == sample(buf, base, bo, bps, 2 * x));
            assert(sv(2 * x + 1) == sample(buf, base, bo, bps, 2 * x + 1));
        } else if bps == 16 {
            assert(x / 2 >= n);
            assert(sv(x / 2) == sample(buf, base, bo, bps, x / 2));
            assert(dv(x / 2) == sample(buf, base, ByteOrder::Little, bps, x / 2));
            assert(x == 2 * (x / 2) || x == 2 * (x / 2) + 1);
        }
        assert(byte_of_samples(sv, bo, bps, x) == buf[k]);
        if bps != 4 {
            assert(byte_of_samples(dv, ByteOrder::Little, bps, x) == buf[k]);
        }
    }
}

} // verus!
