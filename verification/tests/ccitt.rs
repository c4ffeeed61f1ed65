use oxideav_tiff::ccitt::{decode_ccitt, encode_ccitt, first_change_after, next_two_d_mode, reverse_bits_in_place, reverse_bits_u8};
use oxideav_tiff::ccitt::{BitReader, CcittVariant, FillOrder, TwoDMode};

struct BitWriter {
    buf: Vec<u8>,
    bit_count: u32,
}
impl BitWriter {
    fn new() -> Self {
        Self {
            buf: Vec::new(),
            bit_count: 0,
        }
    }
    fn write(&mut self, code: u32, nbits: u32) {
        for i in (0..nbits).rev() {
            let bit = ((code >> i) & 1) as u8;
            let byte_idx = (self.bit_count / 8) as usize;
            if byte_idx >= self.buf.len() {
                self.buf.push(0);
            }
            let bit_in_byte = 7 - (self.bit_count % 8);
            self.buf[byte_idx] |= bit << bit_in_byte;
            self.bit_count += 1;
        }
    }
    fn align(&mut self) {
        let rem = self.bit_count % 8;
        if rem != 0 {
            self.bit_count += 8 - rem;
        }
    }
    fn finish(mut self) -> Vec<u8> {
        self.align();
        self.buf
    }
}

#[test]
fn mh_decodes_all_white_row() {
    let mut bw = BitWriter::new();
    bw.write(0b10011, 5);
    let bytes = bw.finish();
    let got = decode_ccitt(
        &bytes,
        8,
        1,
        CcittVariant::ModifiedHuffman,
        FillOrder::MsbFirst,
    )
    .unwrap();
    assert_eq!(got, vec![0u8]);
}

#[test]
fn mh_decodes_all_black_row() {
    let mut bw = BitWriter::new();
    bw.write(0b00110101, 8);
    bw.write(0b000101, 6);
    let bytes = bw.finish();
    let got = decode_ccitt(
        &bytes,
        8,
        1,
        CcittVariant::ModifiedHuffman,
        FillOrder::MsbFirst,
    )
    .unwrap();
    assert_eq!(got, vec![0xFFu8]);
}

#[test]
fn mh_decodes_alternating_8x1() {
    let mut bw = BitWriter::new();
    for _ in 0..4 {
        bw.write(0b000111, 6);
        bw.write(0b010, 3);
    }
    let bytes = bw.finish();
    let got = decode_ccitt(
        &bytes,
        8,
        1,
        CcittVariant::ModifiedHuffman,
        FillOrder::MsbFirst,
    )
    .unwrap();
    assert_eq!(got, vec![0x55u8]);
}

#[test]
fn mh_makeup_plus_terminator_white_72() {
    let mut bw = BitWriter::new();
    bw.write(0b11011, 5);
    bw.write(0b10011, 5);
    let bytes = bw.finish();
    let got = decode_ccitt(
        &bytes,
        72,
        1,
        CcittVariant::ModifiedHuffman,
        FillOrder::MsbFirst,
    )
    .unwrap();
    assert_eq!(got, vec![0u8; 9]);
}

#[test]
fn t4_1d_decodes_eol_then_row() {
    let mut bw = BitWriter::new();
    bw.write(0b000000000001, 12);
    bw.write(0b10011, 5);
    let bytes = bw.finish();
    let got = decode_ccitt(
        &bytes,
        8,
        1,
        CcittVariant::T4OneD {
            eol_byte_aligned: false,
        },
        FillOrder::MsbFirst,
    )
    .unwrap();
    assert_eq!(got, vec![0u8]);
}

#[test]
fn t4_1d_decodes_two_rows() {
    let mut bw = BitWriter::new();
    bw.write(0b000000000001, 12);
    bw.write(0b10011, 5);
    bw.write(0b000000000001, 12);
    bw.write(0b00110101, 8);
    bw.write(0b000101, 6);
    let bytes = bw.finish();
    let got = decode_ccitt(
        &bytes,
        8,
        2,
        CcittVariant::T4OneD {
            eol_byte_aligned: false,
        },
        FillOrder::MsbFirst,
    )
    .unwrap();
    assert_eq!(got, vec![0u8, 0xFFu8]);
}

#[test]
fn empty_input_errors_out_cleanly() {
    let r = decode_ccitt(
        &[],
        8,
        1,
        CcittVariant::ModifiedHuffman,
        FillOrder::MsbFirst,
    );
    assert!(r.is_err());
}

#[test]
fn reverse_bits_u8_matches_spec_examples() {
    assert_eq!(reverse_bits_u8(0x01), 0x80);
    assert_eq!(reverse_bits_u8(0x80), 0x01);
    assert_eq!(reverse_bits_u8(0x12), 0x48);
    assert_eq!(reverse_bits_u8(0xFF), 0xFF);
    assert_eq!(reverse_bits_u8(0x00), 0x00);
}

#[test]
fn reverse_bits_in_place_round_trips() {
    let mut buf = [0xDE, 0xAD, 0xBE, 0xEFu8];
    let orig = buf;
    reverse_bits_in_place(&mut buf);
    reverse_bits_in_place(&mut buf);
    assert_eq!(buf, orig);
}

#[test]
fn mh_lsb_first_decodes_same_as_msb_first() {
    let mut bw = BitWriter::new();
    bw.write(0b00110101, 8);
    bw.write(0b000101, 6);
    let msb_bytes = bw.finish();
    let lsb_bytes: Vec<u8> = msb_bytes.iter().map(|&b| reverse_bits_u8(b)).collect();

    let got_msb = decode_ccitt(
        &msb_bytes,
        8,
        1,
        CcittVariant::ModifiedHuffman,
        FillOrder::MsbFirst,
    )
    .unwrap();
    let got_lsb = decode_ccitt(
        &lsb_bytes,
        8,
        1,
        CcittVariant::ModifiedHuffman,
        FillOrder::LsbFirst,
    )
    .unwrap();
    assert_eq!(got_msb, vec![0xFFu8]);
    assert_eq!(got_lsb, got_msb);
}

#[test]
fn t4_1d_lsb_first_decodes_same_as_msb_first() {
    let mut bw = BitWriter::new();
    bw.write(0b000000000001, 12);
    bw.write(0b10011, 5);
    bw.write(0b000000000001, 12);
    bw.write(0b00110101, 8);
    bw.write(0b000101, 6);
    let msb_bytes = bw.finish();
    let lsb_bytes: Vec<u8> = msb_bytes.iter().map(|&b| reverse_bits_u8(b)).collect();

    let got_msb = decode_ccitt(
        &msb_bytes,
        8,
        2,
        CcittVariant::T4OneD {
            eol_byte_aligned: false,
        },
        FillOrder::MsbFirst,
    )
    .unwrap();
    let got_lsb = decode_ccitt(
        &lsb_bytes,
        8,
        2,
        CcittVariant::T4OneD {
            eol_byte_aligned: false,
        },
        FillOrder::LsbFirst,
    )
    .unwrap();
    assert_eq!(got_msb, vec![0u8, 0xFFu8]);
    assert_eq!(got_lsb, got_msb);
}

fn pack_row_msb(pixels: &[u8]) -> Vec<u8> {
    let row_bytes = pixels.len().div_ceil(8);
    let mut out = vec![0u8; row_bytes];
    for (i, &p) in pixels.iter().enumerate() {
        if p == 1 {
            out[i / 8] |= 1 << (7 - (i % 8));
        }
    }
    out
}

fn unpack_row_msb(buf: &[u8], width: usize) -> Vec<u8> {
    let mut out = Vec::with_capacity(width);
    for x in 0..width {
        let b = (buf[x / 8] >> (7 - (x % 8))) & 1;
        out.push(b);
    }
    out
}

fn ccitt_roundtrip(pixels: &[u8], width: u32, rows: u32, variant: CcittVariant) {
    let packed = pack_row_msb(pixels);
    let encoded = encode_ccitt(&packed, width, rows, variant, FillOrder::MsbFirst).unwrap();
    let decoded = decode_ccitt(&encoded, width, rows, variant, FillOrder::MsbFirst).unwrap();
    assert_eq!(packed, decoded, "round-trip mismatch (variant={variant:?})");
    let back = unpack_row_msb(&decoded, (width * rows) as usize);
    assert_eq!(back, pixels);
}

#[test]
fn encode_mh_all_white_8x1() {
    ccitt_roundtrip(&[0u8; 8], 8, 1, CcittVariant::ModifiedHuffman);
}

#[test]
fn encode_mh_all_black_8x1() {
    ccitt_roundtrip(&[1u8; 8], 8, 1, CcittVariant::ModifiedHuffman);
}

#[test]
fn encode_mh_alternating_8x1() {
    let row: Vec<u8> = (0..8).map(|i| (i % 2) as u8).collect();
    ccitt_roundtrip(&row, 8, 1, CcittVariant::ModifiedHuffman);
}

#[test]
fn encode_mh_long_white_run_72x1() {
    ccitt_roundtrip(&[0u8; 72], 72, 1, CcittVariant::ModifiedHuffman);
}

#[test]
fn encode_mh_long_black_run_72x1() {
    ccitt_roundtrip(&[1u8; 72], 72, 1, CcittVariant::ModifiedHuffman);
}

#[test]
fn encode_mh_multi_row_aligns_between_rows() {
    let r0 = vec![0u8; 16];
    let r1 = vec![1u8; 16];
    let r2: Vec<u8> = (0..16).map(|i| (i % 2) as u8).collect();
    let mut all = Vec::new();
    all.extend_from_slice(&r0);
    all.extend_from_slice(&r1);
    all.extend_from_slice(&r2);
    ccitt_roundtrip(&all, 16, 3, CcittVariant::ModifiedHuffman);
}

#[test]
fn encode_mh_huge_white_run_5000x1() {
    ccitt_roundtrip(&vec![0u8; 5000], 5000, 1, CcittVariant::ModifiedHuffman);
}

#[test]
fn encode_t4_1d_emits_eol_per_row() {
    let pixels = vec![0u8; 16];
    let packed = pack_row_msb(&pixels);
    let encoded = encode_ccitt(
        &packed,
        8,
        2,
        CcittVariant::T4OneD {
            eol_byte_aligned: false,
        },
        FillOrder::MsbFirst,
    )
    .unwrap();
    assert_eq!(encoded[0], 0x00, "first byte of T.4 1-D stream");
    assert_eq!(encoded[1] & 0xF0, 0x10, "EOL trailing 1 at bit 11");
    let decoded = decode_ccitt(
        &encoded,
        8,
        2,
        CcittVariant::T4OneD {
            eol_byte_aligned: false,
        },
        FillOrder::MsbFirst,
    )
    .unwrap();
    assert_eq!(decoded, packed);
}

#[test]
fn encode_t4_1d_byte_aligned_eol_ends_on_byte_boundary() {
    let r0: Vec<u8> = (0..16).map(|i| (i % 2) as u8).collect();
    let r1 = vec![0u8; 16];
    let r2 = vec![1u8; 16];
    let mut all = Vec::new();
    all.extend_from_slice(&r0);
    all.extend_from_slice(&r1);
    all.extend_from_slice(&r2);
    ccitt_roundtrip(
        &all,
        16,
        3,
        CcittVariant::T4OneD {
            eol_byte_aligned: true,
        },
    );
}

#[test]
fn encode_ccitt_lsb_first_yields_bit_reversed_stream() {
    let pixels = vec![1u8; 16];
    let packed = pack_row_msb(&pixels);
    let msb_stream = encode_ccitt(
        &packed,
        16,
        1,
        CcittVariant::ModifiedHuffman,
        FillOrder::MsbFirst,
    )
    .unwrap();
    let lsb_stream = encode_ccitt(
        &packed,
        16,
        1,
        CcittVariant::ModifiedHuffman,
        FillOrder::LsbFirst,
    )
    .unwrap();
    let lsb_expected: Vec<u8> = msb_stream.iter().map(|&b| b.reverse_bits()).collect();
    assert_eq!(lsb_stream, lsb_expected);
    let decoded = decode_ccitt(
        &lsb_stream,
        16,
        1,
        CcittVariant::ModifiedHuffman,
        FillOrder::LsbFirst,
    )
    .unwrap();
    assert_eq!(decoded, packed);
}

#[test]
fn encode_buffer_too_short_errors() {
    let r = encode_ccitt(
        &[0u8; 5],
        24,
        2,
        CcittVariant::ModifiedHuffman,
        FillOrder::MsbFirst,
    );
    assert!(r.is_err());
}

fn read_two_d(bits: &[u8]) -> TwoDMode {
    let mut br = BitReader::new(bits);
    next_two_d_mode(&mut br).expect("decode 2-D mode")
}

#[test]
fn two_d_vertical_0_decodes_one_bit() {
    let bw = {
        let mut bw = BitWriter::new();
        bw.write(0b1, 1);
        bw.finish()
    };
    assert_eq!(read_two_d(&bw), TwoDMode::Vertical(0));
}

#[test]
fn two_d_horizontal_decodes_three_bits() {
    let bw = {
        let mut bw = BitWriter::new();
        bw.write(0b001, 3);
        bw.finish()
    };
    assert_eq!(read_two_d(&bw), TwoDMode::Horizontal);
}

#[test]
fn two_d_vr1_vl1_decode() {
    let bw = {
        let mut bw = BitWriter::new();
        bw.write(0b011, 3);
        bw.finish()
    };
    assert_eq!(read_two_d(&bw), TwoDMode::Vertical(1));
    let bw = {
        let mut bw = BitWriter::new();
        bw.write(0b010, 3);
        bw.finish()
    };
    assert_eq!(read_two_d(&bw), TwoDMode::Vertical(-1));
}

#[test]
fn two_d_pass_decodes_four_bits() {
    let bw = {
        let mut bw = BitWriter::new();
        bw.write(0b0001, 4);
        bw.finish()
    };
    assert_eq!(read_two_d(&bw), TwoDMode::Pass);
}

#[test]
fn two_d_vr2_vl2_vr3_vl3_decode() {
    let bw = {
        let mut bw = BitWriter::new();
        bw.write(0b000011, 6);
        bw.finish()
    };
    assert_eq!(read_two_d(&bw), TwoDMode::Vertical(2));
    let bw = {
        let mut bw = BitWriter::new();
        bw.write(0b000010, 6);
        bw.finish()
    };
    assert_eq!(read_two_d(&bw), TwoDMode::Vertical(-2));
    let bw = {
        let mut bw = BitWriter::new();
        bw.write(0b0000011, 7);
        bw.finish()
    };
    assert_eq!(read_two_d(&bw), TwoDMode::Vertical(3));
    let bw = {
        let mut bw = BitWriter::new();
        bw.write(0b0000010, 7);
        bw.finish()
    };
    assert_eq!(read_two_d(&bw), TwoDMode::Vertical(-3));
}

#[test]
fn two_d_uncompressed_extension_decodes() {
    let bw = {
        let mut bw = BitWriter::new();
        bw.write(0b0000001111, 10);
        bw.finish()
    };
    assert_eq!(read_two_d(&bw), TwoDMode::Uncompressed);
}

#[test]
fn t6_all_white_row_decodes_via_v0() {
    let mut bw = BitWriter::new();
    bw.write(0b1, 1);
    let bytes = bw.finish();
    let got = decode_ccitt(&bytes, 8, 1, CcittVariant::T6, FillOrder::MsbFirst).unwrap();
    assert_eq!(got, vec![0u8]);
}

#[test]
fn t6_all_black_row_after_white_uses_horizontal() {
    let mut bw = BitWriter::new();
    bw.write(0b1, 1);
    bw.write(0b001, 3);
    bw.write(0b00110101, 8);
    bw.write(0b000101, 6);
    let bytes = bw.finish();
    let got = decode_ccitt(&bytes, 8, 2, CcittVariant::T6, FillOrder::MsbFirst).unwrap();
    assert_eq!(got, vec![0u8, 0xFFu8]);
}

#[test]
fn t6_reject_uncompressed_extension() {
    let mut bw = BitWriter::new();
    bw.write(0b0000001111, 10);
    let bytes = bw.finish();
    let r = decode_ccitt(&bytes, 8, 1, CcittVariant::T6, FillOrder::MsbFirst);
    assert!(r.is_err());
    let msg = r.err().unwrap().text();
    assert!(msg.contains("uncompressed"), "got: {msg}");
}

#[test]
fn first_change_after_handles_start_of_row() {
    let ref_line = [0u8];
    assert_eq!(first_change_after(&ref_line, 0, false, 8), 8);
    assert_eq!(first_change_after(&ref_line, 0, true, 8), 8);
}

#[test]
fn first_change_after_finds_mid_row_transition() {
    let ref_line = [0b00001111u8];
    assert_eq!(first_change_after(&ref_line, 0, false, 8), 4);
    assert_eq!(first_change_after(&ref_line, 3, false, 8), 4);
    assert_eq!(first_change_after(&ref_line, 4, false, 8), 8);
    assert_eq!(first_change_after(&ref_line, 4, true, 8), 8);
}

#[test]
fn t6_codes_runs_far_from_those_above() {
    let made = encode_ccitt(&[0b0001_1111], 8, 1, CcittVariant::T6, FillOrder::MsbFirst).unwrap();
    assert_eq!(made, vec![0x30, 0x60]);
}

#[test]
fn t6_codes_distances_and_passes() {
    // Black from 2 to 5, then from 3 to 6, then white: right 1 twice, straight on; pass, straight on.
    let made = encode_ccitt(&[0b0011_1000, 0b0001_1100, 0], 8, 3, CcittVariant::T6, FillOrder::MsbFirst).unwrap();
    // Row 1: 001 0111 10 1; row 2: 011 011 1; row 3: 0001 1.
    assert_eq!(made, vec![0b0010_1111, 0b0101_1011, 0b1000_1100]);
    let back = decode_ccitt(&made, 8, 3, CcittVariant::T6, FillOrder::MsbFirst).unwrap();
    assert_eq!(back, vec![0b0011_1000, 0b0001_1100, 0]);
}

#[test]
fn t4_rows_say_how_they_are_coded() {
    let variant = CcittVariant::T4TwoD { eol_byte_aligned: false };
    let made = encode_ccitt(&[0, 0], 8, 2, variant, FillOrder::MsbFirst).unwrap();
    assert_eq!(made, vec![0x00, 0x1C, 0xC0, 0x05]);
}

#[test]
fn every_variant_gives_rows_back() {
    let mut state: u32 = 12345;
    let mut next = || {
        state = state.wrapping_mul(1664525).wrapping_add(1013904223);
        (state >> 24) as u8
    };
    for width in [1u32, 7, 8, 31, 64, 200, 2600] {
        let size = ((width + 7) / 8) as usize;
        let rows = 6u32;
        let mut input: Vec<u8> = Vec::new();
        for r in 0..rows as usize {
            for x in 0..size {
                let b = match r % 3 {
                    0 => next(),
                    1 => next() & next() & next(),
                    _ => input[(r - 1) * size + x] ^ (next() & next() & next() & next()),
                };
                input.push(b);
            }
        }
        if width % 8 != 0 {
            for r in 0..rows as usize {
                input[r * size + size - 1] &= 0xFFu8 << (8 - width % 8);
            }
        }
        for variant in [
            CcittVariant::ModifiedHuffman,
            CcittVariant::T4OneD { eol_byte_aligned: false },
            CcittVariant::T4OneD { eol_byte_aligned: true },
            CcittVariant::T4TwoD { eol_byte_aligned: false },
            CcittVariant::T4TwoD { eol_byte_aligned: true },
            CcittVariant::T6,
        ] {
            for fill in [FillOrder::MsbFirst, FillOrder::LsbFirst] {
                let made = encode_ccitt(&input, width, rows, variant, fill).unwrap();
                assert_eq!(decode_ccitt(&made, width, rows, variant, fill).unwrap(), input, "{width} {variant:?}");
            }
        }
    }
    assert!(encode_ccitt(&[0], 9, 1, CcittVariant::T6, FillOrder::MsbFirst).is_err());
}
