use oxideav_tiff::huffman::{HuffCodes, HuffSpec};
use oxideav_tiff::huffman_stats::HuffStats;
use oxideav_tiff::TiffError;

fn begins(c: &HuffCodes, a: usize, b: usize) -> bool {
    let (sa, sb) = (c.size[a] as u32, c.size[b] as u32);
    sa <= sb && (c.code[b] >> (sb - sa)) == c.code[a]
}

#[test]
fn no_code_word_begins_another() {
    let mut st = HuffStats::default();
    for s in 0..40u8 {
        for _ in 0..(s as u32 * s as u32 + 1) {
            st.count(s);
        }
    }
    for spec in [HuffSpec::k5_ac_luminance(), HuffSpec::k6_ac_chrominance(), st.to_spec()] {
        let c = HuffCodes::from_spec(&spec).unwrap();
        for &a in &spec.vals {
            for &b in &spec.vals {
                if a != b {
                    assert!(!begins(&c, a as usize, b as usize), "{a} begins {b}");
                }
            }
        }
    }
}

#[test]
fn rare_symbols_have_long_codes_of_at_most_16_bits() {
    let mut st = HuffStats::default();
    let (mut a, mut b) = (1u32, 1u32);
    for s in 0..24u8 {
        for _ in 0..a {
            st.count(s);
        }
        (a, b) = (b, a + b);
    }
    let spec = st.to_spec();
    spec.validate().unwrap();
    let c = HuffCodes::from_spec(&spec).unwrap();
    assert_eq!(spec.vals.len(), 24);
    assert!(c.size[23] < c.size[0]);
    assert!(spec.vals.iter().all(|&s| (1..=16).contains(&c.size[s as usize])));
    for s in 3..24 {
        assert!(c.size[s] <= c.size[s - 1]);
    }
}

#[test]
fn two_symbols_have_one_and_two_bits() {
    let mut st = HuffStats::default();
    for _ in 0..3 {
        st.count(7);
    }
    st.count(9);
    let spec = st.to_spec();
    assert_eq!(spec.vals, vec![7, 9]);
    assert_eq!(&spec.bits[..2], &[1, 1]);
}

#[test]
fn counts_that_do_not_match_the_symbols_are_refused() {
    let mut spec = HuffSpec::k3_dc_luminance();
    spec.vals.push(12);
    assert!(matches!(spec.validate(), Err(TiffError::InvalidData(_))));
    assert!(matches!(HuffCodes::from_spec(&spec), Err(TiffError::InvalidData(_))));
}

#[test]
fn repeated_symbols_are_refused() {
    let mut spec = HuffSpec::k3_dc_luminance();
    spec.vals[3] = 2;
    spec.validate().unwrap();
    assert!(HuffCodes::from_spec(&spec).is_err());
}

#[test]
fn too_many_codes_are_refused() {
    let mut bits = [0u8; 16];
    bits[0] = 3;
    bits[15] = 1;
    let spec = HuffSpec { bits, vals: vec![1, 2, 3, 4] };
    assert!(HuffCodes::from_spec(&spec).is_err());
}

#[test]
fn no_count_makes_statistics_empty() {
    let mut st = HuffStats::default();
    assert!(st.is_empty());
    st.count(255);
    assert!(!st.is_empty());
}

/// Bits that the counted symbols and the free code take with the table made for them.
fn table_cost(counts: &[u32]) -> u32 {
    let mut stats = HuffStats::default();
    for (symbol, n) in counts.iter().enumerate() {
        for _ in 0..*n {
            stats.count(symbol as u8);
        }
    }
    let spec = stats.to_spec();
    let mut lengths = Vec::new();
    for (k, n) in spec.bits.iter().enumerate() {
        for _ in 0..*n {
            lengths.push(k as u32 + 1);
        }
    }
    let longest = *lengths.last().unwrap();
    spec.vals.iter().zip(&lengths).map(|(s, l)| counts[*s as usize] * l).sum::<u32>() + longest
}

/// The fewest bits that any prefix code takes for the counts and the free code.
fn least_cost(counts: &[u32]) -> u32 {
    let n = counts.len() + 1;
    let mut best = u32::MAX;
    let mut lengths = vec![1u32; n];
    loop {
        if lengths.iter().map(|l| 1 << (7 - l)).sum::<u32>() <= 128 {
            let cost = counts.iter().zip(&lengths).map(|(c, l)| c * l).sum::<u32>() + lengths[n - 1];
            best = best.min(cost);
        }
        let mut i = 0;
        while i < n && lengths[i] == 7 {
            lengths[i] = 1;
            i += 1;
        }
        if i == n {
            return best;
        }
        lengths[i] += 1;
    }
}

#[test]
fn made_tables_are_the_best() {
    for counts in [[1, 1, 2, 4], [5, 9, 12, 13], [7, 7, 7, 7], [100, 1, 1, 1], [3, 50, 4, 60]] {
        assert_eq!(table_cost(&counts), least_cost(&counts), "{counts:?}");
    }
    assert_eq!(table_cost(&[1, 1, 2, 4]), 19);
}
