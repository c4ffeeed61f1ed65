//! What the fields of a page say about it.
use vstd::prelude::*;
use crate::ccitt::FillOrder;
use crate::error::{invalid_with, ErrorKind, Outcome, Result, TiffError};
use crate::ifd::{entry_models, find, find_spec, ByteOrder, Entry, EntryModel};
use crate::image::MAX_IMAGE_PIXELS;
use crate::render::page_size_ok;
use crate::types::{COMPRESSION_CCITT_HUFFMAN, COMPRESSION_CCITT_T4, COMPRESSION_CCITT_T6, COMPRESSION_NONE};
use crate::types::{PHOTO_BLACK_IS_ZERO, PHOTO_CIELAB, PHOTO_CMYK, PHOTO_PALETTE, PHOTO_RGB, PHOTO_TRANSPARENCY_MASK};
use crate::types::{PHOTO_WHITE_IS_ZERO, PHOTO_YCBCR, PLANAR_CHUNKY, PLANAR_SEPARATE, PREDICTOR_HORIZONTAL, PREDICTOR_NONE};
use crate::types::{SAMPLE_FORMAT_IEEE_FP, SAMPLE_FORMAT_SINT, SAMPLE_FORMAT_UINT, SAMPLE_FORMAT_UNDEFINED};
use crate::types::{TAG_BITS_PER_SAMPLE, TAG_COMPRESSION, TAG_EXTRA_SAMPLES, TAG_FILL_ORDER, TAG_IMAGE_LENGTH, TAG_IMAGE_WIDTH};
use crate::types::{TAG_ORIENTATION, TAG_PHOTOMETRIC_INTERPRETATION, TAG_PLANAR_CONFIGURATION, TAG_PREDICTOR};
use crate::types::{TAG_RESOLUTION_UNIT, TAG_SAMPLES_PER_PIXEL, TAG_SAMPLE_FORMAT, TAG_T4_OPTIONS, TAG_T6_OPTIONS};

verus! {

/// The layout of a page.
#[derive(Debug, Clone, Copy, PartialEq, Eq, Structural)]
pub struct PageInfo {
    pub width: u32,
    pub height: u32,
    pub compression: u16,
    pub photometric: u16,
    pub samples: u16,
    pub bps: u16,
    /// PlanarConfiguration, 1 where there is one sample for each pixel.
    pub planar: u16,
    pub predictor: u16,
    /// SampleFormat, 1 where the samples are of undefined format.
    pub sample_format: u16,
    pub orientation: u16,
    pub fill: FillOrder,
    pub t4_options: u32,
    pub t6_options: u32,
}

/// The field is absent, or holds at least one integer.
#[verifier::opaque]
pub open spec fn readable(es: Seq<EntryModel>, bo: ByteOrder, tag: u16) -> bool {
    match find_spec(es, tag) {
        None => true,
        Some(e) => e.first_u32(bo) is Ok,
    }
}

/// The field is absent, or holds integers.
#[verifier::opaque]
pub open spec fn list_readable(es: Seq<EntryModel>, bo: ByteOrder, tag: u16) -> bool {
    match find_spec(es, tag) {
        None => true,
        Some(e) => e.u32s(bo) is Ok,
    }
}

/// First integer of a field, or `default` where it is absent.
#[verifier::opaque]
pub open spec fn value_of(es: Seq<EntryModel>, bo: ByteOrder, tag: u16, default: int) -> int {
    match find_spec(es, tag) {
        None => default,
        Some(e) => e.first_u32(bo)->Ok_0,
    }
}

/// Integers of a field that is there.
#[verifier::opaque]
pub open spec fn list_of(es: Seq<EntryModel>, bo: ByteOrder, tag: u16) -> Seq<int> {
    find_spec(es, tag).unwrap().u32s(bo)->Ok_0
}

/// First integer of a field that counts as a 16-bit number.
pub open spec fn short_of(es: Seq<EntryModel>, bo: ByteOrder, tag: u16, default: int) -> u16 {
    (value_of(es, bo, tag, default) % 65536) as u16
}

/// Bits of each sample: one for every sample of a pixel, 1 by default.
pub open spec fn bits_spec(e: Option<EntryModel>, bo: ByteOrder, samples: int) -> Option<Seq<int>> {
    match e {
        None => Some(Seq::new(samples as nat, |i: int| 1int)),
        Some(e) => if e.count as int % 65536 != samples {
            None
        } else {
            match e.u32s(bo) {
                Err(_) => None,
                Ok(v) => Some(Seq::new(v.len(), |i: int| v[i] % 65536)),
            }
        },
    }
}

pub open spec fn uniform(v: Seq<int>) -> bool {
    forall|i: int| 0 <= i < v.len() ==> (#[trigger] v[i]) == v[0]
}

/// The fields that come before SampleFormat make sense.
pub open spec fn size_fields_ok(es: Seq<EntryModel>, bo: ByteOrder) -> bool {
    &&& readable(es, bo, TAG_IMAGE_WIDTH)
    &&& readable(es, bo, TAG_IMAGE_LENGTH)
    &&& page_size_ok(value_of(es, bo, TAG_IMAGE_WIDTH, 0), value_of(es, bo, TAG_IMAGE_LENGTH, 0))
    &&& readable(es, bo, TAG_COMPRESSION)
    &&& find_spec(es, TAG_PHOTOMETRIC_INTERPRETATION) is Some
    &&& readable(es, bo, TAG_PHOTOMETRIC_INTERPRETATION)
    &&& readable(es, bo, TAG_SAMPLES_PER_PIXEL)
    &&& short_of(es, bo, TAG_SAMPLES_PER_PIXEL, 1) > 0
    &&& bits_spec(find_spec(es, TAG_BITS_PER_SAMPLE), bo, short_of(es, bo, TAG_SAMPLES_PER_PIXEL, 1) as int) is Some
    &&& readable(es, bo, TAG_PLANAR_CONFIGURATION)
    &&& {
        let planar = short_of(es, bo, TAG_PLANAR_CONFIGURATION, PLANAR_CHUNKY as int);
        planar == PLANAR_CHUNKY || planar == PLANAR_SEPARATE
    }
    &&& readable(es, bo, TAG_PREDICTOR)
    &&& {
        let predictor = short_of(es, bo, TAG_PREDICTOR, PREDICTOR_NONE as int);
        predictor == PREDICTOR_NONE || predictor == PREDICTOR_HORIZONTAL
    }
    &&& list_readable(es, bo, TAG_SAMPLE_FORMAT)
    &&& find_spec(es, TAG_SAMPLE_FORMAT) is Some ==> {
        let n = list_of(es, bo, TAG_SAMPLE_FORMAT).len();
        n == short_of(es, bo, TAG_SAMPLES_PER_PIXEL, 1) || n == 1
    }
}

/// All samples have one format.
pub open spec fn one_format(es: Seq<EntryModel>, bo: ByteOrder) -> bool {
    find_spec(es, TAG_SAMPLE_FORMAT) is Some ==> uniform(list_of(es, bo, TAG_SAMPLE_FORMAT))
}

/// The format of the samples; undefined data counts as unsigned.
pub open spec fn format_of(es: Seq<EntryModel>, bo: ByteOrder) -> u16 {
    match find_spec(es, TAG_SAMPLE_FORMAT) {
        None => SAMPLE_FORMAT_UINT,
        Some(_) => {
            let f = (list_of(es, bo, TAG_SAMPLE_FORMAT)[0] % 65536) as u16;
            if f == SAMPLE_FORMAT_UNDEFINED { SAMPLE_FORMAT_UINT } else { f }
        },
    }
}

/// Whether `colours` samples of a pixel can carry the colour of a photometric
/// interpretation; any number for one that is not known.
pub open spec fn colours_fit(photometric: u16, colours: int) -> bool {
    if photometric == PHOTO_WHITE_IS_ZERO || photometric == PHOTO_BLACK_IS_ZERO || photometric == PHOTO_PALETTE
        || photometric == PHOTO_TRANSPARENCY_MASK {
        colours == 1
    } else if photometric == PHOTO_RGB || photometric == PHOTO_YCBCR {
        colours == 3
    } else if photometric == PHOTO_CMYK {
        colours == 4
    } else if photometric == PHOTO_CIELAB {
        colours == 3 || colours == 1
    } else {
        true
    }
}

/// The ExtraSamples field names known kinds, and leaves a known number of
/// colour samples.
pub open spec fn extras_ok(es: Seq<EntryModel>, bo: ByteOrder) -> bool {
    find_spec(es, TAG_EXTRA_SAMPLES) is Some ==> {
        let v = list_of(es, bo, TAG_EXTRA_SAMPLES);
        &&& colours_fit(
            short_of(es, bo, TAG_PHOTOMETRIC_INTERPRETATION, 0),
            short_of(es, bo, TAG_SAMPLES_PER_PIXEL, 1) - v.len(),
        )
        &&& forall|i: int| 0 <= i < v.len() ==> (#[trigger] v[i]) <= 2
    }
}

/// Bits of every sample.
pub open spec fn bps_of(es: Seq<EntryModel>, bo: ByteOrder) -> int {
    bits_spec(
        find_spec(es, TAG_BITS_PER_SAMPLE),
        bo,
        short_of(es, bo, TAG_SAMPLES_PER_PIXEL, 1) as int,
    ).unwrap()[0]
}

/// A compression whose bits may be stored in reverse order.
pub open spec fn bitwise_compression(compression: u16) -> bool {
    compression == COMPRESSION_NONE || compression == COMPRESSION_CCITT_HUFFMAN || compression == COMPRESSION_CCITT_T4
        || compression == COMPRESSION_CCITT_T6
}

/// SampleFormat and the fields that come after it make sense.
pub open spec fn layout_fields_ok(es: Seq<EntryModel>, bo: ByteOrder) -> bool {
    &&& {
        let f = format_of(es, bo);
        f == SAMPLE_FORMAT_UINT || f == SAMPLE_FORMAT_SINT || f == SAMPLE_FORMAT_IEEE_FP
    }
    &&& readable(es, bo, TAG_ORIENTATION)
    &&& 1 <= short_of(es, bo, TAG_ORIENTATION, 1) <= 8
    &&& readable(es, bo, TAG_RESOLUTION_UNIT)
    &&& 1 <= short_of(es, bo, TAG_RESOLUTION_UNIT, 2) <= 3
    &&& list_readable(es, bo, TAG_EXTRA_SAMPLES)
    &&& extras_ok(es, bo)
    &&& uniform(
        bits_spec(
            find_spec(es, TAG_BITS_PER_SAMPLE),
            bo,
            short_of(es, bo, TAG_SAMPLES_PER_PIXEL, 1) as int,
        ).unwrap(),
    )
    &&& {
        let b = bps_of(es, bo);
        b == 1 || b == 4 || b == 8 || b == 16 || (format_of(es, bo) == SAMPLE_FORMAT_IEEE_FP && (b == 32 || b == 64))
    }
    &&& readable(es, bo, TAG_FILL_ORDER)
    &&& {
        let fill = short_of(es, bo, TAG_FILL_ORDER, 1);
        fill == 1 || (fill == 2 && bps_of(es, bo) == 1 && bitwise_compression(
            short_of(es, bo, TAG_COMPRESSION, COMPRESSION_NONE as int),
        ))
    }
    &&& readable(es, bo, TAG_T4_OPTIONS)
    &&& readable(es, bo, TAG_T6_OPTIONS)
}

/// The layout of a page, as its fields have it.
pub open spec fn page_spec(es: Seq<EntryModel>, bo: ByteOrder) -> Outcome<PageInfo> {
    if !size_fields_ok(es, bo) {
        Err(ErrorKind::Invalid)
    } else if !one_format(es, bo) {
        Err(ErrorKind::Unsupported)
    } else if !layout_fields_ok(es, bo) {
        Err(ErrorKind::Invalid)
    } else {
        let samples = short_of(es, bo, TAG_SAMPLES_PER_PIXEL, 1);
        Ok(
            PageInfo {
                width: value_of(es, bo, TAG_IMAGE_WIDTH, 0) as u32,
                height: value_of(es, bo, TAG_IMAGE_LENGTH, 0) as u32,
                compression: short_of(es, bo, TAG_COMPRESSION, COMPRESSION_NONE as int),
                photometric: short_of(es, bo, TAG_PHOTOMETRIC_INTERPRETATION, 0),
                samples,
                bps: bps_of(es, bo) as u16,
                planar: if samples == 1 {
                    PLANAR_CHUNKY
                } else {
                    short_of(es, bo, TAG_PLANAR_CONFIGURATION, PLANAR_CHUNKY as int)
                },
                predictor: short_of(es, bo, TAG_PREDICTOR, PREDICTOR_NONE as int),
                sample_format: format_of(es, bo),
                orientation: short_of(es, bo, TAG_ORIENTATION, 1),
                fill: if short_of(es, bo, TAG_FILL_ORDER, 1) == 2 { FillOrder::LsbFirst } else { FillOrder::MsbFirst },
                t4_options: value_of(es, bo, TAG_T4_OPTIONS, 0) as u32,
                t6_options: value_of(es, bo, TAG_T6_OPTIONS, 0) as u32,
            },
        )
    }
}

/// What holds of every page that can be read.
pub open spec fn info_ok(p: PageInfo) -> bool {
    &&& page_size_ok(p.width as int, p.height as int)
    &&& p.samples >= 1
    &&& p.bps == 1 || p.bps == 4 || p.bps == 8 || p.bps == 16 || p.bps == 32 || p.bps == 64
    &&& p.bps > 16 ==> p.sample_format == SAMPLE_FORMAT_IEEE_FP
    &&& p.planar == PLANAR_CHUNKY || (p.planar == PLANAR_SEPARATE && p.samples >= 2)
    &&& p.predictor == PREDICTOR_NONE || p.predictor == PREDICTOR_HORIZONTAL
    &&& p.sample_format == SAMPLE_FORMAT_UINT || p.sample_format == SAMPLE_FORMAT_SINT || p.sample_format
        == SAMPLE_FORMAT_IEEE_FP
    &&& 1 <= p.orientation <= 8
}

/// First integer of a field, or `default` where it is absent.
pub(crate) fn optional_u32(entries: &[Entry], bo: ByteOrder, tag: u16, default: u32) -> (r: Result<u32>)
    ensures
        (match r {
            Ok(v) => readable(entry_models(entries@), bo, tag) && v == value_of(
                entry_models(entries@),
                bo,
                tag,
                default as int,
            ),
            Err(e) => e is InvalidData && !readable(entry_models(entries@), bo, tag),
        }),
{
    proof {
        reveal(readable);
        reveal(value_of);
    }
    match find(entries, tag) {
        None => Ok(default),
        Some(e) => e.as_u32(bo),
    }
}

/// First integer of a field as a 16-bit number, or `default` where it is absent.
pub(crate) fn optional_u16(entries: &[Entry], bo: ByteOrder, tag: u16, default: u16) -> (r: Result<u16>)
    ensures
        (match r {
            Ok(v) => readable(entry_models(entries@), bo, tag) && v == short_of(
                entry_models(entries@),
                bo,
                tag,
                default as int,
            ),
            Err(e) => e is InvalidData && !readable(entry_models(entries@), bo, tag),
        }),
{
    let v: u32 = optional_u32(entries, bo, tag, default as u32)?;
    Ok((v % 65536) as u16)
}

/// A field that may be absent, as a mathematical value.
pub open spec fn entry_model(e: Option<&Entry>) -> Option<EntryModel> {
    match e {
        None => None,
        Some(e) => Some(e@),
    }
}

/// Bits of each sample.
pub fn decode_bits_per_sample(entry: Option<&Entry>, bo: ByteOrder, spp: u16) -> (r: Result<Vec<u16>>)
    ensures
        (match (r, bits_spec(entry_model(entry), bo, spp as int)) {
            (Ok(v), Some(s)) => v@.len() == s.len() && forall|i: int| 0 <= i < s.len() ==> #[trigger] v@[i] == s[i],
            (Err(e), None) => e is InvalidData,
            _ => false,
        }),
{
    match entry {
        None => Ok(vec![1; spp as usize]),
        Some(e) => {
            if e.count % 65536 != spp as u64 {
                return Err(invalid_with("TIFF: BitsPerSample count ", e.count, " != SamplesPerPixel"));
            }
            let v = e.as_u32_vec(bo)?;
            let n: usize = v.len();
            let mut out: Vec<u16> = Vec::new();
            let mut i: usize = 0;
            while i < n
                invariant
                    i <= n,
                    n == v@.len(),
                    out@.len() == i,
                    forall|k: int| 0 <= k < i ==> #[trigger] out@[k] == v@[k] as int % 65536,
                decreases n - i,
            {
                out.push((v[i] % 65536) as u16);
                i = i + 1;
            }
            Ok(out)
        },
    }
}

/// Format of the samples of a page.
fn sample_format(entries: &[Entry], bo: ByteOrder, samples: u16) -> (r: Result<u16>)
    requires
        samples > 0,
    ensures
        ({
            let es = entry_models(entries@);
            let counted = list_readable(es, bo, TAG_SAMPLE_FORMAT) && (find_spec(es, TAG_SAMPLE_FORMAT) is Some ==> {
                let n = list_of(es, bo, TAG_SAMPLE_FORMAT).len();
                n == samples || n == 1
            });
            let f = format_of(es, bo);
            let known = f == SAMPLE_FORMAT_UINT || f == SAMPLE_FORMAT_SINT || f == SAMPLE_FORMAT_IEEE_FP;
            match r {
                Ok(v) => counted && one_format(es, bo) && known && v == f,
                Err(e) => if counted && !one_format(es, bo) {
                    e is Unsupported
                } else {
                    e is InvalidData && (!counted || !known)
                },
            }
        }),
{
    proof {
        reveal(list_readable);
        reveal(list_of);
    }
    let entry = match find(entries, TAG_SAMPLE_FORMAT) {
        None => {
            return Ok(SAMPLE_FORMAT_UINT);
        },
        Some(e) => e,
    };
    let sf = entry.as_u32_vec(bo)?;
    let n: usize = sf.len();
    let ghost l = list_of(entry_models(entries@), bo, TAG_SAMPLE_FORMAT);
    if n != samples as usize && n != 1 {
        return Err(invalid_with("TIFF: SampleFormat count ", n as u64, " != SamplesPerPixel"));
    }
    let mut i: usize = 0;
    while i < n
        invariant
            i <= n,
            n == sf@.len(),
            n >= 1,
            l.len() == n,
            forall|k: int| 0 <= k < n ==> #[trigger] sf@[k] == l[k],
            forall|k: int| 0 <= k < i ==> (#[trigger] l[k]) == l[0],
            l == list_of(entry_models(entries@), bo, TAG_SAMPLE_FORMAT),
            find_spec(entry_models(entries@), TAG_SAMPLE_FORMAT) is Some,
            list_readable(entry_models(entries@), bo, TAG_SAMPLE_FORMAT),
            n == samples || n == 1,
        decreases n - i,
    {
        if sf[i] != sf[0] {
            assert(sf@[i as int] == l[i as int]);
            assert(sf@[0] == l[0]);
            assert(!uniform(l));
            return Err(TiffError::unsupported("TIFF: per-component SampleFormat values must be uniform"));
        }
        assert(sf@[i as int] == l[i as int]);
        assert(sf@[0] == l[0]);
        i = i + 1;
    }
    assert(sf@[0] == l[0]);
    let fmt: u16 = (sf[0] % 65536) as u16;
    match fmt {
        SAMPLE_FORMAT_UINT | SAMPLE_FORMAT_UNDEFINED => Ok(SAMPLE_FORMAT_UINT),
        SAMPLE_FORMAT_SINT => Ok(SAMPLE_FORMAT_SINT),
        SAMPLE_FORMAT_IEEE_FP => Ok(SAMPLE_FORMAT_IEEE_FP),
        other => Err(invalid_with("TIFF: SampleFormat=", other as u64, " unknown (1..=4 are defined)")),
    }
}

fn fits_colours(photometric: u16, samples: u16, extras: usize) -> (b: bool)
    ensures
        b == colours_fit(photometric, samples - extras),
{
    let m: u64 = extras as u64;
    let s: u64 = samples as u64;
    match photometric {
        PHOTO_WHITE_IS_ZERO | PHOTO_BLACK_IS_ZERO | PHOTO_PALETTE | PHOTO_TRANSPARENCY_MASK => s >= m && s - m == 1,
        PHOTO_RGB | PHOTO_YCBCR => s >= m && s - m == 3,
        PHOTO_CMYK => s >= m && s - m == 4,
        PHOTO_CIELAB => s >= m && (s - m == 3 || s - m == 1),
        _ => true,
    }
}

/// Checks the ExtraSamples field.
fn check_extras(entries: &[Entry], bo: ByteOrder, photometric: u16, samples: u16) -> (r: Result<()>)
    requires
        photometric == short_of(entry_models(entries@), bo, TAG_PHOTOMETRIC_INTERPRETATION, 0),
        samples == short_of(entry_models(entries@), bo, TAG_SAMPLES_PER_PIXEL, 1),
    ensures
        ({
            let es = entry_models(entries@);
            let fine = list_readable(es, bo, TAG_EXTRA_SAMPLES) && extras_ok(es, bo);
            match r {
                Ok(_) => fine,
                Err(e) => e is InvalidData && !fine,
            }
        }),
{
    proof {
        reveal(list_readable);
        reveal(list_of);
    }
    let entry = match find(entries, TAG_EXTRA_SAMPLES) {
        None => {
            return Ok(());
        },
        Some(e) => e,
    };
    let v = entry.as_u32_vec(bo)?;
    let n: usize = v.len();
    let ghost l = list_of(entry_models(entries@), bo, TAG_EXTRA_SAMPLES);
    if !fits_colours(photometric, samples, n) {
        return Err(
            invalid_with("TIFF: ExtraSamples count ", n as u64, " does not leave a defined number of colour samples"),
        );
    }
    let mut i: usize = 0;
    while i < n
        invariant
            i <= n,
            n == v@.len(),
            l.len() == n,
            l == list_of(entry_models(entries@), bo, TAG_EXTRA_SAMPLES),
            find_spec(entry_models(entries@), TAG_EXTRA_SAMPLES) is Some,
            forall|k: int| 0 <= k < n ==> #[trigger] v@[k] == l[k],
            forall|k: int| 0 <= k < i ==> (#[trigger] l[k]) <= 2,
        decreases n - i,
    {
        assert(v@[i as int] == l[i as int]);
        if v[i] > 2 {
            return Err(invalid_with("TIFF: ExtraSamples=", v[i] as u64, " unknown (0..=2 are defined)"));
        }
        i = i + 1;
    }
    Ok(())
}

/// Bits of the samples of a page: of the first, and whether all have as many.
fn page_bits(entries: &[Entry], bo: ByteOrder, samples: u16) -> (r: Result<(u16, bool)>)
    requires
        samples > 0,
    ensures
        (match (r, bits_spec(find_spec(entry_models(entries@), TAG_BITS_PER_SAMPLE), bo, samples as int)) {
            (Ok(v), Some(s)) => v.0 == s[0] && v.1 == uniform(s),
            (Err(e), None) => e is InvalidData,
            _ => false,
        }),
{
    let ghost es = entry_models(entries@);
    let entry = find(entries, TAG_BITS_PER_SAMPLE);
    assert(entry_model(entry) == find_spec(es, TAG_BITS_PER_SAMPLE));
    let bits = decode_bits_per_sample(entry, bo, samples)?;
    let ghost bs = bits_spec(find_spec(es, TAG_BITS_PER_SAMPLE), bo, samples as int).unwrap();
    let n: usize = bits.len();
    assert(n > 0);
    let bps: u16 = bits[0];
    assert(bits@[0] == bs[0]);
    let mut i: usize = 0;
    while i < n
        invariant
            i <= n,
            n == bits@.len(),
            n == bs.len(),
            n > 0,
            bps == bs[0],
            bps == bits@[0],
            bits_spec(find_spec(entry_models(entries@), TAG_BITS_PER_SAMPLE), bo, samples as int) == Some(bs),
            forall|k: int| 0 <= k < n ==> #[trigger] bits@[k] == bs[k],
            forall|k: int| 0 <= k < i ==> (#[trigger] bs[k]) == bs[0],
        decreases n - i,
    {
        assert(bits@[i as int] == bs[i as int]);
        if bits[i] != bps {
            return Ok((bps, false));
        }
        i = i + 1;
    }
    Ok((bps, true))
}

/// Reads the layout of a page from its fields.
pub fn read_page_info(entries: &[Entry], bo: ByteOrder) -> (r: Result<PageInfo>)
    ensures
        (match (r, page_spec(entry_models(entries@), bo)) {
            (Ok(p), Ok(q)) => p == q && info_ok(p),
            (Err(e), Err(k)) => e.kind() == k,
            _ => false,
        }),
{
    let width: u32 = optional_u32(entries, bo, TAG_IMAGE_WIDTH, 0)?;
    let height: u32 = optional_u32(entries, bo, TAG_IMAGE_LENGTH, 0)?;
    if width == 0 || height == 0 {
        return Err(TiffError::invalid("TIFF: missing or zero dimension"));
    }
    proof {
        assert(0 <= width * height <= 0xffff_ffff * 0xffff_ffff) by (nonlinear_arith)
            requires
                0 <= width <= 0xffff_ffff,
                0 <= height <= 0xffff_ffff,
        ;
    }
    if width as u64 * height as u64 > MAX_IMAGE_PIXELS {
        return Err(TiffError::invalid("TIFF: image too large"));
    }
    let compression: u16 = optional_u16(entries, bo, TAG_COMPRESSION, COMPRESSION_NONE)?;
    if find(entries, TAG_PHOTOMETRIC_INTERPRETATION).is_none() {
        return Err(TiffError::invalid("TIFF: missing PhotometricInterpretation"));
    }
    let photometric: u16 = optional_u16(entries, bo, TAG_PHOTOMETRIC_INTERPRETATION, 0)?;
    let samples: u16 = optional_u16(entries, bo, TAG_SAMPLES_PER_PIXEL, 1)?;
    if samples == 0 {
        return Err(TiffError::invalid("TIFF: SamplesPerPixel=0"));
    }
    let (bps, same_bits) = page_bits(entries, bo, samples)?;
    let stored_planar: u16 = optional_u16(entries, bo, TAG_PLANAR_CONFIGURATION, PLANAR_CHUNKY)?;
    if stored_planar != PLANAR_CHUNKY && stored_planar != PLANAR_SEPARATE {
        return Err(invalid_with("TIFF: PlanarConfiguration=", stored_planar as u64, " unknown (only 1 and 2 are defined)"));
    }
    let planar: u16 = if samples == 1 { PLANAR_CHUNKY } else { stored_planar };
    let predictor: u16 = optional_u16(entries, bo, TAG_PREDICTOR, PREDICTOR_NONE)?;
    if predictor != PREDICTOR_NONE && predictor != PREDICTOR_HORIZONTAL {
        return Err(invalid_with("TIFF: Predictor=", predictor as u64, " not supported"));
    }
    let format: u16 = sample_format(entries, bo, samples)?;
    let orientation: u16 = optional_u16(entries, bo, TAG_ORIENTATION, 1)?;
    if orientation < 1 || orientation > 8 {
        return Err(invalid_with("TIFF: Orientation=", orientation as u64, " unknown (1..=8 are defined)"));
    }
    let unit: u16 = optional_u16(entries, bo, TAG_RESOLUTION_UNIT, 2)?;
    if unit < 1 || unit > 3 {
        return Err(invalid_with("TIFF: ResolutionUnit=", unit as u64, " unknown (1..=3 are defined)"));
    }
    check_extras(entries, bo, photometric, samples)?;
    if !same_bits {
        return Err(TiffError::invalid("TIFF: per-channel BitsPerSample must be uniform"));
    }
    let wide: bool = format == SAMPLE_FORMAT_IEEE_FP && (bps == 32 || bps == 64);
    if bps != 1 && bps != 4 && bps != 8 && bps != 16 && !wide {
        return Err(invalid_with("TIFF: BitsPerSample=", bps as u64, " not supported"));
    }
    let fill_order: u16 = optional_u16(entries, bo, TAG_FILL_ORDER, 1)?;
    let bitwise: bool = compression == COMPRESSION_NONE || compression == COMPRESSION_CCITT_HUFFMAN || compression
        == COMPRESSION_CCITT_T4 || compression == COMPRESSION_CCITT_T6;
    if fill_order != 1 && fill_order != 2 {
        return Err(invalid_with("TIFF: FillOrder=", fill_order as u64, " unknown (only 1 and 2 are defined)"));
    }
    if fill_order == 2 && (bps != 1 || !bitwise) {
        return Err(TiffError::invalid("TIFF: FillOrder=2 only valid for BitsPerSample=1 uncompressed/CCITT"));
    }
    let fill = if fill_order == 2 { FillOrder::LsbFirst } else { FillOrder::MsbFirst };
    let t4_options: u32 = optional_u32(entries, bo, TAG_T4_OPTIONS, 0)?;
    let t6_options: u32 = optional_u32(entries, bo, TAG_T6_OPTIONS, 0)?;
    Ok(
        PageInfo {
            width,
            height,
            compression,
            photometric,
            samples,
            bps,
            planar,
            predictor,
            sample_format: format,
            orientation,
            fill,
            t4_options,
            t6_options,
        },
    )
}

} // verus!
