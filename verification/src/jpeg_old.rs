//! Fields of the old-style JPEG compression: where a whole JPEG stream stands in
//! the file, or where its tables do.
use vstd::prelude::*;
use crate::error::{invalid_with, unsupported_with, ErrorKind, Outcome, Result, TiffError};
use crate::ifd::{entry_models, find, find_spec, ByteOrder, Entry, EntryModel};
use crate::page::{optional_u16, optional_u32, readable, short_of, value_of};
use crate::segments::ints_of;
use crate::types::{JPEG_PROC_BASELINE, JPEG_PROC_LOSSLESS, TAG_JPEG_AC_TABLES, TAG_JPEG_DC_TABLES};
use crate::types::{TAG_JPEG_INTERCHANGE_FORMAT, TAG_JPEG_INTERCHANGE_FORMAT_LENGTH, TAG_JPEG_LOSSLESS_PREDICTORS};
use crate::types::{TAG_JPEG_POINT_TRANSFORMS, TAG_JPEG_PROC, TAG_JPEG_Q_TABLES, TAG_JPEG_RESTART_INTERVAL};

verus! {

/// The old-style JPEG fields of a page.
#[derive(Debug, Clone, Default)]
pub struct OldJpegFields {
    /// JPEGProc.
    pub proc: Option<u16>,
    /// JPEGInterchangeFormat, unless it is absent or zero.
    pub interchange_offset: Option<u64>,
    /// JPEGInterchangeFormatLength.
    pub interchange_length: Option<u64>,
    /// JPEGRestartInterval, 0 by default.
    pub restart_interval: u16,
    /// JPEGLosslessPredictors.
    pub lossless_predictors: Option<Vec<u16>>,
    /// JPEGPointTransforms.
    pub point_transforms: Option<Vec<u16>>,
    /// JPEGQTables.
    pub q_tables: Option<Vec<u64>>,
    /// JPEGDCTables.
    pub dc_tables: Option<Vec<u64>>,
    /// JPEGACTables.
    pub ac_tables: Option<Vec<u64>>,
}

/// The old-style JPEG fields as a mathematical value.
pub struct OldModel {
    pub proc: Option<u16>,
    pub interchange_offset: Option<u64>,
    pub interchange_length: Option<u64>,
    pub restart_interval: u16,
    pub lossless_predictors: Option<Seq<int>>,
    pub point_transforms: Option<Seq<int>>,
    pub q_tables: Option<Seq<int>>,
    pub dc_tables: Option<Seq<int>>,
    pub ac_tables: Option<Seq<int>>,
}

/// Numbers of a field that may be absent.
pub open spec fn words(v: Option<Vec<u16>>) -> Option<Seq<int>> {
    match v {
        None => None,
        Some(v) => Some(Seq::new(v@.len(), |i: int| v@[i] as int)),
    }
}

/// Numbers of a field that may be absent.
pub open spec fn longs(v: Option<Vec<u64>>) -> Option<Seq<int>> {
    match v {
        None => None,
        Some(v) => Some(ints_of(v@)),
    }
}

impl View for OldJpegFields {
    type V = OldModel;

    open spec fn view(&self) -> OldModel {
        OldModel {
            proc: self.proc,
            interchange_offset: self.interchange_offset,
            interchange_length: self.interchange_length,
            restart_interval: self.restart_interval,
            lossless_predictors: words(self.lossless_predictors),
            point_transforms: words(self.point_transforms),
            q_tables: longs(self.q_tables),
            dc_tables: longs(self.dc_tables),
            ac_tables: longs(self.ac_tables),
        }
    }
}

/// One number below 65536 for each sample of a pixel; outer `None` where the
/// field holds anything else, inner `None` where it is absent.
pub open spec fn sample_words(e: Option<EntryModel>, bo: ByteOrder, samples: int) -> Option<Option<Seq<int>>> {
    match e {
        None => Some(None),
        Some(e) => match e.u32s(bo) {
            Err(_) => None,
            Ok(v) => if v.len() != samples || exists|i: int| 0 <= i < v.len() && (#[trigger] v[i]) > 65535 {
                None
            } else {
                Some(Some(v))
            },
        },
    }
}

/// One offset for each sample of a pixel; outer `None` where the field holds
/// anything else, inner `None` where it is absent.
pub open spec fn sample_offsets(e: Option<EntryModel>, bo: ByteOrder, samples: int) -> Option<Option<Seq<int>>> {
    match e {
        None => Some(None),
        Some(e) => match e.u64s(bo) {
            Err(_) => None,
            Ok(v) => if v.len() != samples { None } else { Some(Some(v)) },
        },
    }
}

/// The first integer of a field; outer `None` where it holds none, inner `None`
/// where it is absent.
pub open spec fn first_long(e: Option<EntryModel>, bo: ByteOrder) -> Option<Option<u64>> {
    match e {
        None => Some(None),
        Some(e) => match e.u64s(bo) {
            Err(_) => None,
            Ok(v) => if v.len() == 0 { None } else { Some(Some(v[0] as u64)) },
        },
    }
}

/// Predictors are numbered from 1 to 7.
pub open spec fn predictors_known(v: Option<Seq<int>>) -> bool {
    v matches Some(s) ==> forall|i: int| 0 <= i < s.len() ==> 1 <= #[trigger] s[i] <= 7
}

/// The fields other than JPEGProc, if they make sense.
pub open spec fn old_rest(es: Seq<EntryModel>, bo: ByteOrder, samples: int, proc: Option<u16>) -> Option<OldModel> {
    let offset = first_long(find_spec(es, TAG_JPEG_INTERCHANGE_FORMAT), bo);
    let length = first_long(find_spec(es, TAG_JPEG_INTERCHANGE_FORMAT_LENGTH), bo);
    let preds = sample_words(find_spec(es, TAG_JPEG_LOSSLESS_PREDICTORS), bo, samples);
    let points = sample_words(find_spec(es, TAG_JPEG_POINT_TRANSFORMS), bo, samples);
    let q = sample_offsets(find_spec(es, TAG_JPEG_Q_TABLES), bo, samples);
    let dc = sample_offsets(find_spec(es, TAG_JPEG_DC_TABLES), bo, samples);
    let ac = sample_offsets(find_spec(es, TAG_JPEG_AC_TABLES), bo, samples);
    if offset is None || length is None || preds is None || points is None || q is None || dc is None || ac is None
        || !readable(es, bo, TAG_JPEG_RESTART_INTERVAL) || value_of(es, bo, TAG_JPEG_RESTART_INTERVAL, 0) > 65535
        || !predictors_known(preds.unwrap()) {
        None
    } else {
        Some(
            OldModel {
                proc,
                interchange_offset: if offset.unwrap() == Some(0u64) { None } else { offset.unwrap() },
                interchange_length: length.unwrap(),
                restart_interval: value_of(es, bo, TAG_JPEG_RESTART_INTERVAL, 0) as u16,
                lossless_predictors: preds.unwrap(),
                point_transforms: points.unwrap(),
                q_tables: q.unwrap(),
                dc_tables: dc.unwrap(),
                ac_tables: ac.unwrap(),
            },
        )
    }
}

/// The old-style JPEG fields of a page.
pub open spec fn old_fields(es: Seq<EntryModel>, bo: ByteOrder, samples: int) -> Outcome<OldModel> {
    let proc = short_of(es, bo, TAG_JPEG_PROC, 0);
    if !readable(es, bo, TAG_JPEG_PROC) {
        Err(ErrorKind::Invalid)
    } else if find_spec(es, TAG_JPEG_PROC) is Some && proc != JPEG_PROC_BASELINE && proc != JPEG_PROC_LOSSLESS {
        Err(ErrorKind::Unsupported)
    } else {
        match old_rest(es, bo, samples, if find_spec(es, TAG_JPEG_PROC) is Some { Some(proc) } else { None }) {
            None => Err(ErrorKind::Invalid),
            Some(m) => Ok(m),
        }
    }
}

fn per_component_u16(entries: &[Entry], bo: ByteOrder, tag: u16, field: &str, samples_per_pixel: u16) -> (r: Result<Option<Vec<u16>>>)
    ensures
        (match (r, sample_words(find_spec(entry_models(entries@), tag), bo, samples_per_pixel as int)) {
            (Ok(v), Some(s)) => words(v) == s,
            (Err(e), None) => e is InvalidData,
            _ => false,
        }),
{
    let e = match find(entries, tag) {
        None => {
            return Ok(None);
        },
        Some(e) => e,
    };
    let v = e.as_u32_vec(bo)?;
    let ghost s = e@.u32s(bo)->Ok_0;
    let n: usize = v.len();
    if n != samples_per_pixel as usize {
        return Err(invalid_with(field, n as u64, " values, expected N = SamplesPerPixel"));
    }
    let mut out: Vec<u16> = Vec::new();
    let mut i: usize = 0;
    while i < n
        invariant
            i <= n,
            n == v@.len(),
            n == s.len(),
            n == samples_per_pixel,
            find_spec(entry_models(entries@), tag) == Some(e@),
            e@.u32s(bo) == Outcome::<Seq<int>>::Ok(s),
            forall|k: int| 0 <= k < n ==> #[trigger] v@[k] == s[k],
            out@.len() == i,
            forall|k: int| 0 <= k < i ==> #[trigger] out@[k] == s[k],
            forall|k: int| 0 <= k < i ==> (#[trigger] s[k]) <= 65535,
        decreases n - i,
    {
        assert(v@[i as int] == s[i as int]);
        if v[i] > 65535 {
            return Err(invalid_with("TIFF/JPEG: value ", v[i] as u64, " out of SHORT range"));
        }
        out.push(v[i] as u16);
        i = i + 1;
    }
    proof {
        assert(words(Some(out)).unwrap() =~= s);
    }
    Ok(Some(out))
}

fn per_component_u64(entries: &[Entry], bo: ByteOrder, tag: u16, field: &str, samples_per_pixel: u16) -> (r: Result<Option<Vec<u64>>>)
    ensures
        (match (r, sample_offsets(find_spec(entry_models(entries@), tag), bo, samples_per_pixel as int)) {
            (Ok(v), Some(s)) => longs(v) == s,
            (Err(e), None) => e is InvalidData,
            _ => false,
        }),
{
    let e = match find(entries, tag) {
        None => {
            return Ok(None);
        },
        Some(e) => e,
    };
    let v = e.as_u64_vec(bo)?;
    if v.len() != samples_per_pixel as usize {
        return Err(invalid_with(field, v.len() as u64, " offsets, expected N = SamplesPerPixel"));
    }
    assert(ints_of(v@) =~= e@.u64s(bo)->Ok_0);
    Ok(Some(v))
}

fn first_u64(entries: &[Entry], bo: ByteOrder, tag: u16) -> (r: Result<Option<u64>>)
    ensures
        (match (r, first_long(find_spec(entry_models(entries@), tag), bo)) {
            (Ok(v), Some(s)) => v == s,
            (Err(e), None) => e is InvalidData,
            _ => false,
        }),
{
    let e = match find(entries, tag) {
        None => {
            return Ok(None);
        },
        Some(e) => e,
    };
    let v = e.as_u64_vec(bo)?;
    if v.len() == 0 {
        return Err(invalid_with("TIFF/JPEG: empty field tag=", tag as u64, ""));
    }
    Ok(Some(v[0]))
}

fn check_predictors(v: &Option<Vec<u16>>) -> (b: bool)
    ensures
        b == predictors_known(words(*v)),
{
    match v {
        None => true,
        Some(p) => {
            let ghost s = words(*v).unwrap();
            let n: usize = p.len();
            let mut i: usize = 0;
            while i < n
                invariant
                    i <= n,
                    n == p@.len(),
                    *v == Some(*p),
                    s == words(*v).unwrap(),
                    forall|k: int| 0 <= k < i ==> 1 <= #[trigger] s[k] <= 7,
                decreases n - i,
            {
                assert(s[i as int] == p@[i as int]);
                if p[i] < 1 || p[i] > 7 {
                    return false;
                }
                i = i + 1;
            }
            true
        },
    }
}

/// Reads the old-style JPEG fields of a page.
pub fn parse_old_jpeg_fields(entries: &[Entry], bo: ByteOrder, samples_per_pixel: u16) -> (r: Result<OldJpegFields>)
    ensures
        (match (r, old_fields(entry_models(entries@), bo, samples_per_pixel as int)) {
            (Ok(f), Ok(m)) => f@ == m,
            (Err(e), Err(k)) => e.kind() == k,
            _ => false,
        }),
{
    let proc_value: u16 = optional_u16(entries, bo, TAG_JPEG_PROC, 0)?;
    let proc: Option<u16> = if find(entries, TAG_JPEG_PROC).is_some() { Some(proc_value) } else { None };
    if proc.is_some() && proc_value != JPEG_PROC_BASELINE && proc_value != JPEG_PROC_LOSSLESS {
        return Err(
            unsupported_with("TIFF/JPEG: JPEGProc=", proc_value as u64, " (only 1 = baseline sequential and 14 = lossless Huffman are defined)"),
        );
    }
    let offset: Option<u64> = first_u64(entries, bo, TAG_JPEG_INTERCHANGE_FORMAT)?;
    let interchange_offset: Option<u64> = match offset {
        Some(0) => None,
        o => o,
    };
    let interchange_length: Option<u64> = first_u64(entries, bo, TAG_JPEG_INTERCHANGE_FORMAT_LENGTH)?;
    let restart: u32 = optional_u32(entries, bo, TAG_JPEG_RESTART_INTERVAL, 0)?;
    if restart > 65535 {
        return Err(invalid_with("TIFF/JPEG: JPEGRestartInterval=", restart as u64, " out of SHORT range"));
    }
    let lossless_predictors = per_component_u16(entries, bo, TAG_JPEG_LOSSLESS_PREDICTORS, "TIFF/JPEG: JPEGLosslessPredictors has ", samples_per_pixel)?;
    if !check_predictors(&lossless_predictors) {
        return Err(TiffError::invalid("TIFF/JPEG: JPEGLosslessPredictors selection-value (1..=7 are defined)"));
    }
    let point_transforms = per_component_u16(entries, bo, TAG_JPEG_POINT_TRANSFORMS, "TIFF/JPEG: JPEGPointTransforms has ", samples_per_pixel)?;
    let q_tables = per_component_u64(entries, bo, TAG_JPEG_Q_TABLES, "TIFF/JPEG: JPEGQTables has ", samples_per_pixel)?;
    let dc_tables = per_component_u64(entries, bo, TAG_JPEG_DC_TABLES, "TIFF/JPEG: JPEGDCTables has ", samples_per_pixel)?;
    let ac_tables = per_component_u64(entries, bo, TAG_JPEG_AC_TABLES, "TIFF/JPEG: JPEGACTables has ", samples_per_pixel)?;
    Ok(
        OldJpegFields {
            proc,
            interchange_offset,
            interchange_length,
            restart_interval: restart as u16,
            lossless_predictors,
            point_transforms,
            q_tables,
            dc_tables,
            ac_tables,
        },
    )
}

/// End of the last end-of-image marker that ends within the first `n` bytes; 0
/// if there is none.
pub open spec fn last_marker_end(s: Seq<u8>, n: int) -> int
    decreases n,
{
    if n < 2 {
        0
    } else if s[n - 2] == 0xFF && s[n - 1] == 0xD9 {
        n
    } else {
        last_marker_end(s, n - 1)
    }
}

/// The JPEG stream that the fields point at, cut off after its last end-of-image
/// marker; outer `None` where they point at none, inner `None` where they do not
/// point anywhere.
pub open spec fn stream_of(m: OldModel, input: Seq<u8>) -> Option<Option<Seq<u8>>> {
    match m.interchange_offset {
        None => Some(None),
        Some(start) => {
            let end = match m.interchange_length {
                None => input.len() as int,
                Some(n) => start + n,
            };
            if start >= input.len() || end > input.len() {
                None
            } else {
                let s = input.subrange(start as int, end);
                let cut = last_marker_end(s, s.len() as int);
                if s.len() < 4 || s[0] != 0xFF || s[1] != 0xD8 || cut == 0 { None } else { Some(Some(s.take(cut))) }
            }
        },
    }
}

/// Why a page without a JPEG stream cannot be read: a field that its process
/// needs is missing, or all are there.
pub open spec fn tables_kind(m: OldModel) -> ErrorKind {
    match m.proc {
        None => ErrorKind::Invalid,
        Some(p) => if p == JPEG_PROC_BASELINE {
            if m.q_tables is Some && m.dc_tables is Some && m.ac_tables is Some {
                ErrorKind::Unsupported
            } else {
                ErrorKind::Invalid
            }
        } else {
            if m.lossless_predictors is Some && m.dc_tables is Some {
                ErrorKind::Unsupported
            } else {
                ErrorKind::Invalid
            }
        },
    }
}

/// Names of fields with a slash between them.
pub open spec fn listed(names: Seq<Seq<char>>) -> Seq<char>
    decreases names.len(),
{
    if names.len() == 0 {
        Seq::empty()
    } else if names.len() == 1 {
        names[0]
    } else {
        listed(names.drop_last()) + "/"@ + names.last()
    }
}

/// A name, if the field is missing.
pub open spec fn gap(there: bool, name: Seq<char>) -> Seq<Seq<char>> {
    if there { Seq::empty() } else { seq![name] }
}

/// The missing fields that the process of a page needs.
pub open spec fn gaps(m: OldModel) -> Seq<Seq<char>> {
    if m.proc == Some(JPEG_PROC_BASELINE) {
        gap(m.q_tables is Some, "JPEGQTables"@) + gap(m.dc_tables is Some, "JPEGDCTables"@) + gap(
            m.ac_tables is Some,
            "JPEGACTables"@,
        )
    } else {
        gap(m.lossless_predictors is Some, "JPEGLosslessPredictors"@) + gap(m.dc_tables is Some, "JPEGDCTables"@)
    }
}

/// What is said of a page without a JPEG stream: which fields are missing, or that
/// its layout is not supported.
pub open spec fn tables_message(m: OldModel) -> Seq<char> {
    let baseline = m.proc == Some(JPEG_PROC_BASELINE);
    if m.proc is None {
        "TIFF/JPEG: Compression=6 without JPEGProc and without a JPEGInterchangeFormat bitstream"@
    } else if gaps(m).len() > 0 {
        (if baseline {
            "TIFF/JPEG: JPEGProc=1 (baseline DCT) without "@
        } else {
            "TIFF/JPEG: JPEGProc=14 (lossless) without "@
        }) + listed(gaps(m)) + " and without a JPEGInterchangeFormat bitstream"@
    } else if baseline {
        "TIFF/JPEG: old-style tables-form layout is not supported; only the JPEGInterchangeFormat layout decodes"@
    } else {
        "TIFF/JPEG: old-style lossless (JPEGProc=14) tables-form layout is not supported; only the JPEGInterchangeFormat layout decodes"@
    }
}

/// Names as text.
spec fn texts(names: Seq<&'static str>) -> Seq<Seq<char>> {
    Seq::new(names.len(), |i: int| names[i]@)
}

/// Lists names with a slash between them.
fn list_names(names: &Vec<&'static str>) -> (s: String)
    ensures
        s@ == listed(texts(names@)),
{
    let mut s = String::new();
    let n: usize = names.len();
    let mut i: usize = 0;
    assert(texts(names@).take(0) =~= Seq::empty());
    while i < n
        invariant
            i <= n,
            n == names@.len(),
            s@ == listed(texts(names@).take(i as int)),
        decreases n - i,
    {
        if i > 0 {
            s.append("/");
        }
        s.append(names[i]);
        proof {
            let t = texts(names@).take(i + 1);
            assert(t.drop_last() =~= texts(names@).take(i as int));
            assert(t.last() == names@[i as int]@);
            assert(s@ =~= listed(t));
        }
        i = i + 1;
    }
    assert(texts(names@).take(n as int) =~= texts(names@));
    s
}

impl OldJpegFields {
    /// The JPEG stream that the fields point at, if they do.
    pub fn interchange_stream<'a>(&self, input: &'a [u8]) -> (r: Result<Option<&'a [u8]>>)
        ensures
            (match (r, stream_of(self@, input@)) {
                (Ok(Some(s)), Some(Some(t))) => s@ == t,
                (Ok(None), Some(None)) => true,
                (Err(e), None) => e is InvalidData,
                _ => false,
            }),
    {
        let start: u64 = match self.interchange_offset {
            None => {
                return Ok(None);
            },
            Some(o) => o,
        };
        let len: usize = input.len();
        if start as u128 >= len as u128 {
            return Err(TiffError::invalid("TIFF/JPEG: JPEGInterchangeFormat offset past EOF"));
        }
        let end: u128 = match self.interchange_length {
            None => len as u128,
            Some(n) => start as u128 + n as u128,
        };
        if end > len as u128 {
            return Err(TiffError::invalid("TIFF/JPEG: JPEGInterchangeFormat + Length extends past EOF"));
        }
        let stream: &'a [u8] = vstd::slice::slice_subrange(input, start as usize, end as usize);
        let size: usize = stream.len();
        if size < 4 || stream[0] != 0xFF || stream[1] != 0xD8 {
            return Err(TiffError::invalid("TIFF/JPEG: JPEGInterchangeFormat does not point at an SOI marker (FF D8)"));
        }
        let mut n: usize = size;
        while n >= 2 && !(stream[n - 2] == 0xFF && stream[n - 1] == 0xD9)
            invariant
                n <= size,
                size == stream@.len(),
                last_marker_end(stream@, size as int) == last_marker_end(stream@, n as int),
            decreases n,
        {
            n = n - 1;
        }
        if n < 2 {
            return Err(TiffError::invalid("TIFF/JPEG: JPEG interchange bitstream has no EOI marker (FF D9)"));
        }
        let cut: &'a [u8] = vstd::slice::slice_subrange(stream, 0, n);
        assert(cut@ =~= stream@.take(n as int));
        Ok(Some(cut))
    }

    /// The missing fields that the process of the page needs.
    fn missing(&self) -> (v: Vec<&'static str>)
        ensures
            texts(v@) == gaps(self@),
    {
        let mut v: Vec<&'static str> = Vec::new();
        let baseline: bool = match self.proc {
            Some(p) => p == JPEG_PROC_BASELINE,
            None => false,
        };
        if baseline {
            if self.q_tables.is_none() {
                v.push("JPEGQTables");
            }
            assert(texts(v@) =~= gap(self@.q_tables is Some, "JPEGQTables"@));
        } else {
            if self.lossless_predictors.is_none() {
                v.push("JPEGLosslessPredictors");
            }
            assert(texts(v@) =~= gap(self@.lossless_predictors is Some, "JPEGLosslessPredictors"@));
        }
        let ghost first = texts(v@);
        if self.dc_tables.is_none() {
            v.push("JPEGDCTables");
        }
        assert(texts(v@) =~= first + gap(self@.dc_tables is Some, "JPEGDCTables"@));
        let ghost second = texts(v@);
        if baseline && self.ac_tables.is_none() {
            v.push("JPEGACTables");
        }
        assert(baseline ==> texts(v@) =~= second + gap(self@.ac_tables is Some, "JPEGACTables"@));
        assert(!baseline ==> texts(v@) =~= second);
        v
    }

    /// The error for a page whose fields do not point at a JPEG stream.
    pub fn tables_form_error(&self) -> (e: TiffError)
        ensures
            e.kind() == tables_kind(self@),
            e.message() == tables_message(self@),
    {
        let proc: u16 = match self.proc {
            None => {
                return TiffError::invalid(
                    "TIFF/JPEG: Compression=6 without JPEGProc and without a JPEGInterchangeFormat bitstream",
                );
            },
            Some(p) => p,
        };
        let missing = self.missing();
        assert(texts(missing@).len() == missing@.len());
        if missing.len() > 0 {
            let head = if proc == JPEG_PROC_BASELINE {
                "TIFF/JPEG: JPEGProc=1 (baseline DCT) without "
            } else {
                "TIFF/JPEG: JPEGProc=14 (lossless) without "
            };
            let message = head.to_owned().concat(list_names(&missing).as_str());
            return TiffError::InvalidData(message.concat(" and without a JPEGInterchangeFormat bitstream"));
        }
        if proc == JPEG_PROC_BASELINE {
            TiffError::unsupported(
                "TIFF/JPEG: old-style tables-form layout is not supported; only the JPEGInterchangeFormat layout decodes",
            )
        } else {
            TiffError::unsupported(
                "TIFF/JPEG: old-style lossless (JPEGProc=14) tables-form layout is not supported; only the JPEGInterchangeFormat layout decodes",
            )
        }
    }
}

// ----------------------------------------------------------------------
// What the fields mean
// ----------------------------------------------------------------------

proof fn lemma_last_marker(s: Seq<u8>, n: int, e: int)
    requires
        0 <= n <= s.len(),
    ensures
        ({
            let cut = last_marker_end(s, n);
            &&& cut == 0 || (2 <= cut <= n && s[cut - 2] == 0xFF && s[cut - 1] == 0xD9)
            &&& cut < e <= n && e >= 2 ==> !(s[e - 2] == 0xFF && s[e - 1] == 0xD9)
        }),
    decreases n,
{
    if n >= 2 && !(s[n - 2] == 0xFF && s[n - 1] == 0xD9) {
        lemma_last_marker(s, n - 1, e);
    }
}

/// The stream of a page of the older form: it begins at the place that the field with tag
/// 513 names, with FF D8, goes no further than the length under tag 514 or the end of the
/// file, and ends with the last FF D9 on the way.
pub proof fn law_old_stream(es: Seq<EntryModel>, bo: ByteOrder, samples: int, input: Seq<u8>, start: int, e: int)
    requires
        old_fields(es, bo, samples) is Ok,
        find_spec(es, 513) matches Some(f) && (f.u64s(bo) matches Ok(v) && v.len() > 0 && v[0] == start),
        0 < start <= u64::MAX,
        stream_of(old_fields(es, bo, samples)->Ok_0, input) is Some,
    ensures
        ({
            let limit = match find_spec(es, 514) {
                None => input.len() as int,
                Some(f) => start + f.u64s(bo)->Ok_0[0],
            };
            let s = stream_of(old_fields(es, bo, samples)->Ok_0, input).unwrap();
            &&& s matches Some(t)
            &&& 4 <= limit - start && limit <= input.len()
            &&& t == input.subrange(start, start + t.len())
            &&& start + t.len() <= limit
            &&& t[0] == 0xFF && t[1] == 0xD8
            &&& t[t.len() - 2] == 0xFF && t[t.len() - 1] == 0xD9
            &&& start + t.len() < e <= limit ==> !(input[e - 2] == 0xFF && input[e - 1] == 0xD9)
        }),
{
    let m = old_fields(es, bo, samples)->Ok_0;
    assert(m.interchange_offset == Some(start as u64));
    let limit = match find_spec(es, 514) {
        None => input.len() as int,
        Some(f) => start + f.u64s(bo)->Ok_0[0],
    };
    if let Some(f) = find_spec(es, 514) {
        lemma_long(f, bo);
    }
    let whole = input.subrange(start, limit);
    let cut = last_marker_end(whole, whole.len() as int);
    lemma_last_marker(whole, whole.len() as int, e - start);
    assert(whole.take(cut) =~= input.subrange(start, start + cut));
    if start + cut < e <= limit {
        assert(whole[e - start - 2] == input[e - 2] && whole[e - start - 1] == input[e - 1]);
    }
}

proof fn lemma_long(e: EntryModel, bo: ByteOrder)
    ensures
        e.u64s(bo) matches Ok(v) ==> (v.len() > 0 ==> 0 <= v[0] <= u64::MAX),
{
    crate::fields::law_numbers(bo, e.data, 0);
}

/// Pages of the older form without a stream: what they need is there for baseline coding (1
/// under tag 512) with all three sorts of tables, and for lossless coding (14) with
/// predictors and one sort, and is not supported; otherwise the page is invalid.
pub proof fn law_old_tables(m: OldModel)
    requires
        m.proc is None || m.proc == Some(1u16) || m.proc == Some(14u16),
    ensures
        tables_kind(m) is Unsupported <==> (m.proc == Some(1u16) && m.q_tables is Some && m.dc_tables is Some && m.ac_tables is Some)
            || (m.proc == Some(14u16) && m.lossless_predictors is Some && m.dc_tables is Some),
        tables_kind(m) is Unsupported || tables_kind(m) is Invalid,
{
}

} // verus!
