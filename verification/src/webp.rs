//! WebP strips and tiles: each holds one complete WebP file. The pixels come
//! from and go to the `oxideav-webp` crate, which speaks packed RGBA.
use vstd::prelude::*;
use crate::error::{Result, TiffError};
use crate::jpeg::bytes_model;

verus! {

/// The error type of `oxideav-webp`, carried through unread.
#[verifier::external_type_specification]
#[verifier::external_body]
pub struct ExWebpError(oxideav_webp::WebpError);

/// Width, height and packed RGBA pixels that `oxideav-webp` decodes a file to;
/// `None` where it reports an error.
pub uninterp spec fn webp_pixels(file: Seq<u8>) -> Option<(u32, u32, Seq<u8>)>;

/// Greatest width and height of a WebP file.
pub const WEBP_MAX_SIDE: u32 = 16384;

/// What a WebP encoder makes of the pixels of a strip or tile: a file, or nothing
/// where it reports an error.
pub type WebpReply = Option<Seq<u8>>;

/// Calls `oxideav_webp::decode_webp_image`. Claimed of it: the result depends on
/// the bytes alone.
#[verifier::external_body]
#[allow(deprecated)]
fn webp_decode(file: &[u8]) -> (r: std::result::Result<(u32, u32, Vec<u8>), oxideav_webp::WebpError>)
    ensures
        (match r {
            Ok(v) => webp_pixels(file@) == Some((v.0, v.1, v.2@)),
            Err(_) => webp_pixels(file@) is None,
        }),
{
    match oxideav_webp::decode_webp_image(file) {
        Ok(d) => Ok((d.width, d.height, d.rgba)),
        Err(e) => Err(e),
    }
}

/// Calls `oxideav_webp::encode_webp_lossless` on exactly as many pixels as the
/// dimensions call for. Claimed of it: a file comes back where neither side is
/// longer than a WebP file can say, and a file that comes back, being lossless,
/// decodes to the same pixels. Which of the files that do comes back is left open:
/// the encoder weighs its choices by `f64::log2`.
#[verifier::external_body]
#[allow(deprecated)]
fn webp_encode(rgba: &[u8], width: u32, height: u32) -> (r: std::result::Result<Vec<u8>, oxideav_webp::WebpError>)
    requires
        width > 0,
        height > 0,
        rgba@.len() == width * height * 4,
    ensures
        r matches Ok(v) ==> webp_pixels(v@) == Some((width, height, rgba@)),
        width <= WEBP_MAX_SIDE && height <= WEBP_MAX_SIDE ==> r is Ok,
{
    oxideav_webp::encode_webp_lossless(rgba, width, height)
}

/// The samples of a strip or tile of `width` by `rows` pixels taken from decoded
/// RGBA pixels: all four components, or the first three.
pub open spec fn repacked(decoded: Option<(u32, u32, Seq<u8>)>, width: int, rows: int, samples: int) -> Option<Seq<u8>> {
    match decoded {
        None => None,
        Some(d) => if d.0 != width || d.1 != rows || d.2.len() != width * rows * 4 {
            None
        } else if samples == 4 {
            Some(d.2)
        } else if samples == 3 {
            Some(Seq::new((width * rows * 3) as nat, |k: int| d.2[k / 3 * 4 + k % 3]))
        } else {
            None
        },
    }
}

/// Takes the samples of a strip or tile out of decoded RGBA pixels.
pub fn repack_rgba(
    frame_width: u32,
    frame_height: u32,
    rgba: Vec<u8>,
    width: u32,
    rows: u32,
    samples_per_pixel: u16,
) -> (r: Result<Vec<u8>>)
    ensures
        (match (r, repacked(
            Some((frame_width, frame_height, rgba@)),
            width as int,
            rows as int,
            samples_per_pixel as int,
        )) {
            (Ok(v), Some(s)) => v@ == s,
            (Err(e), None) => e is InvalidData,
            _ => false,
        }),
{
    if frame_width != width || frame_height != rows {
        return Err(TiffError::invalid("TIFF/WebP: strip/tile WebP frame does not have the geometry of the IFD"));
    }
    proof {
        assert(width * rows <= 0xffff_ffff * 0xffff_ffff) by (nonlinear_arith)
            requires
                0 <= width <= 0xffff_ffff,
                0 <= rows <= 0xffff_ffff,
        ;
        assert(0 <= width * rows) by (nonlinear_arith)
            requires
                0 <= width,
                0 <= rows,
        ;
    }
    let pixels: u128 = width as u128 * rows as u128;
    if rgba.len() as u128 != pixels * 4 {
        return Err(TiffError::invalid("TIFF/WebP: decoded RGBA has the wrong number of bytes"));
    }
    if samples_per_pixel == 4 {
        return Ok(rgba);
    }
    if samples_per_pixel != 3 {
        return Err(TiffError::invalid("TIFF/WebP: only 3 or 4 samples per pixel can carry a WebP payload"));
    }
    let n: usize = rgba.len() / 4;
    let mut out: Vec<u8> = Vec::new();
    let mut i: usize = 0;
    while i < n
        invariant
            i <= n,
            n * 4 == rgba@.len(),
            rgba@.len() <= usize::MAX,
            out@.len() == 3 * i,
            forall|k: int| 0 <= k < 3 * i ==> #[trigger] out@[k] == rgba@[k / 3 * 4 + k % 3],
        decreases n - i,
    {
        out.push(rgba[4 * i]);
        out.push(rgba[4 * i + 1]);
        out.push(rgba[4 * i + 2]);
        i = i + 1;
    }
    assert(out@ =~= Seq::new((width * rows * 3) as nat, |k: int| rgba@[k / 3 * 4 + k % 3]));
    Ok(out)
}

/// Decodes a WebP strip or tile of `width` by `rows` pixels.
pub fn unpack_webp(raw: &[u8], width: u32, rows: u32, samples_per_pixel: u16) -> (r: Result<Vec<u8>>)
    ensures
        (match (r, repacked(webp_pixels(raw@), width as int, rows as int, samples_per_pixel as int)) {
            (Ok(v), Some(s)) => v@ == s,
            (Err(e), None) => e is InvalidData,
            _ => false,
        }),
{
    match webp_decode(raw) {
        Ok((frame_width, frame_height, rgba)) => repack_rgba(
            frame_width,
            frame_height,
            rgba,
            width,
            rows,
            samples_per_pixel,
        ),
        Err(_) => Err(TiffError::invalid("TIFF/WebP: strip/tile payload is not a decodable WebP still image")),
    }
}

/// The RGBA pixels of a strip or tile of `pixels` pixels: RGBA as it stands, RGB
/// with every pixel opaque.
pub open spec fn with_alpha(raw: Seq<u8>, pixels: int) -> Option<Seq<u8>> {
    if pixels <= 0 {
        None
    } else if raw.len() == pixels * 4 {
        Some(raw)
    } else if raw.len() == pixels * 3 {
        Some(Seq::new((pixels * 4) as nat, |k: int| if k % 4 == 3 { 255u8 } else { raw[k / 4 * 3 + k % 4] }))
    } else {
        None
    }
}

/// What a WebP strip or tile holds, given what the encoder made of its pixels.
pub open spec fn webp_packed(raw: Seq<u8>, width: u32, rows: u32, reply: WebpReply) -> Option<Seq<u8>> {
    match with_alpha(raw, width * rows) {
        None => None,
        Some(_) => reply,
    }
}

/// A WebP file can be made of a strip or tile: its bytes are those of pixels, and
/// neither side is longer than such a file can say.
pub open spec fn webp_fits(raw: Seq<u8>, width: u32, rows: u32) -> bool {
    with_alpha(raw, width * rows) is Some && width <= WEBP_MAX_SIDE && rows <= WEBP_MAX_SIDE
}

/// A file decodes to the pixels of a strip or tile.
pub open spec fn webp_holds(file: Seq<u8>, raw: Seq<u8>, width: u32, rows: u32) -> bool {
    with_alpha(raw, width * rows) matches Some(rgba) && webp_pixels(file) == Some((width, rows, rgba))
}

/// Unpacking a file that decodes to the pixels of a strip or tile gives its samples
/// back.
pub proof fn law_webp_back(file: Seq<u8>, raw: Seq<u8>, width: u32, rows: u32, samples: int)
    requires
        webp_holds(file, raw, width, rows),
        raw.len() == width * rows * samples,
    ensures
        repacked(webp_pixels(file), width as int, rows as int, samples) == Some(raw),
{
    let n = width * rows;
    assert(samples == 3 || samples == 4) by (nonlinear_arith)
        requires
            n > 0,
            n * samples == n * 3 || n * samples == n * 4,
    ;
    if samples == 3 {
        assert(repacked(webp_pixels(file), width as int, rows as int, samples).unwrap() =~= raw);
    }
}

/// Gives RGB pixels an opaque alpha component; RGBA pixels stay as they are.
pub fn add_alpha(raw: &[u8], width: u32, rows: u32) -> (r: Result<Vec<u8>>)
    ensures
        (match (r, with_alpha(raw@, width * rows)) {
            (Ok(v), Some(s)) => v@ == s,
            (Err(e), None) => e is InvalidData,
            _ => false,
        }),
{
    proof {
        assert(width * rows <= 0xffff_ffff * 0xffff_ffff) by (nonlinear_arith)
            requires
                0 <= width <= 0xffff_ffff,
                0 <= rows <= 0xffff_ffff,
        ;
        assert(0 <= width * rows) by (nonlinear_arith)
            requires
                0 <= width,
                0 <= rows,
        ;
    }
    let pixels: u128 = width as u128 * rows as u128;
    if pixels == 0 {
        return Err(TiffError::invalid("TIFF/WebP: zero-pixel strip/tile"));
    }
    if raw.len() as u128 == pixels * 4 {
        return Ok(crate::ifd::copy_range(raw, 0, raw.len()));
    }
    if raw.len() as u128 != pixels * 3 {
        return Err(TiffError::invalid("TIFF/WebP: only 8-bit chunky RGB or RGBA can be packed"));
    }
    let n: usize = raw.len() / 3;
    let mut out: Vec<u8> = Vec::new();
    let mut i: usize = 0;
    while i < n
        invariant
            i <= n,
            n * 3 == raw@.len(),
            raw@.len() <= usize::MAX,
            out@.len() == 4 * i,
            forall|k: int|
                0 <= k < 4 * i ==> #[trigger] out@[k] == (if k % 4 == 3 { 255u8 } else { raw@[k / 4 * 3 + k % 4] }),
        decreases n - i,
    {
        out.push(raw[3 * i]);
        out.push(raw[3 * i + 1]);
        out.push(raw[3 * i + 2]);
        out.push(255);
        i = i + 1;
    }
    assert(out@ =~= with_alpha(raw@, width * rows).unwrap());
    Ok(out)
}

/// Encodes a strip or tile of 8-bit RGB or RGBA pixels as a lossless WebP file.
/// The file decodes to the pixels.
pub fn pack_webp(raw: &[u8], width: u32, rows: u32) -> (r: Result<Vec<u8>>)
    ensures
        (match r {
            Ok(v) => webp_holds(v@, raw@, width, rows),
            Err(e) => e is InvalidData,
        }),
        webp_fits(raw@, width, rows) ==> r is Ok,
        with_alpha(raw@, width * rows) is None ==> r is Err,
{
    let rgba = add_alpha(raw, width, rows)?;
    assert(width > 0 && rows > 0) by (nonlinear_arith)
        requires
            width * rows > 0,
            width >= 0,
            rows >= 0,
    ;
    match webp_encode(&rgba, width, rows) {
        Ok(v) => Ok(v),
        Err(_) => Err(TiffError::invalid("TIFF/WebP: lossless WebP encode of a strip/tile failed")),
    }
}

/// Takes what the encoder made of a strip or tile, whose bytes must be those of
/// pixels.
pub fn take_webp(raw: &[u8], width: u32, rows: u32, reply: Option<&[u8]>) -> (r: Result<Vec<u8>>)
    ensures
        (match (r, webp_packed(raw@, width, rows, bytes_model(reply))) {
            (Ok(v), Some(s)) => v@ == s,
            (Err(e), None) => e is InvalidData,
            _ => false,
        }),
{
    let _ = add_alpha(raw, width, rows)?;
    match reply {
        Some(file) => {
            assert(file@.subrange(0, file@.len() as int) =~= file@);
            Ok(crate::ifd::copy_range(file, 0, file.len()))
        },
        None => Err(TiffError::invalid("TIFF/WebP: lossless WebP encode of a strip/tile failed")),
    }
}

/// A decoded pixel gives its first samples, of four, in their order; a frame of another size
/// than that of the strip or tile gives none.
pub proof fn law_decoded_pixels(w: u32, h: u32, rgba: Seq<u8>, width: int, rows: int, samples: int, i: int, c: int)
    requires
        samples == 3 || samples == 4,
        0 <= width,
        0 <= rows,
        0 <= c < samples,
    ensures
        ({
            let r = repacked(Some((w, h, rgba)), width, rows, samples);
            &&& r is Some <==> w == width && h == rows && rgba.len() == 4 * (width * rows)
            &&& r is Some && 0 <= i < width * rows ==> r.unwrap().len() == samples * (width * rows)
                && r.unwrap()[samples * i + c] == rgba[4 * i + c]
        }),
{
    let n = width * rows;
    assert(0 <= n) by (nonlinear_arith)
        requires
            n == width * rows,
            0 <= width,
            0 <= rows,
    ;
}

/// A pixel is handed to the encoder with its samples in their order, opaque where it has
/// three.
pub proof fn law_encoded_pixels(raw: Seq<u8>, pixels: int, i: int, c: int)
    requires
        0 < pixels,
        0 <= i < pixels,
        0 <= c < 3,
    ensures
        with_alpha(raw, pixels) is Some <==> raw.len() == 3 * pixels || raw.len() == 4 * pixels,
        with_alpha(raw, pixels) matches Some(r) ==> r.len() == 4 * pixels,
        raw.len() == 3 * pixels ==> with_alpha(raw, pixels).unwrap()[4 * i + c] == raw[3 * i + c]
            && with_alpha(raw, pixels).unwrap()[4 * i + 3] == 255,
        raw.len() == 4 * pixels ==> with_alpha(raw, pixels).unwrap()[4 * i + c] == raw[4 * i + c]
            && with_alpha(raw, pixels).unwrap()[4 * i + 3] == raw[4 * i + 3],
{
}

} // verus!
