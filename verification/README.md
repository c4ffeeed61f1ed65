# oxideav-tiff

A reader and writer of TIFF and BigTIFF files, verified with Verus. Every function
states in its contract which bytes, samples or errors it gives for which input.

## Layout

- `src/ifd.rs`, `page.rs`, `segments.rs`, `decoder.rs`: headers, directories, the layout
  of a page, strips and tiles, whole files.
- `src/compress.rs`, `lzw.rs`, `ccitt.rs`, `fax_tables.rs`, `webp.rs`, `predictor.rs`:
  how strips and tiles are packed.
- `src/render.rs`, `cielab.rs`, `image.rs`: from samples to pictures.
- `src/jpeg.rs`, `jpeg_old.rs`: pages stored as JPEG streams; `replies.rs` states what
  of them does not depend on the pixels that a JPEG decoder computes.
- `src/jpeg_enc.rs`, `jpeg_wrap.rs`, `huffman.rs`, `huffman_stats.rs`: making such
  streams; `jpeg_exact.rs` and `jpeg_pages.rs` state what holds of them, and
  `huffman_optimal.rs` that tables made for a picture have the best code lengths.
- `src/encoder.rs`, `layout.rs`: making files; `readback.rs` states that they are
  decoded to what was encoded, and `readable.rs` which of them are decoded.
- `src/container.rs`, `session.rs`, `metadata.rs`: what a demuxer and a decoder of a
  framework need.
- `app/`: the codec and demuxer of the `oxideav` framework, and what computes with
  floating-point numbers: pages of such samples and the cosine transform.

## What is believed, not proved

Deflate and Zstandard come from `compcol`, WebP from `oxideav-webp`, JPEG decoding from
`oxideav-mjpeg`. Each call stands in a small function whose doc comment says what is
claimed of it. What the JPEG decoder puts into the planes is left open, and so is which
of the files that decode to the pixels the WebP encoder gives: contracts say what becomes
of whatever they reply. Of errors, contracts state the class, and the message where it is more than a
constant text.
