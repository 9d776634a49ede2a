//! The image codec adapter: decoding a slice payload to a bit-depth
//! tagged grayscale buffer, rescaling between the two canonical depths,
//! and encoding a buffer as an uncompressed single-channel TIFF byte
//! stream.  The codec itself is the `image` crate, reached through
//! trusted wrappers; everything around the calls is verified.

use vstd::prelude::*;

verus! {

use crate::error::ThumbError;

/// A decoded grayscale buffer in one of the two canonical forms:
/// 8-bit or 16-bit single channel.
pub enum PixelBuf {
    B8(Vec<u8>),
    B16(Vec<u16>),
}

impl PixelBuf {
    /// Whether this buffer is in the 16-bit form.
    pub open spec fn spec_is16(&self) -> bool {
        match self {
            PixelBuf::B8(_) => false,
            PixelBuf::B16(_) => true,
        }
    }

    pub open spec fn buf_len(&self) -> nat {
        match self {
            PixelBuf::B8(v) => v@.len(),
            PixelBuf::B16(v) => v@.len(),
        }
    }

    pub fn is16(&self) -> (r: bool)
        ensures
            r == self.spec_is16(),
    {
        match self {
            PixelBuf::B8(_) => false,
            PixelBuf::B16(_) => true,
        }
    }

    pub fn len(&self) -> (r: usize)
        ensures
            r == self.buf_len(),
    {
        match self {
            PixelBuf::B8(v) => v.len(),
            PixelBuf::B16(v) => v.len(),
        }
    }
}

/// An 8-bit buffer widened to 16 bits: each sample multiplied by 256.
pub open spec fn spec_widen(s: Seq<u8>) -> Seq<u16> {
    s.map_values(|x: u8| (x * 256) as u16)
}

/// A 16-bit buffer narrowed to 8 bits: each sample divided by 256,
/// truncating.
pub open spec fn spec_narrow(s: Seq<u16>) -> Seq<u8> {
    s.map_values(|x: u16| (x / 256) as u8)
}

fn widen(v: &Vec<u8>) -> (r: Vec<u16>)
    ensures
        r@ == spec_widen(v@),
{
    let mut r: Vec<u16> = Vec::new();
    let mut i: usize = 0;
    while i < v.len()
        invariant
            i <= v@.len(),
            r@ =~= spec_widen(v@).take(i as int),
        decreases v@.len() - i,
    {
        let x: u16 = (v[i] as u16) * 256;
        proof {
            assert(spec_widen(v@).take(i + 1) =~= spec_widen(v@).take(i as int).push(x));
        }
        r.push(x);
        i = i + 1;
    }
    proof {
        assert(spec_widen(v@).take(v@.len() as int) =~= spec_widen(v@));
    }
    r
}

fn narrow(v: &Vec<u16>) -> (r: Vec<u8>)
    ensures
        r@ == spec_narrow(v@),
{
    let mut r: Vec<u8> = Vec::new();
    let mut i: usize = 0;
    while i < v.len()
        invariant
            i <= v@.len(),
            r@ =~= spec_narrow(v@).take(i as int),
        decreases v@.len() - i,
    {
        let x: u8 = (v[i] / 256) as u8;
        proof {
            assert(spec_narrow(v@).take(i + 1) =~= spec_narrow(v@).take(i as int).push(x));
        }
        r.push(x);
        i = i + 1;
    }
    proof {
        assert(spec_narrow(v@).take(v@.len() as int) =~= spec_narrow(v@));
    }
    r
}

/// The buffer `b` rescaled to the canonical depth of the run:
/// 8-bit samples are shifted up by 8 bits, 16-bit samples down.
pub fn convert_to(b: PixelBuf, want16: bool) -> (r: PixelBuf)
    ensures
        r.spec_is16() == want16,
        r.buf_len() == b.buf_len(),
        b.spec_is16() == want16 ==> r == b,
        match (b, &r) {
            (PixelBuf::B8(v), PixelBuf::B16(w)) => w@ == spec_widen(v@),
            (PixelBuf::B16(v), PixelBuf::B8(w)) => w@ == spec_narrow(v@),
            _ => true,
        },
{
    match b {
        PixelBuf::B8(v) => {
            if want16 {
                PixelBuf::B16(widen(&v))
            } else {
                PixelBuf::B8(v)
            }
        },
        PixelBuf::B16(v) => {
            if want16 {
                PixelBuf::B16(v)
            } else {
                PixelBuf::B8(narrow(&v))
            }
        },
    }
}

/// Whether the codec can decode this byte stream at all: decoding is
/// a function of the payload's bytes alone.
pub uninterp spec fn spec_decodes(bytes: Seq<u8>) -> bool;

/// The pixel width of a decodable payload.
pub uninterp spec fn decoded_w(bytes: Seq<u8>) -> u32;

/// The pixel height of a decodable payload.
pub uninterp spec fn decoded_h(bytes: Seq<u8>) -> u32;

/// Whether a decodable payload lands in the 16-bit canonical form
/// (the codec's 16-bit integer and 32-bit float source formats) or
/// the 8-bit one (everything else).
pub uninterp spec fn decoded_is16(bytes: Seq<u8>) -> bool;

/// The grayscale samples of a payload decoded to the 8-bit form.
pub uninterp spec fn decoded8(bytes: Seq<u8>) -> Seq<u8>;

/// The grayscale samples of a payload decoded to the 16-bit form.
pub uninterp spec fn decoded16(bytes: Seq<u8>) -> Seq<u16>;

/// `b` is exactly the decode of `bytes`: the named dimensions, depth
/// and samples, with the buffer sized to the image.  A decodable
/// image stays under the codec's 512 MiB allocation cap, so it holds
/// at most `2^29` pixels.
pub open spec fn spec_decoded_to(bytes: Seq<u8>, w: u32, h: u32, b: &PixelBuf) -> bool {
    &&& spec_decodes(bytes)
    &&& w == decoded_w(bytes)
    &&& h == decoded_h(bytes)
    &&& b.spec_is16() == decoded_is16(bytes)
    &&& (match b {
        PixelBuf::B8(v) => v@ == decoded8(bytes),
        PixelBuf::B16(v) => v@ == decoded16(bytes),
    })
    &&& b.buf_len() == w * h
    &&& (w as int) * (h as int) <= 0x2000_0000
}

/// Relies on image::load_from_memory (format guessed from the bytes,
/// a Result on bad payloads), the DynamicImage variant tags, and
/// DynamicImage::to_luma8/to_luma16 with ImageBuffer::dimensions and
/// into_raw: the decode of a byte stream is a function of the bytes
/// alone (the codec's global format-hook registry stays empty in this
/// library); it succeeds exactly when the codec accepts the payload,
/// which its default 512 MiB allocation cap bounds to at most `2^29`
/// pixels; the 16-bit and 32-bit-float variants land in the 16-bit
/// form and everything else in the 8-bit one, as the decode contract
/// allows; and the raw container of a converted image holds exactly
/// width * height samples.
#[verifier::external_body]
fn decode_gray(bytes: &Vec<u8>) -> (r: Result<(u32, u32, PixelBuf), ThumbError>)
    ensures
        (r matches Ok(t)) <==> spec_decodes(bytes@),
        r matches Ok(t) ==> spec_decoded_to(bytes@, t.0, t.1, &t.2),
        r matches Err(e) ==> e == ThumbError::Decode,
{
    let img = match image::load_from_memory(bytes.as_slice()) {
        Ok(i) => i,
        Err(_) => return Err(ThumbError::Decode),
    };
    if matches!(img, image::DynamicImage::ImageLuma16(_) | image::DynamicImage::ImageRgb16(_)
        | image::DynamicImage::ImageRgba16(_) | image::DynamicImage::ImageRgb32F(_)
        | image::DynamicImage::ImageRgba32F(_)) {
        let g = img.to_luma16();
        let (w, h) = g.dimensions();
        Ok((w, h, PixelBuf::B16(g.into_raw())))
    } else {
        let g = img.to_luma8();
        let (w, h) = g.dimensions();
        Ok((w, h, PixelBuf::B8(g.into_raw())))
    }
}

/// What the TIFF encoder produces for an 8-bit single-channel image:
/// a function of the dimensions and samples alone.
pub uninterp spec fn tiff8_of(w: u32, h: u32, px: Seq<u8>) -> Seq<u8>;

/// What the TIFF encoder produces for a 16-bit single-channel image.
pub uninterp spec fn tiff16_of(w: u32, h: u32, px: Seq<u16>) -> Seq<u8>;

/// Relies on ImageBuffer::from_raw (succeeds on an exactly sized
/// buffer) and ImageBuffer::write_to with ImageFormat::Tiff: the
/// output depends on the dimensions and samples alone; into an
/// in-memory buffer the encoder fails only for a zero dimension
/// (tiff's ImageEncoder::new); and the codec decodes the encoded
/// stream back to the same 8-bit image.  The image cap of `2^27`
/// pixels keeps the stream far inside classic TIFF's 4 GiB offset
/// limit and under the decoder's 512 MiB allocation cap, so both the
/// success and the round-trip clause are owed.
#[verifier::external_body]
fn encode_tiff8(w: u32, h: u32, buf: &Vec<u8>) -> (r: Result<Vec<u8>, ThumbError>)
    requires
        buf@.len() == w * h,
        (w as int) * (h as int) <= 0x800_0000,
    ensures
        r matches Ok(b) ==> b@ == tiff8_of(w, h, buf@),
        r matches Ok(b) ==> spec_decodes(b@) && decoded_w(b@) == w && decoded_h(b@) == h
            && !decoded_is16(b@) && decoded8(b@) == buf@,
        r matches Err(e) ==> e == ThumbError::Io,
        1 <= w && 1 <= h ==> r matches Ok(b),
{
    let img = match image::ImageBuffer::<image::Luma<u8>, Vec<u8>>::from_raw(w, h, buf.clone()) {
        Some(i) => i,
        None => return Err(ThumbError::Io),
    };
    let mut out: Vec<u8> = Vec::new();
    match img.write_to(&mut std::io::Cursor::new(&mut out), image::ImageFormat::Tiff) {
        Ok(()) => Ok(out),
        Err(_) => Err(ThumbError::Io),
    }
}

/// Relies on ImageBuffer::from_raw and ImageBuffer::write_to, as
/// `encode_tiff8` does, for the 16-bit form, under the same image
/// cap.
#[verifier::external_body]
fn encode_tiff16(w: u32, h: u32, buf: &Vec<u16>) -> (r: Result<Vec<u8>, ThumbError>)
    requires
        buf@.len() == w * h,
        (w as int) * (h as int) <= 0x800_0000,
    ensures
        r matches Ok(b) ==> b@ == tiff16_of(w, h, buf@),
        r matches Ok(b) ==> spec_decodes(b@) && decoded_w(b@) == w && decoded_h(b@) == h
            && decoded_is16(b@) && decoded16(b@) == buf@,
        r matches Err(e) ==> e == ThumbError::Io,
        1 <= w && 1 <= h ==> r matches Ok(b),
{
    let img = match image::ImageBuffer::<image::Luma<u16>, Vec<u16>>::from_raw(w, h, buf.clone()) {
        Some(i) => i,
        None => return Err(ThumbError::Io),
    };
    let mut out: Vec<u8> = Vec::new();
    match img.write_to(&mut std::io::Cursor::new(&mut out), image::ImageFormat::Tiff) {
        Ok(()) => Ok(out),
        Err(_) => Err(ThumbError::Io),
    }
}

/// Decodes a slice payload to one of the two canonical grayscale
/// forms.  Succeeds exactly on the payloads the codec accepts, and
/// then returns exactly the named decode: its dimensions, its
/// canonical depth, and its samples, sized to the image.
pub fn decode_slice(bytes: &Vec<u8>) -> (r: Result<(u32, u32, PixelBuf), ThumbError>)
    ensures
        (r matches Ok(t)) <==> spec_decodes(bytes@),
        r matches Ok(t) ==> spec_decoded_to(bytes@, t.0, t.1, &t.2),
        r matches Err(e) ==> e == ThumbError::Decode,
{
    decode_gray(bytes)
}

/// The encoded TIFF bytes of an output buffer: the byte stream is the
/// encoder's image of the buffer's dimensions and samples.
pub open spec fn spec_encoded(b: &PixelBuf, w: u32, h: u32) -> Seq<u8> {
    match b {
        PixelBuf::B8(v) => tiff8_of(w, h, v@),
        PixelBuf::B16(v) => tiff16_of(w, h, v@),
    }
}

/// Encodes an output buffer as an uncompressed single-channel TIFF at
/// the buffer's own bit depth.  A buffer whose length disagrees with
/// the declared dimensions is rejected with the dimension-mismatch
/// error; an agreeing buffer with both dimensions at least one always
/// encodes, to a stream that decodes back to exactly this buffer.
/// The size bound is a machine limit of the codec (classic TIFF
/// offsets and the decoder's allocation cap); every pyramid output
/// satisfies it, as an output plane holds at most a quarter of a
/// decodable slice's pixels.
pub fn encode_output(b: &PixelBuf, w: u32, h: u32) -> (r: Result<Vec<u8>, ThumbError>)
    requires
        (w as int) * (h as int) <= 0x800_0000,
    ensures
        b.buf_len() != w * h ==> (r matches Err(e) && e == (ThumbError::Dim {
            expected_w: w, expected_h: h, got_w: 0, got_h: 0 })),
        r matches Ok(bytes) ==> b.buf_len() == w * h && bytes@ == spec_encoded(b, w, h)
            && spec_decoded_to(bytes@, w, h, b),
        b.buf_len() == w * h ==> (r matches Err(e) ==> e == ThumbError::Io && (w == 0
            || h == 0)),
        b.buf_len() == w * h && 1 <= w && 1 <= h ==> r matches Ok(bytes),
{
    let len = b.len();
    if (len as u64) != (w as u64) * (h as u64) {
        return Err(ThumbError::Dim { expected_w: w, expected_h: h, got_w: 0, got_h: 0 });
    }
    match b {
        PixelBuf::B8(v) => encode_tiff8(w, h, v),
        PixelBuf::B16(v) => encode_tiff16(w, h, v),
    }
}

} // verus!
