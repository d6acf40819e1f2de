//! The steganographic carrier: an RGBA8 image that hides a payload in its
//! alpha channel, plus an access-rights row appended at the bottom.
//!
//! The inner carrier is the cover image with the payload bytes written into
//! the alpha channel, one byte per pixel in row-major order. The outer
//! carrier is the inner carrier with one extra pixel row whose first two
//! alpha bytes hold the big-endian view count. Stripping that row restores
//! the inner carrier bit-exact, so the hidden payload survives.

use base64::Engine;
use vstd::prelude::*;

verus! {

/// An RGBA8 image held as its raw bytes, four per pixel, row-major.
pub struct Image {
    pub width: u32,
    pub height: u32,
    pub pixels: Vec<u8>,
}

impl Image {
    /// The pixel buffer holds exactly four bytes per pixel.
    pub open spec fn wf(&self) -> bool {
        self.pixels@.len() == 4 * (self.width as int) * (self.height as int)
    }
}

/// The alpha byte of every pixel, in row-major order: what revealing a
/// carrier returns.
pub open spec fn alpha_bytes(pixels: Seq<u8>) -> Seq<u8> {
    Seq::new(pixels.len() / 4, |i: int| pixels[4 * i + 3])
}

/// The pixel bytes after hiding `payload`: the alpha byte of pixel `i`
/// becomes `payload[i]` while the payload lasts; every other byte is kept.
pub open spec fn hide_pixels(cover: Seq<u8>, payload: Seq<u8>) -> Seq<u8> {
    Seq::new(
        cover.len(),
        |i: int|
            if i % 4 == 3 && i / 4 < payload.len() {
                payload[i / 4]
            } else {
                cover[i]
            },
    )
}

/// Relies on steganography's `Encoder::encode_alpha`: the output has the
/// cover's dimensions and pixel bytes, except that the alpha byte of pixel
/// `i` is byte `i` of the payload while the payload lasts. The encoder
/// counts and indexes pixels in 32 bits, so covers are bounded to 2^32
/// pixels.
#[verifier::external_body]
pub fn hide_payload(cover: &Image, payload: &[u8]) -> (r: Image)
    requires
        cover.wf(),
        (cover.width as int) * (cover.height as int) <= u32::MAX,
        payload@.len() <= (cover.width as int) * (cover.height as int),
    ensures
        r.wf(),
        r.width == cover.width,
        r.height == cover.height,
        r.pixels@ == hide_pixels(cover.pixels@, payload@),
{
    let buf = image::ImageBuffer::from_raw(cover.width, cover.height, cover.pixels.clone())
        .expect("pixel buffer matches dimensions");
    let encoder = steganography::encoder::Encoder::new(
        payload,
        image::DynamicImage::ImageRgba8(buf),
    );
    let out = encoder.encode_alpha();
    Image { width: cover.width, height: cover.height, pixels: out.into_raw() }
}

/// Relies on steganography's `Decoder::decode_alpha`: returns the alpha byte
/// of every pixel, in row-major order.
#[verifier::external_body]
pub fn reveal_alpha(img: &Image) -> (r: Vec<u8>)
    requires
        img.wf(),
    ensures
        r@ == alpha_bytes(img.pixels@),
{
    let buf = image::ImageBuffer::from_raw(img.width, img.height, img.pixels.clone())
        .expect("pixel buffer matches dimensions");
    let decoder = steganography::decoder::Decoder::new(buf);
    decoder.decode_alpha()
}

/// The PNG bytes of an RGBA8 image: a function of the dimensions and pixel
/// bytes alone.
pub uninterp spec fn png_bytes_of(width: nat, height: nat, pixels: Seq<u8>) -> Seq<u8>;

/// Relies on image's PNG encoder for an RGBA8 buffer: deterministic in the
/// dimensions and pixel bytes.
#[verifier::external_body]
pub fn png_encode(img: &Image) -> (r: Vec<u8>)
    requires
        img.wf(),
        img.width >= 1,
        img.height >= 1,
    ensures
        r@ == png_bytes_of(img.width as nat, img.height as nat, img.pixels@),
{
    let buf = image::ImageBuffer::from_raw(img.width, img.height, img.pixels.clone())
        .expect("pixel buffer matches dimensions");
    let mut out: Vec<u8> = Vec::new();
    image::DynamicImage::ImageRgba8(buf)
        .write_to(&mut std::io::Cursor::new(&mut out), image::ImageOutputFormat::PNG)
        .expect("PNG encoding an in-memory RGBA8 buffer does not fail");
    out
}

/// What image's PNG decoder makes of the bytes: `None` on anything that is
/// not a PNG image, the RGBA8 image otherwise; a function of the bytes alone.
pub uninterp spec fn png_decode_of(bytes: Seq<u8>) -> Option<Image>;

/// Relies on image's PNG decoder followed by RGBA8 conversion: deterministic
/// in the bytes, and every decoded image is a well-formed pixel buffer.
#[verifier::external_body]
pub fn png_decode(bytes: &[u8]) -> (r: Option<Image>)
    ensures
        r == png_decode_of(bytes@),
        r matches Some(img) ==> img.wf(),
{
    match image::load_from_memory_with_format(bytes, image::ImageFormat::PNG) {
        Ok(decoded) => {
            let buf = decoded.to_rgba();
            let (width, height) = buf.dimensions();
            Some(Image { width, height, pixels: buf.into_raw() })
        },
        Err(_) => None,
    }
}

/// The base64 text of the bytes, standard alphabet with padding: a function
/// of the bytes alone.
pub uninterp spec fn b64_of(b: Seq<u8>) -> Seq<char>;

/// Relies on base64's standard engine: encoding is deterministic in the
/// bytes.
#[verifier::external_body]
pub fn b64_encode(b: &[u8]) -> (r: String)
    ensures
        r@ == b64_of(b@),
{
    base64::engine::general_purpose::STANDARD.encode(b)
}

/// What base64's standard engine decodes the text to: `None` on text that
/// is not base64; a function of the text alone.
pub uninterp spec fn b64_decode_of(s: Seq<char>) -> Option<Seq<u8>>;

/// Relies on base64's standard engine: decoding is deterministic in the
/// text.
#[verifier::external_body]
pub fn b64_decode(s: &str) -> (r: Option<Vec<u8>>)
    ensures
        r is Some <==> b64_decode_of(s@) is Some,
        r matches Some(v) ==> b64_decode_of(s@) == Some(v@),
{
    base64::engine::general_purpose::STANDARD.decode(s).ok()
}

// --- the access-rights row -----------------------------------------------------

/// The appended row: `4 * width` bytes, all zero except the alpha bytes of
/// the first two pixels, which carry the view count big-endian.
pub open spec fn rights_row(width: nat, views: u16) -> Seq<u8> {
    Seq::new(
        4 * width,
        |i: int|
            if i == 3 {
                (views >> 8) as u8
            } else if i == 7 {
                views as u8
            } else {
                0u8
            },
    )
}

/// The view count stored in the last row of an outer carrier.
pub open spec fn stored_views(img: Image) -> u16
    recommends
        img.wf(),
        img.height >= 1,
{
    let base = 4 * (img.width as int) * (img.height as int - 1);
    let hi: u8 = if img.width >= 1 {
        img.pixels@[base + 3]
    } else {
        0
    };
    let lo: u8 = if img.width >= 2 {
        img.pixels@[base + 7]
    } else {
        0
    };
    (hi as u16 * 256 + lo as u16) as u16
}

#[derive(Debug)]
pub enum CarrierError {
    /// The image has no rows to decode.
    NoRows,
}

/// Builds the outer carrier: the inner carrier with one extra row holding
/// `views` in the alpha bytes of its first two pixels.
pub fn encode_access_rights(inner: &Image, views: u16) -> (outer: Image)
    requires
        inner.wf(),
        inner.width >= 2,
        inner.height < u32::MAX,
        4 * (inner.width as int) * (inner.height as int + 1) <= usize::MAX,
    ensures
        outer.wf(),
        outer.width == inner.width,
        outer.height == inner.height + 1,
        outer.pixels@ =~= inner.pixels@ + rights_row(inner.width as nat, views),
{
    let mut pixels = inner.pixels.clone();
    proof {
        assert(4 * (inner.width as int) * (inner.height as int) + 4 * (inner.width as int) == 4 * (
        inner.width as int) * (inner.height as int + 1)) by (nonlinear_arith);
    }
    let hi: u8 = (views >> 8u16) as u8;
    let lo: u8 = #[verifier::truncate] (views as u8);
    proof {
        assert(views >> 8u16 < 256) by (bit_vector);
    }
    let width = inner.width as usize;
    let mut x: usize = 0;
    while x < width
        invariant
            x <= width,
            width == inner.width,
            hi == (views >> 8u16) as u8,
            lo == views as u8,
            pixels@.len() == inner.pixels@.len() + 4 * x,
            pixels@ =~= inner.pixels@ + rights_row(inner.width as nat, views).subrange(
                0,
                4 * x as int,
            ),
            inner.pixels@.len() + 4 * (width as int) <= usize::MAX,
        decreases width - x,
    {
        pixels.push(0);
        pixels.push(0);
        pixels.push(0);
        if x == 0 {
            pixels.push(hi);
        } else if x == 1 {
            pixels.push(lo);
        } else {
            pixels.push(0);
        }
        proof {
            let row = rights_row(inner.width as nat, views);
            assert(pixels@ =~= inner.pixels@ + row.subrange(0, 4 * (x + 1)));
        }
        x += 1;
    }
    proof {
        assert(rights_row(inner.width as nat, views).subrange(
            0,
            4 * (inner.width as int),
        ) =~= rights_row(inner.width as nat, views));
    }
    Image { width: inner.width, height: inner.height + 1, pixels }
}

/// Reads the view count from the last row of an outer carrier and strips
/// that row, restoring the inner carrier. Fails only on an image with no
/// rows.
pub fn decode_access_rights(outer: &Image) -> (r: Result<(u16, Image), CarrierError>)
    requires
        outer.wf(),
    ensures
        outer.height == 0 ==> r is Err,
        outer.height >= 1 ==> (r matches Ok((views, inner)) && views == stored_views(*outer)
            && inner.wf() && inner.width == outer.width && inner.height == outer.height - 1
            && inner.pixels@ =~= outer.pixels@.subrange(
            0,
            4 * (outer.width as int) * (outer.height as int - 1),
        )),
{
    if outer.height == 0 {
        return Err(CarrierError::NoRows);
    }
    proof {
        let w = outer.width as int;
        let h = outer.height as int;
        assert(4 * w * h - 4 * w == 4 * w * (h - 1)) by (nonlinear_arith);
        assert(w >= 0 && h >= 1 ==> 4 * w * (h - 1) >= 0) by (nonlinear_arith);
    }
    let base = outer.pixels.len() - 4 * (outer.width as usize);
    let hi: u8 = if outer.width >= 1 {
        outer.pixels[base + 3]
    } else {
        0
    };
    let lo: u8 = if outer.width >= 2 {
        outer.pixels[base + 7]
    } else {
        0
    };
    let views: u16 = (hi as u16) * 256 + (lo as u16);
    let mut pixels = outer.pixels.clone();
    pixels.truncate(base);
    let inner = Image { width: outer.width, height: outer.height - 1, pixels };
    proof {
        assert(inner.pixels@ =~= outer.pixels@.subrange(
            0,
            4 * (outer.width as int) * (outer.height as int - 1),
        ));
    }
    Ok((views, inner))
}

/// The view count after applying a signed delta, saturating at the ends of
/// the 16-bit range.
pub open spec fn adjusted_views(current: u16, delta: int) -> u16 {
    if current + delta < 0 {
        0u16
    } else if current + delta > 0xffff {
        0xffffu16
    } else {
        (current + delta) as u16
    }
}

/// Applies a signed view delta to an outer carrier: reads its count, adjusts
/// it with saturation, and rebuilds the carrier around the same inner
/// layers. Returns the updated carrier and the new count.
pub fn update_carrier_views(outer: &Image, delta: i32) -> (r: Result<(Image, u16), CarrierError>)
    requires
        outer.wf(),
        outer.width >= 2,
    ensures
        outer.height == 0 ==> r is Err,
        outer.height >= 1 ==> (r matches Ok((updated, new_views)) && new_views == adjusted_views(
            stored_views(*outer),
            delta as int,
        ) && updated.wf() && updated.width == outer.width && updated.height == outer.height
            && stored_views(updated) == new_views && updated.pixels@.subrange(
            0,
            4 * (outer.width as int) * (outer.height as int - 1),
        ) =~= outer.pixels@.subrange(0, 4 * (outer.width as int) * (outer.height as int - 1))),
{
    let (current, inner) = match decode_access_rights(outer) {
        Ok(p) => p,
        Err(e) => {
            return Err(e);
        },
    };
    let total: i64 = current as i64 + delta as i64;
    let new_views: u16 = if total < 0 {
        0
    } else if total > 0xffff {
        0xffff
    } else {
        total as u16
    };
    let pixel_count = outer.pixels.len();
    proof {
        let w = outer.width as int;
        let h = outer.height as int;
        assert(4 * w * ((h - 1) + 1) == 4 * w * h) by (nonlinear_arith);
        assert(pixel_count == outer.pixels@.len());
    }
    let updated = encode_access_rights(&inner, new_views);
    proof {
        lemma_access_rights_round_trip(inner, new_views, updated);
    }
    Ok((updated, new_views))
}

// --- carrier laws ----------------------------------------------------------------

/// Access-rights round trip: an outer carrier built from `inner` and `views`
/// decodes to exactly that view count, and stripping its last row restores
/// `inner` bit-exact. Together with the contracts of `encode_access_rights`
/// and `decode_access_rights` this pins the round trip down.
pub proof fn lemma_access_rights_round_trip(inner: Image, views: u16, outer: Image)
    requires
        inner.wf(),
        inner.width >= 2,
        outer.wf(),
        outer.width == inner.width,
        outer.height == inner.height + 1,
        outer.pixels@ =~= inner.pixels@ + rights_row(inner.width as nat, views),
    ensures
        stored_views(outer) == views,
        outer.pixels@.subrange(0, 4 * (outer.width as int) * (outer.height as int - 1))
            =~= inner.pixels@,
{
    let w = inner.width as int;
    let h = inner.height as int;
    let base = 4 * w * h;
    assert(4 * w * (h + 1) - 4 * w == 4 * w * h) by (nonlinear_arith);
    let row = rights_row(inner.width as nat, views);
    assert(outer.pixels@[base + 3] == row[3]);
    assert(outer.pixels@[base + 7] == row[7]);
    assert(((views >> 8) as u8) as u16 * 256 + ((views as u8) as u16) == views) by (bit_vector);
    assert(outer.pixels@.subrange(0, base) =~= inner.pixels@);
}

/// Revealing an inner carrier built by `hide` returns the payload, byte for
/// byte, as the prefix of the alpha channel.
pub proof fn lemma_reveal_after_hide(cover: Seq<u8>, payload: Seq<u8>)
    requires
        4 * payload.len() <= cover.len(),
    ensures
        alpha_bytes(hide_pixels(cover, payload)).subrange(0, payload.len() as int) =~= payload,
{
    let hidden = hide_pixels(cover, payload);
    assert forall|i: int| 0 <= i < payload.len() implies alpha_bytes(hidden).subrange(
        0,
        payload.len() as int,
    )[i] == payload[i] by {
        assert((4 * i + 3) % 4 == 3);
        assert((4 * i + 3) / 4 == i);
        assert(alpha_bytes(hidden)[i] == hidden[4 * i + 3]);
    }
}

/// Hidden-payload survival: append the access-rights row to a carrier that
/// hides `payload`, strip it again, and revealing the restored inner carrier
/// still begins with `payload`, byte for byte.
pub proof fn lemma_hidden_payload_survival(cover: Seq<u8>, payload: Seq<u8>, width: nat, views: u16)
    requires
        4 * payload.len() <= cover.len(),
    ensures
        ({
            let inner = hide_pixels(cover, payload);
            let outer = inner + rights_row(width, views);
            let stripped = outer.subrange(0, inner.len() as int);
            alpha_bytes(stripped).subrange(0, payload.len() as int) =~= payload
        }),
{
    let inner = hide_pixels(cover, payload);
    let outer = inner + rights_row(width, views);
    assert(outer.subrange(0, inner.len() as int) =~= inner);
    lemma_reveal_after_hide(cover, payload);
}

} // verus!
