//! Encodings of texture data: PNG, base64 and zlib, and the removal of the
//! alpha channel.
//!
//! The three encodings are the work of other crates. The library names
//! what they return and does not look inside.

use vstd::prelude::*;

verus! {

#[verifier::external_type_specification]
#[verifier::external_body]
pub struct ExImageError(image::ImageError);

#[verifier::external_type_specification]
#[verifier::external_body]
pub struct ExIoError(std::io::Error);

/// Largest number of bytes that is encoded as base64 in one piece.
pub const BASE64_MAX: usize = 0x3fff_ffff;

/// The PNG file that holds an image of the given width and height, with
/// four bytes per pixel in the order red, green, blue, alpha; none where
/// the encoder refuses the image.
pub uninterp spec fn png_encoding(width: u32, height: u32, pixels: Seq<u8>) -> Option<Seq<u8>>;

/// The base64 text of `bytes`, in the standard alphabet, with padding.
pub uninterp spec fn base64_text(bytes: Seq<u8>) -> Seq<char>;

/// The zlib stream that holds `bytes`, compressed at the default level;
/// none where the encoder fails.
pub uninterp spec fn zlib_stream(bytes: Seq<u8>) -> Option<Seq<u8>>;

/// Calls `image::codecs::png::PngEncoder::write_image` on a new vector, for
/// the colour type `Rgba8`. The encoder panics unless the buffer holds
/// exactly four bytes per pixel, which the precondition asks for. It
/// writes to memory, so that whether it succeeds, and what it writes,
/// depends on the image alone: the result is what `png_encoding` names.
#[verifier::external_body]
pub(crate) fn png_encode(width: u32, height: u32, pixels: &Vec<u8>) -> (r: Result<
    Vec<u8>,
    image::ImageError,
>)
    requires
        pixels@.len() == 4 * width * height,
    ensures
        match r {
            Ok(bytes) => png_encoding(width, height, pixels@) == Some(bytes@),
            Err(_) => png_encoding(width, height, pixels@) is None,
        },
{
    let mut bytes: Vec<u8> = Vec::new();
    let encoder = image::codecs::png::PngEncoder::new(&mut bytes);
    image::ImageEncoder::write_image(
        encoder,
        pixels,
        width,
        height,
        image::ExtendedColorType::Rgba8,
    )?;
    Ok(bytes)
}

/// Calls `base64::Engine::encode` of the engine `BASE64_STANDARD`. The
/// engine panics where the length of the text overflows `usize`, which the
/// precondition excludes. It returns the base64 text of the bytes.
#[verifier::external_body]
pub(crate) fn base64_encode(bytes: &Vec<u8>) -> (text: String)
    requires
        bytes@.len() <= BASE64_MAX,
    ensures
        text@ == base64_text(bytes@),
{
    base64::Engine::encode(&base64::prelude::BASE64_STANDARD, bytes)
}

/// Writes the bytes to a `flate2::write::ZlibEncoder` over a new vector, at
/// the default level, and finishes it. It writes to memory, so that
/// whether it succeeds, and what it writes, depends on the bytes alone:
/// the result is what `zlib_stream` names.
#[verifier::external_body]
pub(crate) fn zlib_compress(bytes: &Vec<u8>) -> (r: Result<Vec<u8>, std::io::Error>)
    ensures
        match r {
            Ok(stream) => zlib_stream(bytes@) == Some(stream@),
            Err(_) => zlib_stream(bytes@) is None,
        },
{
    let mut encoder = flate2::write::ZlibEncoder::new(Vec::new(), flate2::Compression::default());
    std::io::Write::write_all(&mut encoder, bytes)?;
    encoder.finish()
}

/// The pixels of an image without their alpha channel: of every four
/// bytes the first three.
pub open spec fn without_alpha(pixels: Seq<u8>) -> Seq<u8> {
    Seq::new((3 * (pixels.len() / 4)) as nat, |i: int| pixels[4 * (i / 3) + i % 3])
}

/// Removes the alpha channel of an image with four bytes per pixel.
pub fn strip_alpha(pixels: &Vec<u8>) -> (rgb: Vec<u8>)
    ensures
        rgb@ == without_alpha(pixels@),
{
    let len: usize = pixels.len();
    let count: usize = len / 4;
    let mut rgb: Vec<u8> = Vec::new();
    let mut p: usize = 0;
    while p < count
        invariant
            len == pixels@.len(),
            count == len / 4,
            p <= count,
            rgb@.len() == 3 * p,
            forall|i: int| 0 <= i < 3 * p ==> rgb@[i] == pixels@[4 * (i / 3) + i % 3],
        decreases count - p,
    {
        rgb.push(pixels[4 * p]);
        rgb.push(pixels[4 * p + 1]);
        rgb.push(pixels[4 * p + 2]);
        p += 1;
    }
    proof {
        assert(rgb@ =~= without_alpha(pixels@));
    }
    rgb
}

} // verus!
