//! Image files: the two calls into the `image` crate that turn pixels into
//! the bytes of a file. Nothing here is proved; each contract says what the
//! crate is taken to do where memory does not run out.

use image::codecs::gif::GifEncoder;
use image::codecs::webp::WebPEncoder;
use image::{ExtendedColorType, Frame, ImageError, RgbaImage};
use vstd::prelude::*;

verus! {

/// The largest width and height that a WebP file can have.
pub const WEBP_MAX_SIDE: u32 = 16384;

/// Whether a WebP file can have the given width and height.
pub open spec fn webp_sides(width: u32, height: u32) -> bool {
    1 <= width <= WEBP_MAX_SIDE && 1 <= height <= WEBP_MAX_SIDE
}

/// The pixels of each picture.
pub open spec fn pictures(frames: Seq<Vec<u8>>) -> Seq<Seq<u8>> {
    frames.map_values(|frame: Vec<u8>| frame@)
}

/// `image::ImageError`, which the encoders fail with.
#[verifier::external_type_specification]
#[verifier::external_body]
pub struct ExImageError(image::ImageError);

/// The bytes of the lossless WebP file that `image` writes for a picture of
/// the given width and height with the given RGBA pixels, if it writes one.
pub uninterp spec fn webp_encoding(width: u32, height: u32, pixels: Seq<u8>) -> Option<Seq<u8>>;

/// The bytes of the GIF file that `image` writes for pictures of the given
/// width and height with the given RGBA pixels, shown one after the other,
/// if it writes one.
pub uninterp spec fn gif_encoding(width: u32, height: u32, frames: Seq<Seq<u8>>) -> Option<
    Seq<u8>,
>;

/// Calls `image::codecs::webp::WebPEncoder::encode` on a new lossless
/// encoder that writes into memory.
///
/// The call panics if there are not four bytes for each pixel, which the
/// `requires` rules out. What it returns depends on its arguments alone and
/// is given the name `webp_encoding`. It fails if and only if a side is 0 or
/// longer than `WEBP_MAX_SIDE`: the encoder tests this before it writes, and
/// writing into memory does not fail.
#[verifier::external_body]
pub(crate) fn encode_webp(width: u32, height: u32, pixels: &[u8])
    -> (bytes: Result<Vec<u8>, ImageError>)
    requires
        pixels@.len() == width * height * 4,
    ensures
        bytes matches Ok(b) ==> webp_encoding(width, height, pixels@) == Some(b@),
        bytes is Err ==> webp_encoding(width, height, pixels@) is None,
        (bytes is Ok) == webp_sides(width, height),
{
    let mut bytes = Vec::new();
    WebPEncoder::new_lossless(&mut bytes).encode(pixels, width, height, ExtendedColorType::Rgba8)?;
    Ok(bytes)
}

/// Calls `image::codecs::gif::GifEncoder::encode_frames` on a new encoder
/// that writes into memory, with each picture as an `image::Frame` without
/// delay.
///
/// The call panics if a picture has not four bytes for each pixel, which the
/// `requires` rules out; pictures without pixels are left out as well. What
/// the call returns depends on its arguments alone and is given the name
/// `gif_encoding`.
#[verifier::external_body]
pub(crate) fn encode_gif(width: u32, height: u32, frames: &Vec<Vec<u8>>)
    -> (bytes: Result<Vec<u8>, ImageError>)
    requires
        1 <= width,
        1 <= height,
        forall|i: int|
            0 <= i < frames@.len() ==> (#[trigger] frames@[i])@.len() == width * height * 4,
    ensures
        bytes matches Ok(b) ==> gif_encoding(width, height, pictures(frames@)) == Some(b@),
        bytes is Err ==> gif_encoding(width, height, pictures(frames@)) is None,
{
    let mut bytes = Vec::new();
    let pictures = frames.iter().map(
        |pixels| Frame::new(RgbaImage::from_raw(width, height, pixels.clone()).unwrap()),
    );
    GifEncoder::new(&mut bytes).encode_frames(pictures)?;
    Ok(bytes)
}

} // verus!
