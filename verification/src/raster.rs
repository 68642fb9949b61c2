//! Page images as raw bytes, and the work on them that the `image` crate does.
use image::ImageError;
use vstd::prelude::*;

verus! {

/// The error type of the `image` crate.
#[verifier::external_type_specification]
#[verifier::external_body]
pub struct ExImageError(ImageError);

/// The bytes of the PNG file that the `image` crate's encoder, at its default settings,
/// makes of the `width` by `height` image whose 8-bit RGB samples begin `samples`.
pub uninterp spec fn png_file(width: u32, height: u32, samples: Seq<u8>) -> Seq<u8>;

/// The RGB samples of `count` pixels given as RGBA: of each pixel the first three of its
/// four bytes.
pub open spec fn without_alpha(rgba: Seq<u8>, count: nat) -> Seq<u8> {
    Seq::new(3 * count, |i: int| rgba[4 * (i / 3) + i % 3])
}

/// Encodes 8-bit RGB samples as a PNG file in memory.
///
/// Calls `image::ImageBuffer::from_raw` to take the samples as an image, which it
/// refuses where they are fewer than the dimensions ask for, or where the samples of a
/// row are more than a `usize` can count, and then `image::ImageBuffer::write_to`. Claimed
/// of the latter: it fails exactly on an image without width or height, which PNG cannot
/// hold, and else writes a file that depends on the dimensions and the samples alone, and
/// not on samples beyond the image. Its bytes are named, not described.
///
/// The encoder counts the zero bytes that follow each other within a row, which starts
/// with a byte of its own, in 32 bits, and may panic where they are more. An image to be
/// encoded therefore has shorter rows.
#[verifier::external_body]
pub(crate) fn encode_png(width: u32, height: u32, samples: Vec<u8>) -> (r: Option<
    Result<Vec<u8>, ImageError>,
>)
    requires
        width > 0 && height > 0 && samples@.len() >= 3 * width * height ==> 3 * width < u32::MAX,
    ensures
        r is None <==> samples@.len() < 3 * width * height || 3 * width > usize::MAX,
        r matches Some(encoded) ==> (encoded is Err <==> width == 0 || height == 0),
        r matches Some(Ok(file)) ==> file@ == png_file(width, height, samples@),
        r matches Some(Ok(file)) ==> file@ == png_file(
            width,
            height,
            samples@.take(3 * width * height),
        ),
{
    let img = image::RgbImage::from_raw(width, height, samples)?;
    let mut file = Vec::new();
    let written = img.write_to(&mut std::io::Cursor::new(&mut file), image::ImageFormat::Png);
    Some(written.map(|_| file))
}

/// Drops the alpha channel of 8-bit RGBA samples.
///
/// Calls `image::ImageBuffer::from_raw` to take the samples as an image, which it
/// refuses where they are fewer than the dimensions ask for, or where the samples of a
/// row are more than a `usize` can count, and then `image::DynamicImage::to_rgb8`. Claimed
/// of the latter: it copies the red, green and blue byte of each pixel, row by row, and
/// hands on no samples beyond the image.
#[verifier::external_body]
pub(crate) fn drop_alpha(width: u32, height: u32, samples: Vec<u8>) -> (r: Option<Vec<u8>>)
    ensures
        r is None <==> samples@.len() < 4 * width * height || 4 * width > usize::MAX,
        r matches Some(rgb) ==> rgb@ == without_alpha(samples@, (width * height) as nat),
{
    image::RgbaImage::from_raw(width, height, samples).map(
        |img| image::DynamicImage::ImageRgba8(img).to_rgb8().into_raw(),
    )
}

/// Dropping the alpha channel keeps each pixel in its place and in its colour.
pub proof fn law_pixels_keep_their_colour(rgba: Seq<u8>, count: nat, pixel: int, channel: int)
    requires
        0 <= pixel < count,
        0 <= channel < 3,
    ensures
        without_alpha(rgba, count).len() == 3 * count,
        without_alpha(rgba, count)[3 * pixel + channel] == rgba[4 * pixel + channel],
{
    let i = 3 * pixel + channel;
    assert(i / 3 == pixel && i % 3 == channel);
}

} // verus!
