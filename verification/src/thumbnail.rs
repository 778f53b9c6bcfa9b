//! The picture of a preview: what it is drawn on, and how it is handed out.

use vstd::prelude::*;

use crate::facts::item_views;
use crate::preview::{
    background, missing_keys, report_missing, without_echoes, PreviewError, RenderedThumbnail,
    HEIGHT, WIDTH,
};
use crate::sorting::{reordered, sorted_order};

verus! {

/// How many pixels a preview has.
pub const PIXELS: usize = 19_200;

/// The file that `image::codecs::png::PngEncoder` writes for a picture of a size,
/// given red, green and blue of each pixel.
pub uninterp spec fn png_file(pixels: Seq<u8>, width: u32, height: u32) -> Option<Seq<u8>>;

/// `image::codecs::png::PngEncoder::write_image` for 8-bit RGB pixels. What the
/// file holds is left to the name. It is only called with three bytes for each
/// pixel: it panics on any other number.
#[verifier::external_body]
fn encode_png(pixels: &[u8], width: u32, height: u32) -> (out: Option<Vec<u8>>)
    requires
        pixels@.len() == width * height * 3,
    ensures
        match out {
            Some(file) => png_file(pixels@, width, height) == Some(file@),
            None => png_file(pixels@, width, height) is None,
        },
{
    let mut file = Vec::new();
    let encoder = image::codecs::png::PngEncoder::new(&mut file);
    let color = image::ExtendedColorType::Rgb8;
    image::ImageEncoder::write_image(encoder, pixels, width, height, color).ok()?;
    Some(file)
}

// ---------------------------------------------------------------------------
// Background
// ---------------------------------------------------------------------------
/// A byte of the background: each pixel is opaque and of one of two greys, in
/// squares of twelve pixels.
pub open spec fn background_byte(i: int) -> u8 {
    let pixel = i / 4;
    let (x, y) = (pixel % 160, pixel / 160);
    if i % 4 == 3 {
        255
    } else if (x / 12 + y / 12) % 2 == 0 {
        96
    } else {
        108
    }
}

/// What a preview is drawn on: red, green, blue and alpha of each pixel, row by
/// row.
pub fn checkerboard() -> (pixels: Vec<u8>)
    ensures
        pixels@ == Seq::new(4 * PIXELS as nat, |i: int| background_byte(i)),
{
    let mut pixels: Vec<u8> = Vec::new();
    let mut i: u32 = 0;
    while i < WIDTH * HEIGHT
        invariant
            i <= WIDTH * HEIGHT,
            pixels.len() == 4 * i,
            forall|k: int| 0 <= k < pixels.len() ==> #[trigger] pixels@[k] == background_byte(k),
        decreases WIDTH * HEIGHT - i,
    {
        let grey = background(i % WIDTH, i / WIDTH);
        pixels.push(grey);
        pixels.push(grey);
        pixels.push(grey);
        pixels.push(255);
        i += 1;
    }
    assert(pixels@ =~= Seq::new(4 * PIXELS as nat, |i: int| background_byte(i)));
    pixels
}

// ---------------------------------------------------------------------------
// Result
// ---------------------------------------------------------------------------
/// Pixels without their alpha.
pub open spec fn opaque(pixels: Seq<u8>) -> Seq<u8> {
    Seq::new(pixels.len() / 4 * 3, |i: int| pixels[i / 3 * 4 + i % 3])
}

/// Pixels without their alpha.
pub fn without_alpha(pixels: &[u8]) -> (out: Vec<u8>)
    ensures
        out@ == opaque(pixels@),
{
    let mut out: Vec<u8> = Vec::new();
    let mut i: usize = 0;
    while i < pixels.len() / 4
        invariant
            i <= pixels@.len() / 4,
            out.len() == 3 * i,
            forall|k: int|
                0 <= k < out.len() ==> #[trigger] out@[k] == pixels@[k / 3 * 4 + k % 3],
        decreases pixels@.len() / 4 - i,
    {
        out.push(pixels[4 * i]);
        out.push(pixels[4 * i + 1]);
        out.push(pixels[4 * i + 2]);
        i += 1;
    }
    assert(out@ =~= opaque(pixels@));
    out
}

/// The missing textures that a preview lists.
pub open spec fn listed(missing: Seq<Seq<char>>) -> Seq<Seq<char>> {
    without_echoes(reordered(missing, sorted_order(missing_keys(missing))))
}

/// A preview, given its file, if the picture could be encoded.
pub fn hand_out(file: Option<Vec<u8>>, missing: &Vec<String>) -> (out: Result<
    RenderedThumbnail,
    PreviewError,
>)
    ensures
        match file {
            Some(file) => out matches Ok(shown) && shown.png == file && item_views(
                shown.missing_textures@,
            ) == listed(item_views(missing@)),
            None => out matches Err(error) && error == PreviewError::Encoding,
        },
{
    match file {
        Some(png) => Ok(RenderedThumbnail { png, missing_textures: report_missing(missing) }),
        None => Err(PreviewError::Encoding),
    }
}

/// A preview, given red, green, blue and alpha of each of its pixels, row by row.
pub fn finish_thumbnail(pixels: &[u8], missing: &Vec<String>) -> (out: Result<
    RenderedThumbnail,
    PreviewError,
>)
    requires
        pixels@.len() == 4 * PIXELS,
    ensures
        match png_file(opaque(pixels@), WIDTH, HEIGHT) {
            Some(file) => out matches Ok(shown) && shown.png@ == file && item_views(
                shown.missing_textures@,
            ) == listed(item_views(missing@)),
            None => out matches Err(error) && error == PreviewError::Encoding,
        },
{
    let picture = without_alpha(pixels);
    hand_out(encode_png(picture.as_slice(), WIDTH, HEIGHT), missing)
}

} // verus!
