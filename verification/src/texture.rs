//! Textures of a preview: which files can be used as one, and what stands in for
//! those that cannot.

use std::io::Cursor;

use vstd::prelude::*;
use vstd::string::*;

use crate::facts::item_views;
use crate::preview::{
    fits_texture, missing_pixel, texture_fits, PreviewError, TextureBudget, MAX_RENDER_TEXTURE_PIXELS,
    MAX_TEXTURE_BYTES, MAX_TEXTURE_SIDE,
};

verus! {

/// The file name extension of the format that `image::guess_format` finds for
/// bytes.
pub uninterp spec fn guessed_format(bytes: Seq<u8>) -> Option<Seq<char>>;

/// What the `image` crate decodes bytes of a format to, under limits on the sides
/// of the picture and on what is allocated: width, height and RGBA pixels.
pub uninterp spec fn decoded_image(
    bytes: Seq<u8>,
    format: Seq<char>,
    side: u32,
    alloc: u64,
) -> Option<(u32, u32, Seq<u8>)>;

/// `image::guess_format`, with the format written as its first file name extension
/// (`ImageFormat::extensions_str`). Which bytes are of which format is left to the
/// name.
#[verifier::external_body]
fn guess_format(bytes: &[u8]) -> (out: Option<String>)
    ensures
        match out {
            Some(format) => guessed_format(bytes@) == Some(format@),
            None => guessed_format(bytes@) is None,
        },
{
    image::guess_format(bytes).ok().map(|format| format.extensions_str()[0].to_string())
}

/// `image::ImageReader::decode` for the format with a file name extension
/// (`ImageFormat::from_extension`), as RGBA (`DynamicImage::into_rgba8`). What a
/// picture decodes to is left to the name; there are four bytes for each pixel.
#[verifier::external_body]
fn decode_image(bytes: &[u8], format: &str, side: u32, alloc: u64) -> (out: Option<Texture>)
    requires
        side <= MAX_TEXTURE_SIDE,
    ensures
        match out {
            Some(texture) => decoded_image(bytes@, format@, side, alloc) == Some(texture@)
                && texture.pixels@.len() == texture.width * texture.height * 4,
            None => decoded_image(bytes@, format@, side, alloc) is None,
        },
{
    let format = image::ImageFormat::from_extension(format)?;
    let mut reader = image::ImageReader::with_format(Cursor::new(bytes), format);
    let mut limits = image::Limits::default();
    limits.max_image_width = Some(side);
    limits.max_image_height = Some(side);
    limits.max_alloc = Some(alloc);
    reader.limits(limits);
    let picture = reader.decode().ok()?.into_rgba8();
    Some(Texture { width: picture.width(), height: picture.height(), pixels: picture.into_raw() })
}

/// A texture: its size, and red, green, blue and alpha of each pixel, row by row.
#[derive(Debug)]
pub struct Texture {
    pub width: u32,
    pub height: u32,
    pub pixels: Vec<u8>,
}

impl View for Texture {
    type V = (u32, u32, Seq<u8>);

    open spec fn view(&self) -> (u32, u32, Seq<u8>) {
        (self.width, self.height, self.pixels@)
    }
}

/// Why a file is no texture.
#[derive(Debug, Clone, Copy, PartialEq, Eq, Structural)]
pub enum TextureError {
    /// It cannot be decoded.
    Unsupported,
    /// It is too large.
    TooLarge,
}

/// The format to decode a file as: what its bytes tell, and else TGA, whose files
/// have no mark.
pub open spec fn format_or_tga(guess: Option<Seq<char>>) -> Seq<char> {
    match guess {
        Some(format) => format,
        None => "tga"@,
    }
}

/// The format to decode a file as, given what its bytes tell.
pub fn texture_format(guess: Option<String>) -> (out: String)
    ensures
        out@ == format_or_tga(
            match guess {
                Some(format) => Some(format@),
                None => None,
            },
        ),
{
    match guess {
        Some(format) => format,
        None => "tga".to_string(),
    }
}

/// What becomes of a decoded picture: only some sizes can be used.
pub open spec fn checked(decoded: Option<(u32, u32, Seq<u8>)>) -> Result<
    (u32, u32, Seq<u8>),
    TextureError,
> {
    match decoded {
        Some(picture) => if texture_fits(picture.0, picture.1) {
            Ok(picture)
        } else {
            Err(TextureError::TooLarge)
        },
        None => Err(TextureError::Unsupported),
    }
}

pub open spec fn opt_texture(texture: Option<Texture>) -> Option<(u32, u32, Seq<u8>)> {
    match texture {
        Some(texture) => Some(texture@),
        None => None,
    }
}

/// Whether a decoded picture can be used as a texture.
pub fn checked_texture(decoded: Option<Texture>) -> (out: Result<Texture, TextureError>)
    ensures
        match out {
            Ok(texture) => checked(opt_texture(decoded)) == Ok::<_, TextureError>(texture@)
                && decoded == Some(texture),
            Err(error) => checked(opt_texture(decoded)) == Err::<(u32, u32, Seq<u8>), _>(error),
        },
{
    match decoded {
        Some(texture) => {
            if fits_texture(texture.width, texture.height) {
                Ok(texture)
            } else {
                Err(TextureError::TooLarge)
            }
        },
        None => Err(TextureError::Unsupported),
    }
}

/// The texture that a file holds.
pub open spec fn texture_in(bytes: Seq<u8>) -> Result<(u32, u32, Seq<u8>), TextureError> {
    checked(
        decoded_image(
            bytes,
            format_or_tga(guessed_format(bytes)),
            MAX_TEXTURE_SIDE,
            MAX_TEXTURE_BYTES,
        ),
    )
}

/// The texture that a file holds.
pub fn decode_texture(bytes: &[u8]) -> (out: Result<Texture, TextureError>)
    ensures
        match out {
            Ok(texture) => texture_in(bytes@) == Ok::<_, TextureError>(texture@)
                && texture.pixels@.len() == texture.width * texture.height * 4,
            Err(error) => texture_in(bytes@) == Err::<(u32, u32, Seq<u8>), _>(error),
        },
{
    let format = texture_format(guess_format(bytes));
    checked_texture(decode_image(bytes, &format, MAX_TEXTURE_SIDE, MAX_TEXTURE_BYTES))
}

// ---------------------------------------------------------------------------
// Missing textures
// ---------------------------------------------------------------------------
/// The width and the height of the stand-in for a missing texture.
pub const STAND_IN_SIDE: u32 = 8;

/// A byte of the stand-in: a checkerboard of magenta and near black.
pub open spec fn stand_in_byte(i: int) -> u8 {
    let pixel = i / 4;
    let (x, y) = (pixel % 8, pixel / 8);
    if i % 4 == 3 {
        255
    } else if (x / 2 + y / 2) % 2 != 0 {
        25
    } else if i % 4 == 1 {
        0
    } else {
        255
    }
}

/// The stand-in for a missing texture.
pub open spec fn stand_in() -> (u32, u32, Seq<u8>) {
    (STAND_IN_SIDE, STAND_IN_SIDE, Seq::new(256, |i: int| stand_in_byte(i)))
}

/// The stand-in for a missing texture.
pub fn missing_texture() -> (texture: Texture)
    ensures
        texture@ == stand_in(),
{
    let mut pixels: Vec<u8> = Vec::new();
    let mut i: u32 = 0;
    while i < 64
        invariant
            i <= 64,
            pixels.len() == 4 * i,
            forall|k: int| 0 <= k < pixels.len() ==> #[trigger] pixels@[k] == stand_in_byte(k),
        decreases 64 - i,
    {
        let (red, green, blue) = missing_pixel(i % STAND_IN_SIDE, i / STAND_IN_SIDE);
        pixels.push(red);
        pixels.push(green);
        pixels.push(blue);
        pixels.push(255);
        i += 1;
    }
    let texture = Texture { width: STAND_IN_SIDE, height: STAND_IN_SIDE, pixels };
    assert(texture@.2 =~= stand_in().2);
    texture
}

/// What is drawn for a texture, given what its file holds.
pub open spec fn drawn(found: Option<(u32, u32, Seq<u8>)>) -> (u32, u32, Seq<u8>) {
    match found {
        Some(texture) => texture,
        None => stand_in(),
    }
}

/// Whether the pixels of a texture are within the budget.
pub open spec fn affordable(budget: TextureBudget, texture: (u32, u32, Seq<u8>)) -> bool {
    budget.used() + texture.0 * texture.1 <= MAX_RENDER_TEXTURE_PIXELS
}

/// Take a texture into a preview, given what its file holds: one that cannot be
/// had is missing and has a stand-in. The pixels of what is drawn count.
pub fn take_texture(
    budget: &mut TextureBudget,
    name: &str,
    found: Option<Texture>,
    missing: &mut Vec<String>,
) -> (out: Result<Texture, PreviewError>)
    requires
        old(budget).used() <= MAX_RENDER_TEXTURE_PIXELS,
    ensures
        ({
            let texture = drawn(opt_texture(found));
            &&& item_views(final(missing)@) == if found is Some {
                item_views(old(missing)@)
            } else {
                item_views(old(missing)@).push(name@)
            }
            &&& final(budget).names() == old(budget).names()
            &&& final(budget).used() <= MAX_RENDER_TEXTURE_PIXELS
            &&& if affordable(*old(budget), texture) {
                &&& out matches Ok(taken) && taken@ == texture
                &&& final(budget).used() == old(budget).used() + texture.0 * texture.1
            } else {
                &&& out matches Err(error) && error == PreviewError::TextureMemory
                &&& final(budget).used() == old(budget).used()
            }
        }),
{
    let ghost before = item_views(missing@);
    let texture = match found {
        Some(texture) => texture,
        None => {
            missing.push(name.to_string());
            assert(item_views(missing@) =~= before.push(name@));
            missing_texture()
        },
    };
    match budget.charge(texture.width, texture.height) {
        Ok(()) => Ok(texture),
        Err(error) => Err(error),
    }
}

/// What a file holds, if it was read.
pub open spec fn texture_read(bytes: Option<Seq<u8>>) -> Option<(u32, u32, Seq<u8>)> {
    match bytes {
        Some(bytes) => match texture_in(bytes) {
            Ok(texture) => Some(texture),
            Err(_) => None,
        },
        None => None,
    }
}

/// Take a texture into a preview, given the contents of its file, if it was read.
/// A file that is no texture counts as missing.
pub fn load_texture(
    budget: &mut TextureBudget,
    name: &str,
    bytes: Option<Vec<u8>>,
    missing: &mut Vec<String>,
) -> (out: Result<Texture, PreviewError>)
    requires
        old(budget).used() <= MAX_RENDER_TEXTURE_PIXELS,
    ensures
        ({
            let found = texture_read(
                match bytes {
                    Some(bytes) => Some(bytes@),
                    None => None,
                },
            );
            let texture = drawn(found);
            &&& item_views(final(missing)@) == if found is Some {
                item_views(old(missing)@)
            } else {
                item_views(old(missing)@).push(name@)
            }
            &&& final(budget).names() == old(budget).names()
            &&& final(budget).used() <= MAX_RENDER_TEXTURE_PIXELS
            &&& if affordable(*old(budget), texture) {
                &&& out matches Ok(taken) && taken@ == texture
                &&& final(budget).used() == old(budget).used() + texture.0 * texture.1
            } else {
                &&& out matches Err(error) && error == PreviewError::TextureMemory
                &&& final(budget).used() == old(budget).used()
            }
        }),
{
    let found = match bytes {
        Some(bytes) => match decode_texture(bytes.as_slice()) {
            Ok(texture) => Some(texture),
            Err(_) => None,
        },
        None => None,
    };
    take_texture(budget, name, found, missing)
}

} // verus!
