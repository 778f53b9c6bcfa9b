//! Textures: which files can be used as one, and what stands in for the others.

use std::io::Cursor;

use image::{DynamicImage, ImageFormat, Rgba, RgbaImage};
use zerosyntax::preview::{report_missing, PreviewError, TextureBudget, HEIGHT, WIDTH};
use zerosyntax::texture::{
    checked_texture, decode_texture, load_texture, missing_texture, take_texture, texture_format,
    Texture, TextureError,
};
use zerosyntax::thumbnail::{checkerboard, finish_thumbnail, hand_out, without_alpha, PIXELS};

fn png(width: u32, height: u32) -> Vec<u8> {
    let picture = RgbaImage::from_fn(width, height, |x, y| Rgba([x as u8, y as u8, 7, 200]));
    let mut bytes = Cursor::new(Vec::new());
    DynamicImage::ImageRgba8(picture)
        .write_to(&mut bytes, ImageFormat::Png)
        .unwrap();
    bytes.into_inner()
}

/// An uncompressed TGA file of two pixels side by side.
fn tga() -> Vec<u8> {
    let mut bytes = vec![0u8; 18];
    bytes[2] = 2;
    bytes[12] = 2;
    bytes[14] = 1;
    bytes[16] = 24;
    bytes[17] = 0x20;
    bytes.extend([1, 2, 3, 40, 50, 60]);
    bytes
}

#[test]
fn png_files_are_textures() {
    let texture = decode_texture(&png(3, 2)).unwrap();
    assert_eq!((texture.width, texture.height), (3, 2));
    assert_eq!(texture.pixels.len(), 24);
    assert_eq!(texture.pixels[..4], [0, 0, 7, 200]);
    assert_eq!(texture.pixels[20..], [2, 1, 7, 200]);
}

#[test]
fn files_without_a_mark_are_read_as_tga() {
    let texture = decode_texture(&tga()).unwrap();
    assert_eq!((texture.width, texture.height), (2, 1));
    assert_eq!(texture.pixels, vec![3, 2, 1, 255, 60, 50, 40, 255]);
    assert_eq!(texture_format(None), "tga");
    assert_eq!(texture_format(Some("png".to_string())), "png");
}

#[test]
fn other_files_are_no_textures() {
    assert_eq!(decode_texture(b"").unwrap_err(), TextureError::Unsupported);
    assert_eq!(decode_texture(b"; no picture").unwrap_err(), TextureError::Unsupported);
    let mut cut = png(3, 2);
    cut.truncate(20);
    assert_eq!(decode_texture(&cut).unwrap_err(), TextureError::Unsupported);
    // A picture of a known format that is not read.
    assert_eq!(decode_texture(b"GIF89a").unwrap_err(), TextureError::Unsupported);
}

#[test]
fn large_pictures_are_no_textures() {
    assert!(decode_texture(&png(4096, 1)).is_ok());
    assert!(decode_texture(&png(4097, 1)).is_err());
    assert!(decode_texture(&png(1, 4097)).is_err());
    let wide = Texture {
        width: 4097,
        height: 1,
        pixels: vec![0; 4097 * 4],
    };
    assert_eq!(checked_texture(Some(wide)).unwrap_err(), TextureError::TooLarge);
    assert_eq!(checked_texture(None).unwrap_err(), TextureError::Unsupported);
}

#[test]
fn missing_textures_are_a_checkerboard() {
    let texture = missing_texture();
    assert_eq!((texture.width, texture.height), (8, 8));
    assert_eq!(texture.pixels.len(), 256);
    assert_eq!(texture.pixels[..12], [255, 0, 255, 255, 255, 0, 255, 255, 25, 25, 25, 255]);
    // Two rows down the colors are the other way round.
    assert_eq!(texture.pixels[64..68], [25, 25, 25, 255]);
}

#[test]
fn textures_count_with_the_size_of_what_is_drawn() {
    let mut budget = TextureBudget::new();
    let mut missing = Vec::new();
    let drawn = load_texture(&mut budget, "b.tga", Some(tga()), &mut missing).unwrap();
    assert_eq!((drawn.width, drawn.height), (2, 1));
    assert!(missing.is_empty());
    // What is not read and what is no texture are missing alike.
    let drawn = load_texture(&mut budget, "c.tga", None, &mut missing).unwrap();
    assert_eq!((drawn.width, drawn.height), (8, 8));
    let drawn = load_texture(&mut budget, "a.tga", Some(vec![1]), &mut missing).unwrap();
    assert_eq!(drawn.pixels, missing_texture().pixels);
    assert_eq!(report_missing(&missing), vec!["a.tga", "c.tga"]);
    // Two pixels and two stand-ins are taken: as much is left as is missing here.
    assert_eq!(budget.charge(4096, 4095), Ok(()));
    assert_eq!(budget.charge(1, 4096 - 2 - 64 - 64 - 1), Ok(()));
    assert_eq!(
        load_texture(&mut budget, "d.tga", Some(tga()), &mut missing).unwrap_err(),
        PreviewError::TextureMemory
    );
    let dot = Texture {
        width: 1,
        height: 1,
        pixels: vec![9; 4],
    };
    let drawn = take_texture(&mut budget, "e.tga", Some(dot), &mut missing).unwrap();
    assert_eq!(drawn.pixels, vec![9; 4]);
    assert_eq!(
        take_texture(&mut budget, "f.tga", None, &mut missing).unwrap_err(),
        PreviewError::TextureMemory
    );
    assert_eq!(missing.len(), 3);
}

#[test]
fn previews_are_drawn_on_a_checkerboard() {
    let pixels = checkerboard();
    assert_eq!(pixels.len(), 4 * PIXELS);
    assert_eq!(PIXELS, (WIDTH * HEIGHT) as usize);
    assert_eq!(pixels[..4], [96, 96, 96, 255]);
    assert_eq!(pixels[12 * 4..13 * 4], [108, 108, 108, 255]);
    let below = 12 * 160 * 4;
    assert_eq!(pixels[below..below + 4], [108, 108, 108, 255]);
}

#[test]
fn previews_are_handed_out_as_opaque_png_files() {
    assert_eq!(without_alpha(&[1, 2, 3, 4, 5, 6, 7, 8]), vec![1, 2, 3, 5, 6, 7]);
    let mut pixels = checkerboard();
    pixels[..4].copy_from_slice(&[9, 8, 7, 6]);
    let missing = vec!["b.tga".to_string(), "a.tga".to_string(), "B.tga".to_string()];
    let shown = finish_thumbnail(&pixels, &missing).unwrap();
    assert_eq!(shown.missing_textures, vec!["a.tga", "b.tga"]);
    // The file reads back as the picture.
    let read = decode_texture(&shown.png).unwrap();
    assert_eq!((read.width, read.height), (WIDTH, HEIGHT));
    assert_eq!(read.pixels[..4], [9, 8, 7, 255]);
    assert_eq!(read.pixels[4..], pixels[4..]);
    assert_eq!(hand_out(Some(vec![1]), &missing).unwrap().png, vec![1]);
    assert_eq!(hand_out(None, &missing).unwrap_err(), PreviewError::Encoding);
}
