use boilmaster::asset::{Error, Format};
use boilmaster::texture::{
    convert_texture, drop_alpha_bytes, gray_to_rgb_bytes, read, to_rgba_bytes, Bitmap, PixelLayout,
    Texture, TextureFormat, TextureKind,
};

fn texture(format: TextureFormat, width: u16, height: u16, data: Vec<u8>) -> Texture {
    Texture { kind: TextureKind::D2, format, width, height, data }
}

/// One BC1 block whose sixteen pixels all take the first endpoint, pure red.
fn red_block() -> Vec<u8> {
    vec![0x00, 0xF8, 0x1F, 0x00, 0, 0, 0, 0]
}

#[test]
fn bc1_texture_decompresses_to_rgba() {
    let image = read(&texture(TextureFormat::Bc1Unorm, 4, 4, red_block()), "a.tex").unwrap();
    assert_eq!(image.layout, PixelLayout::Rgba8);
    assert_eq!((image.width, image.height), (4, 4));
    assert_eq!(image.pixels.len(), 64);
    for pixel in image.pixels.chunks(4) {
        assert_eq!(pixel, &[255, 0, 0, 255]);
    }
}

#[test]
fn bc1_texture_smaller_than_a_block_keeps_its_size() {
    let image = read(&texture(TextureFormat::Bc1Unorm, 2, 3, red_block()), "a.tex").unwrap();
    assert_eq!(image.pixels, [255, 0, 0, 255].repeat(6));
}

#[test]
fn uncompressed_textures_decode() {
    let a8 = read(&texture(TextureFormat::A8Unorm, 2, 1, vec![7, 9]), "a.tex").unwrap();
    assert_eq!((a8.layout, a8.pixels), (PixelLayout::Luma8, vec![7, 9]));
    let bgra8 = read(&texture(TextureFormat::Bgra8Unorm, 1, 1, vec![1, 2, 3, 4]), "a.tex").unwrap();
    assert_eq!((bgra8.layout, bgra8.pixels), (PixelLayout::Rgba8, vec![3, 2, 1, 4]));
    let bgra4 = read(&texture(TextureFormat::Bgra4Unorm, 1, 1, vec![0x12, 0x34]), "a.tex").unwrap();
    assert_eq!(bgra4.pixels, vec![0x44, 0x11, 0x22, 0x33]);
}

#[test]
fn texture_errors() {
    let short = read(&texture(TextureFormat::A8Unorm, 2, 2, vec![1, 2, 3]), "a.tex").unwrap_err();
    assert!(matches!(short, Error::Failure(m) if m == "failed to build image buffer"));

    let cube = Texture {
        kind: TextureKind::Other("Cube".to_string()),
        format: TextureFormat::A8Unorm,
        width: 1,
        height: 1,
        data: vec![0],
    };
    let error = read(&cube, "a.tex").unwrap_err();
    assert!(matches!(error, Error::UnsupportedSource(p, r) if p == "a.tex" && r == "unhandled texture dimension Cube"));

    let other = texture(TextureFormat::Other("R32F".to_string()), 1, 1, vec![0; 4]);
    let error = read(&other, "b.tex").unwrap_err();
    assert!(matches!(error, Error::UnsupportedSource(p, r) if p == "b.tex" && r == "unhandled texture format R32F"));
}

#[test]
fn pixel_layout_conversions() {
    assert_eq!(drop_alpha_bytes(&vec![1, 2, 3, 4, 5, 6, 7, 8]), vec![1, 2, 3, 5, 6, 7]);
    assert_eq!(gray_to_rgb_bytes(&vec![9, 4]), vec![9, 9, 9, 4, 4, 4]);
    assert_eq!(to_rgba_bytes(PixelLayout::Luma8, vec![9]), vec![9, 9, 9, 255]);
    assert_eq!(to_rgba_bytes(PixelLayout::Rgb8, vec![1, 2, 3]), vec![1, 2, 3, 255]);
}

#[test]
fn bitmaps_encode_into_each_format() {
    let image = || Bitmap { width: 2, height: 2, layout: PixelLayout::Rgba8, pixels: [10, 20, 30, 128].repeat(4) };
    let png = boilmaster::texture::write(image(), Format::Png).unwrap();
    assert_eq!(&png[..8], &[137, 80, 78, 71, 13, 10, 26, 10]);
    let jpeg = boilmaster::texture::write(image(), Format::Jpeg).unwrap();
    assert_eq!(&jpeg[..2], &[0xFF, 0xD8]);
    let webp = boilmaster::texture::write(image(), Format::Webp).unwrap();
    assert_eq!(&webp[..4], b"RIFF");
    assert_eq!(&webp[8..12], b"WEBP");
    let grey = Bitmap { width: 1, height: 1, layout: PixelLayout::Luma8, pixels: vec![200] };
    assert_eq!(&boilmaster::texture::write(grey, Format::Jpeg).unwrap()[..2], &[0xFF, 0xD8]);
}

#[test]
fn empty_jpeg_is_refused() {
    let empty = Bitmap { width: 0, height: 0, layout: PixelLayout::Rgb8, pixels: vec![] };
    let error = boilmaster::texture::write(empty, Format::Jpeg).unwrap_err();
    assert!(matches!(error, Error::Failure(m) if m == "failed to write output buffer"));
}

#[test]
fn textures_convert_to_png() {
    let png = convert_texture(&texture(TextureFormat::Bc1Unorm, 4, 4, red_block()), "a.tex", Format::Png).unwrap();
    assert_eq!(&png[..8], &[137, 80, 78, 71, 13, 10, 26, 10]);
    let error = convert_texture(&texture(TextureFormat::A8Unorm, 2, 2, vec![1]), "a.tex", Format::Png).unwrap_err();
    assert!(matches!(error, Error::Failure(m) if m == "failed to build image buffer"));
}
