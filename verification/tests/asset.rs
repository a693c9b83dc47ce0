use boilmaster::asset::{
    compose_map, conversion_for_extension, disposition, disposition_for_name, etag, example_format, example_path, map_texture_paths, Converter, Error,
    Format, Image, Service, SourceKind,
};
use boilmaster::texture::{Bitmap, PixelLayout};
use boilmaster::data::Data;
use boilmaster::version::VersionKey;

#[test]
fn format_extensions_roundtrip() {
    for format in [Format::Jpeg, Format::Png, Format::Webp] {
        assert_eq!(Format::from_str(format.extension()).ok(), Some(format));
    }
    assert_eq!(Format::Jpeg.extension(), "jpg");
    assert_eq!(Format::Png.extension(), "png");
    assert_eq!(Format::Webp.extension(), "webp");
    match Format::from_str("gif") {
        Err(Error::UnknownFormat(name)) => assert_eq!(name, "gif"),
        _ => panic!("expected an unknown format"),
    }
}

#[test]
fn textures_convert_and_other_files_do_not() {
    let key = VersionKey(1);
    let ok = conversion_for_extension(Some("tex"), key, "ui/icon/a.tex", Format::Png).expect("texture");
    assert_eq!(ok.source, SourceKind::Texture);
    assert_eq!(ok.path, "ui/icon/a.tex");
    assert_eq!(ok.format, Format::Png);
    assert!(conversion_for_extension(Some("atex"), key, "a.atex", Format::Webp).is_ok());
    match conversion_for_extension(Some("exd"), key, "a.exd", Format::Png) {
        Err(Error::InvalidConversion(extension, format)) => {
            assert_eq!(extension, "exd");
            assert_eq!(format, Format::Png);
        },
        _ => panic!("expected an invalid conversion"),
    }
    match conversion_for_extension(None, key, "noextension", Format::Jpeg) {
        Err(Error::InvalidConversion(extension, _)) => assert_eq!(extension, "(none)"),
        _ => panic!("expected an invalid conversion"),
    }
}

#[test]
fn image_converter_reads_the_path_extension() {
    let key = VersionKey(2);
    assert!(Image.convert(key, "ui/icon/051000/051474_hr1.tex", Format::Png).is_ok());
    assert!(Image.convert(key, "chara/x.atex", Format::Png).is_ok());
    assert!(Image.convert(key, "exd/root.exl", Format::Png).is_err());
    assert!(Image.convert(key, "ui/.tex", Format::Png).is_err());
}

#[test]
fn service_needs_loaded_data() {
    let service = Service::new(Data::new(vec![VersionKey(5)]));
    assert!(service.ready());
    match service.convert(VersionKey(6), "a.tex", Format::Png) {
        Err(Error::Failure(message)) => assert_eq!(message, "data for 0000000000000006 not ready"),
        _ => panic!("expected a failure"),
    }
    let conversion = service.convert(VersionKey(5), "a.tex", Format::Png).expect("converts");
    assert_eq!(conversion.version, VersionKey(5));
    assert!(Format::Png.converter().convert(VersionKey(5), "b.tex", Format::Png).is_ok());
}

#[test]
fn etag_hashes_path_and_extension() {
    let hash = seahash::hash(b"ui/a.tex\xffpng\xff");
    let expected = format!("\"{hash:016x}.{:016x}.2\"", 0xabcu64);
    assert_eq!(etag("ui/a.tex", Format::Png, VersionKey(0xabc)), expected);
    assert_ne!(etag("ui/a.tex", Format::Png, VersionKey(1)), etag("ui/a.tex", Format::Webp, VersionKey(1)));
}

#[test]
fn documentation_examples() {
    assert_eq!(example_path(), "ui/icon/051000/051474_hr1.tex");
    assert_eq!(example_format(), Format::Png);
}

#[test]
fn asset_error_messages() {
    assert_eq!(Error::NotFound("a.tex".to_string()).message(), "no file found at a.tex");
    assert_eq!(Error::InvalidConversion("exd".to_string(), Format::Png).message(), "cannot convert exd files to png");
    assert_eq!(Error::UnknownFormat("gif".to_string()).message(), "unknown format \"gif\"");
    assert_eq!(
        Error::UnsupportedSource("a.tex".to_string(), "odd".to_string()).message(),
        "unsupported source file a.tex: odd"
    );
}

#[test]
fn map_textures_are_named_after_territory_and_index() {
    let (map, background) = map_texture_paths("s1d1", "00");
    assert_eq!(map, "ui/map/s1d1/00/s1d100_m.tex");
    assert_eq!(background, "ui/map/s1d1/00/s1d100m_m.tex");
}

fn bitmap(width: u32, height: u32, layout: PixelLayout, pixels: Vec<u8>) -> Bitmap {
    Bitmap { width, height, layout, pixels }
}

#[test]
fn map_without_background_is_kept() {
    let composed = compose_map(
        bitmap(1, 1, PixelLayout::Rgba8, vec![10, 20, 30, 40]),
        Err(Error::NotFound("x".to_string())),
    )
    .unwrap();
    assert_eq!(composed.layout, PixelLayout::Rgba8);
    assert_eq!(composed.pixels, vec![10, 20, 30, 40]);
}

#[test]
fn map_is_multiplied_by_background() {
    let composed = compose_map(
        bitmap(1, 2, PixelLayout::Rgba8, vec![255, 128, 0, 255, 100, 200, 255, 1]),
        Ok(bitmap(1, 2, PixelLayout::Rgba8, vec![255, 255, 77, 128, 51, 102, 255, 255])),
    )
    .unwrap();
    assert_eq!((composed.width, composed.height), (1, 2));
    assert_eq!(composed.pixels, vec![255, 128, 0, 128, 20, 80, 255, 1]);
}

#[test]
fn grey_map_is_composed_as_rgba() {
    let composed = compose_map(
        bitmap(2, 1, PixelLayout::Luma8, vec![255, 51]),
        Ok(bitmap(2, 1, PixelLayout::Rgb8, vec![255, 0, 255, 255, 255, 255])),
    )
    .unwrap();
    assert_eq!(composed.pixels, vec![255, 0, 255, 255, 51, 51, 51, 255]);
}

#[test]
fn map_and_background_must_match() {
    let error = compose_map(
        bitmap(1, 1, PixelLayout::Rgba8, vec![0; 4]),
        Ok(bitmap(2, 1, PixelLayout::Rgba8, vec![0; 8])),
    )
    .unwrap_err();
    assert!(matches!(error, Error::Failure(m) if m == "map and background dimensions differ"));
    let error = compose_map(
        bitmap(1, 1, PixelLayout::Rgba8, vec![0; 4]),
        Err(Error::Failure("broken".to_string())),
    )
    .unwrap_err();
    assert!(matches!(error, Error::Failure(m) if m == "broken"));
}

#[test]
fn map_textures_need_loaded_data() {
    let key = VersionKey(0x42);
    let service = Service::new(Data::new(vec![key]));
    let (map, background) = service.map(key, "s1d1", "01").unwrap();
    assert_eq!(map, "ui/map/s1d1/01/s1d101_m.tex");
    assert_eq!(background, "ui/map/s1d1/01/s1d101m_m.tex");
    let error = service.map(VersionKey(7), "s1d1", "01").unwrap_err();
    assert!(matches!(error, Error::Failure(m) if m == "data for 0000000000000007 not ready"));
}

#[test]
fn image_converter_reads_bare_file_names() {
    let key = VersionKey(1);
    let ok = Image.convert(key, "icon.tex", Format::Webp).unwrap();
    assert_eq!((ok.path.as_str(), ok.format, ok.source), ("icon.tex", Format::Webp, SourceKind::Texture));
    assert!(matches!(Image.convert(key, "icon", Format::Png), Err(Error::InvalidConversion(x, Format::Png)) if x == "(none)"));
    assert!(matches!(Image.convert(key, ".tex", Format::Png), Err(Error::InvalidConversion(x, _)) if x == "(none)"));
    assert!(matches!(Image.convert(key, "a.b.png", Format::Png), Err(Error::InvalidConversion(x, _)) if x == "png"));
}

#[test]
fn service_converts_game_paths_by_their_extension() {
    let service = Service::new(Data::new(vec![VersionKey(5)]));
    let ok = service.convert(VersionKey(5), "ui/icon/051000/051474_hr1.tex", Format::Webp).expect("converts");
    assert_eq!(ok.path, "ui/icon/051000/051474_hr1.tex");
    assert_eq!(ok.format, Format::Webp);
    assert_eq!(ok.source, SourceKind::Texture);
    match service.convert(VersionKey(5), "ui/icon/051000/051474_hr1.png", Format::Png) {
        Err(Error::InvalidConversion(extension, format)) => {
            assert_eq!(extension, "png");
            assert_eq!(format, Format::Png);
        },
        _ => panic!("expected an invalid conversion"),
    }
    match service.convert(VersionKey(5), "ui/icon/readme", Format::Jpeg) {
        Err(Error::InvalidConversion(extension, _)) => assert_eq!(extension, "(none)"),
        _ => panic!("expected an invalid conversion"),
    }
    match service.convert(VersionKey(5), "ui/icon.d/name", Format::Jpeg) {
        Err(Error::InvalidConversion(extension, _)) => assert_eq!(extension, "(none)"),
        _ => panic!("expected an invalid conversion"),
    }
    assert!(service.convert(VersionKey(5), "ui//icon/a.atex/", Format::Png).is_ok());
}

#[test]
fn dispositions_name_the_converted_file() {
    assert_eq!(
        disposition("ui/icon/051000/051474_hr1.tex", Format::Png),
        "inline; filename=\"051474_hr1.png\""
    );
    assert_eq!(disposition("a/b", Format::Webp), "inline; filename=\"b.webp\"");
    assert_eq!(disposition("a/..", Format::Png), "inline");
    assert_eq!(disposition_for_name(Some(".tex"), Format::Png), "inline; filename=\".tex.png\"");
    assert_eq!(disposition_for_name(Some("a.b.tex"), Format::Jpeg), "inline; filename=\"a.b.jpg\"");
    assert_eq!(disposition_for_name(Some("a."), Format::Jpeg), "inline; filename=\"a.jpg\"");
    assert_eq!(disposition_for_name(None, Format::Png), "inline");
}
