use boilmaster::data::{Data, Error as DataError};
use boilmaster::excel::{sort_columns_by_offset, ColumnDefinition, ColumnKind};
use boilmaster::language::{Language, LanguageString};
use boilmaster::text::{split_at_commas, ParseIntError, IntErrorKind};
use boilmaster::texture::{bgr5a1_to_rgba, bgra4_to_rgba, bgra8_to_rgba, multiply_channels};
use boilmaster::version::VersionKey;

#[test]
fn texture_pixels() {
    // b = 0x2, g = 0x1, r = 0x4, a = 0x3 in four bits each.
    assert_eq!(bgra4_to_rgba(&[0x12, 0x34]), vec![0x44, 0x11, 0x22, 0x33]);
    assert_eq!(bgra8_to_rgba(&[1, 2, 3, 4, 5, 6, 7, 8]), vec![3, 2, 1, 4, 7, 6, 5, 8]);
    // Opaque white, then transparent black.
    assert_eq!(bgr5a1_to_rgba(&[0xff, 0xff, 0x00, 0x00]), vec![0xf8, 0xf8, 0xf8, 0xff, 0, 0, 0, 0]);
    let mut map = vec![255, 128, 0, 10];
    multiply_channels(&mut map, &vec![255, 255, 200, 51]);
    assert_eq!(map, vec![255, 128, 0, 2]);
}

#[test]
fn languages() {
    assert_eq!(LanguageString::from_str("ja").ok().map(|l| l.language()), Some(Language::Japanese));
    assert_eq!(LanguageString::from_str("none").ok().map(|l| l.language()), Some(Language::Neutral));
    assert_eq!(LanguageString::new(Language::ChineseTraditional).to_string(), "cht");
    match LanguageString::from_str("xx") {
        Err(DataError::UnknownLanguage(name)) => assert_eq!(name, "xx"),
        _ => panic!(),
    }
}

#[test]
fn data_versions_and_errors() {
    let data = Data::new(vec![VersionKey(1)]);
    assert!(data.has_version(VersionKey(1)));
    assert!(!data.has_version(VersionKey(2)));
    assert_eq!(DataError::UnknownVersion(VersionKey(0x10)).message(), "unknown version 0000000000000010");
    assert_eq!(DataError::UnknownLanguage("xx".to_string()).message(), "unknown language \"xx\"");
}

#[test]
fn columns_sort_stably_by_offset() {
    let c = |kind, offset| ColumnDefinition { kind, offset };
    let columns = vec![c(ColumnKind::UInt8, 8), c(ColumnKind::String, 0), c(ColumnKind::Bool, 8), c(ColumnKind::Int16, 4)];
    assert_eq!(
        sort_columns_by_offset(&columns),
        vec![c(ColumnKind::String, 0), c(ColumnKind::Int16, 4), c(ColumnKind::UInt8, 8), c(ColumnKind::Bool, 8)]
    );
}

#[test]
fn commas_split_like_str_split() {
    for text in ["", "a", "a,b", ",a,,b,", "xy,z"] {
        let expected: Vec<String> = text.split(',').map(|s| s.to_string()).collect();
        assert_eq!(split_at_commas(text), expected);
    }
    assert_eq!(ParseIntError { kind: IntErrorKind::Empty }.description(), "cannot parse integer from empty string");
}
