use boilmaster::http::api1::filter::FilterString;
use boilmaster::language::Language;
use boilmaster::read::{Filter, StructEntry};

fn test_parse(input: &str) -> Filter {
    let filter_string = input
        .parse::<FilterString>()
        .expect("parse should not fail");
    filter_string
        .to_filter(Language::English)
        .expect("conversion should not fail")
}

fn test_struct(entries: Vec<(&str, Filter)>) -> Filter {
    test_language_struct(
        entries
            .into_iter()
            .map(|(key, value)| (key, test_language_map(vec![(Language::English, value)])))
            .collect(),
    )
}

fn test_language_struct(entries: Vec<(&str, Vec<(Language, Filter)>)>) -> Filter {
    Filter::Struct(
        entries
            .into_iter()
            .flat_map(|(key, languages)| {
                languages.into_iter().map(move |(language, filter)| StructEntry {
                    field: key.to_string(),
                    language,
                    filter,
                })
            })
            .collect(),
    )
}

fn test_language_map(entries: Vec<(Language, Filter)>) -> Vec<(Language, Filter)> {
    entries
}

fn test_array(child: Filter) -> Filter {
    Filter::Array(Box::new(child))
}

#[test]
fn parse_blank() {
    let expected = Filter::Struct(Vec::new());

    let got = test_parse("");
    assert_eq!(got, expected);
}

#[test]
fn parse_all() {
    let expected = Filter::All;

    let got = test_parse("*");
    assert_eq!(got, expected);
}

#[test]
fn parse_struct_simple() {
    let expected = test_struct(vec![("a", Filter::All)]);

    let got = test_parse("a");
    assert_eq!(got, expected);
}

#[test]
fn parse_struct_language() {
    let expected = test_language_struct(vec![(
        "a",
        test_language_map(vec![(Language::English, Filter::All)]),
    )]);

    let got = test_parse("a@en");
    assert_eq!(got, expected);
}

#[test]
fn parse_struct_nested() {
    let expected = test_struct(vec![(
        "a",
        test_struct(vec![("b", test_struct(vec![("c", Filter::All)]))]),
    )]);

    let got = test_parse("a.b.c");
    assert_eq!(got, expected);
}

#[test]
fn parse_root_multiple_fields() {
    let expected = test_struct(vec![
        ("a", test_struct(vec![("b", Filter::All)])),
        ("c", Filter::All),
    ]);

    let got = test_parse("a.b,c");
    assert_eq!(got, expected);
}

#[test]
fn parse_root_shared_path() {
    let expected = test_struct(vec![(
        "a",
        test_struct(vec![("b", Filter::All), ("c", Filter::All)]),
    )]);

    let got = test_parse("a.b,a.c");
    assert_eq!(got, expected);
}

#[test]
fn parse_array_simple() {
    let expected = test_struct(vec![("a", test_array(Filter::All))]);

    let got = test_parse("a[]");
    assert_eq!(got, expected);
}

#[test]
fn parse_array_nested() {
    let expected = test_struct(vec![(
        "a",
        test_array(test_array(test_struct(vec![("b", Filter::All)]))),
    )]);

    let got = test_parse("a[][].b");
    assert_eq!(got, expected);
}

#[test]
fn parse_complex_struct_keys() {
    let expected = test_struct(vec![
        ("curly{example}", Filter::All),
        ("ltgt<example>", Filter::All),
        ("parens(example)", Filter::All),
        ("square[example]", Filter::All),
        ("at@example", Filter::All),
        ("comma,example", Filter::All),
        ("period.example", Filter::All),
        ("backslash\\example", Filter::All),
        ("asterisk*example", Filter::All),
    ]);

    let got = test_parse(
        "curly{example},ltgt<example>,parens(example),square\\[example\\],at\\@example,comma\\,example,period\\.example,backslash\\\\example,asterisk*example",
    );
    assert_eq!(got, expected);
}

#[test]
fn only_an_empty_filter_string_selects_nothing() {
    for (text, empty) in [("", true), ("*", false), ("a", false), ("a[].b,c@ja", false)] {
        let parsed = FilterString::parse(text).expect("parses");
        assert_eq!(parsed.is_empty(), empty);
        for language in [Language::English, Language::Japanese] {
            let filter = parsed.clone().to_filter(language).expect("builds");
            assert_eq!(matches!(&filter, Filter::Struct(entries) if entries.is_empty()), empty);
        }
    }
}
