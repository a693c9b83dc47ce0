use boilmaster::asset;
use boilmaster::excel::{Field, SheetKind};
use boilmaster::http::api1::error::Error;
use boilmaster::http::api1::extract::{Query, RouterPath, VersionQuery};
use boilmaster::http::api1::filter::FilterString;
use boilmaster::http::api1::read::{row_filters, row_result, RowResult};
use boilmaster::http::api1::search::{result_subrow, search_filter, search_request, Request};
use boilmaster::http::api1::sheet::{deserialize_rows, page_limit, paginate, RowSpecifier};
use boilmaster::language::Language;
use boilmaster::read::error::Error as ReadError;
use boilmaster::read::value::Value;
use boilmaster::read::Filter;
use boilmaster::schema::{self, CanonicalSpecifier};
use boilmaster::search::{self, pre, MismatchError};
use boilmaster::text::IntErrorKind;
use boilmaster::version::registry::Registry;
use boilmaster::version::{Patch, Repository, Version, VersionKey};

#[test]
fn error_messages_and_statuses() {
    assert_eq!(Error::NotFound("x".to_string()).message(), "not found: x");
    assert_eq!(Error::Invalid("y".to_string()).message(), "invalid request: y");
    assert_eq!(Error::Other("secret".to_string()).message(), "internal server error");
    assert_eq!(Error::NotFound(String::new()).status_code(), 404);
    assert_eq!(Error::Invalid(String::new()).status_code(), 400);
    assert_eq!(Error::Other(String::new()).status_code(), 500);
}

#[test]
fn asset_errors_map_to_api_errors() {
    match Error::from_asset(asset::Error::NotFound("a.tex".to_string())) {
        Error::NotFound(v) => assert_eq!(v, "a.tex"),
        _ => panic!(),
    }
    match Error::from_asset(asset::Error::UnknownFormat("gif".to_string())) {
        Error::Invalid(m) => assert_eq!(m, "unknown format \"gif\""),
        _ => panic!(),
    }
    match Error::from_asset(asset::Error::Failure("boom".to_string())) {
        Error::Other(m) => assert_eq!(m, "boom"),
        _ => panic!(),
    }
}

#[test]
fn schema_and_search_errors_map_to_api_errors() {
    match Error::from_schema(schema::Error::UnknownSource("x".to_string())) {
        Error::Invalid(m) => assert_eq!(m, "unknown schema source \"x\""),
        _ => panic!(),
    }
    match Error::from_schema(schema::Error::InvalidVersion("v".to_string())) {
        Error::Invalid(m) => assert_eq!(m, "invalid schema version \"v\""),
        _ => panic!(),
    }
    match Error::from_search(search::Error::MalformedQuery("q".to_string())) {
        Error::Invalid(m) => assert_eq!(m, "malformed query: q"),
        _ => panic!(),
    }
    let mismatch = MismatchError { field: "Name".to_string(), reason: "field does not exist".to_string() };
    match Error::from_search(search::Error::QuerySchemaMismatch(mismatch)) {
        Error::Invalid(m) => assert_eq!(m, "query <-> schema mismatch on Name: field does not exist"),
        _ => panic!(),
    }
    match Error::from_search(search::Error::UnknownCursor(uuid::Uuid::nil().as_u128())) {
        Error::Invalid(m) => assert_eq!(m, "unknown cursor 00000000-0000-0000-0000-000000000000"),
        _ => panic!(),
    }
    let cursor = uuid::Uuid::parse_str("67e55044-10b1-426f-9247-bb680e5fe0c8").unwrap();
    match Error::from_search(search::Error::UnknownCursor(cursor.as_u128())) {
        Error::Invalid(m) => assert_eq!(m, format!("unknown cursor {cursor}")),
        _ => panic!(),
    }
    assert_eq!(
        search::Error::UnknownCursor(0x0123_4567_89ab_cdef_fedc_ba98_7654_3210).message(),
        "unknown cursor 01234567-89ab-cdef-fedc-ba9876543210"
    );
    match Error::from_search(search::Error::Failure("f".to_string())) {
        Error::Other(m) => assert_eq!(m, "f"),
        _ => panic!(),
    }
}

fn registry_with_latest() -> (Registry, VersionKey) {
    let mut registry = Registry::new();
    let version = Version {
        repositories: vec![Repository::new(
            "ffxiv".to_string(),
            vec![Patch { name: "a".to_string(), path: "a".to_string() }],
        )
        .unwrap()],
    };
    let key = registry.update(version).unwrap();
    (registry, key)
}

#[test]
fn version_query_resolves_names() {
    let (registry, key) = registry_with_latest();
    assert_eq!(VersionQuery::resolve(&registry, None).ok(), Some(VersionQuery(key)));
    assert_eq!(VersionQuery::resolve(&registry, Some("latest")).ok(), Some(VersionQuery(key)));
    match VersionQuery::resolve(&registry, Some("6.0")) {
        Err(Error::Invalid(m)) => assert_eq!(m, "unknown version \"6.0\""),
        _ => panic!(),
    }
    match VersionQuery::resolve(&Registry::new(), None) {
        Err(Error::Invalid(m)) => assert_eq!(m, "unknown version \"(none)\""),
        _ => panic!(),
    }
}

#[test]
fn router_path_strips_the_nested_path() {
    assert_eq!(RouterPath::from_paths("/api/1/asset/ui/a.tex", "/ui/a.tex").0, "/api/1/asset");
    assert_eq!(RouterPath::from_paths("/x", "/x").0, "");
    assert_eq!(RouterPath::from_paths("/x", "/y").0, "");
    assert_eq!(RouterPath::from_paths("/x", "/longer").0, "");
    let Query(inner) = Query(5u8);
    assert_eq!(inner, 5);
}

#[test]
fn row_specifiers_parse() {
    assert_eq!(RowSpecifier::from_str("12"), Ok(RowSpecifier { row_id: 12, subrow_id: 0 }));
    assert_eq!(RowSpecifier::from_str("12:3"), Ok(RowSpecifier { row_id: 12, subrow_id: 3 }));
    assert_eq!(RowSpecifier::from_str("+4:+5"), Ok(RowSpecifier { row_id: 4, subrow_id: 5 }));
    assert_eq!(RowSpecifier::from_str("").unwrap_err().kind, IntErrorKind::Empty);
    assert_eq!(RowSpecifier::from_str("12:").unwrap_err().kind, IntErrorKind::Empty);
    assert_eq!(RowSpecifier::from_str("a:1").unwrap_err().kind, IntErrorKind::InvalidDigit);
    assert_eq!(RowSpecifier::from_str("1:2:3").unwrap_err().kind, IntErrorKind::InvalidDigit);
    assert_eq!(RowSpecifier::from_str("4294967296").unwrap_err().kind, IntErrorKind::PosOverflow);
    assert_eq!(RowSpecifier::from_str("1:65536").unwrap_err().kind, IntErrorKind::PosOverflow);
    assert_eq!(RowSpecifier::from_str("4294967295:65535"), Ok(RowSpecifier { row_id: u32::MAX, subrow_id: u16::MAX }));
}

#[test]
fn rows_parameter() {
    assert_eq!(deserialize_rows(None), Ok(None));
    assert_eq!(deserialize_rows(Some("")), Ok(None));
    assert_eq!(
        deserialize_rows(Some("1,2:1,3")),
        Ok(Some(vec![
            RowSpecifier { row_id: 1, subrow_id: 0 },
            RowSpecifier { row_id: 2, subrow_id: 1 },
            RowSpecifier { row_id: 3, subrow_id: 0 },
        ]))
    );
    assert_eq!(deserialize_rows(Some("1,,2")).unwrap_err().kind, IntErrorKind::Empty);
    assert_eq!(deserialize_rows(Some("1,x")).unwrap_err().kind, IntErrorKind::InvalidDigit);
}

#[test]
fn pagination() {
    assert_eq!(page_limit(None, 100, 500), 100);
    assert_eq!(page_limit(Some(20), 100, 500), 20);
    assert_eq!(page_limit(Some(1000), 100, 500), 500);
    let rows: Vec<RowSpecifier> = (0..6u32).map(|i| RowSpecifier { row_id: i, subrow_id: 0 }).collect();
    let page = paginate(&rows, None, 2);
    assert_eq!(page, rows[0..2].to_vec());
    let page = paginate(&rows, Some(RowSpecifier { row_id: 2, subrow_id: 0 }), 10);
    assert_eq!(page, rows[3..6].to_vec());
    let page = paginate(&rows, Some(RowSpecifier { row_id: 2, subrow_id: 5 }), 2);
    assert_eq!(page, rows[3..5].to_vec());
    assert!(paginate(&rows, Some(RowSpecifier { row_id: 9, subrow_id: 0 }), 2).is_empty());
    assert!(paginate(&rows, None, 0).is_empty());
}

#[test]
fn row_results() {
    let ok = row_result(3, 1, SheetKind::Subrows, Value::Icon(1), None, Language::English).unwrap();
    assert_eq!(ok.row_id, 3);
    assert_eq!(ok.subrow_id, Some(1));
    assert!(ok.transient.is_none());
    let plain = row_result(3, 1, SheetKind::Default, Value::Icon(1), Some(Ok(Value::Icon(2))), Language::English)
        .unwrap();
    assert_eq!(plain.subrow_id, None);
    assert!(plain.transient.is_some());
    let missing = row_result(
        3,
        0,
        SheetKind::Default,
        Value::Icon(1),
        Some(Err(ReadError::NotFound("no".to_string()))),
        Language::English,
    );
    assert!(missing.unwrap().transient.is_none());
    let failed = row_result(
        3,
        0,
        SheetKind::Default,
        Value::Icon(1),
        Some(Err(ReadError::Failure("bad".to_string()))),
        Language::English,
    );
    assert!(matches!(failed, Err(ReadError::Failure(m)) if m == "bad"));
    let example = RowResult::example(9);
    assert_eq!(example.row_id, 9);
    match example.fields.0 {
        Value::Struct(fields) => {
            assert_eq!(fields[0].0.name, "FieldName");
            assert!(matches!(fields[0].1, Value::Scalar(Field::U32(14))));
        },
        _ => panic!(),
    }
}

#[test]
fn row_filters_fall_back_to_defaults() {
    let parse = |s: &str| FilterString::parse(s).ok().unwrap();
    let (fields, transient) =
        row_filters(None, Some(parse("*")), Some(parse("")), None, "exdschema", Language::English).unwrap();
    assert_eq!(fields, Filter::All);
    assert!(transient.is_none());
    let (_, transient) =
        row_filters(Some(parse("a")), None, None, Some(parse("*")), "exdschema", Language::English).unwrap();
    assert_eq!(transient, Some(Filter::All));
    match row_filters(None, None, None, None, "exdschema", Language::English) {
        Err(Error::Other(m)) => assert_eq!(m, "missing default fields for exdschema"),
        _ => panic!(),
    }
    match row_filters(Some(parse("a")), None, None, None, "exdschema", Language::English) {
        Err(Error::Other(m)) => assert_eq!(m, "missing default transient for exdschema"),
        _ => panic!(),
    }
    match row_filters(Some(parse("a.b,a[]")), None, None, None, "exdschema", Language::English) {
        Err(Error::Invalid(m)) => assert_eq!(m, "invalid filter: tried to merge array and struct"),
        _ => panic!(),
    }
}

fn leaf(text: &str) -> pre::Node {
    pre::Node::Leaf(pre::Leaf { field: None, operation: pre::Operation::Match(text.to_string()) })
}

fn schema() -> CanonicalSpecifier {
    CanonicalSpecifier { source: "exdschema".to_string(), version: "2:ref:abc".to_string() }
}

#[test]
fn search_requests() {
    let key = VersionKey(1);
    let cursor = uuid::Uuid::from_u128(7).as_u128();
    assert!(matches!(
        search_request(Some(cursor), Some(leaf("a")), None, key, Language::English, schema()),
        Ok(Request::Cursor(c)) if c == cursor
    ));
    match search_request(None, None, Some("Item"), key, Language::English, schema()) {
        Err(Error::Invalid(m)) => assert_eq!(m, "search queries must contain a query or cursor"),
        _ => panic!(),
    }
    match search_request(None, Some(leaf("a")), None, key, Language::English, schema()) {
        Err(Error::Invalid(m)) => assert_eq!(m, "query-based searches must specify a list of sheets to search"),
        _ => panic!(),
    }
    match search_request(None, Some(leaf("a")), Some("Item,Action,Item"), key, Language::German, schema()) {
        Ok(Request::Query(q)) => {
            assert_eq!(q.sheets, Some(vec!["Item".to_string(), "Action".to_string()]));
            assert_eq!(q.language, Language::German);
            assert_eq!(q.version, key);
        },
        _ => panic!(),
    }
    match search_filter(None, None, "exdschema", Language::English) {
        Err(Error::Other(m)) => assert_eq!(m, "missing default search fields for exdschema"),
        _ => panic!(),
    }
    assert_eq!(
        search_filter(None, Some(FilterString::parse("*").ok().unwrap()), "exdschema", Language::English).ok(),
        Some(Filter::All)
    );
}

#[test]
fn search_results_report_subrows_only_for_subrow_sheets() {
    assert_eq!(result_subrow(SheetKind::Subrows, 3), Some(3));
    assert_eq!(result_subrow(SheetKind::Default, 3), None);
}

#[test]
fn listed_names_are_sorted() {
    let names = vec!["latest", "6.58", "é", "z", "6.58x1", "6.58"].into_iter().map(String::from).collect();
    let sorted = boilmaster::http::api1::version::sorted_names(names);
    assert_eq!(sorted, vec!["6.58", "6.58", "6.58x1", "latest", "z", "é"]);
    let mut expected = sorted.clone();
    expected.sort();
    assert_eq!(sorted, expected);
}
