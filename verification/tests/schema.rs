use boilmaster::schema::{
    canonical_v1, canonical_v2, parse_canonical_version, parse_schema_version, select_source, Error, Specifier,
    SpecifierRequest,
};

#[test]
fn schema_versions() {
    assert!(matches!(parse_schema_version("master"), Ok(SpecifierRequest::V1 { reference, game_version: None }) if reference == "master"));
    assert!(matches!(parse_schema_version("master-2024.01.01"), Ok(SpecifierRequest::V1 { reference, game_version: Some(g) }) if reference == "master" && g == "2024.01.01"));
    assert!(matches!(parse_schema_version("2:abc"), Ok(SpecifierRequest::V2Ref(r)) if r == "abc"));
    assert!(matches!(parse_schema_version("2:ref:abc:d"), Ok(SpecifierRequest::V2Ref(r)) if r == "abc:d"));
    assert!(matches!(parse_schema_version("2:ver:7.0"), Ok(SpecifierRequest::V2Ver(v)) if v == "7.0"));
    assert!(matches!(parse_schema_version("2:ver:request"), Ok(SpecifierRequest::V2VerRequested)));
    assert!(matches!(parse_schema_version("2:what:x"), Err(Error::InvalidVersion(v)) if v == "what:x"));
    assert!(matches!(parse_schema_version("3:x"), Err(Error::InvalidVersion(v)) if v == "3:x"));
}

#[test]
fn canonical_versions() {
    assert_eq!(canonical_v2("abc"), "2:ref:abc");
    assert_eq!(canonical_v1("abc", "2024.01"), "abc-2024.01");
    assert!(matches!(parse_canonical_version(&canonical_v2("abc")), Ok(SpecifierRequest::V2Ref(r)) if r == "abc"));
    assert!(matches!(parse_canonical_version(&canonical_v1("abc", "2024.01")), Ok(SpecifierRequest::V1 { reference, game_version: Some(g) }) if reference == "abc" && g == "2024.01"));
    assert!(matches!(parse_canonical_version("nodash"), Err(Error::Failure(m)) if m == "invalid canonical version string: \"nodash\""));
}

#[test]
fn sources() {
    let sources = vec!["exdschema".to_string()];
    let default = Specifier { source: "exdschema".to_string(), version: Some("2:ref:x".to_string()) };
    let chosen = select_source(None, &default, &sources).ok().unwrap();
    assert_eq!(chosen.source, "exdschema");
    assert_eq!(chosen.version, Some("2:ref:x".to_string()));
    let requested = Specifier { source: "saint-coinach".to_string(), version: None };
    assert!(matches!(select_source(Some(requested), &default, &sources), Err(Error::UnknownSource(s)) if s == "saint-coinach"));
    assert_eq!(Error::UnknownSource("a".to_string()).message(), "unknown schema source \"a\"");
    assert_eq!(Error::InvalidVersion("b".to_string()).message(), "invalid schema version \"b\"");
}

#[test]
fn saint_coinach_defaults_to_head() {
    assert_eq!(boilmaster::schema::saint_coinach_version(None), "HEAD");
    assert_eq!(boilmaster::schema::saint_coinach_version(Some("abc123")), "abc123");
}
