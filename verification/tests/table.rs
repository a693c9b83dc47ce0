use boilmaster::language::Language;
use boilmaster::search::table::table_config;

fn pairs(items: &[(&str, &str)]) -> Vec<(String, String)> {
    items.iter().map(|(k, v)| (k.to_string(), v.to_string())).collect()
}

fn sheets() -> Vec<String> {
    vec!["Item".to_string(), "Action".to_string()]
}

#[test]
fn table_declaration_names_sheet_and_language() {
    let config = table_config(&pairs(&[("sheet", "Item"), ("language", "de")]), &sheets()).unwrap();
    assert_eq!(config.sheet, "Item");
    assert_eq!(config.language, Language::German);
}

#[test]
fn table_language_defaults_to_neutral() {
    let config = table_config(&pairs(&[("sheet", "Action")]), &sheets()).unwrap();
    assert_eq!(config.sheet, "Action");
    assert_eq!(config.language, Language::Neutral);
}

#[test]
fn table_declaration_errors() {
    assert_eq!(table_config(&pairs(&[]), &sheets()).unwrap_err(), "no arguments specified");
    assert_eq!(table_config(&pairs(&[("language", "en")]), &sheets()).unwrap_err(), "no sheet specified");
    assert_eq!(table_config(&pairs(&[("sheet", "Nope")]), &sheets()).unwrap_err(), "unknown sheet Nope");
    assert_eq!(
        table_config(&pairs(&[("sheet", "Item"), ("language", "xx")]), &sheets()).unwrap_err(),
        "unknown language \"xx\""
    );
    assert_eq!(
        table_config(&pairs(&[("colour", "red"), ("sheet", "Nope")]), &sheets()).unwrap_err(),
        "unknown parameter colour"
    );
}
