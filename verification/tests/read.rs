use boilmaster::excel::{ColumnDefinition, ColumnKind, Field, RowData, SheetData, SheetKind};
use boilmaster::language::Language;
use boilmaster::read::error::{Error, MismatchError};
use boilmaster::read::reader::{convert_reference_value, iterate_struct_fields, Reader};
use boilmaster::read::value::{Reference, Value};
use boilmaster::read::{Filter, StructEntry};
use boilmaster::read2;
use boilmaster::schema::{Node, Order, ReferenceTarget, Scalar, Sheet, StructField};
use boilmaster::search::normalize::SheetInfo;

fn column(kind: ColumnKind, offset: u16) -> ColumnDefinition {
    ColumnDefinition { kind, offset }
}

fn field(name: &str, offset: u32, node: Node) -> StructField {
    StructField { name: name.to_string(), offset, node }
}

fn row(row_id: u32, language: Language, fields: Vec<(ColumnDefinition, Field)>) -> RowData {
    RowData { row_id, subrow_id: 0, language, fields }
}

fn catalog() -> Vec<SheetInfo> {
    let item_columns = vec![column(ColumnKind::String, 0), column(ColumnKind::Int32, 4), column(ColumnKind::UInt8, 8)];
    let item_schema = Node::Struct(vec![
        field("Name", 0, Node::Scalar(Scalar::Default)),
        field(
            "Category",
            1,
            Node::Scalar(Scalar::Reference(vec![ReferenceTarget {
                sheet: "ItemCategory".to_string(),
                selector: None,
                condition: None,
            }])),
        ),
    ]);
    let item_rows = vec![
        row(1, Language::English, vec![
            (item_columns[0], Field::String("Sword".to_string())),
            (item_columns[1], Field::I32(7)),
            (item_columns[2], Field::U8(3)),
        ]),
        row(2, Language::English, vec![
            (item_columns[0], Field::String("Shield".to_string())),
            (item_columns[1], Field::I32(-1)),
            (item_columns[2], Field::U8(0)),
        ]),
    ];
    let category_columns = vec![column(ColumnKind::String, 0)];
    let category_rows = vec![row(7, Language::English, vec![(category_columns[0], Field::String("Arms".to_string()))])];
    vec![
        SheetInfo {
            name: "Item".to_string(),
            schema: Some(Sheet { order: Order::Index, node: item_schema }),
            data: Some(SheetData {
                languages: vec![Language::English],
                columns: item_columns,
                kind: SheetKind::Default,
                rows: item_rows,
            }),
        },
        SheetInfo {
            name: "ItemCategory".to_string(),
            schema: Some(Sheet { order: Order::Index, node: Node::Struct(vec![field("Name", 0, Node::Scalar(Scalar::Default))]) }),
            data: Some(SheetData {
                languages: vec![Language::English],
                columns: category_columns,
                kind: SheetKind::Default,
                rows: category_rows,
            }),
        },
    ]
}

fn struct_value(value: &Value) -> &Vec<(boilmaster::read::value::StructKey, Value)> {
    match value {
        Value::Struct(entries) => entries,
        _ => panic!("expected a struct"),
    }
}

#[test]
fn reads_all_fields_and_unknown_columns() {
    let sheets = catalog();
    let reader = Reader::new(&sheets);
    let value = reader.read("Item", 1, 0, Language::English, &Filter::All, 1).expect("reads");
    let entries = struct_value(&value);
    let names: Vec<&str> = entries.iter().map(|(key, _)| key.name.as_str()).collect();
    assert_eq!(names, vec!["Name", "Category", "unknown2"]);
    assert!(matches!(&entries[0].1, Value::Scalar(Field::String(s)) if s == "Sword"));
    assert!(matches!(&entries[2].1, Value::Scalar(Field::U8(3))));
    match &entries[1].1 {
        Value::Reference(Reference::Populated { value, sheet, row_id, subrow_id, fields }) => {
            assert_eq!(*value, 7);
            assert_eq!(sheet, "ItemCategory");
            assert_eq!(*row_id, 7);
            assert_eq!(*subrow_id, None);
            let inner = struct_value(fields);
            assert!(matches!(&inner[0].1, Value::Scalar(Field::String(s)) if s == "Arms"));
        },
        other => panic!("expected a populated reference, got {other:?}"),
    }
}

#[test]
fn references_stop_at_depth_and_negative_values() {
    let sheets = catalog();
    let reader = Reader::new(&sheets);
    let value = reader.read("Item", 1, 0, Language::English, &Filter::All, 0).expect("reads");
    assert!(matches!(&struct_value(&value)[1].1, Value::Reference(Reference::Scalar(7))));
    let value = reader.read("Item", 2, 0, Language::English, &Filter::All, 3).expect("reads");
    assert!(matches!(&struct_value(&value)[1].1, Value::Reference(Reference::Scalar(-1))));
}

#[test]
fn struct_filters_select_fields() {
    let sheets = catalog();
    let reader = Reader::new(&sheets);
    let filter = Filter::Struct(vec![StructEntry { field: "Name".to_string(), language: Language::English, filter: Filter::All }]);
    let value = reader.read("Item", 1, 0, Language::English, &filter, 1).expect("reads");
    let entries = struct_value(&value);
    assert_eq!(entries.len(), 1);
    assert_eq!(entries[0].0.name, "Name");
    assert_eq!(entries[0].0.language, Language::English);
}

#[test]
fn read_failures() {
    let sheets = catalog();
    let reader = Reader::new(&sheets);
    match reader.read("Nope", 1, 0, Language::English, &Filter::All, 1) {
        Err(Error::NotFound(m)) => assert_eq!(m, "sheet Nope not found"),
        _ => panic!(),
    }
    match reader.read("Item", 9, 0, Language::English, &Filter::All, 1) {
        Err(Error::NotFound(m)) => assert_eq!(m, "row 9:0 not found in sheet Item"),
        _ => panic!(),
    }
    match reader.read("Item", 1, 0, Language::English, &Filter::Array(Box::new(Filter::All)), 1) {
        Err(Error::FilterSchemaMismatch(m)) => {
            assert_eq!(m.field, "TODO: contextual filter path");
            assert_eq!(m.reason, "expected struct filter, got Array(All)");
        },
        _ => panic!(),
    }
}

#[test]
fn struct_items_cover_the_columns() {
    let fields = vec![
        field("A", 1, Node::Scalar(Scalar::Default)),
        field("B", 3, Node::Array { count: 2, node: Box::new(Node::Scalar(Scalar::Default)) }),
    ];
    let items = iterate_struct_fields(&fields, 7).expect("enough columns");
    let summary: Vec<(String, Option<usize>, usize, usize)> =
        items.into_iter().map(|i| (i.name, i.field, i.start, i.end)).collect();
    assert_eq!(
        summary,
        vec![
            ("unknown0".to_string(), None, 0, 1),
            ("A".to_string(), Some(0), 1, 2),
            ("unknown2".to_string(), None, 2, 3),
            ("B".to_string(), Some(1), 3, 5),
            ("unknown5".to_string(), None, 5, 6),
            ("unknown6".to_string(), None, 6, 7),
        ]
    );
    match iterate_struct_fields(&fields, 4) {
        Err(Error::SchemaGameMismatch(m)) => assert_eq!(m.reason, "not enough columns to satisfy struct"),
        _ => panic!(),
    }
}

#[test]
fn reference_values() {
    assert_eq!(convert_reference_value(&Field::I8(-3)).ok(), Some(-3));
    assert_eq!(convert_reference_value(&Field::U16(65535)).ok(), Some(65535));
    assert_eq!(convert_reference_value(&Field::U32(2_147_483_647)).ok(), Some(i32::MAX));
    assert!(matches!(convert_reference_value(&Field::U32(2_147_483_648)), Err(Error::Failure(m)) if m == "out of range integral type conversion attempted"));
    assert!(matches!(convert_reference_value(&Field::I64(-2_147_483_649)), Err(Error::Failure(_))));
    assert!(matches!(convert_reference_value(&Field::Bool(true)), Err(Error::Failure(m)) if m == "invalid index type Bool(true)"));
    assert!(matches!(
        convert_reference_value(&Field::String("a\"b\\c".to_string())),
        Err(Error::Failure(m)) if m == "invalid index type String(\"a\\\"b\\\\c\")"
    ));
    assert!(matches!(convert_reference_value(&Field::F32(1065353216)), Err(Error::Failure(m)) if m == "invalid index type F32(1065353216)"));
}

#[test]
fn error_messages() {
    let m = MismatchError { field: "f".to_string(), reason: "r".to_string() };
    assert_eq!(Error::FilterSchemaMismatch(m).message(), "filter <-> schema mismatch on f: r");
    let m = MismatchError { field: "f".to_string(), reason: "r".to_string() };
    assert_eq!(Error::SchemaGameMismatch(m).message(), "schema <-> game mismatch on f: r");
    assert_eq!(Error::NotFound("x".to_string()).message(), "x");
    let m = read2::MismatchError { field: "g".to_string(), reason: "s".to_string() };
    assert_eq!(read2::Error::FilterSchemaMismatch(m).message(), "filter <-> schema mismatch on g: s");
    assert_eq!(read2::Error::Failure("z".to_string()).message(), "z");
}

#[test]
fn api_rows_read_transient_rows_when_present() {
    let mut sheets = catalog();
    let transient_columns = vec![column(ColumnKind::String, 0)];
    sheets.push(SheetInfo {
        name: "ItemTransient".to_string(),
        schema: Some(Sheet {
            order: Order::Index,
            node: Node::Struct(vec![field("Description", 0, Node::Scalar(Scalar::Default))]),
        }),
        data: Some(SheetData {
            languages: vec![Language::English],
            columns: transient_columns.clone(),
            kind: SheetKind::Default,
            rows: vec![row(1, Language::English, vec![(transient_columns[0], Field::String("Sharp".to_string()))])],
        }),
    });
    let reader = Reader::new(&sheets);

    let with = boilmaster::http::api1::read::read_row(
        &reader,
        "Item",
        1,
        0,
        Language::English,
        &Filter::All,
        Some(&Filter::All),
        1,
    )
    .unwrap();
    assert_eq!(with.row_id, 1);
    assert_eq!(with.subrow_id, None);
    let transient = with.transient.expect("transient row");
    assert!(matches!(&struct_value(&transient.0)[0].1, Value::Scalar(Field::String(s)) if s == "Sharp"));

    // Row 2 has no transient row: it is left out.
    let without = boilmaster::http::api1::read::read_row(
        &reader,
        "Item",
        2,
        0,
        Language::English,
        &Filter::All,
        Some(&Filter::All),
        1,
    )
    .unwrap();
    assert!(without.transient.is_none());

    // Without a transient filter, no transient row is read.
    let plain =
        boilmaster::http::api1::read::read_row(&reader, "Item", 1, 0, Language::English, &Filter::All, None, 1).unwrap();
    assert!(plain.transient.is_none());

    // A missing row fails.
    let missing =
        boilmaster::http::api1::read::read_row(&reader, "Item", 9, 0, Language::English, &Filter::All, None, 1);
    assert!(matches!(missing, Err(Error::NotFound(_))));
}

#[test]
fn fields_describe_their_values() {
    assert_eq!(Field::I8(-128).describe(), "I8(-128)");
    assert_eq!(Field::I64(i64::MIN).describe(), "I64(-9223372036854775808)");
    assert_eq!(Field::U64(u64::MAX).describe(), "U64(18446744073709551615)");
    assert_eq!(Field::I32(0).describe(), "I32(0)");
    assert_eq!(Field::Bool(false).describe(), "Bool(false)");
    assert_eq!(Field::String("x".to_string()).describe(), "String(\"x\")");
}

#[test]
fn filters_describe_their_shape() {
    assert_eq!(Filter::All.describe(), "All");
    let filter = Filter::Array(Box::new(Filter::Struct(vec![
        StructEntry { field: "a".to_string(), language: Language::English, filter: Filter::All },
        StructEntry { field: "b".to_string(), language: Language::Japanese, filter: Filter::Array(Box::new(Filter::All)) },
    ])));
    assert_eq!(filter.describe(), "Array(Struct({\"a\"@English: All, \"b\"@Japanese: Array(All)}))");
    assert_eq!(Filter::Struct(vec![]).describe(), "Struct({})");
}

fn shop_catalog() -> Vec<SheetInfo> {
    let columns = vec![column(ColumnKind::UInt8, 0), column(ColumnKind::UInt8, 1)];
    let schema = Node::Struct(vec![field(
        "Items",
        0,
        Node::Array { count: 2, node: Box::new(Node::Scalar(Scalar::Default)) },
    )]);
    vec![SheetInfo {
        name: "Shop".to_string(),
        schema: Some(Sheet { order: Order::Index, node: schema }),
        data: Some(SheetData {
            languages: vec![Language::English],
            columns: columns.clone(),
            kind: SheetKind::Default,
            rows: vec![row(1, Language::English, vec![(columns[0], Field::U8(4)), (columns[1], Field::U8(5))])],
        }),
    }]
}

#[test]
fn struct_filter_selects_nothing_inside_an_array() {
    let sheets = shop_catalog();
    let reader = Reader::new(&sheets);
    let filter = Filter::Struct(vec![StructEntry {
        field: "Items".to_string(),
        language: Language::English,
        filter: Filter::Struct(vec![StructEntry { field: "b".to_string(), language: Language::English, filter: Filter::All }]),
    }]);
    let value = reader.read("Shop", 1, 0, Language::English, &filter, 1).expect("reads");
    let entries = struct_value(&value);
    assert_eq!(entries.len(), 1);
    assert_eq!(entries[0].0.name, "Items");
    assert!(matches!(&entries[0].1, Value::Array(values) if values.is_empty()));
    let all = reader.read("Shop", 1, 0, Language::English, &Filter::All, 1).expect("reads");
    assert!(matches!(&struct_value(&all)[0].1, Value::Array(values) if values.len() == 2));
}

fn target(sheet: &str) -> ReferenceTarget {
    ReferenceTarget { sheet: sheet.to_string(), selector: None, condition: None }
}

fn linked_catalog(targets: Vec<ReferenceTarget>) -> Vec<SheetInfo> {
    let link_columns = vec![column(ColumnKind::Int32, 0)];
    let name_columns = vec![column(ColumnKind::String, 0)];
    let named = |name: &str, rows: Vec<RowData>| SheetInfo {
        name: name.to_string(),
        schema: Some(Sheet { order: Order::Index, node: Node::Struct(vec![field("Name", 0, Node::Scalar(Scalar::Default))]) }),
        data: Some(SheetData {
            languages: vec![Language::English],
            columns: name_columns.clone(),
            kind: SheetKind::Default,
            rows,
        }),
    };
    vec![
        SheetInfo {
            name: "Link".to_string(),
            schema: Some(Sheet {
                order: Order::Index,
                node: Node::Struct(vec![field("To", 0, Node::Scalar(Scalar::Reference(targets)))]),
            }),
            data: Some(SheetData {
                languages: vec![Language::English],
                columns: link_columns.clone(),
                kind: SheetKind::Default,
                rows: vec![row(1, Language::English, vec![(link_columns[0], Field::I32(7))])],
            }),
        },
        named("Empty", vec![]),
        named("First", vec![row(7, Language::English, vec![(name_columns[0], Field::String("one".to_string()))])]),
        named("Second", vec![row(7, Language::English, vec![(name_columns[0], Field::String("two".to_string()))])]),
    ]
}

fn linked_sheet(targets: Vec<ReferenceTarget>) -> String {
    let sheets = linked_catalog(targets);
    let reader = Reader::new(&sheets);
    let value = reader.read("Link", 1, 0, Language::English, &Filter::All, 1).expect("reads");
    match &struct_value(&value)[0].1 {
        Value::Reference(Reference::Populated { sheet, .. }) => sheet.clone(),
        Value::Reference(Reference::Scalar(v)) => format!("scalar {v}"),
        other => panic!("expected a reference, got {other:?}"),
    }
}

#[test]
fn the_first_target_holding_the_row_is_kept() {
    assert_eq!(linked_sheet(vec![target("First"), target("Second")]), "First");
    assert_eq!(linked_sheet(vec![target("Empty"), target("Second")]), "Second");
    assert_eq!(linked_sheet(vec![target("Empty")]), "scalar 7");
    let guarded = ReferenceTarget { sheet: "First".to_string(), selector: Some("Key".to_string()), condition: None };
    assert_eq!(linked_sheet(vec![guarded, target("Second")]), "scalar 7");
}

#[test]
fn fields_may_reach_past_the_last_field() {
    let fields = vec![
        field("A", 0, Node::Array { count: 3, node: Box::new(Node::Scalar(Scalar::Default)) }),
        field("B", 1, Node::Scalar(Scalar::Default)),
    ];
    let items = iterate_struct_fields(&fields, 4).expect("enough columns");
    let summary: Vec<(String, Option<usize>, usize, usize)> =
        items.into_iter().map(|i| (i.name, i.field, i.start, i.end)).collect();
    assert_eq!(
        summary,
        vec![
            ("A".to_string(), Some(0), 0, 3),
            ("B".to_string(), Some(1), 1, 2),
            ("unknown2".to_string(), None, 2, 3),
            ("unknown3".to_string(), None, 3, 4),
        ]
    );
}
