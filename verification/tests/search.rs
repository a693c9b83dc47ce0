use boilmaster::excel::{ColumnDefinition, ColumnKind, SheetData, SheetKind};
use boilmaster::language::Language;
use boilmaster::schema::{Node, Order, ReferenceTarget, Scalar, Sheet, StructField};
use boilmaster::search::normalize::{collect_scalars, create_or_group, sanitize_name, Normalizer, SheetInfo};
use boilmaster::search::post;
use boilmaster::search::pre::{self, Occur, Value};
use boilmaster::search::{Error, SearchRequest};
use boilmaster::version::VersionKey;

fn column(kind: ColumnKind, offset: u16) -> ColumnDefinition {
    ColumnDefinition { kind, offset }
}

fn field(name: &str, offset: u32, node: Node) -> StructField {
    StructField { name: name.to_string(), offset, node }
}

fn catalog() -> Vec<SheetInfo> {
    let item_schema = Node::Struct(vec![
        field("Name", 0, Node::Scalar(Scalar::Default)),
        field("Level", 1, Node::Scalar(Scalar::Default)),
        field(
            "Category",
            2,
            Node::Scalar(Scalar::Reference(vec![ReferenceTarget {
                sheet: "ItemCategory".to_string(),
                selector: None,
                condition: None,
            }])),
        ),
        field("Stats", 3, Node::Array { count: 2, node: Box::new(Node::Scalar(Scalar::Default)) }),
    ]);
    let item = SheetInfo {
        name: "Item".to_string(),
        schema: Some(Sheet { order: Order::Index, node: item_schema }),
        data: Some(SheetData {
            languages: vec![Language::Neutral, Language::English],
            columns: vec![
                column(ColumnKind::String, 0),
                column(ColumnKind::UInt16, 4),
                column(ColumnKind::Int32, 8),
                column(ColumnKind::UInt8, 12),
                column(ColumnKind::UInt8, 13),
            ],
            kind: SheetKind::Default,
            rows: vec![],
        }),
    };
    let category = SheetInfo {
        name: "ItemCategory".to_string(),
        schema: Some(Sheet {
            order: Order::Offset,
            node: Node::Struct(vec![field("Name", 0, Node::Scalar(Scalar::Default))]),
        }),
        data: Some(SheetData {
            languages: vec![Language::English],
            columns: vec![column(ColumnKind::String, 0)],
            kind: SheetKind::Default,
            rows: vec![],
        }),
    };
    let unlisted = SheetInfo { name: "Orphan".to_string(), schema: None, data: None };
    vec![item, category, unlisted]
}

fn bound(name: &str, operation: pre::Operation) -> pre::Node {
    pre::Node::Leaf(pre::Leaf {
        field: Some(pre::FieldSpecifier::Struct(name.to_string(), None)),
        operation,
    })
}

fn leaf_of(node: &post::Node) -> &post::Leaf {
    match node {
        post::Node::Leaf(leaf) => leaf,
        post::Node::Group(_) => panic!("expected a leaf"),
    }
}

#[test]
fn match_ties_to_string_columns() {
    let sheets = catalog();
    let normalizer = Normalizer::new(&sheets);
    let query = bound("Name", pre::Operation::Match("sword".to_string()));
    let result = normalizer.normalize(&query, "Item", Language::English).expect("normalizes");
    let leaf = leaf_of(&result);
    assert_eq!(leaf.field, (column(ColumnKind::String, 0), Language::English));
    assert!(matches!(&leaf.operation, post::Operation::Match(s) if s == "sword"));
}

#[test]
fn equal_ties_to_scalar_columns() {
    let sheets = catalog();
    let normalizer = Normalizer::new(&sheets);
    let query = bound("Level", pre::Operation::Equal(Value::UInteger(5)));
    let result = normalizer.normalize(&query, "Item", Language::Japanese).expect("normalizes");
    let leaf = leaf_of(&result);
    // Japanese is not held by the sheet: the neutral language is used.
    assert_eq!(leaf.field, (column(ColumnKind::UInt16, 4), Language::Neutral));
    assert!(matches!(&leaf.operation, post::Operation::Equal(Value::UInteger(5))));
    // Matching text on a column that holds no strings finds nothing.
    let query = bound("Level", pre::Operation::Match("5".to_string()));
    match normalizer.normalize(&query, "Item", Language::English) {
        Err(Error::QuerySchemaMismatch(m)) => assert_eq!(m.reason, "no string columns with this name exist."),
        _ => panic!("expected a mismatch"),
    }
}

#[test]
fn arrays_become_or_groups() {
    let sheets = catalog();
    let normalizer = Normalizer::new(&sheets);
    let inner = pre::Node::Leaf(pre::Leaf {
        field: Some(pre::FieldSpecifier::Array),
        operation: pre::Operation::Equal(Value::Integer(1)),
    });
    let query = bound("Stats", pre::Operation::Relation(pre::Relation { query: Box::new(inner) }));
    let result = normalizer.normalize(&query, "Item", Language::English).expect("normalizes");
    match result {
        post::Node::Group(group) => {
            assert_eq!(group.clauses.len(), 2);
            assert_eq!(group.clauses[0].0, Occur::Should);
            assert_eq!(leaf_of(&group.clauses[0].1).field.0, column(ColumnKind::UInt8, 12));
            assert_eq!(leaf_of(&group.clauses[1].1).field.0, column(ColumnKind::UInt8, 13));
        },
        _ => panic!("expected a group"),
    }
}

#[test]
fn relations_follow_references() {
    let sheets = catalog();
    let normalizer = Normalizer::new(&sheets);
    let inner = bound("Name", pre::Operation::Match("arm".to_string()));
    let query = bound("Category", pre::Operation::Relation(pre::Relation { query: Box::new(inner) }));
    let result = normalizer.normalize(&query, "Item", Language::English).expect("normalizes");
    let leaf = leaf_of(&result);
    assert_eq!(leaf.field.0, column(ColumnKind::Int32, 8));
    match &leaf.operation {
        post::Operation::Relation(relation) => {
            assert_eq!(relation.target.sheet, "ItemCategory");
            assert!(relation.target.condition.is_none());
            assert_eq!(leaf_of(&relation.query).field, (column(ColumnKind::String, 0), Language::English));
        },
        _ => panic!("expected a relation"),
    }
    // A reference whose target does not fit the query gives nothing to match.
    let inner = bound("Missing", pre::Operation::Match("arm".to_string()));
    let query = bound("Category", pre::Operation::Relation(pre::Relation { query: Box::new(inner) }));
    match normalizer.normalize(&query, "Item", Language::English) {
        Err(Error::QuerySchemaMismatch(m)) => {
            assert_eq!(m.reason, "no target queries can be resolved against this schema")
        },
        _ => panic!("expected a mismatch"),
    }
}

#[test]
fn mismatches_are_reported() {
    let sheets = catalog();
    let normalizer = Normalizer::new(&sheets);
    let query = bound("Missing", pre::Operation::Match("x".to_string()));
    match normalizer.normalize(&query, "Item", Language::English) {
        Err(Error::QuerySchemaMismatch(m)) => {
            assert_eq!(m.field, "Missing");
            assert_eq!(m.reason, "field does not exist");
        },
        _ => panic!(),
    }
    match normalizer.normalize(&query, "Nope", Language::English) {
        Err(Error::QuerySchemaMismatch(m)) => {
            assert_eq!(m.field, "sheet Nope");
            assert_eq!(m.reason, "not found");
        },
        _ => panic!(),
    }
    match normalizer.normalize(&query, "Orphan", Language::English) {
        Err(Error::QuerySchemaMismatch(m)) => assert_eq!(m.field, "sheet Orphan"),
        _ => panic!(),
    }
    let query = bound("Name", pre::Operation::Match("x".to_string()));
    match normalizer.normalize(&query, "ItemCategory", Language::Japanese) {
        Err(Error::QueryGameMismatch(m)) => {
            assert_eq!(m.field, "sheet ItemCategory");
            assert_eq!(m.reason, "unsupported language Japanese");
        },
        _ => panic!(),
    }
    let unbound = pre::Node::Leaf(pre::Leaf { field: None, operation: pre::Operation::Match("x".to_string()) });
    match normalizer.normalize(&unbound, "Item", Language::English) {
        Err(Error::MalformedQuery(m)) => assert_eq!(m, "unbound query nodes are not currently supported"),
        _ => panic!(),
    }
    let wrong = pre::Node::Leaf(pre::Leaf {
        field: Some(pre::FieldSpecifier::Array),
        operation: pre::Operation::Match("x".to_string()),
    });
    match normalizer.normalize(&wrong, "Item", Language::English) {
        Err(Error::QuerySchemaMismatch(m)) => {
            assert_eq!(m.reason, "cannot use array query specifier for struct schema structures")
        },
        _ => panic!(),
    }
    let explicit = pre::Node::Leaf(pre::Leaf {
        field: Some(pre::FieldSpecifier::Struct("Name".to_string(), Some(Language::German))),
        operation: pre::Operation::Match("x".to_string()),
    });
    match normalizer.normalize(&explicit, "Item", Language::English) {
        Err(Error::QueryGameMismatch(m)) => assert_eq!(m.reason, "German is not supported by this sheet"),
        _ => panic!(),
    }
}

#[test]
fn groups_keep_their_clauses() {
    let sheets = catalog();
    let normalizer = Normalizer::new(&sheets);
    let query = pre::Node::Group(pre::Group {
        clauses: vec![
            (Occur::Must, bound("Name", pre::Operation::Match("a".to_string()))),
            (Occur::MustNot, bound("Level", pre::Operation::Equal(Value::Boolean(true)))),
        ],
    });
    match normalizer.normalize(&query, "Item", Language::English).expect("normalizes") {
        post::Node::Group(group) => {
            assert_eq!(group.clauses.len(), 2);
            assert_eq!(group.clauses[0].0, Occur::Must);
            assert_eq!(group.clauses[1].0, Occur::MustNot);
        },
        _ => panic!(),
    }
}

#[test]
fn or_groups() {
    assert!(create_or_group(vec![]).is_none());
    let one = post::Node::Leaf(post::Leaf {
        field: (column(ColumnKind::String, 0), Language::English),
        operation: post::Operation::Match("a".to_string()),
    });
    assert!(matches!(create_or_group(vec![one]), Some(post::Node::Leaf(_))));
    let two = (0..2u16)
        .map(|i| {
            post::Node::Leaf(post::Leaf {
                field: (column(ColumnKind::String, i), Language::English),
                operation: post::Operation::Match("a".to_string()),
            })
        })
        .collect();
    match create_or_group(two) {
        Some(post::Node::Group(group)) => {
            assert_eq!(group.clauses.len(), 2);
            assert!(group.clauses.iter().all(|(occur, _)| *occur == Occur::Should));
        },
        _ => panic!(),
    }
}

#[test]
fn scalars_skip_references() {
    let sheets = catalog();
    let schema = &sheets[0].schema.as_ref().unwrap().node;
    let columns = &sheets[0].data.as_ref().unwrap().columns;
    let scalars = collect_scalars(schema, columns, vec![]).expect("enough columns");
    assert_eq!(
        scalars,
        vec![
            column(ColumnKind::String, 0),
            column(ColumnKind::UInt16, 4),
            column(ColumnKind::UInt8, 12),
            column(ColumnKind::UInt8, 13),
        ]
    );
    assert!(collect_scalars(schema, &columns[0..3].to_vec(), vec![]).is_none());
    assert_eq!(Node::Array { count: 3, node: Box::new(Node::Scalar(Scalar::Default)) }.size(), 3);
}

#[test]
fn field_names_lose_brackets() {
    assert_eq!(sanitize_name(&"Item{Result}".to_string()), "ItemResult");
    assert_eq!(sanitize_name(&"Param[0]<x>(y)".to_string()), "Param0xy");
}

#[test]
fn search_requests_carry_queries() {
    let request = SearchRequest::Query { version: VersionKey(1), queries: vec![] };
    let SearchRequest::Query { version, queries } = request;
    assert_eq!(version, VersionKey(1));
    assert!(queries.is_empty());
}
