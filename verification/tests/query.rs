use boilmaster::excel::{ColumnDefinition, ColumnKind};
use boilmaster::language::Language;
use boilmaster::search::post::{Group, Leaf, Node, Operation, Relation, RelationTarget};
use boilmaster::search::pre::{Occur, Value};
use boilmaster::search::query::{
    like_pattern_string, resolve_node, resolve_queries, resolve_query, Column, Condition, Join, Predicate, Score,
    Term,
};
use boilmaster::search::Error;

fn name_column() -> ColumnDefinition {
    ColumnDefinition { kind: ColumnKind::String, offset: 0 }
}

fn level_column() -> ColumnDefinition {
    ColumnDefinition { kind: ColumnKind::UInt16, offset: 4 }
}

fn leaf(column: ColumnDefinition, language: Language, operation: Operation) -> Node {
    Node::Leaf(Leaf { field: (column, language), operation })
}

fn text_match(language: Language, text: &str) -> Node {
    leaf(name_column(), language, Operation::Match(text.to_string()))
}

fn level_equals(value: u64) -> Node {
    leaf(level_column(), Language::Neutral, Operation::Equal(Value::UInteger(value)))
}

fn is_field(column: &Column, alias: &str, definition: ColumnDefinition) -> bool {
    matches!(column, Column::Field(a, c) if a == alias && *c == definition)
}

fn is_row(column: &Column, alias: &str) -> bool {
    matches!(column, Column::RowId(a) if a == alias)
}

fn single_predicate(condition: &Condition) -> &Predicate {
    assert!(!condition.any);
    assert!(!condition.negate);
    assert_eq!(condition.terms.len(), 1);
    match &condition.terms[0] {
        Term::Predicate(p) => p,
        Term::Condition(_) => panic!("expected a predicate"),
    }
}

fn nested(term: &Term) -> &Condition {
    match term {
        Term::Condition(c) => c,
        Term::Predicate(_) => panic!("expected a condition"),
    }
}

fn malformed(error: Error) -> String {
    match error {
        Error::MalformedQuery(message) => message,
        other => panic!("unexpected error {other:?}"),
    }
}

fn same_row_join(join: &Join, sheet: &str, language: Language, alias: &str, target: &str) -> bool {
    if join.left || join.table.sheet != sheet || join.table.language != language || join.table.alias != alias {
        return false;
    }
    match single_predicate(&join.on) {
        Predicate::Same(a, b) => is_row(a, alias) && is_row(b, target),
        _ => false,
    }
}

#[test]
fn like_pattern_escapes_wildcards_and_backslash() {
    assert_eq!(like_pattern_string("50%_off\\"), "%50\\%\\_off\\\\%");
    assert_eq!(like_pattern_string(""), "%%");
    assert_eq!(like_pattern_string("plain"), "%plain%");
}

#[test]
fn resolving_no_queries_fails() {
    let error = resolve_queries(vec![]).unwrap_err();
    assert_eq!(malformed(error), "no queries could be resolved");
}

#[test]
fn match_leaf_reads_its_language_table() {
    let select = resolve_query("Item", &text_match(Language::English, "50%_off")).unwrap();
    assert_eq!(select.sheet, "Item");
    assert_eq!(select.from.sheet, "Item");
    assert_eq!(select.from.language, Language::English);
    assert_eq!(select.from.alias, "alias-base@en");
    assert!(select.joins.is_empty());
    match single_predicate(&select.condition) {
        Predicate::Like(column, pattern) => {
            assert!(is_field(column, "alias-base@en", name_column()));
            assert_eq!(pattern, "%50\\%\\_off%");
        }
        other => panic!("unexpected predicate {other:?}"),
    }
    match &select.score {
        Score::Ratio(length, column) => {
            assert_eq!(*length, 7);
            assert!(is_field(column, "alias-base@en", name_column()));
        }
        other => panic!("unexpected score {other:?}"),
    }
}

#[test]
fn match_score_counts_bytes() {
    let resolved = resolve_node(&text_match(Language::Japanese, "ア"), "t", "n").unwrap();
    match resolved.score {
        Score::Ratio(length, _) => assert_eq!(length, 3),
        other => panic!("unexpected score {other:?}"),
    }
    assert_eq!(resolved.languages, vec![Language::Japanese]);
    assert!(resolved.relations.is_empty());
}

#[test]
fn group_gates_scores_and_joins_languages() {
    let query = Node::Group(Group {
        clauses: vec![
            (Occur::Must, level_equals(10)),
            (Occur::Should, text_match(Language::English, "sword")),
            (Occur::MustNot, text_match(Language::English, "broken")),
        ],
    });
    let select = resolve_query("Item", &query).unwrap();

    // The first language read is the base table; the others join on the row.
    assert_eq!(select.from.alias, "alias-base@none");
    assert_eq!(select.joins.len(), 1);
    assert!(same_row_join(&select.joins[0], "Item", Language::English, "alias-base@en", "alias-base@none"));

    // Required, then excluded: optional clauses filter nothing beside a required one.
    let condition = &select.condition;
    assert!(!condition.any && !condition.negate);
    assert_eq!(condition.terms.len(), 2);
    match single_predicate(nested(&condition.terms[0])) {
        Predicate::Equal(column, Value::UInteger(10)) => {
            assert!(is_field(column, "alias-base@none", level_column()))
        }
        other => panic!("unexpected predicate {other:?}"),
    }
    let excluded = nested(&condition.terms[1]);
    assert!(excluded.any && excluded.negate);
    assert_eq!(excluded.terms.len(), 1);

    // The score counts only where the required clause holds, and adds the
    // optional clause's score only where it holds.
    match &select.score {
        Score::Case(gate, total) => {
            assert_eq!(gate.terms.len(), 1);
            match total.as_ref() {
                Score::Sum(first, second) => {
                    assert!(matches!(first.as_ref(), Score::Constant(1)));
                    assert!(matches!(second.as_ref(), Score::Case(_, s) if matches!(s.as_ref(), Score::Ratio(5, _))));
                }
                other => panic!("unexpected score {other:?}"),
            }
        }
        other => panic!("unexpected score {other:?}"),
    }
}

#[test]
fn optional_clauses_filter_alone() {
    let query = Node::Group(Group {
        clauses: vec![
            (Occur::Should, level_equals(1)),
            (Occur::Should, level_equals(2)),
        ],
    });
    let resolved = resolve_node(&query, "alias-base", "alias-0").unwrap();
    assert_eq!(resolved.condition.terms.len(), 1);
    let optional = nested(&resolved.condition.terms[0]);
    assert!(optional.any && !optional.negate);
    assert_eq!(optional.terms.len(), 2);
    assert!(matches!(resolved.score, Score::Sum(_, _)));
}

#[test]
fn empty_group_references_no_table() {
    let query = Node::Group(Group { clauses: vec![] });
    let resolved = resolve_node(&query, "alias-base", "alias-0").unwrap();
    assert!(resolved.condition.terms.is_empty());
    assert!(matches!(resolved.score, Score::Constant(0)));
    let error = resolve_query("Item", &query).unwrap_err();
    assert_eq!(malformed(error), "target sheet not referenced");
}

fn category_relation(inner: Node) -> Node {
    leaf(
        ColumnDefinition { kind: ColumnKind::Int32, offset: 8 },
        Language::Neutral,
        Operation::Relation(Relation {
            target: RelationTarget { sheet: "ItemCategory".to_string(), condition: None },
            query: Box::new(inner),
        }),
    )
}

#[test]
fn relation_joins_the_related_sheet() {
    let query = Node::Group(Group {
        clauses: vec![(Occur::Must, category_relation(text_match(Language::English, "arms")))],
    });
    let select = resolve_query("Item", &query).unwrap();
    assert_eq!(select.from.alias, "alias-base@none");
    assert_eq!(select.joins.len(), 1);
    let join = &select.joins[0];
    assert!(join.left);
    assert_eq!(join.table.sheet, "ItemCategory");
    assert_eq!(join.table.language, Language::English);
    assert_eq!(join.table.alias, "alias-0-0@en");
    match single_predicate(&join.on) {
        Predicate::Same(foreign_key, row) => {
            assert!(is_field(
                foreign_key,
                "alias-base@none",
                ColumnDefinition { kind: ColumnKind::Int32, offset: 8 }
            ));
            assert!(is_row(row, "alias-0-0@en"));
        }
        other => panic!("unexpected predicate {other:?}"),
    }
    match single_predicate(nested(&select.condition.terms[0])) {
        Predicate::Like(column, pattern) => {
            assert!(is_field(column, "alias-0-0@en", name_column()));
            assert_eq!(pattern, "%arms%");
        }
        other => panic!("unexpected predicate {other:?}"),
    }
}

#[test]
fn relation_condition_joins_on_both() {
    let node = leaf(
        ColumnDefinition { kind: ColumnKind::Int32, offset: 8 },
        Language::Neutral,
        Operation::Relation(Relation {
            target: RelationTarget {
                sheet: "ItemCategory".to_string(),
                condition: Some(Box::new(level_equals(3))),
            },
            query: Box::new(text_match(Language::German, "waffe")),
        }),
    );
    let select = resolve_query("Item", &node).unwrap();
    assert_eq!(select.joins.len(), 1);
    let on = &select.joins[0].on;
    assert_eq!(on.terms.len(), 2);
    assert!(matches!(single_predicate(nested(&on.terms[0])), Predicate::Same(_, _)));
    assert!(matches!(single_predicate(nested(&on.terms[1])), Predicate::Equal(_, Value::UInteger(3))));
    assert_eq!(select.joins[0].table.alias, "alias-0@de");
}

#[test]
fn relation_without_languages_fails() {
    let query = category_relation(Node::Group(Group { clauses: vec![] }));
    let error = resolve_query("Item", &query).unwrap_err();
    assert_eq!(malformed(error), "joined sheet ItemCategory not referenced");
}

#[test]
fn statement_keeps_query_order() {
    let statement = resolve_queries(vec![
        ("Item".to_string(), text_match(Language::English, "a")),
        ("Action".to_string(), level_equals(1)),
    ])
    .unwrap();
    assert_eq!(statement.selects.len(), 2);
    assert_eq!(statement.selects[0].sheet, "Item");
    assert_eq!(statement.selects[1].sheet, "Action");
    assert_eq!(statement.selects[1].from.alias, "alias-base@none");

    let error = resolve_queries(vec![
        ("Item".to_string(), text_match(Language::English, "a")),
        ("Empty".to_string(), Node::Group(Group { clauses: vec![] })),
    ])
    .unwrap_err();
    assert_eq!(malformed(error), "target sheet not referenced");
}

#[test]
fn relation_condition_languages_join_the_current_sheet() {
    let node = leaf(
        ColumnDefinition { kind: ColumnKind::Int32, offset: 8 },
        Language::Neutral,
        Operation::Relation(Relation {
            target: RelationTarget {
                sheet: "ItemCategory".to_string(),
                condition: Some(Box::new(text_match(Language::Japanese, "剣"))),
            },
            query: Box::new(text_match(Language::German, "waffe")),
        }),
    );
    let resolved = resolve_node(&node, "t", "n").unwrap();
    assert_eq!(resolved.languages, vec![Language::Neutral, Language::Japanese]);
    assert_eq!(resolved.relations.len(), 1);
    assert_eq!(resolved.relations[0].languages, vec![Language::German]);
}
