use laidout::corpus::sql::{complex_query, Formatter, JoinClause, OrderByItem, Query, SelectItem, TableRef};
use laidout::render::{render, LayoutStrategy, RenderOptions};

#[test]
fn complex_query_retains_clause_order_and_indentation() {
    let doc = Formatter::default().format_query(&complex_query());
    let rendered = render(&doc, RenderOptions::new(80).with_strategy(LayoutStrategy::Exact)).unwrap();
    let text = rendered.text();
    let with = text.find("WITH order_stats").unwrap();
    let select = text.find("SELECT").unwrap();
    let from = text.rfind("FROM users u").unwrap();
    let where_clause = text.find("WHERE u.status").unwrap();
    let order = text.find("ORDER BY total_spent DESC").unwrap();
    assert!(with < select && select < from && from < where_clause && where_clause < order);
    assert!(text.ends_with("LIMIT 10"));
    assert!(text.contains("\n    ON os.user_id = u.id"));
}

fn small_query() -> Query {
    Query {
        select: vec![SelectItem { expression: "id".into(), alias: None }],
        from: TableRef { name: "t".into(), alias: None },
        joins: vec![JoinClause {
            kind: "inner".into(),
            table: TableRef { name: "u".into(), alias: None },
            condition: "t.id = u.id".into(),
        }],
        where_clause: " a = 1  AND b = 2 AND c ".into(),
        group_by: Vec::new(),
        having: String::new(),
        order_by: vec![OrderByItem { expression: "id".into(), direction: "asc".into() }],
        limit: None,
        offset: Some(5),
        with: Vec::new(),
    }
}

#[test]
fn keywords_are_upper_cased_and_conjuncts_trimmed() {
    let doc = Formatter::default().format_query(&small_query());
    let rendered = render(&doc, RenderOptions::new(80)).unwrap();
    assert_eq!(
        rendered.text(),
        "SELECT\n    id\nFROM t\nINNER JOIN u\n    ON t.id = u.id\nWHERE a = 1\n    AND b = 2\n    AND c\nORDER BY id ASC\nOFFSET 5"
    );
}

#[test]
fn indentation_follows_the_formatter() {
    let doc = Formatter { indent: 2 }.format_query(&small_query());
    let rendered = render(&doc, RenderOptions::new(80)).unwrap();
    assert!(rendered.text().starts_with("SELECT\n  id\nFROM t"));
}

#[test]
fn try_format_query_refuses_unmeasurable_strings() {
    let formatter = Formatter::default();
    assert!(formatter.try_format_query(&small_query()).is_some());
    let mut bad = small_query();
    bad.where_clause = "a = 1 AND b\u{7}".into();
    assert!(formatter.try_format_query(&bad).is_none());
    let mut fine = small_query();
    fine.where_clause = String::new();
    fine.having = String::new();
    let doc = formatter.try_format_query(&fine).unwrap();
    let rendered = render(&doc, RenderOptions::new(80)).unwrap();
    assert!(!rendered.text().contains("WHERE"));
}

#[test]
fn conjuncts_are_trimmed_of_unicode_white_space() {
    let mut query = small_query();
    query.where_clause = "\u{3000}a = 1\u{a0} AND b = 2\u{2003}".into();
    query.joins = Vec::new();
    let doc = Formatter::default().format_query(&query);
    let rendered = render(&doc, RenderOptions::new(80)).unwrap();
    assert!(rendered.text().contains("WHERE a = 1\n    AND b = 2\nORDER BY"));
}
