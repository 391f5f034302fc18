use laidout::corpus::json::{complex_value, Value};
use laidout::render::{render, LayoutStrategy, RenderOptions};
use laidout::Doc;
use std::rc::Rc;

fn render_at(doc: &Rc<Doc>, width: u32, strategy: LayoutStrategy) -> String {
    render(doc, RenderOptions::new(width).with_strategy(strategy))
        .unwrap()
        .text()
        .to_owned()
}

#[test]
fn small_array_uses_flat_and_broken_group_projections() {
    let doc = laidout::corpus::json::format(&Value::Arr(vec![
        Value::Int(1),
        Value::Int(2),
        Value::Int(3),
    ]));
    assert_eq!(render_at(&doc, 10, LayoutStrategy::Exact), "[1, 2, 3]");
    assert_eq!(
        render_at(&doc, 5, LayoutStrategy::Exact),
        "[\n  1,\n  2,\n  3\n]"
    );
}

#[test]
fn complex_json_is_flat_at_a_generous_width() {
    let doc = laidout::corpus::json::format(&complex_value());
    let text = render_at(&doc, 400, LayoutStrategy::Exact);
    assert_eq!(text.lines().count(), 1);
}

#[test]
fn scalars_render_as_json_literals() {
    let cases = [
        (Value::Null, "null"),
        (Value::Bool(true), "true"),
        (Value::Bool(false), "false"),
        (Value::Int(-42), "-42"),
        (Value::Int(i64::MIN), "-9223372036854775808"),
        (Value::Str("a\"b\n".to_owned()), "\"a\\\"b\\n\""),
        (Value::Arr(vec![]), "[]"),
        (Value::Obj(vec![]), "{}"),
    ];
    for (value, expected) in cases {
        assert_eq!(render_at(&laidout::corpus::json::format(&value), 80, LayoutStrategy::Exact), expected);
    }
}

#[test]
fn objects_break_one_entry_per_line_when_narrow() {
    let value = Value::Obj(vec![
        ("a".to_owned(), Value::Int(1)),
        ("b".to_owned(), Value::Arr(vec![Value::Bool(false)])),
    ]);
    let doc = laidout::corpus::json::format(&value);
    assert_eq!(render_at(&doc, 80, LayoutStrategy::Exact), "{\"a\": 1, \"b\": [false]}");
    assert_eq!(
        render_at(&doc, 16, LayoutStrategy::Exact),
        "{\n  \"a\": 1,\n  \"b\": [false]\n}"
    );
    assert_eq!(
        render_at(&doc, 16, LayoutStrategy::Fast),
        "{\n  \"a\": 1,\n  \"b\": [false]\n}"
    );
}

#[test]
fn complex_json_keeps_every_key_in_both_strategies() {
    let doc = laidout::corpus::json::format(&complex_value());
    for strategy in [LayoutStrategy::Fast, LayoutStrategy::Exact] {
        let text = render_at(&doc, 40, strategy);
        for key in ["\"name\": \"Example\"", "\"enabled\": true", "\"host\": \"server1\"", "\"port\": 8081", "\"v2\""] {
            assert!(text.contains(key), "{key} missing from {text}");
        }
    }
}
