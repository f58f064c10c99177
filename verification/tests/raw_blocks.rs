use jsonish::RawString;
use jsonish::Span;

fn block(file: &str, start: usize) -> RawString {
    RawString {
        raw_span: Span { file: file.to_string(), start, end: start + 20 },
        raw_value: "  {\"x\": 1}\n".to_string(),
        inner_value: "{\"x\": 1}".to_string(),
        language: Some((
            "json".to_string(),
            Span { file: file.to_string(), start, end: start + 4 },
        )),
        indent: 2,
        inner_span_start: 0,
    }
}

#[test]
fn raw_string_values() {
    let b = block("a.baml", 0);
    assert_eq!(b.value(), "{\"x\": 1}");
    assert_eq!(b.raw_value(), "  {\"x\": 1}\n");
}

#[test]
fn raw_string_eq_ignores_spans() {
    let a = block("a.baml", 0);
    let b = block("b.baml", 100);
    a.assert_eq_up_to_span(&b);
}

#[test]
fn raw_string_content_feeds_parser() {
    let b = block("a.baml", 0);
    let v = jsonish::parse(b.value()).unwrap();
    match v {
        jsonish::Value::AnyOf(cands, _) => {
            assert!(matches!(cands[0], jsonish::Value::Object(_, _)));
        }
        _ => panic!("expected candidates"),
    }
}
