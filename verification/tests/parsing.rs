use jsonish::BamlKind;
use jsonish::CompletionState;
use jsonish::ErrorReason;
use jsonish::FieldType;
use jsonish::MatchQuality;
use jsonish::Registry;
use jsonish::TableEvaluator;
use jsonish::TypeKind;
use jsonish::Value;
use jsonish::from_str;
use jsonish::match_string;
use jsonish::parse;
use jsonish::parse_int_string;

fn pick_structured(v: Value) -> Value {
    match v {
        Value::AnyOf(mut cands, _) => cands.remove(0),
        other => other,
    }
}

#[test]
fn parse_plain_scalar_is_string() {
    let v = parse("hello there").unwrap();
    match v {
        Value::Str(s, CompletionState::Complete) => assert_eq!(s, "hello there"),
        _ => panic!("expected a bare string"),
    }
}

#[test]
fn parse_bareword_number_offers_int() {
    let v = parse("  42  ").unwrap();
    match v {
        Value::AnyOf(cands, _) => {
            assert!(matches!(cands[0], Value::Int(42)));
            assert!(matches!(&cands[1], Value::Str(s, _) if s == "42"));
        }
        _ => panic!("expected candidates"),
    }
}

#[test]
fn parse_whitespace_only_is_unparsable() {
    let e = parse("   \n\t  ").unwrap_err();
    assert!(matches!(e.reason, ErrorReason::Unparsable(_)));
}

#[test]
fn parse_object_with_leniency() {
    // unquoted keys, single quotes, trailing comma, comments
    let text = "{ a: 1, 'b': 'two', c: true, } // done";
    let v = pick_structured(parse(text).unwrap());
    match v {
        Value::Object(fields, CompletionState::Complete) => {
            assert_eq!(fields.len(), 3);
            assert_eq!(fields[0].0, "a");
            assert!(matches!(fields[0].1, Value::Int(1)));
            assert_eq!(fields[1].0, "b");
            assert!(matches!(&fields[1].1, Value::Str(s, _) if s == "two"));
            assert!(matches!(fields[2].1, Value::Bool(true)));
        }
        other => panic!("expected an object, got {:?}", kind_name(&other)),
    }
}

fn kind_name(v: &Value) -> &'static str {
    match v {
        Value::Null => "null",
        Value::Bool(_) => "bool",
        Value::Int(_) => "int",
        Value::Float(_) => "float",
        Value::Str(_, _) => "string",
        Value::Array(_, _) => "array",
        Value::Object(_, _) => "object",
        Value::Fenced(_, _) => "fenced",
        Value::AnyOf(_, _) => "candidates",
    }
}

#[test]
fn parse_json_wrapped_in_prose() {
    let text = "The answer is: {\"x\": 1} as requested.";
    let v = pick_structured(parse(text).unwrap());
    match v {
        Value::Object(fields, _) => {
            assert_eq!(fields.len(), 1);
            assert_eq!(fields[0].0, "x");
        }
        _ => panic!("expected the embedded object"),
    }
}

#[test]
fn parse_truncated_array_is_incomplete() {
    let v = pick_structured(parse("[1, 2,").unwrap());
    match v {
        Value::Array(items, CompletionState::Incomplete) => {
            assert_eq!(items.len(), 2);
        }
        _ => panic!("expected an incomplete array"),
    }
}

#[test]
fn parse_truncated_string_is_incomplete() {
    let v = pick_structured(parse("[\"ab").unwrap());
    match v {
        Value::Array(items, CompletionState::Incomplete) => {
            assert!(matches!(&items[0], Value::Str(s, CompletionState::Incomplete) if s == "ab"));
        }
        _ => panic!("expected an incomplete array"),
    }
}

#[test]
fn parse_fenced_block() {
    let text = "Here you go:\n```json\n{\"x\": 1}\n```\ndone";
    let v = parse(text).unwrap();
    match v {
        Value::AnyOf(cands, _) => match &cands[0] {
            Value::Fenced(lang, inner) => {
                assert_eq!(lang, "json");
                match inner.as_ref() {
                    Value::AnyOf(inner_cands, _) => {
                        assert!(matches!(inner_cands[0], Value::Object(_, _)));
                    }
                    Value::Object(_, _) => {}
                    other => panic!("expected object content, got {}", kind_name(other)),
                }
            }
            other => panic!("expected a fenced block, got {}", kind_name(other)),
        },
        _ => panic!("expected candidates"),
    }
}

#[test]
fn fenced_block_coerces_to_class() {
    let ev = TableEvaluator { failing: Vec::new() };
    let mut reg = Registry { enums: Vec::new(), classes: Vec::new(), aliases: Vec::new() };
    reg.classes.push(jsonish::ClassDef {
        name: "X".to_string(),
        fields: vec![jsonish::FieldDef {
            name: "x".to_string(),
            alias: None,
            description: None,
            target: FieldType::Primitive(TypeKind::IntKind),
        }],
        constraints: Vec::new(),
    });
    let t = FieldType::Class("X".to_string());
    let text = "Sure!\n```json\n{\"x\": 1}\n```\n";
    let r = from_str(&ev, &reg, &t, text, false).unwrap();
    match &r.kind {
        BamlKind::Class(_, fs) => assert!(matches!(fs[0].1.kind, BamlKind::Int(1))),
        _ => panic!("expected a class"),
    }
}

#[test]
fn parse_escapes_in_strings() {
    let v = pick_structured(parse("[\"a\\nb\\t\\\"q\\\"\"]").unwrap());
    match v {
        Value::Array(items, _) => {
            assert!(matches!(&items[0], Value::Str(s, _) if s == "a\nb\t\"q\""));
        }
        _ => panic!("expected an array"),
    }
}

#[test]
fn parse_nested_structures() {
    let v = pick_structured(parse("{\"a\": [1, {\"b\": null}], \"c\": 1.5}").unwrap());
    match v {
        Value::Object(fields, CompletionState::Complete) => {
            assert_eq!(fields.len(), 2);
            match &fields[0].1 {
                Value::Array(items, _) => {
                    assert!(matches!(items[0], Value::Int(1)));
                    assert!(matches!(&items[1], Value::Object(_, _)));
                }
                _ => panic!("expected a nested array"),
            }
            assert!(matches!(&fields[1].1, Value::Float(f) if f == "1.5"));
        }
        _ => panic!("expected an object"),
    }
}

#[test]
fn match_string_tiers() {
    let cands = vec![
        ("RED".to_string(), vec!["red".to_string()]),
        ("GREEN".to_string(), vec!["GREEN".to_string()]),
    ];
    // exact
    let (i, q, _) = match_string(&cands, &"red".to_string()).unwrap();
    assert_eq!(i, 0);
    assert!(matches!(q, MatchQuality::ExactMatch));
    // case-insensitive
    let (i, q, _) = match_string(&cands, &"green".to_string()).unwrap();
    assert_eq!(i, 1);
    assert!(matches!(q, MatchQuality::CaseMatch));
    // substring
    let (i, q, _) = match_string(&cands, &"the color is green".to_string()).unwrap();
    assert_eq!(i, 1);
    assert!(matches!(q, MatchQuality::SubstringMatch));
    // nothing
    assert!(match_string(&cands, &"xyzzy".to_string()).is_none());
}

#[test]
fn match_string_tie_fails() {
    let cands = vec![
        ("A".to_string(), vec!["same".to_string()]),
        ("B".to_string(), vec!["same".to_string()]),
    ];
    assert!(match_string(&cands, &"same".to_string()).is_none());
}

#[test]
fn parse_int_string_range() {
    assert_eq!(parse_int_string(&"0".to_string()), Some(0));
    assert_eq!(parse_int_string(&"-12".to_string()), Some(-12));
    assert_eq!(
        parse_int_string(&"9223372036854775807".to_string()),
        Some(9223372036854775807)
    );
    assert_eq!(
        parse_int_string(&"-9223372036854775808".to_string()),
        Some(-9223372036854775808)
    );
    assert_eq!(parse_int_string(&"9223372036854775808".to_string()), None);
    assert_eq!(parse_int_string(&"12x".to_string()), None);
    assert_eq!(parse_int_string(&"".to_string()), None);
}

#[test]
fn message_renders_scope_and_reason() {
    let ev = TableEvaluator { failing: Vec::new() };
    let reg = Registry { enums: Vec::new(), classes: Vec::new(), aliases: Vec::new() };
    let t = FieldType::Primitive(TypeKind::IntKind);
    let e = from_str(&ev, &reg, &t, "not a number", false).unwrap_err();
    let msg = e.to_message();
    assert!(msg.contains("<root>"));
    assert!(msg.contains("no candidate matched") || msg.contains("type mismatch"));
}

#[test]
fn string_target_prefers_raw_text() {
    let ev = TableEvaluator { failing: Vec::new() };
    let reg = Registry { enums: Vec::new(), classes: Vec::new(), aliases: Vec::new() };
    let t = FieldType::Primitive(TypeKind::StringKind);
    let r = from_str(&ev, &reg, &t, "42", false).unwrap();
    match &r.kind {
        BamlKind::Str(s) => assert_eq!(s, "42"),
        _ => panic!("expected a string"),
    }
    assert_eq!(r.flags.len(), 0, "raw reading should carry no conversion flag");
}
