use jsonish::BamlKind;
use jsonish::ClassDef;
use jsonish::Coerced;
use jsonish::CompletionState;
use jsonish::Constraint;
use jsonish::ConstraintLevel;
use jsonish::EnumDef;
use jsonish::EnumValueDef;
use jsonish::ErrorReason;
use jsonish::FieldDef;
use jsonish::FieldType;
use jsonish::Flag;
use jsonish::LiteralValue;
use jsonish::Registry;
use jsonish::TableEvaluator;
use jsonish::TypeKind;
use jsonish::from_str;

fn no_fail() -> TableEvaluator {
    TableEvaluator { failing: Vec::new() }
}

fn empty_reg() -> Registry {
    Registry { enums: Vec::new(), classes: Vec::new(), aliases: Vec::new() }
}

fn field(name: &str, target: FieldType) -> FieldDef {
    FieldDef { name: name.to_string(), alias: None, description: None, target }
}

fn int_t() -> FieldType {
    FieldType::Primitive(TypeKind::IntKind)
}

fn string_t() -> FieldType {
    FieldType::Primitive(TypeKind::StringKind)
}

fn class_reg(name: &str, fields: Vec<FieldDef>) -> Registry {
    let mut reg = empty_reg();
    reg.classes.push(ClassDef { name: name.to_string(), fields, constraints: Vec::new() });
    reg
}

fn color_reg() -> Registry {
    let mut reg = empty_reg();
    reg.enums.push(EnumDef {
        name: "Color".to_string(),
        values: vec![
            EnumValueDef {
                name: "RED".to_string(),
                alias: Some("r".to_string()),
                description: None,
            },
            EnumValueDef { name: "GREEN".to_string(), alias: None, description: None },
        ],
        constraints: Vec::new(),
    });
    reg
}

fn conversionless(c: &Coerced) -> bool {
    let own = c.flags.iter().all(|f| {
        !matches!(
            f,
            Flag::StringToInt
                | Flag::StringToFloat
                | Flag::StringToBool
                | Flag::IntToFloat
                | Flag::FloatToInt
                | Flag::ValueToString
                | Flag::InexactMatch(_)
                | Flag::MatchedByDescription
                | Flag::DefaultedAbsent
                | Flag::DefaultedFromError
                | Flag::DroppedEntry(_)
                | Flag::ExtraKey(_)
        )
    });
    let kids = match &c.kind {
        BamlKind::Class(_, fs) => fs.iter().all(|(_, v)| conversionless(v)),
        BamlKind::List(items) => items.iter().all(conversionless),
        BamlKind::Dict(es) => es.iter().all(|(_, v)| conversionless(v)),
        _ => true,
    };
    own && kids
}

// an int that already matches its target round-trips with no flags at all
#[test]
fn roundtrip_int_exact() {
    let ev = no_fail();
    let reg = empty_reg();
    let r = from_str(&ev, &reg, &int_t(), "42", false).unwrap();
    assert!(matches!(r.kind, BamlKind::Int(42)));
    assert_eq!(r.flags.len(), 0);
}

#[test]
fn roundtrip_bool_exact() {
    let ev = no_fail();
    let reg = empty_reg();
    let r = from_str(&ev, &reg, &FieldType::Primitive(TypeKind::BoolKind), "true", false).unwrap();
    assert!(matches!(r.kind, BamlKind::Bool(true)));
    assert_eq!(r.flags.len(), 0);
}

#[test]
fn roundtrip_string_exact() {
    let ev = no_fail();
    let reg = empty_reg();
    let r = from_str(&ev, &reg, &string_t(), "hello world", false).unwrap();
    match &r.kind {
        BamlKind::Str(s) => assert_eq!(s, "hello world"),
        _ => panic!("expected a string"),
    }
    assert_eq!(r.flags.len(), 0);
}

#[test]
fn roundtrip_list_exact() {
    let ev = no_fail();
    let reg = empty_reg();
    let t = FieldType::List(Box::new(int_t()));
    let r = from_str(&ev, &reg, &t, "[1, 2, 3]", false).unwrap();
    match &r.kind {
        BamlKind::List(items) => {
            assert_eq!(items.len(), 3);
            assert!(matches!(items[0].kind, BamlKind::Int(1)));
            assert!(matches!(items[2].kind, BamlKind::Int(3)));
        }
        _ => panic!("expected a list"),
    }
    assert!(conversionless(&r));
}

#[test]
fn roundtrip_class_exact() {
    let ev = no_fail();
    let reg = class_reg("Point", vec![field("x", int_t()), field("y", int_t())]);
    let t = FieldType::Class("Point".to_string());
    let r = from_str(&ev, &reg, &t, "{\"x\": 1, \"y\": 2}", false).unwrap();
    match &r.kind {
        BamlKind::Class(name, fs) => {
            assert_eq!(name, "Point");
            assert_eq!(fs.len(), 2);
            assert_eq!(fs[0].0, "x");
            assert!(matches!(fs[0].1.kind, BamlKind::Int(1)));
            assert!(matches!(fs[1].1.kind, BamlKind::Int(2)));
        }
        _ => panic!("expected a class"),
    }
    assert!(conversionless(&r));
}

// enum matching is case-insensitive and alias-aware
#[test]
fn enum_alias_exact() {
    let ev = no_fail();
    let reg = color_reg();
    let t = FieldType::Enum("Color".to_string());
    for input in ["r", "R", "RED", " red ", "red"] {
        let r = from_str(&ev, &reg, &t, input, false).unwrap();
        match &r.kind {
            BamlKind::Enum(e, v) => {
                assert_eq!(e, "Color");
                assert_eq!(v, "RED", "input {input:?} should resolve to RED");
            }
            _ => panic!("expected an enum"),
        }
    }
}

#[test]
fn enum_no_candidate_lists_tried() {
    let ev = no_fail();
    let reg = color_reg();
    let t = FieldType::Enum("Color".to_string());
    let e = from_str(&ev, &reg, &t, "blue", false).unwrap_err();
    match &e.reason {
        ErrorReason::NoCandidateMatched(causes) => {
            assert_eq!(causes.len(), 2);
            let msg = e.to_message();
            assert!(msg.contains("RED"));
            assert!(msg.contains("GREEN"));
        }
        _ => panic!("expected NoCandidateMatched"),
    }
}

// truncated streams coerce under allow_partials and fail strict
#[test]
fn truncated_object_partial() {
    let ev = no_fail();
    let reg = class_reg(
        "Rec",
        vec![field("a", int_t()), field("b", FieldType::List(Box::new(int_t())))],
    );
    let t = FieldType::Class("Rec".to_string());
    let r = from_str(&ev, &reg, &t, "{\"a\": 1, \"b\": [1,2,", true).unwrap();
    match &r.kind {
        BamlKind::Class(_, fs) => {
            assert!(matches!(fs[0].1.kind, BamlKind::Int(1)));
            match &fs[1].1.kind {
                BamlKind::List(items) => {
                    assert_eq!(items.len(), 2);
                    assert!(matches!(items[0].kind, BamlKind::Int(1)));
                    assert!(matches!(items[1].kind, BamlKind::Int(2)));
                }
                _ => panic!("expected a list"),
            }
            assert!(matches!(fs[1].1.completion, CompletionState::Incomplete));
        }
        _ => panic!("expected a class"),
    }
    assert!(matches!(r.completion, CompletionState::Incomplete));
}

#[test]
fn truncated_object_strict_fails() {
    let ev = no_fail();
    let reg = class_reg(
        "Rec",
        vec![field("a", int_t()), field("b", FieldType::List(Box::new(int_t())))],
    );
    let t = FieldType::Class("Rec".to_string());
    let e = from_str(&ev, &reg, &t, "{\"a\": 1, \"b\": [1,2,", false).unwrap_err();
    assert!(matches!(e.reason, ErrorReason::Unparsable(_)));
}

// union disambiguation prefers the branch with no conversion flags
#[test]
fn union_prefers_exact_branch() {
    let ev = no_fail();
    let mut reg = empty_reg();
    reg.classes.push(ClassDef {
        name: "A".to_string(),
        fields: vec![field("x", int_t())],
        constraints: Vec::new(),
    });
    reg.classes.push(ClassDef {
        name: "B".to_string(),
        fields: vec![field("x", string_t())],
        constraints: Vec::new(),
    });
    let t = FieldType::Union(vec![
        FieldType::Class("A".to_string()),
        FieldType::Class("B".to_string()),
    ]);
    let r = from_str(&ev, &reg, &t, "{\"x\": \"5\"}", false).unwrap();
    match &r.kind {
        BamlKind::Class(name, fs) => {
            assert_eq!(name, "B");
            match &fs[0].1.kind {
                BamlKind::Str(s) => assert_eq!(s, "5"),
                _ => panic!("expected a string field"),
            }
        }
        _ => panic!("expected a class"),
    }
    let r2 = from_str(&ev, &reg, &t, "{\"x\": 5}", false).unwrap();
    match &r2.kind {
        BamlKind::Class(name, _) => assert_eq!(name, "A"),
        _ => panic!("expected a class"),
    }
}

// extra keys never fail class coercion; they are flagged
#[test]
fn extra_keys_flagged_not_fatal() {
    let ev = no_fail();
    let reg = class_reg("OneField", vec![field("x", int_t())]);
    let t = FieldType::Class("OneField".to_string());
    let r = from_str(&ev, &reg, &t, "{\"x\":1,\"y\":2}", false).unwrap();
    match &r.kind {
        BamlKind::Class(_, fs) => {
            assert_eq!(fs.len(), 1);
            assert!(matches!(fs[0].1.kind, BamlKind::Int(1)));
        }
        _ => panic!("expected a class"),
    }
    let extra: Vec<&Flag> =
        r.flags.iter().filter(|f| matches!(f, Flag::ExtraKey(_))).collect();
    assert_eq!(extra.len(), 1);
    match extra[0] {
        Flag::ExtraKey(k) => assert_eq!(k, "y"),
        _ => unreachable!(),
    }
}

// assert failures are fatal and carry the expression; checks are soft
#[test]
fn assert_failure_fatal_with_expression() {
    let ev = TableEvaluator { failing: vec!["this >= 0".to_string()] };
    let mut reg = class_reg("Count", vec![field("n", int_t())]);
    reg.classes[0].constraints.push(Constraint {
        level: ConstraintLevel::Assert,
        label: "nonneg".to_string(),
        expression: "this >= 0".to_string(),
    });
    let t = FieldType::Class("Count".to_string());
    let e = from_str(&ev, &reg, &t, "{\"n\": 3}", false).unwrap_err();
    fn find_assert(e: &jsonish::ParsingError) -> Option<String> {
        match &e.reason {
            ErrorReason::AssertFailed(expr) => Some(expr.clone()),
            ErrorReason::NoCandidateMatched(cs) => cs.iter().find_map(find_assert),
            ErrorReason::MissingRequiredField(_, cs) => cs.iter().find_map(find_assert),
            _ => None,
        }
    }
    assert_eq!(find_assert(&e).as_deref(), Some("this >= 0"));
    assert!(e.to_message().contains("assert failed: this >= 0"));
}

#[test]
fn check_failure_soft_with_flag() {
    let ev = TableEvaluator { failing: vec!["this >= 0".to_string()] };
    let mut reg = class_reg("Count", vec![field("n", int_t())]);
    reg.classes[0].constraints.push(Constraint {
        level: ConstraintLevel::Check,
        label: "nonneg".to_string(),
        expression: "this >= 0".to_string(),
    });
    let t = FieldType::Class("Count".to_string());
    let r = from_str(&ev, &reg, &t, "{\"n\": 3}", false).unwrap();
    let checks: Vec<&Flag> =
        r.flags.iter().filter(|f| matches!(f, Flag::CheckResult(_, _))).collect();
    assert_eq!(checks.len(), 1);
    match checks[0] {
        Flag::CheckResult(label, passed) => {
            assert_eq!(label, "nonneg");
            assert!(!passed);
        }
        _ => unreachable!(),
    }
}

fn tree_reg() -> Registry {
    let mut reg = empty_reg();
    reg.aliases.push(jsonish::AliasDef {
        name: "Tree".to_string(),
        target: FieldType::Class("TreeNode".to_string()),
    });
    reg.classes.push(ClassDef {
        name: "TreeNode".to_string(),
        fields: vec![
            field("value", int_t()),
            field(
                "children",
                FieldType::List(Box::new(FieldType::Alias("Tree".to_string()))),
            ),
        ],
        constraints: Vec::new(),
    });
    reg
}

fn nested_tree(depth: usize) -> String {
    let mut out = String::new();
    for _ in 0..depth {
        out.push_str("{\"value\": 1, \"children\": [");
    }
    out.push_str("{\"value\": 0, \"children\": []}");
    for _ in 0..depth {
        out.push_str("]}");
    }
    out
}

// recursive aliases resolve up to the depth ceiling and fail beyond it
#[test]
fn recursive_alias_within_ceiling() {
    let ev = no_fail();
    let reg = tree_reg();
    let t = FieldType::Alias("Tree".to_string());
    let r = from_str(&ev, &reg, &t, &nested_tree(3), false).unwrap();
    assert!(matches!(r.kind, BamlKind::Class(_, _)));
}

#[test]
fn recursive_alias_beyond_ceiling() {
    let ev = no_fail();
    let reg = tree_reg();
    let t = FieldType::Alias("Tree".to_string());
    let e = from_str(&ev, &reg, &t, &nested_tree(200), false).unwrap_err();
    fn has_limit(e: &jsonish::ParsingError) -> bool {
        match &e.reason {
            ErrorReason::RecursionLimitExceeded => true,
            ErrorReason::NoCandidateMatched(cs) => cs.iter().any(has_limit),
            ErrorReason::MissingRequiredField(_, cs) => cs.iter().any(has_limit),
            _ => false,
        }
    }
    assert!(has_limit(&e), "expected a recursion-limit failure: {}", e.to_message());
}

#[test]
fn string_to_int_conversion_flagged() {
    let ev = no_fail();
    let reg = empty_reg();
    let r = from_str(&ev, &reg, &int_t(), "\"17\"", false).unwrap();
    assert!(matches!(r.kind, BamlKind::Int(17)));
    assert!(r.flags.iter().any(|f| matches!(f, Flag::StringToInt)));
}

#[test]
fn float_rounds_to_int() {
    let ev = no_fail();
    let reg = empty_reg();
    let r = from_str(&ev, &reg, &int_t(), "2.6", false).unwrap();
    assert!(matches!(r.kind, BamlKind::Int(3)));
    let r2 = from_str(&ev, &reg, &int_t(), "-2.6", false).unwrap();
    assert!(matches!(r2.kind, BamlKind::Int(-3)));
    let r3 = from_str(&ev, &reg, &int_t(), "2.4", false).unwrap();
    assert!(matches!(r3.kind, BamlKind::Int(2)));
}

#[test]
fn missing_required_field_fails() {
    let ev = no_fail();
    let reg = class_reg("P", vec![field("x", int_t()), field("y", int_t())]);
    let t = FieldType::Class("P".to_string());
    let e = from_str(&ev, &reg, &t, "{\"x\": 1}", false).unwrap_err();
    match &e.reason {
        ErrorReason::NoCandidateMatched(causes) => match &causes[0].reason {
            ErrorReason::MissingRequiredField(name, _) => assert_eq!(name, "y"),
            _ => panic!("expected MissingRequiredField, got {}", e.to_message()),
        },
        ErrorReason::MissingRequiredField(name, _) => assert_eq!(name, "y"),
        _ => panic!("expected MissingRequiredField, got {}", e.to_message()),
    }
}

#[test]
fn optional_field_defaults_when_absent() {
    let ev = no_fail();
    let reg = class_reg(
        "Q",
        vec![field("x", int_t()), field("y", FieldType::Optional(Box::new(int_t())))],
    );
    let t = FieldType::Class("Q".to_string());
    let r = from_str(&ev, &reg, &t, "{\"x\": 1}", false).unwrap();
    match &r.kind {
        BamlKind::Class(_, fs) => {
            assert_eq!(fs.len(), 2);
            assert!(matches!(fs[1].1.kind, BamlKind::Null));
            assert!(fs[1].1.flags.iter().any(|f| matches!(f, Flag::DefaultedAbsent)));
        }
        _ => panic!("expected a class"),
    }
}

#[test]
fn map_drops_failing_entries() {
    let ev = no_fail();
    let reg = empty_reg();
    let t = FieldType::Dict(Box::new(string_t()), Box::new(int_t()));
    let r = from_str(&ev, &reg, &t, "{\"a\": 1, \"b\": \"oops\", \"c\": 3}", false).unwrap();
    match &r.kind {
        BamlKind::Dict(es) => {
            assert_eq!(es.len(), 2);
            assert_eq!(es[0].0, "a");
            assert_eq!(es[1].0, "c");
        }
        _ => panic!("expected a map"),
    }
    let dropped: Vec<&Flag> =
        r.flags.iter().filter(|f| matches!(f, Flag::DroppedEntry(_))).collect();
    assert_eq!(dropped.len(), 1);
}

#[test]
fn tuple_arity_must_match() {
    let ev = no_fail();
    let reg = empty_reg();
    let t = FieldType::Tuple(vec![int_t(), string_t()]);
    let r = from_str(&ev, &reg, &t, "[1, \"two\"]", false).unwrap();
    match &r.kind {
        BamlKind::List(items) => assert_eq!(items.len(), 2),
        _ => panic!("expected a tuple payload"),
    }
    let e = from_str(&ev, &reg, &t, "[1]", false).unwrap_err();
    match &e.reason {
        ErrorReason::NoCandidateMatched(causes) => {
            assert!(matches!(causes[0].reason, ErrorReason::TypeMismatch(_)));
        }
        _ => panic!("expected the arity mismatch among the causes"),
    }
}

#[test]
fn literal_requires_exact_value() {
    let ev = no_fail();
    let reg = empty_reg();
    let t = FieldType::Literal(LiteralValue::LitInt(5));
    let r = from_str(&ev, &reg, &t, "5", false).unwrap();
    assert!(matches!(r.kind, BamlKind::Int(5)));
    let e = from_str(&ev, &reg, &t, "6", false).unwrap_err();
    match &e.reason {
        ErrorReason::NoCandidateMatched(causes) => {
            assert!(matches!(causes[0].reason, ErrorReason::TypeMismatch(_)));
        }
        _ => panic!("expected the literal mismatch among the causes"),
    }
}

#[test]
fn field_found_by_alias_and_case() {
    let ev = no_fail();
    let mut reg = empty_reg();
    reg.classes.push(ClassDef {
        name: "R".to_string(),
        fields: vec![FieldDef {
            name: "myProperty".to_string(),
            alias: Some("MP".to_string()),
            description: None,
            target: int_t(),
        }],
        constraints: Vec::new(),
    });
    let t = FieldType::Class("R".to_string());
    let r1 = from_str(&ev, &reg, &t, "{\"MP\": 7}", false).unwrap();
    match &r1.kind {
        BamlKind::Class(_, fs) => assert!(matches!(fs[0].1.kind, BamlKind::Int(7))),
        _ => panic!("expected a class"),
    }
    let r2 = from_str(&ev, &reg, &t, "{\"MYPROPERTY\": 8}", false).unwrap();
    match &r2.kind {
        BamlKind::Class(_, fs) => assert!(matches!(fs[0].1.kind, BamlKind::Int(8))),
        _ => panic!("expected a class"),
    }
}

#[test]
fn union_pick_flag_present() {
    let ev = no_fail();
    let reg = empty_reg();
    let t = FieldType::Union(vec![int_t(), string_t()]);
    let r = from_str(&ev, &reg, &t, "7", false).unwrap();
    assert!(matches!(r.kind, BamlKind::Int(7)));
    assert!(r.flags.iter().any(|f| matches!(f, Flag::UnionPick(2))));
}

#[test]
fn fence_provenance_flag_present() {
    let ev = no_fail();
    let reg = class_reg("F", vec![field("x", int_t())]);
    let t = FieldType::Class("F".to_string());
    let text = "```json\n{\"x\": 9}\n```";
    let r = from_str(&ev, &reg, &t, text, false).unwrap();
    assert!(r.flags.iter().any(|f| matches!(f, Flag::FromFence(lang) if lang == "json")));
}

#[test]
fn optional_absorbs_failure_with_flag() {
    let ev = no_fail();
    let reg = class_reg(
        "O",
        vec![field("x", int_t()), field("y", FieldType::Optional(Box::new(int_t())))],
    );
    let t = FieldType::Class("O".to_string());
    let r = from_str(&ev, &reg, &t, "{\"x\": 1, \"y\": \"oops\"}", false).unwrap();
    match &r.kind {
        BamlKind::Class(_, fs) => {
            assert!(matches!(fs[1].1.kind, BamlKind::Null));
            assert!(fs[1].1.flags.iter().any(|f| matches!(f, Flag::DefaultedFromError)));
        }
        _ => panic!("expected a class"),
    }
}

#[test]
fn map_with_enum_keys() {
    let ev = no_fail();
    let reg = color_reg();
    let t = FieldType::Dict(
        Box::new(FieldType::Enum("Color".to_string())),
        Box::new(int_t()),
    );
    let r = from_str(&ev, &reg, &t, "{\"red\": 1, \"green\": 2}", false).unwrap();
    match &r.kind {
        BamlKind::Dict(es) => {
            assert_eq!(es.len(), 2);
            assert_eq!(es[0].0, "RED");
            assert_eq!(es[1].0, "GREEN");
        }
        _ => panic!("expected a map"),
    }
}

#[test]
fn enum_matched_by_description() {
    let ev = no_fail();
    let mut reg = empty_reg();
    reg.enums.push(EnumDef {
        name: "Mood".to_string(),
        values: vec![
            EnumValueDef {
                name: "HAPPY".to_string(),
                alias: None,
                description: Some("feeling great".to_string()),
            },
            EnumValueDef { name: "SAD".to_string(), alias: None, description: None },
        ],
        constraints: Vec::new(),
    });
    let t = FieldType::Enum("Mood".to_string());
    let r = from_str(&ev, &reg, &t, "feeling great", false).unwrap();
    match &r.kind {
        BamlKind::Enum(_, v) => assert_eq!(v, "HAPPY"),
        _ => panic!("expected an enum"),
    }
    assert!(r.flags.iter().any(|f| matches!(f, Flag::MatchedByDescription)));
}

#[test]
fn union_failure_retains_all_causes() {
    let ev = no_fail();
    let reg = empty_reg();
    let t = FieldType::Union(vec![
        int_t(),
        FieldType::Primitive(TypeKind::BoolKind),
    ]);
    let e = from_str(&ev, &reg, &t, "[]", false).unwrap_err();
    match &e.reason {
        ErrorReason::NoCandidateMatched(_) => {
            let msg = e.to_message();
            assert!(msg.contains("tried"));
        }
        _ => panic!("expected NoCandidateMatched"),
    }
}

#[test]
fn float_lexeme_preserved() {
    let ev = no_fail();
    let reg = empty_reg();
    let t = FieldType::Primitive(TypeKind::FloatKind);
    let r = from_str(&ev, &reg, &t, "3.14", false).unwrap();
    match &r.kind {
        BamlKind::Float(text) => assert_eq!(text, "3.14"),
        _ => panic!("expected a float"),
    }
    let r2 = from_str(&ev, &reg, &t, "7", false).unwrap();
    match &r2.kind {
        BamlKind::Float(text) => assert_eq!(text, "7"),
        _ => panic!("expected a float"),
    }
    assert!(r2.flags.iter().any(|f| matches!(f, Flag::IntToFloat)));
}

#[test]
fn bool_from_text_flagged() {
    let ev = no_fail();
    let reg = empty_reg();
    let t = FieldType::Primitive(TypeKind::BoolKind);
    let r = from_str(&ev, &reg, &t, "\" True \"", false).unwrap();
    assert!(matches!(r.kind, BamlKind::Bool(true)));
    assert!(r.flags.iter().any(|f| matches!(f, Flag::StringToBool)));
}

#[test]
fn huge_number_fails_int_target() {
    let ev = no_fail();
    let reg = empty_reg();
    let e = from_str(&ev, &reg, &int_t(), "99999999999999999999", false).unwrap_err();
    assert!(matches!(
        e.reason,
        ErrorReason::NoCandidateMatched(_) | ErrorReason::TypeMismatch(_)
    ));
}

#[test]
fn empty_array_coerces_to_empty_list() {
    let ev = no_fail();
    let reg = empty_reg();
    let t = FieldType::List(Box::new(int_t()));
    let r = from_str(&ev, &reg, &t, "[]", false).unwrap();
    match &r.kind {
        BamlKind::List(items) => assert_eq!(items.len(), 0),
        _ => panic!("expected a list"),
    }
}

#[test]
fn empty_object_coerces_to_empty_map() {
    let ev = no_fail();
    let reg = empty_reg();
    let t = FieldType::Dict(Box::new(string_t()), Box::new(int_t()));
    let r = from_str(&ev, &reg, &t, "{}", false).unwrap();
    match &r.kind {
        BamlKind::Dict(es) => assert_eq!(es.len(), 0),
        _ => panic!("expected a map"),
    }
}

#[test]
fn map_fails_when_every_entry_fails() {
    let ev = no_fail();
    let reg = empty_reg();
    let t = FieldType::Dict(Box::new(string_t()), Box::new(int_t()));
    let e = from_str(&ev, &reg, &t, "{\"a\": \"x\", \"b\": \"y\"}", false).unwrap_err();
    assert!(matches!(e.reason, ErrorReason::NoCandidateMatched(_)));
}

#[test]
fn union_inside_class_field() {
    let ev = no_fail();
    let reg = class_reg(
        "W",
        vec![field("v", FieldType::Union(vec![int_t(), string_t()]))],
    );
    let t = FieldType::Class("W".to_string());
    let r = from_str(&ev, &reg, &t, "{\"v\": \"plain\"}", false).unwrap();
    match &r.kind {
        BamlKind::Class(_, fs) => match &fs[0].1.kind {
            BamlKind::Str(s) => assert_eq!(s, "plain"),
            _ => panic!("expected the string branch"),
        },
        _ => panic!("expected a class"),
    }
}
