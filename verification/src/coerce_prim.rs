//! Coercion rules for the leaf target shapes: primitives, literals and
//! enums.  Exact-type matches carry no flag; best-effort conversions between
//! strings, numbers and booleans are tagged with a conversion flag; anything
//! else is a type mismatch.

use vstd::prelude::*;
use crate::coerced::BamlKind;
use crate::coerced::BamlKindV;
use crate::coerced::Coerced;
use crate::coerced::CoercedV;
use crate::constraints::ConstraintEvaluator;
use crate::constraints::apply_constraints;
use crate::constraints::apply_constraints_spec;
use crate::constraints::result_matches;
use crate::error::ErrV;
use crate::error::ErrorReason;
use crate::error::ParsingError;
use crate::error::ReasonV;
use crate::error::scope_view;
use crate::flags::Flag;
use crate::flags::FlagV;
use crate::flags::MatchQuality;
use crate::matcher::cands_view;
use crate::matcher::strings_view;
use crate::matcher::match_string;
use crate::matcher::match_string_spec;
use crate::numtext::decimal_round_value;
use crate::numtext::int_lexeme_value;
use crate::numtext::int_repr;
use crate::numtext::is_decimal_lexeme;
use crate::numtext::is_int_lexeme;
use crate::schema::EnumValueDef;
use crate::schema::LiteralValue;
use crate::schema::Registry;
use crate::schema::TypeKind;
use crate::schema::find_enum_spec;
use crate::textutil::fold_seq;
use crate::textutil::trim_seq;
use crate::value::CompletionState;
use crate::value::Value;

verus! {

/// A coerced node with the given payload, completion and flags.
pub open spec fn node(kind: BamlKindV, completion: CompletionState, flags: Seq<FlagV>) -> CoercedV {
    CoercedV { flags, completion, kind }
}

/// A type-mismatch error at the given scope.
pub open spec fn mismatch(scope: Seq<Seq<char>>, detail: Seq<char>) -> ErrV {
    ErrV { scope, reason: ReasonV::TypeMismatch(detail) }
}

/// What coercing a plain value onto a primitive target yields.
pub open spec fn prim_spec(kind: TypeKind, v: Value, scope: Seq<Seq<char>>) -> Result<
    CoercedV,
    ErrV,
> {
    match kind {
        TypeKind::NullKind => match v {
            Value::Null => Result::Ok(node(BamlKindV::Null, CompletionState::Complete, Seq::empty())),
            _ => Result::Err(mismatch(scope, "expected null"@)),
        },
        TypeKind::BoolKind => match v {
            Value::Bool(b) => Result::Ok(
                node(BamlKindV::Bool(b), CompletionState::Complete, Seq::empty()),
            ),
            Value::Str(s, c) => {
                let t = fold_seq(trim_seq(s@));
                if t == "true"@ {
                    Result::Ok(node(BamlKindV::Bool(true), c, seq![FlagV::StringToBool]))
                } else if t == "false"@ {
                    Result::Ok(node(BamlKindV::Bool(false), c, seq![FlagV::StringToBool]))
                } else {
                    Result::Err(mismatch(scope, "expected a boolean"@))
                }
            },
            _ => Result::Err(mismatch(scope, "expected a boolean"@)),
        },
        TypeKind::IntKind => match v {
            Value::Int(n) => Result::Ok(
                node(BamlKindV::Int(n as int), CompletionState::Complete, Seq::empty()),
            ),
            Value::Float(f) => {
                if is_decimal_lexeme(f@) && i64::MIN <= decimal_round_value(f@) <= i64::MAX {
                    Result::Ok(
                        node(
                            BamlKindV::Int(decimal_round_value(f@)),
                            CompletionState::Complete,
                            seq![FlagV::FloatToInt],
                        ),
                    )
                } else {
                    Result::Err(mismatch(scope, "expected an integer"@))
                }
            },
            Value::Str(s, c) => {
                let t = trim_seq(s@);
                if is_int_lexeme(t) && i64::MIN <= int_lexeme_value(t) <= i64::MAX {
                    Result::Ok(node(BamlKindV::Int(int_lexeme_value(t)), c, seq![FlagV::StringToInt]))
                } else if is_decimal_lexeme(t) && i64::MIN <= decimal_round_value(t) <= i64::MAX {
                    Result::Ok(
                        node(BamlKindV::Int(decimal_round_value(t)), c, seq![FlagV::StringToInt]),
                    )
                } else {
                    Result::Err(mismatch(scope, "expected an integer"@))
                }
            },
            _ => Result::Err(mismatch(scope, "expected an integer"@)),
        },
        TypeKind::FloatKind => match v {
            Value::Float(f) => Result::Ok(
                node(BamlKindV::Float(f@), CompletionState::Complete, Seq::empty()),
            ),
            Value::Int(n) => Result::Ok(
                node(
                    BamlKindV::Float(int_repr(n as int)),
                    CompletionState::Complete,
                    seq![FlagV::IntToFloat],
                ),
            ),
            Value::Str(s, c) => {
                let t = trim_seq(s@);
                if is_decimal_lexeme(t) {
                    Result::Ok(node(BamlKindV::Float(t), c, seq![FlagV::StringToFloat]))
                } else {
                    Result::Err(mismatch(scope, "expected a number"@))
                }
            },
            _ => Result::Err(mismatch(scope, "expected a number"@)),
        },
        TypeKind::StringKind => match v {
            Value::Str(s, c) => Result::Ok(node(BamlKindV::Str(s@), c, Seq::empty())),
            Value::Int(n) => Result::Ok(
                node(
                    BamlKindV::Str(int_repr(n as int)),
                    CompletionState::Complete,
                    seq![FlagV::ValueToString],
                ),
            ),
            Value::Float(f) => Result::Ok(
                node(BamlKindV::Str(f@), CompletionState::Complete, seq![FlagV::ValueToString]),
            ),
            Value::Bool(b) => Result::Ok(
                node(
                    BamlKindV::Str(
                        if b {
                            "true"@
                        } else {
                            "false"@
                        },
                    ),
                    CompletionState::Complete,
                    seq![FlagV::ValueToString],
                ),
            ),
            _ => Result::Err(mismatch(scope, "expected a string"@)),
        },
    }
}

/// A type-mismatch error value.
pub(crate) fn mk_mismatch(scope: &Vec<String>, detail: &str) -> (r: ParsingError)
    ensures
        r.model() == mismatch(scope_view(scope@), detail@),
{
    ParsingError {
        scope: crate::textutil::clone_string_vec(scope),
        reason: ErrorReason::TypeMismatch(detail.to_owned()),
    }
}

/// An empty flag list.
pub(crate) fn no_flags() -> (r: Vec<Flag>)
    ensures
        crate::flags::flags_view(r@) =~= Seq::<FlagV>::empty(),
{
    Vec::new()
}

/// A one-flag list.
pub(crate) fn one_flag(f: Flag) -> (r: Vec<Flag>)
    ensures
        crate::flags::flags_view(r@) =~= seq![f.model()],
{
    let ghost fv = f.model();
    let mut out: Vec<Flag> = Vec::new();
    out.push(f);
    proof {
        assert(crate::flags::flags_view(out@) =~= seq![fv]);
    }
    out
}

/// Coerce a plain value onto a primitive target.
pub fn coerce_prim(kind: TypeKind, v: &Value, scope: &Vec<String>) -> (r: Result<
    Coerced,
    ParsingError,
>)
    ensures
        result_matches(r, prim_spec(kind, *v, scope_view(scope@))),
{
    match kind {
        TypeKind::NullKind => match v {
            Value::Null => Ok(
                Coerced {
                    flags: no_flags(),
                    completion: CompletionState::Complete,
                    kind: BamlKind::Null,
                },
            ),
            _ => Err(mk_mismatch(scope, "expected null")),
        },
        TypeKind::BoolKind => match v {
            Value::Bool(b) => Ok(
                Coerced {
                    flags: no_flags(),
                    completion: CompletionState::Complete,
                    kind: BamlKind::Bool(*b),
                },
            ),
            Value::Str(s, c) => {
                let trimmed = crate::textutil::trim_string(s);
                let folded = crate::textutil::fold_string(&trimmed);
                if string_eq_text(&folded, "true") {
                    Ok(
                        Coerced {
                            flags: one_flag(Flag::StringToBool),
                            completion: *c,
                            kind: BamlKind::Bool(true),
                        },
                    )
                } else if string_eq_text(&folded, "false") {
                    Ok(
                        Coerced {
                            flags: one_flag(Flag::StringToBool),
                            completion: *c,
                            kind: BamlKind::Bool(false),
                        },
                    )
                } else {
                    Err(mk_mismatch(scope, "expected a boolean"))
                }
            },
            _ => Err(mk_mismatch(scope, "expected a boolean")),
        },
        TypeKind::IntKind => match v {
            Value::Int(n) => Ok(
                Coerced {
                    flags: no_flags(),
                    completion: CompletionState::Complete,
                    kind: BamlKind::Int(*n),
                },
            ),
            Value::Float(f) => {
                let chars = crate::textutil::str_to_chars(f.as_str());
                match crate::numtext::parse_decimal_round_chars(&chars) {
                    Some(n) => Ok(
                        Coerced {
                            flags: one_flag(Flag::FloatToInt),
                            completion: CompletionState::Complete,
                            kind: BamlKind::Int(n),
                        },
                    ),
                    None => Err(mk_mismatch(scope, "expected an integer")),
                }
            },
            Value::Str(s, c) => {
                let trimmed = crate::textutil::trim_string(s);
                match crate::numtext::parse_int_string(&trimmed) {
                    Some(n) => Ok(
                        Coerced {
                            flags: one_flag(Flag::StringToInt),
                            completion: *c,
                            kind: BamlKind::Int(n),
                        },
                    ),
                    None => {
                        let chars = crate::textutil::str_to_chars(trimmed.as_str());
                        match crate::numtext::parse_decimal_round_chars(&chars) {
                            Some(n) => Ok(
                                Coerced {
                                    flags: one_flag(Flag::StringToInt),
                                    completion: *c,
                                    kind: BamlKind::Int(n),
                                },
                            ),
                            None => Err(mk_mismatch(scope, "expected an integer")),
                        }
                    },
                }
            },
            _ => Err(mk_mismatch(scope, "expected an integer")),
        },
        TypeKind::FloatKind => match v {
            Value::Float(f) => Ok(
                Coerced {
                    flags: no_flags(),
                    completion: CompletionState::Complete,
                    kind: BamlKind::Float(f.clone()),
                },
            ),
            Value::Int(n) => Ok(
                Coerced {
                    flags: one_flag(Flag::IntToFloat),
                    completion: CompletionState::Complete,
                    kind: BamlKind::Float(crate::numtext::int_to_string(*n)),
                },
            ),
            Value::Str(s, c) => {
                let trimmed = crate::textutil::trim_string(s);
                let chars = crate::textutil::str_to_chars(trimmed.as_str());
                if crate::numtext::is_decimal_chars(&chars) {
                    Ok(
                        Coerced {
                            flags: one_flag(Flag::StringToFloat),
                            completion: *c,
                            kind: BamlKind::Float(trimmed),
                        },
                    )
                } else {
                    Err(mk_mismatch(scope, "expected a number"))
                }
            },
            _ => Err(mk_mismatch(scope, "expected a number")),
        },
        TypeKind::StringKind => match v {
            Value::Str(s, c) => Ok(
                Coerced {
                    flags: no_flags(),
                    completion: *c,
                    kind: BamlKind::Str(s.clone()),
                },
            ),
            Value::Int(n) => Ok(
                Coerced {
                    flags: one_flag(Flag::ValueToString),
                    completion: CompletionState::Complete,
                    kind: BamlKind::Str(crate::numtext::int_to_string(*n)),
                },
            ),
            Value::Float(f) => Ok(
                Coerced {
                    flags: one_flag(Flag::ValueToString),
                    completion: CompletionState::Complete,
                    kind: BamlKind::Str(f.clone()),
                },
            ),
            Value::Bool(b) => {
                let text = if *b {
                    "true".to_owned()
                } else {
                    "false".to_owned()
                };
                Ok(
                    Coerced {
                        flags: one_flag(Flag::ValueToString),
                        completion: CompletionState::Complete,
                        kind: BamlKind::Str(text),
                    },
                )
            },
            _ => Err(mk_mismatch(scope, "expected a string")),
        },
    }
}

/// String content equality against a literal.
fn string_eq_text(a: &String, lit: &str) -> (r: bool)
    ensures
        r == (a@ == lit@),
{
    let other = lit.to_owned();
    *a == other
}

/// The flags a successful match carries: an inexact-match flag unless the
/// match was exact, and a description flag when only the description text
/// carried it.
pub open spec fn match_flags(q: MatchQuality, by_desc: bool) -> Seq<FlagV> {
    (if q == MatchQuality::ExactMatch {
        Seq::<FlagV>::empty()
    } else {
        seq![FlagV::InexactMatch(q)]
    }) + (if by_desc {
        seq![FlagV::MatchedByDescription]
    } else {
        Seq::<FlagV>::empty()
    })
}

/// Builds the flag list a successful match carries.
fn mk_match_flags(q: MatchQuality, by_desc: bool) -> (r: Vec<Flag>)
    ensures
        crate::flags::flags_view(r@) =~= match_flags(q, by_desc),
{
    let mut out: Vec<Flag> = Vec::new();
    if !(q == MatchQuality::ExactMatch) {
        out.push(Flag::InexactMatch(q));
    }
    if by_desc {
        out.push(Flag::MatchedByDescription);
    }
    proof {
        assert(crate::flags::flags_view(out@) =~= match_flags(q, by_desc));
    }
    out
}

/// What coercing a plain value onto a literal target yields: the value must
/// coerce to the literal's primitive kind and equal it exactly; a string
/// literal goes through the string matcher, so case differences are flagged
/// rather than fatal.
pub open spec fn literal_spec(lit: LiteralValue, v: Value, scope: Seq<Seq<char>>) -> Result<
    CoercedV,
    ErrV,
> {
    match lit {
        LiteralValue::LitInt(n) => match prim_spec(TypeKind::IntKind, v, scope) {
            Result::Ok(c) => {
                if c.kind == BamlKindV::Int(n as int) {
                    Result::Ok(c)
                } else {
                    Result::Err(mismatch(scope, "literal mismatch"@))
                }
            },
            Result::Err(e) => Result::Err(e),
        },
        LiteralValue::LitBool(b) => match prim_spec(TypeKind::BoolKind, v, scope) {
            Result::Ok(c) => {
                if c.kind == BamlKindV::Bool(b) {
                    Result::Ok(c)
                } else {
                    Result::Err(mismatch(scope, "literal mismatch"@))
                }
            },
            Result::Err(e) => Result::Err(e),
        },
        LiteralValue::LitStr(s) => match v {
            Value::Str(txt, c) => match match_string_spec(seq![(s@, seq![s@])], txt@) {
                Option::Some(m) => Result::Ok(node(BamlKindV::Str(s@), c, match_flags(m.1, m.2))),
                Option::None => Result::Err(mismatch(scope, "literal mismatch"@)),
            },
            _ => Result::Err(mismatch(scope, "literal mismatch"@)),
        },
    }
}

/// Coerce a plain value onto a literal target.
pub fn coerce_literal(lit: &LiteralValue, v: &Value, scope: &Vec<String>) -> (r: Result<
    Coerced,
    ParsingError,
>)
    ensures
        result_matches(r, literal_spec(*lit, *v, scope_view(scope@))),
{
    match lit {
        LiteralValue::LitInt(n) => match coerce_prim(TypeKind::IntKind, v, scope) {
            Ok(c) => {
                let eq = match &c.kind {
                    BamlKind::Int(m) => *m == *n,
                    _ => false,
                };
                if eq {
                    Ok(c)
                } else {
                    Err(mk_mismatch(scope, "literal mismatch"))
                }
            },
            Err(e) => Err(e),
        },
        LiteralValue::LitBool(b) => match coerce_prim(TypeKind::BoolKind, v, scope) {
            Ok(c) => {
                let eq = match &c.kind {
                    BamlKind::Bool(m) => *m == *b,
                    _ => false,
                };
                if eq {
                    Ok(c)
                } else {
                    Err(mk_mismatch(scope, "literal mismatch"))
                }
            },
            Err(e) => Err(e),
        },
        LiteralValue::LitStr(s) => match v {
            Value::Str(txt, c) => {
                let mut cands: Vec<(String, Vec<String>)> = Vec::new();
                let mut strings: Vec<String> = Vec::new();
                strings.push(s.clone());
                cands.push((s.clone(), strings));
                proof {
                    assert(strings_view(cands@[0].1@) =~= seq![s@]);
                    assert(cands_view(cands@) =~~= seq![(s@, seq![s@])]);
                }
                match match_string(&cands, txt) {
                    Some((_i, q, d)) => Ok(
                        Coerced {
                            flags: mk_match_flags(q, d),
                            completion: *c,
                            kind: BamlKind::Str(s.clone()),
                        },
                    ),
                    None => Err(mk_mismatch(scope, "literal mismatch")),
                }
            },
            _ => Err(mk_mismatch(scope, "literal mismatch")),
        },
    }
}

/// The match candidates of an enum's values: each value's canonical name,
/// then the strings that may stand for it (the rendered name, and, when a
/// description is present, the description and `name: description`).
pub open spec fn enum_cands_spec(values: Seq<EnumValueDef>) -> Seq<(Seq<char>, Seq<Seq<char>>)>
    decreases values,
{
    if values.len() == 0 {
        Seq::empty()
    } else {
        enum_cands_spec(values.drop_last()).push(enum_cand_spec(values.last()))
    }
}

/// One value's candidate entry.
pub open spec fn enum_cand_spec(v: EnumValueDef) -> (Seq<char>, Seq<Seq<char>>) {
    let rendered = match v.alias {
        Option::Some(a) => a@,
        Option::None => v.name@,
    };
    let strings = match v.description {
        Option::Some(d) => {
            if trim_seq(d@).len() > 0 {
                seq![rendered, d@, rendered + ": "@ + d@]
            } else {
                seq![rendered]
            }
        },
        Option::None => seq![rendered],
    };
    (v.name@, strings)
}

/// The causes reported when no enum value matches: one entry per candidate
/// value considered, naming it.
pub open spec fn enum_causes_spec(scope: Seq<Seq<char>>, values: Seq<EnumValueDef>) -> Seq<ErrV>
    decreases values,
{
    if values.len() == 0 {
        Seq::empty()
    } else {
        enum_causes_spec(scope, values.drop_last()).push(
            mismatch(scope, "candidate not matched: "@ + values.last().name@),
        )
    }
}

/// What coercing a value onto an enum target yields: the value must be text;
/// the matcher resolves it against the enum's values; enum-level constraints
/// then apply.
pub open spec fn enum_spec<E: ConstraintEvaluator>(
    ev: &E,
    reg: &Registry,
    scope: Seq<Seq<char>>,
    name: Seq<char>,
    v: Value,
) -> Result<CoercedV, ErrV> {
    match find_enum_spec(reg.enums@, name) {
        Option::None => Result::Err(mismatch(scope, "unknown enum"@)),
        Option::Some(ei) => {
            let e = reg.enums@[ei];
            match v {
                Value::Str(s, c) => match match_string_spec(enum_cands_spec(e.values@), s@) {
                    Option::Some(m) => {
                        let base = node(
                            BamlKindV::Enum(e.name@, e.values@[m.0].name@),
                            c,
                            match_flags(m.1, m.2),
                        );
                        apply_constraints_spec(ev, scope, base, e.constraints@)
                    },
                    Option::None => Result::Err(
                        ErrV {
                            scope,
                            reason: ReasonV::NoCandidateMatched(enum_causes_spec(scope, e.values@)),
                        },
                    ),
                },
                _ => Result::Err(mismatch(scope, "expected enum text"@)),
            }
        },
    }
}

proof fn lemma_enum_cands_spec(values: Seq<EnumValueDef>)
    ensures
        enum_cands_spec(values).len() == values.len(),
        forall|i: int|
            0 <= i < values.len() ==> enum_cands_spec(values)[i] == enum_cand_spec(values[i]),
    decreases values,
{
    if values.len() > 0 {
        lemma_enum_cands_spec(values.drop_last());
        assert(forall|i: int|
            0 <= i < values.len() - 1 ==> values.drop_last()[i] == values[i]);
    }
}

proof fn lemma_enum_causes_spec(scope: Seq<Seq<char>>, values: Seq<EnumValueDef>)
    ensures
        enum_causes_spec(scope, values).len() == values.len(),
        forall|i: int|
            0 <= i < values.len() ==> enum_causes_spec(scope, values)[i] == mismatch(
                scope,
                "candidate not matched: "@ + values[i].name@,
            ),
    decreases values,
{
    if values.len() > 0 {
        lemma_enum_causes_spec(scope, values.drop_last());
        assert(forall|i: int|
            0 <= i < values.len() - 1 ==> values.drop_last()[i] == values[i]);
    }
}

/// Builds one enum value's candidate entry.
fn enum_candidate(v: &EnumValueDef) -> (r: (String, Vec<String>))
    ensures
        (r.0@, strings_view(r.1@)) == enum_cand_spec(*v),
{
    let rendered = match &v.alias {
        Some(a) => a.clone(),
        None => v.name.clone(),
    };
    let mut strings: Vec<String> = Vec::new();
    match &v.description {
        Some(d) => {
            let dt = crate::textutil::trim_string(d);
            if dt.as_str().unicode_len() > 0 {
                let combined = rendered.clone().concat(": ").concat(d.as_str());
                strings.push(rendered.clone());
                strings.push(d.clone());
                strings.push(combined);
                proof {
                    assert(strings_view(strings@) =~= enum_cand_spec(*v).1);
                }
            } else {
                strings.push(rendered.clone());
                proof {
                    assert(strings_view(strings@) =~= enum_cand_spec(*v).1);
                }
            }
        },
        None => {
            strings.push(rendered.clone());
            proof {
                assert(strings@.map_values(|s: String| s@) =~= enum_cand_spec(*v).1);
            }
        },
    }
    (v.name.clone(), strings)
}

/// Builds the candidate list of an enum.
fn enum_candidates(values: &Vec<EnumValueDef>) -> (r: Vec<(String, Vec<String>)>)
    ensures
        cands_view(r@) == enum_cands_spec(values@),
{
    proof {
        lemma_enum_cands_spec(values@);
    }
    let n = values.len();
    let mut out: Vec<(String, Vec<String>)> = Vec::new();
    let mut i: usize = 0;
    while i < n
        invariant
            0 <= i <= n,
            n == values@.len(),
            out@.len() == i,
            enum_cands_spec(values@).len() == n,
            forall|k: int|
                0 <= k < i ==> #[trigger] cands_view(out@)[k] == enum_cands_spec(values@)[k],
        decreases n - i,
    {
        let c = enum_candidate(&values[i]);
        let ghost prev = out@;
        let ghost cv = (c.0@, strings_view(c.1@));
        out.push(c);
        proof {
            lemma_enum_cands_spec(values@);
            assert(forall|k: int| 0 <= k < i ==> out@[k] == prev[k]);
            assert forall|k: int| 0 <= k < i + 1 implies #[trigger] cands_view(out@)[k]
                == enum_cands_spec(values@)[k] by {
                if k < i {
                    assert(cands_view(prev)[k] == enum_cands_spec(values@)[k]);
                    assert(cands_view(out@)[k] == cands_view(prev)[k]);
                } else {
                    assert(cands_view(out@)[k] == cv);
                }
            }
        }
        i = i + 1;
    }
    proof {
        assert(cands_view(out@) =~= enum_cands_spec(values@));
    }
    out
}

/// Builds the cause list of a failed enum match.
fn enum_causes(scope: &Vec<String>, values: &Vec<EnumValueDef>) -> (r: Vec<ParsingError>)
    ensures
        crate::error::model_errors(r@) == enum_causes_spec(scope_view(scope@), values@),
{
    proof {
        lemma_enum_causes_spec(scope_view(scope@), values@);
    }
    let n = values.len();
    let mut out: Vec<ParsingError> = Vec::new();
    let mut i: usize = 0;
    while i < n
        invariant
            0 <= i <= n,
            n == values@.len(),
            out@.len() == i,
            enum_causes_spec(scope_view(scope@), values@).len() == n,
            forall|k: int|
                0 <= k < i ==> #[trigger] crate::error::model_errors(out@)[k]
                    == enum_causes_spec(scope_view(scope@), values@)[k],
            crate::error::model_errors(out@).len() == i,
        decreases n - i,
    {
        let detail = "candidate not matched: ".to_owned().concat(values[i].name.as_str());
        let e = ParsingError {
            scope: crate::textutil::clone_string_vec(scope),
            reason: ErrorReason::TypeMismatch(detail),
        };
        let ghost prev = out@;
        let ghost emodel = e.model();
        out.push(e);
        proof {
            lemma_enum_causes_spec(scope_view(scope@), values@);
            crate::error::lemma_model_errors(out@);
            assert(out@[i as int].model() == emodel);
            assert(emodel == enum_causes_spec(scope_view(scope@), values@)[i as int]);
            assert(forall|k: int| 0 <= k < i ==> out@[k] == prev[k]);
            assert forall|k: int| 0 <= k < i + 1 implies #[trigger] crate::error::model_errors(
                out@,
            )[k] == enum_causes_spec(scope_view(scope@), values@)[k] by {
                crate::error::lemma_model_errors(prev);
                if k < i {
                    assert(crate::error::model_errors(prev)[k] == out@[k].model());
                }
                assert(crate::error::model_errors(out@)[k] == out@[k].model());
            }
        }
        i = i + 1;
    }
    proof {
        assert(crate::error::model_errors(out@) =~= enum_causes_spec(scope_view(scope@), values@));
    }
    out
}

/// Coerce a value onto an enum target.
pub fn coerce_enum<E: ConstraintEvaluator>(
    ev: &E,
    reg: &Registry,
    scope: &Vec<String>,
    name: &String,
    v: &Value,
) -> (r: Result<Coerced, ParsingError>)
    ensures
        result_matches(r, enum_spec(ev, reg, scope_view(scope@), name@, *v)),
{
    match reg.find_enum(name) {
        None => Err(mk_mismatch(scope, "unknown enum")),
        Some(e) => match v {
            Value::Str(s, c) => {
                let cands = enum_candidates(&e.values);
                proof {
                    lemma_enum_cands_spec(e.values@);
                }
                match match_string(&cands, s) {
                    Some((i, q, d)) => {
                        let base = Coerced {
                            flags: mk_match_flags(q, d),
                            completion: *c,
                            kind: BamlKind::Enum(e.name.clone(), e.values[i].name.clone()),
                        };
                        apply_constraints(ev, scope, base, &e.constraints)
                    },
                    None => Err(
                        ParsingError {
                            scope: crate::textutil::clone_string_vec(scope),
                            reason: ErrorReason::NoCandidateMatched(enum_causes(scope, &e.values)),
                        },
                    ),
                }
            },
            _ => Err(mk_mismatch(scope, "expected enum text")),
        },
    }
}

} // verus!
