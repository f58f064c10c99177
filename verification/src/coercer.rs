//! The type-coercer dispatch: one coercion rule per target-type shape, all
//! recursing through `coerce`.  The whole engine is specified by
//! `coerce_spec`, a mathematical twin of the executable dispatch, and every
//! executable function here is proved to compute exactly what the twin says.

use vstd::prelude::*;
use crate::coerced::BamlKindV;
use crate::coerced::Coerced;
use crate::coerced::CoercedV;
use crate::constraints::ConstraintEvaluator;
use crate::constraints::apply_constraints_spec;
use crate::error::ErrV;
use crate::error::ParsingError;
use crate::error::ReasonV;
use crate::coerce_prim::enum_spec;
use crate::coerce_prim::literal_spec;
use crate::coerce_prim::mismatch;
use crate::coerce_prim::node;
use crate::coerce_prim::prim_spec;
use crate::flags::Flag;
use crate::flags::FlagV;
use crate::matcher::match_string_spec;
use crate::numtext::int_repr;
use crate::schema::FieldDef;
use crate::schema::FieldType;
use crate::schema::LiteralValue;
use crate::schema::Registry;
use crate::schema::TypeKind;
use crate::schema::find_alias_spec;
use crate::schema::find_class_spec;
use crate::textutil::fold_seq;
use crate::value::CompletionState;
use crate::value::Value;
use crate::value::lemma_pairs_value_size_elem;
use crate::value::lemma_seq_value_size_elem;
use crate::value::pairs_value_size;
use crate::value::seq_value_size;

verus! {

/// The fixed recursion-depth ceiling: the only safeguard against
/// pathologically deep recursive-alias schemas.
pub const DEPTH_LIMIT: u32 = 128;

/// Size of an optional value, for termination.
pub open spec fn ovsize(v: Option<Value>) -> nat {
    match v {
        Option::None => 0,
        Option::Some(x) => x.size(),
    }
}

/// Structural size of a target type, for termination.
pub open spec fn type_size(t: FieldType) -> nat
    decreases t,
{
    match t {
        FieldType::List(b) => 1 + type_size(*b),
        FieldType::Optional(b) => 1 + type_size(*b),
        FieldType::Dict(k, v) => 1 + type_size(*k) + type_size(*v),
        FieldType::Tuple(ts) => 1 + types_size(ts@),
        FieldType::Union(ts) => 1 + types_size(ts@),
        _ => 1,
    }
}

pub open spec fn types_size(s: Seq<FieldType>) -> nat
    decreases s,
{
    if s.len() == 0 {
        0
    } else {
        type_size(s[0]) + types_size(s.drop_first())
    }
}

/// Combined size of the declared field types of a class.
pub open spec fn fields_types_size(fields: Seq<FieldDef>) -> nat
    decreases fields,
{
    if fields.len() == 0 {
        0
    } else {
        1 + type_size(fields[0].target) + fields_types_size(fields.drop_first())
    }
}

pub proof fn lemma_types_size_elem(s: Seq<FieldType>, i: int)
    requires
        0 <= i < s.len(),
    ensures
        type_size(s[i]) <= types_size(s),
    decreases s,
{
    if i > 0 {
        lemma_types_size_elem(s.drop_first(), i - 1);
    }
}

pub proof fn lemma_fields_size_elem(fields: Seq<FieldDef>, i: int)
    requires
        0 <= i < fields.len(),
    ensures
        type_size(fields[i].target) < fields_types_size(fields),
    decreases fields,
{
    if i > 0 {
        lemma_fields_size_elem(fields.drop_first(), i - 1);
    }
}

/// The scope component naming element `i` of a list.
pub open spec fn idx_component(i: int) -> Seq<char> {
    seq!['['] + int_repr(i) + seq![']']
}

/// The view of an optional alias.
pub open spec fn alias_view(a: Option<String>) -> Option<Seq<char>> {
    match a {
        Option::Some(s) => Option::Some(s@),
        Option::None => Option::None,
    }
}

/// First object key equal to `target`, exactly or after case folding.
pub open spec fn first_key(pairs: Seq<(String, Value)>, target: Seq<char>, folded: bool) -> Option<
    int,
>
    decreases pairs,
{
    if pairs.len() == 0 {
        Option::None
    } else if (if folded {
        fold_seq(pairs[0].0@) == fold_seq(target)
    } else {
        pairs[0].0@ == target
    }) {
        Option::Some(0)
    } else {
        match first_key(pairs.drop_first(), target, folded) {
            Option::Some(i) => Option::Some(i + 1),
            Option::None => Option::None,
        }
    }
}

/// Locate the object key serving a declared field: by exact name, then by
/// exact alias, then case-insensitively by name, then by alias.
pub open spec fn locate(
    pairs: Seq<(String, Value)>,
    name: Seq<char>,
    alias: Option<Seq<char>>,
) -> Option<int> {
    match first_key(pairs, name, false) {
        Option::Some(i) => Option::Some(i),
        Option::None => match (match alias {
            Option::Some(a) => first_key(pairs, a, false),
            Option::None => Option::None,
        }) {
            Option::Some(i) => Option::Some(i),
            Option::None => match first_key(pairs, name, true) {
                Option::Some(i) => Option::Some(i),
                Option::None => match alias {
                    Option::Some(a) => first_key(pairs, a, true),
                    Option::None => Option::None,
                },
            },
        },
    }
}

/// A count capped at what a 64-bit counter can hold.
pub open spec fn satcap(n: nat) -> nat {
    if n > u64::MAX {
        u64::MAX as nat
    } else {
        n
    }
}

/// Whether candidate `a` outranks `b`: strictly fewer conversion flags, or
/// equally many and strictly fewer defaulting flags (counts capped at 64
/// bits).
pub open spec fn outranks(a: CoercedV, b: CoercedV) -> bool {
    ||| satcap(a.conv_score()) < satcap(b.conv_score())
    ||| (satcap(a.conv_score()) == satcap(b.conv_score()) && satcap(a.default_score()) < satcap(
        b.default_score(),
    ))
}

/// The best success among the first `n` results: lowest score, earliest
/// declaration on ties.
pub open spec fn best_of(rs: Seq<Result<CoercedV, ErrV>>, n: int) -> Option<int>
    decreases n,
{
    if n <= 0 {
        Option::None
    } else {
        let prev = best_of(rs, n - 1);
        match rs[n - 1] {
            Result::Err(_) => prev,
            Result::Ok(c) => match prev {
                Option::None => Option::Some(n - 1),
                Option::Some(p) => {
                    if rs[p] matches Result::Ok(pc) && outranks(c, pc) {
                        Option::Some(n - 1)
                    } else {
                        Option::Some(p)
                    }
                },
            },
        }
    }
}

/// The errors among the first `n` results, in order.
pub open spec fn errs_of(rs: Seq<Result<CoercedV, ErrV>>, n: int) -> Seq<ErrV>
    decreases n,
{
    if n <= 0 {
        Seq::empty()
    } else {
        errs_of(rs, n - 1) + (match rs[n - 1] {
            Result::Err(e) => seq![e],
            Result::Ok(_) => Seq::empty(),
        })
    }
}

/// The first failing index among the first `n` results.
pub open spec fn first_err(rs: Seq<Result<CoercedV, ErrV>>, n: int) -> Option<int>
    decreases n,
{
    if n <= 0 {
        Option::None
    } else {
        match first_err(rs, n - 1) {
            Option::Some(j) => Option::Some(j),
            Option::None => {
                if rs[n - 1] is Err {
                    Option::Some(n - 1)
                } else {
                    Option::None
                }
            },
        }
    }
}

/// The successes among the first `n` results, in order.
pub open spec fn oks_of(rs: Seq<Result<CoercedV, ErrV>>, n: int) -> Seq<CoercedV>
    decreases n,
{
    if n <= 0 {
        Seq::empty()
    } else {
        oks_of(rs, n - 1) + (match rs[n - 1] {
            Result::Ok(c) => seq![c],
            Result::Err(_) => Seq::empty(),
        })
    }
}

/// Field payloads of a class whose fields all coerced.
pub open spec fn ok_fields(
    fields: Seq<FieldDef>,
    rs: Seq<Result<CoercedV, ErrV>>,
    n: int,
) -> Seq<(Seq<char>, CoercedV)>
    decreases n,
{
    if n <= 0 {
        Seq::empty()
    } else {
        ok_fields(fields, rs, n - 1) + (match rs[n - 1] {
            Result::Ok(c) => seq![(fields[n - 1].name@, c)],
            Result::Err(_) => Seq::empty(),
        })
    }
}

/// Whether object key `ki` serves some declared field.
pub open spec fn key_used(pairs: Seq<(String, Value)>, fields: Seq<FieldDef>, ki: int) -> bool {
    exists|j: int|
        0 <= j < fields.len() && #[trigger] locate(
            pairs,
            fields[j].name@,
            alias_view(fields[j].alias),
        ) == Option::Some(ki)
}

/// One informational flag per object key that serves no declared field.
pub open spec fn extra_flags(pairs: Seq<(String, Value)>, fields: Seq<FieldDef>, n: int) -> Seq<
    FlagV,
>
    decreases n,
{
    if n <= 0 {
        Seq::empty()
    } else {
        extra_flags(pairs, fields, n - 1) + (if key_used(pairs, fields, n - 1) {
            Seq::<FlagV>::empty()
        } else {
            seq![FlagV::ExtraKey(pairs[n - 1].0@)]
        })
    }
}

/// What coercing a map key yields: a string key is taken as is; an enum key
/// resolves through the matcher; a string-literal key must match it; other
/// key types fail the entry.
pub open spec fn key_spec<E: ConstraintEvaluator>(
    ev: &E,
    reg: &Registry,
    scope: Seq<Seq<char>>,
    kt: FieldType,
    key: String,
) -> Result<Seq<char>, ErrV> {
    match kt {
        FieldType::Primitive(TypeKind::StringKind) => Result::Ok(key@),
        FieldType::Enum(name) => match enum_spec(
            ev,
            reg,
            scope,
            name@,
            Value::Str(key, CompletionState::Complete),
        ) {
            Result::Ok(c) => match c.kind {
                BamlKindV::Enum(_, vn) => Result::Ok(vn),
                _ => Result::Ok(key@),
            },
            Result::Err(e) => Result::Err(e),
        },
        FieldType::Literal(LiteralValue::LitStr(s)) => match match_string_spec(
            seq![(s@, seq![s@])],
            key@,
        ) {
            Option::Some(_) => Result::Ok(s@),
            Option::None => Result::Err(mismatch(scope, "key literal mismatch"@)),
        },
        _ => Result::Err(mismatch(scope, "unsupported map key type"@)),
    }
}

/// Successful map entries among the first `n`, in order.
pub open spec fn ok_entries(rs: Seq<Result<(Seq<char>, CoercedV), ErrV>>, n: int) -> Seq<
    (Seq<char>, CoercedV),
>
    decreases n,
{
    if n <= 0 {
        Seq::empty()
    } else {
        ok_entries(rs, n - 1) + (match rs[n - 1] {
            Result::Ok(p) => seq![p],
            Result::Err(_) => Seq::empty(),
        })
    }
}

/// A dropped-entry flag for each failed map entry, in key order.
pub open spec fn dropped_flags(
    pairs: Seq<(String, Value)>,
    rs: Seq<Result<(Seq<char>, CoercedV), ErrV>>,
    n: int,
) -> Seq<FlagV>
    decreases n,
{
    if n <= 0 {
        Seq::empty()
    } else {
        dropped_flags(pairs, rs, n - 1) + (match rs[n - 1] {
            Result::Ok(_) => Seq::<FlagV>::empty(),
            Result::Err(_) => seq![FlagV::DroppedEntry(pairs[n - 1].0@)],
        })
    }
}

/// The errors among the first `n` map entries, in order.
pub open spec fn entry_errs(rs: Seq<Result<(Seq<char>, CoercedV), ErrV>>, n: int) -> Seq<ErrV>
    decreases n,
{
    if n <= 0 {
        Seq::empty()
    } else {
        entry_errs(rs, n - 1) + (match rs[n - 1] {
            Result::Err(e) => seq![e],
            Result::Ok(_) => Seq::empty(),
        })
    }
}

/// Whether some map entry among the first `n` succeeded.
pub open spec fn any_entry_ok(rs: Seq<Result<(Seq<char>, CoercedV), ErrV>>, n: int) -> bool
    decreases n,
{
    if n <= 0 {
        false
    } else {
        any_entry_ok(rs, n - 1) || rs[n - 1] is Ok
    }
}

/// The mathematical definition of the whole coercion engine: what coercing
/// `v` onto target `t` yields, for every registry, scope, depth budget and
/// constraint evaluator.
pub open spec fn coerce_spec<E: ConstraintEvaluator>(
    ev: &E,
    reg: &Registry,
    scope: Seq<Seq<char>>,
    depth: nat,
    t: FieldType,
    v: Option<Value>,
) -> Result<CoercedV, ErrV>
    decreases depth, type_size(t), ovsize(v), 0nat,
{
    match t {
        FieldType::Optional(inner) => match v {
            Option::None => Result::Ok(
                node(BamlKindV::Null, CompletionState::Complete, seq![FlagV::DefaultedAbsent]),
            ),
            Option::Some(Value::Null) => Result::Ok(
                node(BamlKindV::Null, CompletionState::Complete, Seq::empty()),
            ),
            Option::Some(x) => match coerce_spec(ev, reg, scope, depth, *inner, Option::Some(x)) {
                Result::Ok(c) => Result::Ok(c),
                Result::Err(e) => {
                    if e.reason is AssertFailed {
                        Result::Err(e)
                    } else {
                        Result::Ok(
                            node(
                                BamlKindV::Null,
                                CompletionState::Complete,
                                seq![FlagV::DefaultedFromError],
                            ),
                        )
                    }
                },
            },
        },
        FieldType::Union(ts) => {
            let rs = member_results(ev, reg, scope, depth, ts@, v, ts@.len() as int);
            match best_of(rs, ts@.len() as int) {
                Option::Some(i) => Result::Ok(
                    (rs[i]->Ok_0).with_flags(seq![FlagV::UnionPick(ts@.len() as int)]),
                ),
                Option::None => Result::Err(
                    ErrV {
                        scope,
                        reason: ReasonV::NoCandidateMatched(errs_of(rs, ts@.len() as int)),
                    },
                ),
            }
        },
        _ => match v {
            Option::None => match t {
                FieldType::Primitive(TypeKind::NullKind) => Result::Ok(
                    node(BamlKindV::Null, CompletionState::Complete, Seq::empty()),
                ),
                _ => Result::Err(mismatch(scope, "missing value"@)),
            },
            Option::Some(val) => match val {
                Value::AnyOf(cands, _raw) => {
                    let rs = cand_results(ev, reg, scope, depth, t, cands@, cands@.len() as int);
                    match best_of(rs, cands@.len() as int) {
                        Option::Some(i) => Result::Ok(rs[i]->Ok_0),
                        Option::None => Result::Err(
                            ErrV {
                                scope,
                                reason: ReasonV::NoCandidateMatched(
                                    errs_of(rs, cands@.len() as int),
                                ),
                            },
                        ),
                    }
                },
                Value::Fenced(lang, inner) => {
                    match coerce_spec(ev, reg, scope, depth, t, Option::Some(*inner)) {
                        Result::Ok(c) => Result::Ok(c.with_flags(seq![FlagV::FromFence(lang@)])),
                        Result::Err(e) => Result::Err(e),
                    }
                },
                _ => match t {
                    FieldType::Primitive(k) => prim_spec(k, val, scope),
                    FieldType::Literal(l) => literal_spec(l, val, scope),
                    FieldType::Enum(name) => enum_spec(ev, reg, scope, name@, val),
                    FieldType::Class(name) => {
                        if depth == 0 {
                            Result::Err(ErrV { scope, reason: ReasonV::RecursionLimitExceeded })
                        } else {
                            match find_class_spec(reg.classes@, name@) {
                                Option::None => Result::Err(mismatch(scope, "unknown class"@)),
                                Option::Some(ci) => {
                                    let cdef = reg.classes@[ci];
                                    match val {
                                        Value::Object(pairs, comp) => {
                                            let rs = field_results(
                                                ev,
                                                reg,
                                                scope,
                                                (depth - 1) as nat,
                                                cdef.fields@,
                                                pairs@,
                                                cdef.fields@.len() as int,
                                            );
                                            match first_err(rs, cdef.fields@.len() as int) {
                                                Option::Some(j) => Result::Err(rs[j]->Err_0),
                                                Option::None => {
                                                    let base = node(
                                                        BamlKindV::Class(
                                                            cdef.name@,
                                                            ok_fields(
                                                                cdef.fields@,
                                                                rs,
                                                                cdef.fields@.len() as int,
                                                            ),
                                                        ),
                                                        comp,
                                                        extra_flags(
                                                            pairs@,
                                                            cdef.fields@,
                                                            pairs@.len() as int,
                                                        ),
                                                    );
                                                    apply_constraints_spec(
                                                        ev,
                                                        scope,
                                                        base,
                                                        cdef.constraints@,
                                                    )
                                                },
                                            }
                                        },
                                        _ => Result::Err(mismatch(scope, "expected an object"@)),
                                    }
                                },
                            }
                        }
                    },
                    FieldType::List(inner) => match val {
                        Value::Array(items, comp) => {
                            let rs = item_results(
                                ev,
                                reg,
                                scope,
                                depth,
                                *inner,
                                items@,
                                items@.len() as int,
                            );
                            match first_err(rs, items@.len() as int) {
                                Option::Some(j) => Result::Err(rs[j]->Err_0),
                                Option::None => Result::Ok(
                                    node(
                                        BamlKindV::List(oks_of(rs, items@.len() as int)),
                                        comp,
                                        Seq::empty(),
                                    ),
                                ),
                            }
                        },
                        _ => Result::Err(mismatch(scope, "expected an array"@)),
                    },
                    FieldType::Tuple(ts) => match val {
                        Value::Array(items, comp) => {
                            if items@.len() != ts@.len() {
                                Result::Err(mismatch(scope, "tuple arity mismatch"@))
                            } else {
                                let rs = tuple_results(
                                    ev,
                                    reg,
                                    scope,
                                    depth,
                                    ts@,
                                    items@,
                                    ts@.len() as int,
                                );
                                match first_err(rs, ts@.len() as int) {
                                    Option::Some(j) => Result::Err(rs[j]->Err_0),
                                    Option::None => Result::Ok(
                                        node(
                                            BamlKindV::List(oks_of(rs, ts@.len() as int)),
                                            comp,
                                            Seq::empty(),
                                        ),
                                    ),
                                }
                            }
                        },
                        _ => Result::Err(mismatch(scope, "expected an array"@)),
                    },
                    FieldType::Dict(_, _) => match val {
                        Value::Object(pairs, comp) => {
                            let rs = entry_results(
                                ev,
                                reg,
                                scope,
                                depth,
                                t,
                                pairs@,
                                pairs@.len() as int,
                            );
                            if pairs@.len() > 0 && !any_entry_ok(rs, pairs@.len() as int) {
                                Result::Err(
                                    ErrV {
                                        scope,
                                        reason: ReasonV::NoCandidateMatched(
                                            entry_errs(rs, pairs@.len() as int),
                                        ),
                                    },
                                )
                            } else {
                                Result::Ok(
                                    node(
                                        BamlKindV::Dict(ok_entries(rs, pairs@.len() as int)),
                                        comp,
                                        dropped_flags(pairs@, rs, pairs@.len() as int),
                                    ),
                                )
                            }
                        },
                        _ => Result::Err(mismatch(scope, "expected an object"@)),
                    },
                    FieldType::Alias(name) => {
                        if depth == 0 {
                            Result::Err(ErrV { scope, reason: ReasonV::RecursionLimitExceeded })
                        } else {
                            match find_alias_spec(reg.aliases@, name@) {
                                Option::None => Result::Err(mismatch(scope, "unknown alias"@)),
                                Option::Some(ai) => coerce_spec(
                                    ev,
                                    reg,
                                    scope,
                                    (depth - 1) as nat,
                                    reg.aliases@[ai].target,
                                    Option::Some(val),
                                ),
                            }
                        }
                    },
                    _ => Result::Err(mismatch(scope, "unsupported target"@)),
                },
            },
        },
    }
}

/// Each union member's attempt at the value, in declaration order.
pub open spec fn member_results<E: ConstraintEvaluator>(
    ev: &E,
    reg: &Registry,
    scope: Seq<Seq<char>>,
    depth: nat,
    ts: Seq<FieldType>,
    v: Option<Value>,
    n: int,
) -> Seq<Result<CoercedV, ErrV>>
    decreases depth, types_size(ts), ovsize(v), n,
{
    if n <= 0 || n > ts.len() {
        Seq::empty()
    } else {
        proof {
            lemma_types_size_elem(ts, n - 1);
        }
        member_results(ev, reg, scope, depth, ts, v, n - 1).push(
            coerce_spec(ev, reg, scope, depth, ts[n - 1], v),
        )
    }
}

/// Each parse candidate's attempt at the target, in parse order.
pub open spec fn cand_results<E: ConstraintEvaluator>(
    ev: &E,
    reg: &Registry,
    scope: Seq<Seq<char>>,
    depth: nat,
    t: FieldType,
    cands: Seq<Value>,
    n: int,
) -> Seq<Result<CoercedV, ErrV>>
    decreases depth, type_size(t), seq_value_size(cands), n,
{
    if n <= 0 || n > cands.len() {
        Seq::empty()
    } else {
        proof {
            lemma_seq_value_size_elem(cands, n - 1);
        }
        cand_results(ev, reg, scope, depth, t, cands, n - 1).push(
            coerce_spec(ev, reg, scope, depth, t, Option::Some(cands[n - 1])),
        )
    }
}

/// Each list element's coercion, in order, under an indexed scope.
pub open spec fn item_results<E: ConstraintEvaluator>(
    ev: &E,
    reg: &Registry,
    scope: Seq<Seq<char>>,
    depth: nat,
    inner: FieldType,
    items: Seq<Value>,
    n: int,
) -> Seq<Result<CoercedV, ErrV>>
    decreases depth, type_size(inner), seq_value_size(items), n,
{
    if n <= 0 || n > items.len() {
        Seq::empty()
    } else {
        proof {
            lemma_seq_value_size_elem(items, n - 1);
        }
        item_results(ev, reg, scope, depth, inner, items, n - 1).push(
            coerce_spec(
                ev,
                reg,
                scope.push(idx_component(n - 1)),
                depth,
                inner,
                Option::Some(items[n - 1]),
            ),
        )
    }
}

/// Each tuple position's coercion, element-wise.
pub open spec fn tuple_results<E: ConstraintEvaluator>(
    ev: &E,
    reg: &Registry,
    scope: Seq<Seq<char>>,
    depth: nat,
    ts: Seq<FieldType>,
    items: Seq<Value>,
    n: int,
) -> Seq<Result<CoercedV, ErrV>>
    decreases depth, types_size(ts), seq_value_size(items), n,
{
    if n <= 0 || n > items.len() || n > ts.len() {
        Seq::empty()
    } else {
        proof {
            lemma_seq_value_size_elem(items, n - 1);
            lemma_types_size_elem(ts, n - 1);
        }
        tuple_results(ev, reg, scope, depth, ts, items, n - 1).push(
            coerce_spec(
                ev,
                reg,
                scope.push(idx_component(n - 1)),
                depth,
                ts[n - 1],
                Option::Some(items[n - 1]),
            ),
        )
    }
}

/// Each declared field's coercion: its object key is located by name, alias
/// or case-insensitively; a located value is coerced under the field's
/// scope; an absent required field fails, an absent optional one defaults.
pub open spec fn field_results<E: ConstraintEvaluator>(
    ev: &E,
    reg: &Registry,
    scope: Seq<Seq<char>>,
    depth: nat,
    fields: Seq<FieldDef>,
    pairs: Seq<(String, Value)>,
    n: int,
) -> Seq<Result<CoercedV, ErrV>>
    decreases depth, fields_types_size(fields), pairs_value_size(pairs), n,
{
    if n <= 0 || n > fields.len() {
        Seq::empty()
    } else {
        let fdef = fields[n - 1];
        let fscope = scope.push(fdef.name@);
        proof {
            lemma_fields_size_elem(fields, n - 1);
        }
        let one = match locate(pairs, fdef.name@, alias_view(fdef.alias)) {
            Option::Some(ki) => {
                if 0 <= ki < pairs.len() {
                    proof {
                        lemma_pairs_value_size_elem(pairs, ki);
                    }
                    match coerce_spec(
                        ev,
                        reg,
                        fscope,
                        depth,
                        fdef.target,
                        Option::Some(pairs[ki].1),
                    ) {
                        Result::Ok(c) => Result::Ok(c),
                        Result::Err(e) => Result::Err(
                            ErrV {
                                scope,
                                reason: ReasonV::MissingRequiredField(fdef.name@, seq![e]),
                            },
                        ),
                    }
                } else {
                    Result::Err(mismatch(scope, "unsupported target"@))
                }
            },
            Option::None => {
                if fdef.target is Optional || fdef.target == FieldType::Primitive(
                    TypeKind::NullKind,
                ) {
                    coerce_spec(ev, reg, fscope, depth, fdef.target, Option::None)
                } else {
                    Result::Err(
                        ErrV {
                            scope,
                            reason: ReasonV::MissingRequiredField(fdef.name@, Seq::empty()),
                        },
                    )
                }
            },
        };
        field_results(ev, reg, scope, depth, fields, pairs, n - 1).push(one)
    }
}

/// Each map entry's coercion: the key against the key type, the value under
/// the key's scope; a failing entry is dropped with a flag.
pub open spec fn entry_results<E: ConstraintEvaluator>(
    ev: &E,
    reg: &Registry,
    scope: Seq<Seq<char>>,
    depth: nat,
    kv: FieldType,
    pairs: Seq<(String, Value)>,
    n: int,
) -> Seq<Result<(Seq<char>, CoercedV), ErrV>>
    decreases depth, type_size(kv), pairs_value_size(pairs), n,
{
    if n <= 0 || n > pairs.len() || !(kv is Dict) {
        Seq::empty()
    } else {
        let kt = kv->Dict_0;
        let vt = kv->Dict_1;
        let key = pairs[n - 1].0;
        let one = match key_spec(ev, reg, scope, *kt, key) {
            Result::Ok(kname) => {
                proof {
                    lemma_pairs_value_size_elem(pairs, n - 1);
                }
                match coerce_spec(
                    ev,
                    reg,
                    scope.push(key@),
                    depth,
                    *vt,
                    Option::Some(pairs[n - 1].1),
                ) {
                    Result::Ok(c) => Result::Ok((kname, c)),
                    Result::Err(e) => Result::Err(e),
                }
            },
            Result::Err(e) => Result::Err(e),
        };
        entry_results(ev, reg, scope, depth, kv, pairs, n - 1).push(one)
    }
}

/// The mathematical image of a list of per-candidate results.
pub open spec fn results_view(rs: Seq<Result<Coerced, ParsingError>>) -> Seq<
    Result<CoercedV, ErrV>,
>
    decreases rs,
{
    if rs.len() == 0 {
        Seq::empty()
    } else {
        seq![
            match rs[0] {
                Result::Ok(c) => Result::<CoercedV, ErrV>::Ok(c.model()),
                Result::Err(e) => Result::<CoercedV, ErrV>::Err(e.model()),
            },
        ] + results_view(rs.drop_first())
    }
}

pub proof fn lemma_results_view(rs: Seq<Result<Coerced, ParsingError>>)
    ensures
        results_view(rs).len() == rs.len(),
        forall|i: int|
            0 <= i < rs.len() ==> #[trigger] results_view(rs)[i] == (match rs[i] {
                Result::Ok(c) => Result::<CoercedV, ErrV>::Ok(c.model()),
                Result::Err(e) => Result::<CoercedV, ErrV>::Err(e.model()),
            }),
    decreases rs,
{
    if rs.len() > 0 {
        lemma_results_view(rs.drop_first());
    }
}

/// The mathematical image of a list of per-entry results.
pub open spec fn entries_view(rs: Seq<Result<(String, Coerced), ParsingError>>) -> Seq<
    Result<(Seq<char>, CoercedV), ErrV>,
>
    decreases rs,
{
    if rs.len() == 0 {
        Seq::empty()
    } else {
        seq![
            match rs[0] {
                Result::Ok(p) => Result::<(Seq<char>, CoercedV), ErrV>::Ok((p.0@, p.1.model())),
                Result::Err(e) => Result::<(Seq<char>, CoercedV), ErrV>::Err(e.model()),
            },
        ] + entries_view(rs.drop_first())
    }
}

pub proof fn lemma_entries_view(rs: Seq<Result<(String, Coerced), ParsingError>>)
    ensures
        entries_view(rs).len() == rs.len(),
        forall|i: int|
            0 <= i < rs.len() ==> #[trigger] entries_view(rs)[i] == (match rs[i] {
                Result::Ok(p) => Result::<(Seq<char>, CoercedV), ErrV>::Ok((p.0@, p.1.model())),
                Result::Err(e) => Result::<(Seq<char>, CoercedV), ErrV>::Err(e.model()),
            }),
    decreases rs,
{
    if rs.len() > 0 {
        lemma_entries_view(rs.drop_first());
    }
}

/// The scope extended by one component.
fn child_scope(scope: &Vec<String>, comp: String) -> (r: Vec<String>)
    ensures
        crate::error::scope_view(r@) == crate::error::scope_view(scope@).push(comp@),
{
    let ghost cv = comp@;
    let mut out = crate::textutil::clone_string_vec(scope);
    out.push(comp);
    proof {
        assert(crate::error::scope_view(out@) =~= crate::error::scope_view(scope@).push(cv));
    }
    out
}

/// The scope component naming a list element.
fn mk_index_component(i: usize) -> (r: String)
    ensures
        r@ == idx_component(i as int),
{
    let mut out: Vec<char> = Vec::new();
    out.push('[');
    crate::numtext::push_nat_repr(i as u64, &mut out);
    out.push(']');
    proof {
        assert(out@ =~= idx_component(i as int));
    }
    crate::textutil::chars_to_string(&out)
}

/// Whether a flag records a best-effort conversion.
fn flag_is_conversion(f: &Flag) -> (r: bool)
    ensures
        r == crate::flags::is_conversion_flag(f.model()),
{
    match f {
        Flag::StringToInt => true,
        Flag::StringToFloat => true,
        Flag::StringToBool => true,
        Flag::IntToFloat => true,
        Flag::FloatToInt => true,
        Flag::ValueToString => true,
        Flag::InexactMatch(_) => true,
        Flag::MatchedByDescription => true,
        _ => false,
    }
}

/// Whether a flag records defaulting or dropping.
fn flag_is_default(f: &Flag) -> (r: bool)
    ensures
        r == crate::flags::is_default_flag(f.model()),
{
    match f {
        Flag::DefaultedAbsent => true,
        Flag::DefaultedFromError => true,
        Flag::DroppedEntry(_) => true,
        _ => false,
    }
}

proof fn lemma_flag_counts_take(s: Seq<FlagV>, i: int)
    requires
        0 <= i < s.len(),
    ensures
        crate::flags::conv_in_flags(s.take(i + 1)) == crate::flags::conv_in_flags(s.take(i)) + (
        if crate::flags::is_conversion_flag(s[i]) {
            1nat
        } else {
            0nat
        }),
        crate::flags::default_in_flags(s.take(i + 1)) == crate::flags::default_in_flags(s.take(i))
            + (if crate::flags::is_default_flag(s[i]) {
            1nat
        } else {
            0nat
        }),
    decreases i,
{
    if i == 0 {
        assert(s.take(1) =~= seq![s[0]]);
        assert(s.take(1).drop_first() =~= s.take(0));
        assert(s.take(0) =~= Seq::<FlagV>::empty());
    } else {
        lemma_flag_counts_take(s.drop_first(), i - 1);
        assert(s.take(i + 1).drop_first() =~= s.drop_first().take(i));
        assert(s.take(i).drop_first() =~= s.drop_first().take(i - 1));
        assert(s.drop_first()[i - 1] == s[i]);
    }
}

/// Counts the conversion and defaulting flags directly on a node.
fn count_own_flags(flags: &Vec<Flag>) -> (r: (u64, u64))
    ensures
        r.0 as nat == crate::flags::conv_in_flags(crate::flags::flags_view(flags@)),
        r.1 as nat == crate::flags::default_in_flags(crate::flags::flags_view(flags@)),
{
    let ghost fv = crate::flags::flags_view(flags@);
    let n = flags.len();
    let mut conv: u64 = 0;
    let mut def: u64 = 0;
    let mut i: usize = 0;
    proof {
        assert(fv.take(0) =~= Seq::<FlagV>::empty());
    }
    while i < n
        invariant
            0 <= i <= n,
            n == flags@.len(),
            fv == crate::flags::flags_view(flags@),
            fv.len() == n,
            conv as nat == crate::flags::conv_in_flags(fv.take(i as int)),
            def as nat == crate::flags::default_in_flags(fv.take(i as int)),
            conv <= i,
            def <= i,
        decreases n - i,
    {
        proof {
            lemma_flag_counts_take(fv, i as int);
            assert(fv[i as int] == flags@[i as int].model());
        }
        if flag_is_conversion(&flags[i]) {
            conv = conv + 1;
        }
        if flag_is_default(&flags[i]) {
            def = def + 1;
        }
        i = i + 1;
    }
    proof {
        assert(fv.take(n as int) =~= fv);
    }
    (conv, def)
}

proof fn lemma_satcap_add(a: nat, b: nat)
    ensures
        satcap(satcap(a) + satcap(b)) == satcap(a + b),
{
}

/// Deep conversion and defaulting scores of a node, capped at 64 bits.
fn score_counts(c: &Coerced) -> (r: (u64, u64))
    ensures
        r.0 as nat == satcap(c.model().conv_score()),
        r.1 as nat == satcap(c.model().default_score()),
    decreases *c,
{
    let own = count_own_flags(&c.flags);
    let kids = kind_score_counts(&c.kind);
    proof {
        lemma_satcap_add(
            crate::flags::conv_in_flags(crate::flags::flags_view(c.flags@)),
            crate::coerced::kind_conv_score(c.kind.model()),
        );
        lemma_satcap_add(
            crate::flags::default_in_flags(crate::flags::flags_view(c.flags@)),
            crate::coerced::kind_default_score(c.kind.model()),
        );
    }
    (own.0.saturating_add(kids.0), own.1.saturating_add(kids.1))
}

/// Deep scores of a payload's children.
fn kind_score_counts(k: &crate::coerced::BamlKind) -> (r: (u64, u64))
    ensures
        r.0 as nat == satcap(crate::coerced::kind_conv_score(k.model())),
        r.1 as nat == satcap(crate::coerced::kind_default_score(k.model())),
    decreases *k,
{
    match k {
        crate::coerced::BamlKind::Class(_, fs) => {
            proof {
                assert(crate::coerced::model_pairs(fs@).skip(0) =~= crate::coerced::model_pairs(
                    fs@,
                ));
            }
            pairs_score_counts(fs, 0)
        },
        crate::coerced::BamlKind::List(items) => {
            proof {
                assert(crate::coerced::model_items(items@).skip(0) =~= crate::coerced::model_items(
                    items@,
                ));
            }
            items_score_counts(items, 0)
        },
        crate::coerced::BamlKind::Dict(es) => {
            proof {
                assert(crate::coerced::model_pairs(es@).skip(0) =~= crate::coerced::model_pairs(
                    es@,
                ));
            }
            pairs_score_counts(es, 0)
        },
        _ => (0, 0),
    }
}

/// Deep scores of the items from position `i` on.
fn items_score_counts(items: &Vec<Coerced>, i: usize) -> (r: (u64, u64))
    requires
        i <= items@.len(),
    ensures
        r.0 as nat == satcap(
            crate::coerced::items_conv_score(crate::coerced::model_items(items@).skip(i as int)),
        ),
        r.1 as nat == satcap(
            crate::coerced::items_default_score(
                crate::coerced::model_items(items@).skip(i as int),
            ),
        ),
    decreases *items, items@.len() - i,
{
    proof {
        crate::coerced::lemma_model_items(items@);
    }
    let ghost m = crate::coerced::model_items(items@);
    if i >= items.len() {
        proof {
            assert(m.skip(i as int) =~= Seq::<CoercedV>::empty());
        }
        (0, 0)
    } else {
        let first = score_counts(&items[i]);
        let rest = items_score_counts(items, i + 1);
        proof {
            assert(m.skip(i as int).drop_first() =~= m.skip(i + 1));
            assert(m.skip(i as int)[0] == m[i as int]);
            lemma_satcap_add(
                m[i as int].conv_score(),
                crate::coerced::items_conv_score(m.skip(i + 1)),
            );
            lemma_satcap_add(
                m[i as int].default_score(),
                crate::coerced::items_default_score(m.skip(i + 1)),
            );
        }
        (first.0.saturating_add(rest.0), first.1.saturating_add(rest.1))
    }
}

/// Deep scores of the named entries from position `i` on.
fn pairs_score_counts(es: &Vec<(String, Coerced)>, i: usize) -> (r: (u64, u64))
    requires
        i <= es@.len(),
    ensures
        r.0 as nat == satcap(
            crate::coerced::pairs_conv_score(crate::coerced::model_pairs(es@).skip(i as int)),
        ),
        r.1 as nat == satcap(
            crate::coerced::pairs_default_score(crate::coerced::model_pairs(es@).skip(i as int)),
        ),
    decreases *es, es@.len() - i,
{
    proof {
        crate::coerced::lemma_model_pairs(es@);
    }
    let ghost m = crate::coerced::model_pairs(es@);
    if i >= es.len() {
        proof {
            assert(m.skip(i as int) =~= Seq::<(Seq<char>, CoercedV)>::empty());
        }
        (0, 0)
    } else {
        let first = score_counts(&es[i].1);
        let rest = pairs_score_counts(es, i + 1);
        proof {
            assert(m.skip(i as int).drop_first() =~= m.skip(i + 1));
            assert(m.skip(i as int)[0] == m[i as int]);
            lemma_satcap_add(
                m[i as int].1.conv_score(),
                crate::coerced::pairs_conv_score(m.skip(i + 1)),
            );
            lemma_satcap_add(
                m[i as int].1.default_score(),
                crate::coerced::pairs_default_score(m.skip(i + 1)),
            );
        }
        (first.0.saturating_add(rest.0), first.1.saturating_add(rest.1))
    }
}

pub proof fn lemma_first_key_prefix(pairs: Seq<(String, Value)>, target: Seq<char>, folded: bool, i: int)
    requires
        0 <= i < pairs.len(),
        if folded {
            fold_seq(pairs[i].0@) == fold_seq(target)
        } else {
            pairs[i].0@ == target
        },
        forall|j: int|
            0 <= j < i ==> (if folded {
                fold_seq(pairs[j].0@) != fold_seq(target)
            } else {
                pairs[j].0@ != target
            }),
    ensures
        first_key(pairs, target, folded) == Option::Some(i),
    decreases i,
{
    if i > 0 {
        assert(forall|j: int|
            0 <= j < pairs.len() - 1 ==> pairs.drop_first()[j] == pairs[j + 1]);
        lemma_first_key_prefix(pairs.drop_first(), target, folded, i - 1);
    }
}

proof fn lemma_first_key_none(pairs: Seq<(String, Value)>, target: Seq<char>, folded: bool)
    requires
        forall|j: int|
            0 <= j < pairs.len() ==> (if folded {
                fold_seq(pairs[j].0@) != fold_seq(target)
            } else {
                pairs[j].0@ != target
            }),
    ensures
        first_key(pairs, target, folded) is None,
    decreases pairs,
{
    if pairs.len() > 0 {
        assert(forall|j: int|
            0 <= j < pairs.len() - 1 ==> pairs.drop_first()[j] == pairs[j + 1]);
        lemma_first_key_none(pairs.drop_first(), target, folded);
    }
}

pub proof fn lemma_first_key_ok(pairs: Seq<(String, Value)>, target: Seq<char>, folded: bool)
    ensures
        first_key(pairs, target, folded) matches Option::Some(i) ==> 0 <= i < pairs.len(),
    decreases pairs,
{
    if pairs.len() > 0 {
        lemma_first_key_ok(pairs.drop_first(), target, folded);
    }
}

/// First object key matching the target, exactly or case-insensitively.
fn first_key_exec(pairs: &Vec<(String, Value)>, target: &String, folded: bool) -> (r: Option<
    usize,
>)
    ensures
        match r {
            Option::Some(i) => first_key(pairs@, target@, folded) == Option::Some(i as int) && i
                < pairs@.len(),
            Option::None => first_key(pairs@, target@, folded) is None,
        },
{
    let n = pairs.len();
    let mut i: usize = 0;
    while i < n
        invariant
            0 <= i <= n,
            n == pairs@.len(),
            forall|j: int|
                0 <= j < i ==> (if folded {
                    fold_seq(#[trigger] pairs@[j].0@) != fold_seq(target@)
                } else {
                    pairs@[j].0@ != target@
                }),
        decreases n - i,
    {
        let hit = if folded {
            crate::textutil::eq_fold(&pairs[i].0, target)
        } else {
            pairs[i].0 == *target
        };
        if hit {
            proof {
                lemma_first_key_prefix(pairs@, target@, folded, i as int);
            }
            return Some(i);
        }
        i = i + 1;
    }
    proof {
        lemma_first_key_none(pairs@, target@, folded);
    }
    None
}

/// Locate the object key serving a declared field.
fn locate_exec(pairs: &Vec<(String, Value)>, name: &String, alias: &Option<String>) -> (r: Option<
    usize,
>)
    ensures
        match r {
            Option::Some(i) => locate(pairs@, name@, opt_string_view(alias)) == Option::Some(
                i as int,
            ) && i < pairs@.len(),
            Option::None => locate(pairs@, name@, opt_string_view(alias)) is None,
        },
{
    match first_key_exec(pairs, name, false) {
        Some(i) => Some(i),
        None => {
            let by_alias = match alias {
                Some(a) => first_key_exec(pairs, a, false),
                None => None,
            };
            match by_alias {
                Some(i) => Some(i),
                None => match first_key_exec(pairs, name, true) {
                    Some(i) => Some(i),
                    None => match alias {
                        Some(a) => first_key_exec(pairs, a, true),
                        None => None,
                    },
                },
            }
        },
    }
}

/// View of a borrowed optional alias.
pub open spec fn opt_string_view(a: &Option<String>) -> Option<Seq<char>> {
    match a {
        Option::Some(s) => Option::Some(s@),
        Option::None => Option::None,
    }
}

/// The informational flags for object keys serving no declared field.
fn extra_flags_exec(pairs: &Vec<(String, Value)>, fields: &Vec<FieldDef>) -> (r: Vec<Flag>)
    ensures
        crate::flags::flags_view(r@) == extra_flags(pairs@, fields@, pairs@.len() as int),
{
    let np = pairs.len();
    let nf = fields.len();
    let mut out: Vec<Flag> = Vec::new();
    let mut ki: usize = 0;
    while ki < np
        invariant
            0 <= ki <= np,
            np == pairs@.len(),
            nf == fields@.len(),
            crate::flags::flags_view(out@) == extra_flags(pairs@, fields@, ki as int),
        decreases np - ki,
    {
        let ghost prev = out@;
        let mut used = false;
        let mut j: usize = 0;
        while j < nf
            invariant
                0 <= j <= nf,
                ki < np == pairs@.len(),
                nf == fields@.len(),
                used ==> key_used(pairs@, fields@, ki as int),
                !used ==> forall|j2: int|
                    0 <= j2 < j ==> #[trigger] locate(
                        pairs@,
                        fields@[j2].name@,
                        alias_view(fields@[j2].alias),
                    ) != Option::Some(ki as int),
            decreases nf - j,
        {
            if !used {
                let li = locate_exec(pairs, &fields[j].name, &fields[j].alias);
                proof {
                    assert(opt_string_view(&fields@[j as int].alias) == alias_view(
                        fields@[j as int].alias,
                    ));
                }
                match li {
                    Some(i) => {
                        if i == ki {
                            used = true;
                        }
                    },
                    None => {},
                }
            }
            j = j + 1;
        }
        if !used {
            out.push(Flag::ExtraKey(pairs[ki].0.clone()));
            proof {
                assert(!key_used(pairs@, fields@, ki as int));
                assert(crate::flags::flags_view(out@) =~= crate::flags::flags_view(prev) + seq![
                    FlagV::ExtraKey(pairs@[ki as int].0@),
                ]);
            }
        } else {
            proof {
                assert(extra_flags(pairs@, fields@, ki + 1) =~= extra_flags(
                    pairs@,
                    fields@,
                    ki as int,
                ));
            }
        }
        ki = ki + 1;
    }
    out
}

/// The best success among results is itself a success with a valid index.
proof fn lemma_best_of_ok(rs: Seq<Result<CoercedV, ErrV>>, n: int)
    requires
        n <= rs.len(),
    ensures
        best_of(rs, n) matches Option::Some(i) ==> 0 <= i < n && rs[i] is Ok,
    decreases n,
{
    if n > 0 {
        lemma_best_of_ok(rs, n - 1);
    }
}

/// The first failing result has a valid index and is a failure.
proof fn lemma_first_err_ok(rs: Seq<Result<CoercedV, ErrV>>, n: int)
    requires
        n <= rs.len(),
    ensures
        first_err(rs, n) matches Option::Some(i) ==> 0 <= i < n && rs[i] is Err,
        first_err(rs, n) is None ==> forall|j: int| 0 <= j < n ==> !(#[trigger] rs[j] is Err),
    decreases n,
{
    if n > 0 {
        lemma_first_err_ok(rs, n - 1);
    }
}

/// The best success among the first `n` results.
fn best_of_exec(rs: &Vec<Result<Coerced, ParsingError>>, n: usize) -> (r: Option<usize>)
    requires
        n <= rs@.len(),
    ensures
        match r {
            Option::Some(i) => best_of(results_view(rs@), n as int) == Option::Some(i as int) && i
                < n,
            Option::None => best_of(results_view(rs@), n as int) is None,
        },
    decreases n,
{
    proof {
        lemma_results_view(rs@);
    }
    if n == 0 {
        return None;
    }
    let prev = best_of_exec(rs, n - 1);
    proof {
        lemma_best_of_ok(results_view(rs@), n - 1);
    }
    match &rs[n - 1] {
        Err(_) => prev,
        Ok(c) => match prev {
            None => Some(n - 1),
            Some(p) => match &rs[p] {
                Ok(pc) => {
                    if outranks_exec(c, pc) {
                        Some(n - 1)
                    } else {
                        Some(p)
                    }
                },
                Err(_) => {
                    proof {
                        assert(false);
                    }
                    Some(p)
                },
            },
        },
    }
}

/// The first failing index among the first `n` results.
fn first_err_exec(rs: &Vec<Result<Coerced, ParsingError>>, n: usize) -> (r: Option<usize>)
    requires
        n <= rs@.len(),
    ensures
        match r {
            Option::Some(i) => first_err(results_view(rs@), n as int) == Option::Some(i as int)
                && i < n && rs@[i as int] is Err,
            Option::None => first_err(results_view(rs@), n as int) is None,
        },
    decreases n,
{
    proof {
        lemma_results_view(rs@);
    }
    if n == 0 {
        return None;
    }
    match first_err_exec(rs, n - 1) {
        Some(j) => Some(j),
        None => {
            if rs[n - 1].is_err() {
                Some(n - 1)
            } else {
                None
            }
        },
    }
}

/// The errors among the results, in order, taking ownership of them.
fn collect_errs(rs: Vec<Result<Coerced, ParsingError>>) -> (r: Vec<ParsingError>)
    ensures
        crate::error::model_errors(r@) == errs_of(results_view(rs@), rs@.len() as int),
    decreases rs@.len(),
{
    let ghost whole = rs@;
    let mut rs = rs;
    if rs.len() == 0 {
        let out: Vec<ParsingError> = Vec::new();
        proof {
            assert(crate::error::model_errors(out@) =~= errs_of(results_view(whole), 0));
        }
        return out;
    }
    let last = rs.pop().unwrap();
    let ghost shorter = rs@;
    let mut out = collect_errs(rs);
    proof {
        lemma_results_view(whole);
        lemma_results_view(shorter);
        assert(shorter =~= whole.drop_last());
        lemma_results_view_drop_last(whole);
        lemma_errs_oks_agree(results_view(shorter), results_view(whole), shorter.len() as int);
        crate::error::lemma_model_errors(out@);
    }
    match last {
        Err(e) => {
            let ghost prev = out@;
            let ghost em = e.model();
            out.push(e);
            proof {
                crate::error::lemma_model_errors(out@);
                crate::error::lemma_model_errors(prev);
                assert(crate::error::model_errors(out@) =~= crate::error::model_errors(prev)
                    + seq![em]);
                assert(errs_of(results_view(whole), whole.len() as int) =~= errs_of(
                    results_view(whole),
                    whole.len() - 1,
                ) + seq![em]);
                assert(errs_of(results_view(whole), whole.len() - 1) =~= errs_of(
                    results_view(shorter),
                    shorter.len() as int,
                ));
            }
            out
        },
        Ok(_) => {
            proof {
                assert(errs_of(results_view(whole), whole.len() as int) =~= errs_of(
                    results_view(whole),
                    whole.len() - 1,
                ));
                assert(errs_of(results_view(whole), whole.len() - 1) =~= errs_of(
                    results_view(shorter),
                    shorter.len() as int,
                ));
            }
            out
        },
    }
}

/// A shorter prefix of results views the same as the whole's prefix.
proof fn lemma_results_view_drop_last(rs: Seq<Result<Coerced, ParsingError>>)
    requires
        rs.len() > 0,
    ensures
        results_view(rs.drop_last()) =~= results_view(rs).drop_last(),
{
    lemma_results_view(rs);
    lemma_results_view(rs.drop_last());
    assert(results_view(rs.drop_last()) =~= results_view(rs).drop_last());
}

/// Prefix scans agree on sequences that agree on the prefix.
proof fn lemma_errs_oks_agree(a: Seq<Result<CoercedV, ErrV>>, b: Seq<Result<CoercedV, ErrV>>, n: int)
    requires
        n <= a.len(),
        n <= b.len(),
        forall|j: int| 0 <= j < n ==> a[j] == b[j],
    ensures
        errs_of(a, n) =~= errs_of(b, n),
        oks_of(a, n) =~= oks_of(b, n),
    decreases n,
{
    if n > 0 {
        lemma_errs_oks_agree(a, b, n - 1);
    }
}

/// The successful values among the results, in order, taking ownership.
fn collect_oks(rs: Vec<Result<Coerced, ParsingError>>) -> (r: Vec<Coerced>)
    ensures
        crate::coerced::model_items(r@) == oks_of(results_view(rs@), rs@.len() as int),
    decreases rs@.len(),
{
    let ghost whole = rs@;
    let mut rs = rs;
    if rs.len() == 0 {
        let out: Vec<Coerced> = Vec::new();
        proof {
            assert(crate::coerced::model_items(out@) =~= oks_of(results_view(whole), 0));
        }
        return out;
    }
    let last = rs.pop().unwrap();
    let ghost shorter = rs@;
    let mut out = collect_oks(rs);
    proof {
        lemma_results_view(whole);
        lemma_results_view(shorter);
        lemma_results_view_drop_last(whole);
        assert(shorter =~= whole.drop_last());
        lemma_errs_oks_agree(results_view(shorter), results_view(whole), shorter.len() as int);
        crate::coerced::lemma_model_items(out@);
    }
    match last {
        Ok(c) => {
            let ghost prev = out@;
            let ghost cm = c.model();
            out.push(c);
            proof {
                crate::coerced::lemma_model_items(out@);
                crate::coerced::lemma_model_items(prev);
                assert(crate::coerced::model_items(out@) =~= crate::coerced::model_items(prev)
                    + seq![cm]);
                assert(oks_of(results_view(whole), whole.len() as int) =~= oks_of(
                    results_view(whole),
                    whole.len() - 1,
                ) + seq![cm]);
                assert(oks_of(results_view(whole), whole.len() - 1) =~= oks_of(
                    results_view(shorter),
                    shorter.len() as int,
                ));
            }
            out
        },
        Err(_) => {
            proof {
                assert(oks_of(results_view(whole), whole.len() as int) =~= oks_of(
                    results_view(whole),
                    whole.len() - 1,
                ));
                assert(oks_of(results_view(whole), whole.len() - 1) =~= oks_of(
                    results_view(shorter),
                    shorter.len() as int,
                ));
            }
            out
        },
    }
}

/// Whether the first node outranks the second in union scoring.
fn outranks_exec(a: &Coerced, b: &Coerced) -> (r: bool)
    ensures
        r == outranks(a.model(), b.model()),
{
    let sa = score_counts(a);
    let sb = score_counts(b);
    sa.0 < sb.0 || (sa.0 == sb.0 && sa.1 < sb.1)
}

/// Prefix scans over entry results agree on agreeing prefixes.
proof fn lemma_entry_scans_agree(
    a: Seq<Result<(Seq<char>, CoercedV), ErrV>>,
    b: Seq<Result<(Seq<char>, CoercedV), ErrV>>,
    n: int,
)
    requires
        n <= a.len(),
        n <= b.len(),
        forall|j: int| 0 <= j < n ==> a[j] == b[j],
    ensures
        entry_errs(a, n) =~= entry_errs(b, n),
        ok_entries(a, n) =~= ok_entries(b, n),
    decreases n,
{
    if n > 0 {
        lemma_entry_scans_agree(a, b, n - 1);
    }
}

/// Prefix scans over field results agree on agreeing prefixes.
proof fn lemma_ok_fields_agree(
    fields: Seq<FieldDef>,
    a: Seq<Result<CoercedV, ErrV>>,
    b: Seq<Result<CoercedV, ErrV>>,
    n: int,
)
    requires
        n <= a.len(),
        n <= b.len(),
        forall|j: int| 0 <= j < n ==> a[j] == b[j],
    ensures
        ok_fields(fields, a, n) =~= ok_fields(fields, b, n),
    decreases n,
{
    if n > 0 {
        lemma_ok_fields_agree(fields, a, b, n - 1);
    }
}

/// The named field payloads of a class whose fields all coerced, taking
/// ownership of the results.
fn collect_field_oks(fields: &Vec<FieldDef>, rs: Vec<Result<Coerced, ParsingError>>) -> (r: Vec<
    (String, Coerced),
>)
    requires
        rs@.len() <= fields@.len(),
    ensures
        crate::coerced::model_pairs(r@) == ok_fields(fields@, results_view(rs@), rs@.len() as int),
    decreases rs@.len(),
{
    let ghost whole = rs@;
    let mut rs = rs;
    if rs.len() == 0 {
        let out: Vec<(String, Coerced)> = Vec::new();
        proof {
            assert(crate::coerced::model_pairs(out@) =~= ok_fields(fields@, results_view(whole), 0));
        }
        return out;
    }
    let idx = rs.len() - 1;
    let last = rs.pop().unwrap();
    let ghost shorter = rs@;
    let mut out = collect_field_oks(fields, rs);
    proof {
        lemma_results_view(whole);
        lemma_results_view(shorter);
        lemma_results_view_drop_last(whole);
        assert(shorter =~= whole.drop_last());
        lemma_ok_fields_agree(
            fields@,
            results_view(shorter),
            results_view(whole),
            shorter.len() as int,
        );
        crate::coerced::lemma_model_pairs(out@);
    }
    match last {
        Ok(c) => {
            let name = fields[idx].name.clone();
            let ghost pm = (name@, c.model());
            let ghost prev = out@;
            out.push((name, c));
            proof {
                crate::coerced::lemma_model_pairs(out@);
                crate::coerced::lemma_model_pairs(prev);
                assert(crate::coerced::model_pairs(out@) =~= crate::coerced::model_pairs(prev)
                    + seq![pm]);
                assert(ok_fields(fields@, results_view(whole), whole.len() as int) =~= ok_fields(
                    fields@,
                    results_view(whole),
                    whole.len() - 1,
                ) + seq![pm]);
            }
            out
        },
        Err(_) => {
            proof {
                assert(ok_fields(fields@, results_view(whole), whole.len() as int) =~= ok_fields(
                    fields@,
                    results_view(whole),
                    whole.len() - 1,
                ));
            }
            out
        },
    }
}

/// The successful map entries, in order, taking ownership of the results.
fn collect_entries(rs: Vec<Result<(String, Coerced), ParsingError>>) -> (r: Vec<(String, Coerced)>)
    ensures
        crate::coerced::model_pairs(r@) == ok_entries(entries_view(rs@), rs@.len() as int),
    decreases rs@.len(),
{
    let ghost whole = rs@;
    let mut rs = rs;
    if rs.len() == 0 {
        let out: Vec<(String, Coerced)> = Vec::new();
        proof {
            assert(crate::coerced::model_pairs(out@) =~= ok_entries(entries_view(whole), 0));
        }
        return out;
    }
    let last = rs.pop().unwrap();
    let ghost shorter = rs@;
    let mut out = collect_entries(rs);
    proof {
        lemma_entries_view(whole);
        lemma_entries_view(shorter);
        assert(shorter =~= whole.drop_last());
        assert(entries_view(shorter) =~= entries_view(whole).drop_last());
        lemma_entry_scans_agree(
            entries_view(shorter),
            entries_view(whole),
            shorter.len() as int,
        );
        crate::coerced::lemma_model_pairs(out@);
    }
    match last {
        Ok(p) => {
            let ghost pm = (p.0@, p.1.model());
            let ghost prev = out@;
            out.push(p);
            proof {
                crate::coerced::lemma_model_pairs(out@);
                crate::coerced::lemma_model_pairs(prev);
                assert(crate::coerced::model_pairs(out@) =~= crate::coerced::model_pairs(prev)
                    + seq![pm]);
                assert(ok_entries(entries_view(whole), whole.len() as int) =~= ok_entries(
                    entries_view(whole),
                    whole.len() - 1,
                ) + seq![pm]);
            }
            out
        },
        Err(_) => {
            proof {
                assert(ok_entries(entries_view(whole), whole.len() as int) =~= ok_entries(
                    entries_view(whole),
                    whole.len() - 1,
                ));
            }
            out
        },
    }
}

/// The errors among the map entries, in order, taking ownership.
fn collect_entry_errs(rs: Vec<Result<(String, Coerced), ParsingError>>) -> (r: Vec<ParsingError>)
    ensures
        crate::error::model_errors(r@) == entry_errs(entries_view(rs@), rs@.len() as int),
    decreases rs@.len(),
{
    let ghost whole = rs@;
    let mut rs = rs;
    if rs.len() == 0 {
        let out: Vec<ParsingError> = Vec::new();
        proof {
            assert(crate::error::model_errors(out@) =~= entry_errs(entries_view(whole), 0));
        }
        return out;
    }
    let last = rs.pop().unwrap();
    let ghost shorter = rs@;
    let mut out = collect_entry_errs(rs);
    proof {
        lemma_entries_view(whole);
        lemma_entries_view(shorter);
        assert(shorter =~= whole.drop_last());
        assert(entries_view(shorter) =~= entries_view(whole).drop_last());
        lemma_entry_scans_agree(
            entries_view(shorter),
            entries_view(whole),
            shorter.len() as int,
        );
        crate::error::lemma_model_errors(out@);
    }
    match last {
        Err(e) => {
            let ghost em = e.model();
            let ghost prev = out@;
            out.push(e);
            proof {
                crate::error::lemma_model_errors(out@);
                crate::error::lemma_model_errors(prev);
                assert(crate::error::model_errors(out@) =~= crate::error::model_errors(prev)
                    + seq![em]);
                assert(entry_errs(entries_view(whole), whole.len() as int) =~= entry_errs(
                    entries_view(whole),
                    whole.len() - 1,
                ) + seq![em]);
            }
            out
        },
        Ok(_) => {
            proof {
                assert(entry_errs(entries_view(whole), whole.len() as int) =~= entry_errs(
                    entries_view(whole),
                    whole.len() - 1,
                ));
            }
            out
        },
    }
}

/// Whether any of the first `n` entries succeeded.
fn any_ok_exec(rs: &Vec<Result<(String, Coerced), ParsingError>>, n: usize) -> (r: bool)
    requires
        n <= rs@.len(),
    ensures
        r == any_entry_ok(entries_view(rs@), n as int),
{
    proof {
        lemma_entries_view(rs@);
    }
    let mut i: usize = 0;
    let mut any = false;
    while i < n
        invariant
            0 <= i <= n <= rs@.len(),
            entries_view(rs@).len() == rs@.len(),
            forall|j: int|
                0 <= j < rs@.len() ==> ((#[trigger] entries_view(rs@)[j]) is Ok <==> rs@[j] is Ok),
            any == any_entry_ok(entries_view(rs@), i as int),
        decreases n - i,
    {
        if rs[i].is_ok() {
            any = true;
        }
        i = i + 1;
    }
    any
}

/// The dropped-entry flags for the failed map entries, in key order.
fn dropped_flags_exec(
    pairs: &Vec<(String, Value)>,
    rs: &Vec<Result<(String, Coerced), ParsingError>>,
    n: usize,
) -> (r: Vec<Flag>)
    requires
        n <= rs@.len(),
        n <= pairs@.len(),
    ensures
        crate::flags::flags_view(r@) == dropped_flags(pairs@, entries_view(rs@), n as int),
{
    proof {
        lemma_entries_view(rs@);
    }
    let mut out: Vec<Flag> = Vec::new();
    let mut i: usize = 0;
    while i < n
        invariant
            0 <= i <= n <= rs@.len(),
            n <= pairs@.len(),
            entries_view(rs@).len() == rs@.len(),
            forall|j: int|
                0 <= j < rs@.len() ==> ((#[trigger] entries_view(rs@)[j]) is Ok <==> rs@[j] is Ok),
            crate::flags::flags_view(out@) == dropped_flags(pairs@, entries_view(rs@), i as int),
        decreases n - i,
    {
        let ghost prev = out@;
        if rs[i].is_err() {
            out.push(Flag::DroppedEntry(pairs[i].0.clone()));
            proof {
                assert(crate::flags::flags_view(out@) =~= crate::flags::flags_view(prev) + seq![
                    FlagV::DroppedEntry(pairs@[i as int].0@),
                ]);
            }
        } else {
            proof {
                assert(dropped_flags(pairs@, entries_view(rs@), i + 1) =~= dropped_flags(
                    pairs@,
                    entries_view(rs@),
                    i as int,
                ));
            }
        }
        i = i + 1;
    }
    out
}

/// View of a borrowed optional value.
pub open spec fn opt_view(v: Option<&Value>) -> Option<Value> {
    match v {
        Option::Some(x) => Option::Some(*x),
        Option::None => Option::None,
    }
}

/// The per-call context of a coercion: the schema registry, the scope path
/// for diagnostics, the remaining recursion depth, and the strictness flag.
pub struct ParsingContext<'a> {
    pub registry: &'a Registry,
    pub scope: Vec<String>,
    pub depth: u32,
    pub allow_partials: bool,
}

impl<'a> ParsingContext<'a> {
    /// A fresh top-level context with the default depth ceiling.
    pub fn new(registry: &'a Registry, allow_partials: bool) -> (r: ParsingContext<'a>)
        ensures
            r.registry == registry,
            r.scope@.len() == 0,
            r.depth == DEPTH_LIMIT,
            r.allow_partials == allow_partials,
    {
        ParsingContext { registry, scope: Vec::new(), depth: DEPTH_LIMIT, allow_partials }
    }
}

/// Coerce a parsed value onto a target type.  `None` stands for a field
/// absent in the source object.  The result is exactly what `coerce_spec`
/// says, for every input.
pub fn coerce<'a, E: ConstraintEvaluator>(
    ev: &E,
    ctx: &ParsingContext<'a>,
    target: &FieldType,
    value: Option<&Value>,
) -> (r: Result<Coerced, ParsingError>)
    ensures
        crate::constraints::result_matches(
            r,
            coerce_spec(
                ev,
                ctx.registry,
                crate::error::scope_view(ctx.scope@),
                ctx.depth as nat,
                *target,
                opt_view(value),
            ),
        ),
{
    coerce_impl(ev, ctx.registry, &ctx.scope, ctx.depth, target, value)
}

fn coerce_impl<E: ConstraintEvaluator>(
    ev: &E,
    reg: &Registry,
    scope: &Vec<String>,
    depth: u32,
    t: &FieldType,
    v: Option<&Value>,
) -> (r: Result<Coerced, ParsingError>)
    ensures
        crate::constraints::result_matches(
            r,
            coerce_spec(
                ev,
                reg,
                crate::error::scope_view(scope@),
                depth as nat,
                *t,
                opt_view(v),
            ),
        ),
    decreases depth, type_size(*t), ovsize(opt_view(v)), 0nat,
{
    let ghost sc = crate::error::scope_view(scope@);
    match t {
        FieldType::Optional(inner) => match v {
            None => Ok(
                Coerced {
                    flags: crate::coerce_prim::one_flag(Flag::DefaultedAbsent),
                    completion: CompletionState::Complete,
                    kind: crate::coerced::BamlKind::Null,
                },
            ),
            Some(val) => match val {
                Value::Null => Ok(
                    Coerced {
                        flags: crate::coerce_prim::no_flags(),
                        completion: CompletionState::Complete,
                        kind: crate::coerced::BamlKind::Null,
                    },
                ),
                _ => match coerce_impl(ev, reg, scope, depth, inner, Some(val)) {
                    Ok(c) => Ok(c),
                    Err(e) => {
                        let fatal = match &e.reason {
                            crate::error::ErrorReason::AssertFailed(_) => true,
                            _ => false,
                        };
                        if fatal {
                            Err(e)
                        } else {
                            Ok(
                                Coerced {
                                    flags: crate::coerce_prim::one_flag(Flag::DefaultedFromError),
                                    completion: CompletionState::Complete,
                                    kind: crate::coerced::BamlKind::Null,
                                },
                            )
                        }
                    },
                },
            },
        },
        FieldType::Union(ts) => {
            let n = ts.len();
            let rs = members_exec(ev, reg, scope, depth, ts, v, n);
            proof {
                lemma_results_view(rs@);
                lemma_best_of_ok(results_view(rs@), n as int);
            }
            match best_of_exec(&rs, n) {
                Some(i) => {
                    let mut rs = rs;
                    let chosen = rs.remove(i);
                    match chosen {
                        Ok(c) => {
                            let mut c = c;
                            let ghost before = c.model();
                            c.flags.push(Flag::UnionPick(n as u64));
                            proof {
                                assert(crate::flags::flags_view(c.flags@) =~= before.flags + seq![
                                    FlagV::UnionPick(n as int),
                                ]);
                                assert(c.model() == before.with_flags(
                                    seq![FlagV::UnionPick(ts@.len() as int)],
                                ));
                            }
                            Ok(c)
                        },
                        Err(e) => {
                            proof {
                                assert(false);
                            }
                            Err(e)
                        },
                    }
                },
                None => {
                    let errs = collect_errs(rs);
                    Err(
                        ParsingError {
                            scope: crate::textutil::clone_string_vec(scope),
                            reason: crate::error::ErrorReason::NoCandidateMatched(errs),
                        },
                    )
                },
            }
        },
        _ => match v {
            None => match t {
                FieldType::Primitive(TypeKind::NullKind) => Ok(
                    Coerced {
                        flags: crate::coerce_prim::no_flags(),
                        completion: CompletionState::Complete,
                        kind: crate::coerced::BamlKind::Null,
                    },
                ),
                _ => Err(crate::coerce_prim::mk_mismatch(scope, "missing value")),
            },
            Some(val) => match val {
                Value::AnyOf(cands, _raw) => {
                    let n = cands.len();
                    let rs = cands_exec(ev, reg, scope, depth, t, cands, n);
                    proof {
                        lemma_results_view(rs@);
                        lemma_best_of_ok(results_view(rs@), n as int);
                    }
                    match best_of_exec(&rs, n) {
                        Some(i) => {
                            let mut rs = rs;
                            let chosen = rs.remove(i);
                            match chosen {
                                Ok(c) => Ok(c),
                                Err(e) => {
                                    proof {
                                        assert(false);
                                    }
                                    Err(e)
                                },
                            }
                        },
                        None => {
                            let errs = collect_errs(rs);
                            Err(
                                ParsingError {
                                    scope: crate::textutil::clone_string_vec(scope),
                                    reason: crate::error::ErrorReason::NoCandidateMatched(errs),
                                },
                            )
                        },
                    }
                },
                Value::Fenced(lang, inner) => {
                    match coerce_impl(ev, reg, scope, depth, t, Some(inner)) {
                        Ok(c) => {
                            let mut c = c;
                            let ghost before = c.model();
                            c.flags.push(Flag::FromFence(lang.clone()));
                            proof {
                                assert(crate::flags::flags_view(c.flags@) =~= before.flags + seq![
                                    FlagV::FromFence(lang@),
                                ]);
                                assert(c.model() == before.with_flags(seq![FlagV::FromFence(lang@)]));
                            }
                            Ok(c)
                        },
                        Err(e) => Err(e),
                    }
                },
                _ => match t {
                    FieldType::Primitive(k) => crate::coerce_prim::coerce_prim(*k, val, scope),
                    FieldType::Literal(l) => crate::coerce_prim::coerce_literal(l, val, scope),
                    FieldType::Enum(name) => crate::coerce_prim::coerce_enum(
                        ev,
                        reg,
                        scope,
                        name,
                        val,
                    ),
                    FieldType::Class(name) => {
                        if depth == 0 {
                            Err(
                                ParsingError {
                                    scope: crate::textutil::clone_string_vec(scope),
                                    reason: crate::error::ErrorReason::RecursionLimitExceeded,
                                },
                            )
                        } else {
                            match reg.find_class(name) {
                                None => Err(
                                    crate::coerce_prim::mk_mismatch(scope, "unknown class"),
                                ),
                                Some(cdef) => match val {
                                    Value::Object(pairs, comp) => {
                                        let nf = cdef.fields.len();
                                        let rs = fields_exec(
                                            ev,
                                            reg,
                                            scope,
                                            depth - 1,
                                            &cdef.fields,
                                            pairs,
                                            nf,
                                        );
                                        proof {
                                            lemma_results_view(rs@);
                                        }
                                        match first_err_exec(&rs, nf) {
                                            Some(j) => {
                                                let mut rs = rs;
                                                match rs.remove(j) {
                                                    Err(e) => Err(e),
                                                    Ok(c) => {
                                                        proof {
                                                            assert(false);
                                                        }
                                                        Ok(c)
                                                    },
                                                }
                                            },
                                            None => {
                                                let extra = extra_flags_exec(pairs, &cdef.fields);
                                                let named = collect_field_oks(&cdef.fields, rs);
                                                let base = Coerced {
                                                    flags: extra,
                                                    completion: *comp,
                                                    kind: crate::coerced::BamlKind::Class(
                                                        cdef.name.clone(),
                                                        named,
                                                    ),
                                                };
                                                crate::constraints::apply_constraints(
                                                    ev,
                                                    scope,
                                                    base,
                                                    &cdef.constraints,
                                                )
                                            },
                                        }
                                    },
                                    _ => Err(
                                        crate::coerce_prim::mk_mismatch(
                                            scope,
                                            "expected an object",
                                        ),
                                    ),
                                },
                            }
                        }
                    },
                    FieldType::List(inner) => match val {
                        Value::Array(items, comp) => {
                            let n = items.len();
                            let rs = items_exec(ev, reg, scope, depth, inner, items, n);
                            proof {
                                lemma_results_view(rs@);
                            }
                            match first_err_exec(&rs, n) {
                                Some(j) => {
                                    let mut rs = rs;
                                    match rs.remove(j) {
                                        Err(e) => Err(e),
                                        Ok(c) => {
                                            proof {
                                                assert(false);
                                            }
                                            Ok(c)
                                        },
                                    }
                                },
                                None => {
                                    let oks = collect_oks(rs);
                                    Ok(
                                        Coerced {
                                            flags: crate::coerce_prim::no_flags(),
                                            completion: *comp,
                                            kind: crate::coerced::BamlKind::List(oks),
                                        },
                                    )
                                },
                            }
                        },
                        _ => Err(crate::coerce_prim::mk_mismatch(scope, "expected an array")),
                    },
                    FieldType::Tuple(ts) => match val {
                        Value::Array(items, comp) => {
                            if items.len() != ts.len() {
                                Err(
                                    crate::coerce_prim::mk_mismatch(scope, "tuple arity mismatch"),
                                )
                            } else {
                                let n = ts.len();
                                let rs = tuple_exec(ev, reg, scope, depth, ts, items, n);
                                proof {
                                    lemma_results_view(rs@);
                                }
                                match first_err_exec(&rs, n) {
                                    Some(j) => {
                                        let mut rs = rs;
                                        match rs.remove(j) {
                                            Err(e) => Err(e),
                                            Ok(c) => {
                                                proof {
                                                    assert(false);
                                                }
                                                Ok(c)
                                            },
                                        }
                                    },
                                    None => {
                                        let oks = collect_oks(rs);
                                        Ok(
                                            Coerced {
                                                flags: crate::coerce_prim::no_flags(),
                                                completion: *comp,
                                                kind: crate::coerced::BamlKind::List(oks),
                                            },
                                        )
                                    },
                                }
                            }
                        },
                        _ => Err(crate::coerce_prim::mk_mismatch(scope, "expected an array")),
                    },
                    FieldType::Dict(_, _) => match val {
                        Value::Object(pairs, comp) => {
                            let n = pairs.len();
                            let rs = entries_exec(ev, reg, scope, depth, t, pairs, n);
                            proof {
                                lemma_entries_view(rs@);
                            }
                            let any = any_ok_exec(&rs, n);
                            if n > 0 && !any {
                                let errs = collect_entry_errs(rs);
                                Err(
                                    ParsingError {
                                        scope: crate::textutil::clone_string_vec(scope),
                                        reason: crate::error::ErrorReason::NoCandidateMatched(errs),
                                    },
                                )
                            } else {
                                let flags = dropped_flags_exec(pairs, &rs, n);
                                let es = collect_entries(rs);
                                Ok(
                                    Coerced {
                                        flags,
                                        completion: *comp,
                                        kind: crate::coerced::BamlKind::Dict(es),
                                    },
                                )
                            }
                        },
                        _ => Err(crate::coerce_prim::mk_mismatch(scope, "expected an object")),
                    },
                    FieldType::Alias(name) => {
                        if depth == 0 {
                            Err(
                                ParsingError {
                                    scope: crate::textutil::clone_string_vec(scope),
                                    reason: crate::error::ErrorReason::RecursionLimitExceeded,
                                },
                            )
                        } else {
                            match reg.find_alias(name) {
                                None => Err(
                                    crate::coerce_prim::mk_mismatch(scope, "unknown alias"),
                                ),
                                Some(adef) => coerce_impl(
                                    ev,
                                    reg,
                                    scope,
                                    depth - 1,
                                    &adef.target,
                                    Some(val),
                                ),
                            }
                        }
                    },
                    _ => Err(crate::coerce_prim::mk_mismatch(scope, "unsupported target")),
                },
            },
        },
    }
}

/// Results of trying each union member, in declaration order.
fn members_exec<E: ConstraintEvaluator>(
    ev: &E,
    reg: &Registry,
    scope: &Vec<String>,
    depth: u32,
    ts: &Vec<FieldType>,
    v: Option<&Value>,
    n: usize,
) -> (r: Vec<Result<Coerced, ParsingError>>)
    requires
        n <= ts@.len(),
    ensures
        r@.len() == n,
        results_view(r@) == member_results(
            ev,
            reg,
            crate::error::scope_view(scope@),
            depth as nat,
            ts@,
            opt_view(v),
            n as int,
        ),
    decreases depth, types_size(ts@), ovsize(opt_view(v)), n,
{
    if n == 0 {
        let out: Vec<Result<Coerced, ParsingError>> = Vec::new();
        proof {
            assert(results_view(out@) =~= Seq::<Result<CoercedV, ErrV>>::empty());
        }
        return out;
    }
    proof {
        lemma_types_size_elem(ts@, n - 1);
    }
    let mut out = members_exec(ev, reg, scope, depth, ts, v, n - 1);
    let ghost prev = out@;
    let one = coerce_impl(ev, reg, scope, depth, &ts[n - 1], v);
    let ghost om = match one {
        Result::Ok(ref c) => Result::<CoercedV, ErrV>::Ok(c.model()),
        Result::Err(ref e) => Result::<CoercedV, ErrV>::Err(e.model()),
    };
    out.push(one);
    proof {
        lemma_results_view(out@);
        lemma_results_view(prev);
        assert(results_view(out@) =~= results_view(prev).push(om));
    }
    out
}

/// Results of coercing each parse candidate against the target, in order.
fn cands_exec<E: ConstraintEvaluator>(
    ev: &E,
    reg: &Registry,
    scope: &Vec<String>,
    depth: u32,
    t: &FieldType,
    cands: &Vec<Value>,
    n: usize,
) -> (r: Vec<Result<Coerced, ParsingError>>)
    requires
        n <= cands@.len(),
    ensures
        r@.len() == n,
        results_view(r@) == cand_results(
            ev,
            reg,
            crate::error::scope_view(scope@),
            depth as nat,
            *t,
            cands@,
            n as int,
        ),
    decreases depth, type_size(*t), seq_value_size(cands@), n,
{
    if n == 0 {
        let out: Vec<Result<Coerced, ParsingError>> = Vec::new();
        proof {
            assert(results_view(out@) =~= Seq::<Result<CoercedV, ErrV>>::empty());
        }
        return out;
    }
    proof {
        lemma_seq_value_size_elem(cands@, n - 1);
    }
    let mut out = cands_exec(ev, reg, scope, depth, t, cands, n - 1);
    let ghost prev = out@;
    let one = coerce_impl(ev, reg, scope, depth, t, Some(&cands[n - 1]));
    let ghost om = match one {
        Result::Ok(ref c) => Result::<CoercedV, ErrV>::Ok(c.model()),
        Result::Err(ref e) => Result::<CoercedV, ErrV>::Err(e.model()),
    };
    out.push(one);
    proof {
        lemma_results_view(out@);
        lemma_results_view(prev);
        assert(results_view(out@) =~= results_view(prev).push(om));
    }
    out
}

/// Results of coercing each list element, in order, under indexed scopes.
fn items_exec<E: ConstraintEvaluator>(
    ev: &E,
    reg: &Registry,
    scope: &Vec<String>,
    depth: u32,
    inner: &FieldType,
    items: &Vec<Value>,
    n: usize,
) -> (r: Vec<Result<Coerced, ParsingError>>)
    requires
        n <= items@.len(),
    ensures
        r@.len() == n,
        results_view(r@) == item_results(
            ev,
            reg,
            crate::error::scope_view(scope@),
            depth as nat,
            *inner,
            items@,
            n as int,
        ),
    decreases depth, type_size(*inner), seq_value_size(items@), n,
{
    if n == 0 {
        let out: Vec<Result<Coerced, ParsingError>> = Vec::new();
        proof {
            assert(results_view(out@) =~= Seq::<Result<CoercedV, ErrV>>::empty());
        }
        return out;
    }
    proof {
        lemma_seq_value_size_elem(items@, n - 1);
    }
    let mut out = items_exec(ev, reg, scope, depth, inner, items, n - 1);
    let ghost prev = out@;
    let sc = child_scope(scope, mk_index_component(n - 1));
    let one = coerce_impl(ev, reg, &sc, depth, inner, Some(&items[n - 1]));
    let ghost om = match one {
        Result::Ok(ref c) => Result::<CoercedV, ErrV>::Ok(c.model()),
        Result::Err(ref e) => Result::<CoercedV, ErrV>::Err(e.model()),
    };
    out.push(one);
    proof {
        lemma_results_view(out@);
        lemma_results_view(prev);
        assert(results_view(out@) =~= results_view(prev).push(om));
    }
    out
}

/// Results of coercing each tuple position, element-wise.
fn tuple_exec<E: ConstraintEvaluator>(
    ev: &E,
    reg: &Registry,
    scope: &Vec<String>,
    depth: u32,
    ts: &Vec<FieldType>,
    items: &Vec<Value>,
    n: usize,
) -> (r: Vec<Result<Coerced, ParsingError>>)
    requires
        n <= items@.len(),
        n <= ts@.len(),
    ensures
        r@.len() == n,
        results_view(r@) == tuple_results(
            ev,
            reg,
            crate::error::scope_view(scope@),
            depth as nat,
            ts@,
            items@,
            n as int,
        ),
    decreases depth, types_size(ts@), seq_value_size(items@), n,
{
    if n == 0 {
        let out: Vec<Result<Coerced, ParsingError>> = Vec::new();
        proof {
            assert(results_view(out@) =~= Seq::<Result<CoercedV, ErrV>>::empty());
        }
        return out;
    }
    proof {
        lemma_seq_value_size_elem(items@, n - 1);
        lemma_types_size_elem(ts@, n - 1);
    }
    let mut out = tuple_exec(ev, reg, scope, depth, ts, items, n - 1);
    let ghost prev = out@;
    let sc = child_scope(scope, mk_index_component(n - 1));
    let one = coerce_impl(ev, reg, &sc, depth, &ts[n - 1], Some(&items[n - 1]));
    let ghost om = match one {
        Result::Ok(ref c) => Result::<CoercedV, ErrV>::Ok(c.model()),
        Result::Err(ref e) => Result::<CoercedV, ErrV>::Err(e.model()),
    };
    out.push(one);
    proof {
        lemma_results_view(out@);
        lemma_results_view(prev);
        assert(results_view(out@) =~= results_view(prev).push(om));
    }
    out
}

/// Results of coercing each declared class field, in order.
fn fields_exec<E: ConstraintEvaluator>(
    ev: &E,
    reg: &Registry,
    scope: &Vec<String>,
    depth: u32,
    fields: &Vec<FieldDef>,
    pairs: &Vec<(String, Value)>,
    n: usize,
) -> (r: Vec<Result<Coerced, ParsingError>>)
    requires
        n <= fields@.len(),
    ensures
        r@.len() == n,
        results_view(r@) == field_results(
            ev,
            reg,
            crate::error::scope_view(scope@),
            depth as nat,
            fields@,
            pairs@,
            n as int,
        ),
    decreases depth, fields_types_size(fields@), pairs_value_size(pairs@), n,
{
    if n == 0 {
        let out: Vec<Result<Coerced, ParsingError>> = Vec::new();
        proof {
            assert(results_view(out@) =~= Seq::<Result<CoercedV, ErrV>>::empty());
        }
        return out;
    }
    proof {
        lemma_fields_size_elem(fields@, n - 1);
    }
    let mut out = fields_exec(ev, reg, scope, depth, fields, pairs, n - 1);
    let ghost prev = out@;
    let fdef = &fields[n - 1];
    let fscope = child_scope(scope, fdef.name.clone());
    let li = locate_exec(pairs, &fdef.name, &fdef.alias);
    proof {
        assert(opt_string_view(&fields@[n - 1].alias) == alias_view(fields@[n - 1].alias));
    }
    let one: Result<Coerced, ParsingError> = match li {
        Some(ki) => {
            proof {
                lemma_pairs_value_size_elem(pairs@, ki as int);
            }
            match coerce_impl(ev, reg, &fscope, depth, &fdef.target, Some(&pairs[ki].1)) {
                Ok(c) => Ok(c),
                Err(e) => {
                    let mut causes: Vec<ParsingError> = Vec::new();
                    let ghost em = e.model();
                    causes.push(e);
                    proof {
                        crate::error::lemma_model_errors(causes@);
                        assert(crate::error::model_errors(causes@) =~= seq![em]);
                    }
                    Err(
                        ParsingError {
                            scope: crate::textutil::clone_string_vec(scope),
                            reason: crate::error::ErrorReason::MissingRequiredField(
                                fdef.name.clone(),
                                causes,
                            ),
                        },
                    )
                },
            }
        },
        None => {
            let opt = match &fdef.target {
                FieldType::Optional(_) => true,
                FieldType::Primitive(TypeKind::NullKind) => true,
                _ => false,
            };
            if opt {
                coerce_impl(ev, reg, &fscope, depth, &fdef.target, None)
            } else {
                let causes: Vec<ParsingError> = Vec::new();
                proof {
                    assert(crate::error::model_errors(causes@) =~= Seq::<ErrV>::empty());
                }
                Err(
                    ParsingError {
                        scope: crate::textutil::clone_string_vec(scope),
                        reason: crate::error::ErrorReason::MissingRequiredField(
                            fdef.name.clone(),
                            causes,
                        ),
                    },
                )
            }
        },
    };
    let ghost om = match one {
        Result::Ok(ref c) => Result::<CoercedV, ErrV>::Ok(c.model()),
        Result::Err(ref e) => Result::<CoercedV, ErrV>::Err(e.model()),
    };
    out.push(one);
    proof {
        lemma_results_view(out@);
        lemma_results_view(prev);
        assert(results_view(out@) =~= results_view(prev).push(om));
    }
    out
}

/// The result of coercing a map key against the key type.
fn key_exec<E: ConstraintEvaluator>(
    ev: &E,
    reg: &Registry,
    scope: &Vec<String>,
    kt: &FieldType,
    key: &String,
) -> (r: Result<String, ParsingError>)
    ensures
        match (r, key_spec(ev, reg, crate::error::scope_view(scope@), *kt, *key)) {
            (Result::Ok(s), Result::Ok(sv)) => s@ == sv,
            (Result::Err(e), Result::Err(e2)) => e.model() == e2,
            _ => false,
        },
{
    match kt {
        FieldType::Primitive(TypeKind::StringKind) => Ok(key.clone()),
        FieldType::Enum(name) => {
            let keyval = Value::Str(key.clone(), CompletionState::Complete);
            proof {
                assert(keyval == Value::Str(*key, CompletionState::Complete));
            }
            match crate::coerce_prim::coerce_enum(ev, reg, scope, name, &keyval) {
                Ok(c) => match c.kind {
                    crate::coerced::BamlKind::Enum(_, vn) => Ok(vn),
                    _ => Ok(key.clone()),
                },
                Err(e) => Err(e),
            }
        },
        FieldType::Literal(LiteralValue::LitStr(s)) => {
            let mut strings: Vec<String> = Vec::new();
            strings.push(s.clone());
            let mut cands: Vec<(String, Vec<String>)> = Vec::new();
            cands.push((s.clone(), strings));
            proof {
                assert(crate::matcher::strings_view(cands@[0].1@) =~= seq![s@]);
                assert(crate::matcher::cands_view(cands@) =~~= seq![(s@, seq![s@])]);
            }
            match crate::matcher::match_string(&cands, key) {
                Some(_) => Ok(s.clone()),
                None => Err(crate::coerce_prim::mk_mismatch(scope, "key literal mismatch")),
            }
        },
        _ => Err(crate::coerce_prim::mk_mismatch(scope, "unsupported map key type")),
    }
}

/// Results of coercing each map entry, in order.
fn entries_exec<E: ConstraintEvaluator>(
    ev: &E,
    reg: &Registry,
    scope: &Vec<String>,
    depth: u32,
    t: &FieldType,
    pairs: &Vec<(String, Value)>,
    n: usize,
) -> (r: Vec<Result<(String, Coerced), ParsingError>>)
    requires
        n <= pairs@.len(),
        *t is Dict,
    ensures
        r@.len() == n,
        entries_view(r@) == entry_results(
            ev,
            reg,
            crate::error::scope_view(scope@),
            depth as nat,
            *t,
            pairs@,
            n as int,
        ),
    decreases depth, type_size(*t), pairs_value_size(pairs@), n,
{
    if n == 0 {
        let out: Vec<Result<(String, Coerced), ParsingError>> = Vec::new();
        proof {
            assert(entries_view(out@) =~= Seq::<Result<(Seq<char>, CoercedV), ErrV>>::empty());
        }
        return out;
    }
    let mut out = entries_exec(ev, reg, scope, depth, t, pairs, n - 1);
    let ghost prev = out@;
    let one: Result<(String, Coerced), ParsingError> = match t {
        FieldType::Dict(kt, vt) => {
            match key_exec(ev, reg, scope, kt, &pairs[n - 1].0) {
                Ok(kname) => {
                    proof {
                        lemma_pairs_value_size_elem(pairs@, n - 1);
                    }
                    let sc = child_scope(scope, pairs[n - 1].0.clone());
                    match coerce_impl(ev, reg, &sc, depth, vt, Some(&pairs[n - 1].1)) {
                        Ok(c) => Ok((kname, c)),
                        Err(e) => Err(e),
                    }
                },
                Err(e) => Err(e),
            }
        },
        _ => {
            proof {
                assert(false);
            }
            Err(crate::coerce_prim::mk_mismatch(scope, "unsupported map key type"))
        },
    };
    let ghost om = match one {
        Result::Ok(ref p) => Result::<(Seq<char>, CoercedV), ErrV>::Ok((p.0@, p.1.model())),
        Result::Err(ref e) => Result::<(Seq<char>, CoercedV), ErrV>::Err(e.model()),
    };
    out.push(one);
    proof {
        lemma_entries_view(out@);
        lemma_entries_view(prev);
        assert(entries_view(out@) =~= entries_view(prev).push(om));
    }
    out
}

} // verus!
