//! General properties of the engine, stated and proved against the same
//! specifications that the executable functions are verified to compute.

use vstd::prelude::*;
use crate::coerced::BamlKindV;
use crate::coerced::CoercedV;
use crate::coercer::alias_view;
use crate::coercer::best_of;
use crate::coercer::extra_flags;
use crate::coercer::field_results;
use crate::coercer::fields_types_size;
use crate::coercer::first_key;
use crate::coercer::key_used;
use crate::coercer::locate;
use crate::coercer::ovsize;
use crate::coercer::type_size;
use crate::coercer::types_size;
use crate::coercer::coerce_spec;
use crate::coercer::errs_of;
use crate::coercer::member_results;
use crate::coercer::outranks;
use crate::constraints::ConstraintEvaluator;
use crate::constraints::apply_constraints_spec;
use crate::error::ErrV;
use crate::error::ReasonV;
use crate::flags::FlagV;
use crate::matcher::match_string_spec;
use crate::matcher::t1;
use crate::matcher::t1_at;
use crate::matcher::t2;
use crate::matcher::t2_at;
use crate::matcher::unique1;
use crate::matcher::unique2;
use crate::schema::Constraint;
use crate::schema::FieldDef;
use crate::schema::ConstraintLevel;
use crate::schema::FieldType;
use crate::schema::TypeKind;
use crate::schema::find_class_spec;
use crate::schema::Registry;
use crate::textutil::fold_seq;
use crate::textutil::trim_seq;
use crate::value::Value;

verus! {

/// Check constraints are never fatal: when a constraint list holds no
/// asserts, applying it always succeeds, the value's payload and completion
/// are untouched, and exactly one flag per check is appended, in
/// declaration order, each recording the check's label.
pub proof fn law_checks_are_soft<E: ConstraintEvaluator>(
    ev: &E,
    scope: Seq<Seq<char>>,
    value: CoercedV,
    cs: Seq<Constraint>,
)
    requires
        forall|i: int| 0 <= i < cs.len() ==> (#[trigger] cs[i].level) is Check,
    ensures
        apply_constraints_spec(ev, scope, value, cs) matches Result::Ok(c) && {
            &&& c.kind == value.kind
            &&& c.completion == value.completion
            &&& c.flags.len() == value.flags.len() + cs.len()
            &&& forall|i: int|
                0 <= i < value.flags.len() ==> #[trigger] c.flags[i] == value.flags[i]
            &&& forall|i: int|
                0 <= i < cs.len() ==> ((#[trigger] c.flags[value.flags.len() + i]) matches
                    FlagV::CheckResult(label, _) && label == cs[i].label@)
        },
    decreases cs.len(),
{
    if cs.len() > 0 {
        assert(cs[0].level is Check);
        let verdict = ev.verdict(cs[0].expression@, value);
        let flagged = value.with_flags(seq![FlagV::CheckResult(cs[0].label@, verdict)]);
        assert(forall|i: int|
            0 <= i < cs.drop_first().len() ==> (#[trigger] cs.drop_first()[i].level) is Check);
        law_checks_are_soft(ev, scope, flagged, cs.drop_first());
        let c = apply_constraints_spec(ev, scope, value, cs)->Ok_0;
        assert(flagged.flags[value.flags.len() as int] == FlagV::CheckResult(
            cs[0].label@,
            verdict,
        ));
        assert forall|i: int| 0 <= i < cs.len() implies ((#[trigger] c.flags[value.flags.len()
            + i]) matches FlagV::CheckResult(label, _) && label == cs[i].label@) by {
            if i == 0 {
                assert(c.flags[value.flags.len() as int] == flagged.flags[
                    value.flags.len() as int
                ]);
            } else {
                assert(cs.drop_first()[i - 1] == cs[i as int]);
                assert(c.flags[flagged.flags.len() + (i - 1)] matches FlagV::CheckResult(
                    label,
                    _,
                ) && label == cs.drop_first()[i - 1].label@);
            }
        }
    }
}

/// Assert constraints are fatal: whenever applying constraints fails, the
/// failure is an `AssertFailed` at the caller's scope carrying the text of
/// one of the declared assert expressions.
pub proof fn law_assert_failure_is_fatal<E: ConstraintEvaluator>(
    ev: &E,
    scope: Seq<Seq<char>>,
    value: CoercedV,
    cs: Seq<Constraint>,
)
    ensures
        apply_constraints_spec(ev, scope, value, cs) matches Result::Err(e) ==> {
            &&& e.scope == scope
            &&& e.reason is AssertFailed
            &&& exists|i: int|
                0 <= i < cs.len() && (#[trigger] cs[i].level) is Assert && e.reason->AssertFailed_0
                    == cs[i].expression@
        },
    decreases cs.len(),
{
    if cs.len() > 0 {
        match cs[0].level {
            ConstraintLevel::Check => {
                let verdict = ev.verdict(cs[0].expression@, value);
                let flagged = value.with_flags(seq![FlagV::CheckResult(cs[0].label@, verdict)]);
                law_assert_failure_is_fatal(ev, scope, flagged, cs.drop_first());
                match apply_constraints_spec(ev, scope, value, cs) {
                    Result::Err(e) => {
                        let i = choose|i: int|
                            0 <= i < cs.drop_first().len() && (#[trigger] cs.drop_first()[i].level)
                                is Assert && e.reason->AssertFailed_0 == cs.drop_first()[
                                i
                            ].expression@;
                        assert(cs.drop_first()[i] == cs[i + 1]);
                        assert(cs[i + 1].level is Assert && e.reason->AssertFailed_0 == cs[i
                            + 1].expression@);
                    },
                    Result::Ok(_) => {},
                }
            },
            ConstraintLevel::Assert => {
                if ev.verdict(cs[0].expression@, value) {
                    law_assert_failure_is_fatal(ev, scope, value, cs.drop_first());
                    match apply_constraints_spec(ev, scope, value, cs) {
                        Result::Err(e) => {
                            let i = choose|i: int|
                                0 <= i < cs.drop_first().len() && (#[trigger] cs.drop_first()[
                                    i
                                ].level) is Assert && e.reason->AssertFailed_0
                                    == cs.drop_first()[i].expression@;
                            assert(cs.drop_first()[i] == cs[i + 1]);
                            assert(cs[i + 1].level is Assert && e.reason->AssertFailed_0 == cs[i
                                + 1].expression@);
                        },
                        Result::Ok(_) => {},
                    }
                } else {
                    assert(cs[0].level is Assert);
                }
            },
        }
    }
}

/// The recursion-depth ceiling is enforced, not overrun: with no depth
/// budget left, a named class or alias target fails with
/// `RecursionLimitExceeded` instead of resolving further.
pub proof fn law_recursion_ceiling<E: ConstraintEvaluator>(
    ev: &E,
    reg: &Registry,
    scope: Seq<Seq<char>>,
    t: FieldType,
    val: Value,
)
    requires
        t is Alias || t is Class,
        !(val is AnyOf),
        !(val is Fenced),
    ensures
        coerce_spec(ev, reg, scope, 0, t, Option::Some(val)) == Result::<CoercedV, ErrV>::Err(
            ErrV { scope, reason: ReasonV::RecursionLimitExceeded },
        ),
{
}

/// Union scoring is sound and deterministic: the selected result is a
/// success that no other successful member outranks (strictly fewer
/// best-effort conversions, then strictly fewer defaults), and the
/// earliest-declared member wins among equally ranked ones; nothing is
/// selected exactly when every member failed.
pub proof fn law_union_best(rs: Seq<Result<CoercedV, ErrV>>, n: int)
    requires
        0 <= n <= rs.len(),
    ensures
        match best_of(rs, n) {
            Option::Some(i) => {
                &&& 0 <= i < n
                &&& rs[i] is Ok
                &&& forall|j: int|
                    0 <= j < n && (#[trigger] rs[j]) is Ok ==> !outranks(rs[j]->Ok_0, rs[i]->Ok_0)
                &&& forall|j: int|
                    0 <= j < i && (#[trigger] rs[j]) is Ok ==> outranks(rs[i]->Ok_0, rs[j]->Ok_0)
            },
            Option::None => forall|j: int| 0 <= j < n ==> !((#[trigger] rs[j]) is Ok),
        },
    decreases n,
{
    if n > 0 {
        law_union_best(rs, n - 1);
    }
}

/// The union rule applies that scoring: a successful union coercion returns
/// the winning member's value, marked as picked among the members, and a
/// failed one retains every member's cause, in declaration order.
pub proof fn law_union_selection<E: ConstraintEvaluator>(
    ev: &E,
    reg: &Registry,
    scope: Seq<Seq<char>>,
    depth: nat,
    ts: Vec<FieldType>,
    v: Option<Value>,
)
    ensures
        ({
            let rs = member_results(ev, reg, scope, depth, ts@, v, ts@.len() as int);
            match coerce_spec(ev, reg, scope, depth, FieldType::Union(ts), v) {
                Result::Ok(c) => exists|i: int|
                    {
                        &&& 0 <= i < ts@.len()
                        &&& (#[trigger] rs[i]) is Ok
                        &&& c == (rs[i]->Ok_0).with_flags(
                            seq![FlagV::UnionPick(ts@.len() as int)],
                        )
                        &&& forall|j: int|
                            0 <= j < ts@.len() && (#[trigger] rs[j]) is Ok ==> !outranks(
                                rs[j]->Ok_0,
                                rs[i]->Ok_0,
                            )
                    },
                Result::Err(e) => {
                    &&& (forall|j: int| 0 <= j < ts@.len() ==> !((#[trigger] rs[j]) is Ok))
                    &&& e == ErrV {
                        scope,
                        reason: ReasonV::NoCandidateMatched(errs_of(rs, ts@.len() as int)),
                    }
                },
            }
        }),
{
    let rs = member_results(ev, reg, scope, depth, ts@, v, ts@.len() as int);
    lemma_member_results_len(ev, reg, scope, depth, ts@, v, ts@.len() as int);
    law_union_best(rs, ts@.len() as int);
}

proof fn lemma_member_results_len<E: ConstraintEvaluator>(
    ev: &E,
    reg: &Registry,
    scope: Seq<Seq<char>>,
    depth: nat,
    ts: Seq<FieldType>,
    v: Option<Value>,
    n: int,
)
    requires
        n <= ts.len(),
    ensures
        member_results(ev, reg, scope, depth, ts, v, n).len() == if n >= 0 {
            n
        } else {
            0
        },
    decreases n,
{
    if n > 0 {
        lemma_member_results_len(ev, reg, scope, depth, ts, v, n - 1);
    }
}

/// Matching is alias-aware and ASCII-case-insensitive: when the trimmed
/// input equals exactly one candidate's strings up to case folding, that
/// candidate is resolved, whatever its case.
pub proof fn law_match_case_insensitive(
    cands: Seq<(Seq<char>, Seq<Seq<char>>)>,
    raw: Seq<char>,
    i: int,
)
    requires
        0 <= i < cands.len(),
        t2(cands, trim_seq(raw), i),
        forall|k: int|
            0 <= k < cands.len() && k != i ==> !(#[trigger] t2(cands, trim_seq(raw), k)),
    ensures
        match_string_spec(cands, raw) matches Option::Some(m) && m.0 == i,
{
    let inp = trim_seq(raw);
    assert forall|k: int| 0 <= k < cands.len() && #[trigger] t1(cands, inp, k) implies k == i by {
        let j = choose|j: int| t1_at(cands, inp, k, j);
        assert(t2_at(cands, inp, k, j));
        assert(t2(cands, inp, k));
    }
    if crate::matcher::any1(cands, inp) {
        let w = choose|k: int| 0 <= k < cands.len() && t1(cands, inp, k);
        assert(w == i && t1(cands, inp, i));
        assert(unique1(cands, inp, i));
        let c = choose|k: int| unique1(cands, inp, k);
        assert(unique1(cands, inp, c));
        assert(t1(cands, inp, i));
        assert(c == i);
    } else {
        assert(crate::matcher::any2(cands, inp));
        assert(unique2(cands, inp, i));
        let c = choose|k: int| unique2(cands, inp, k);
        assert(unique2(cands, inp, c));
        assert(t2(cands, inp, i));
        assert(c == i);
    }
}

/// Whether an object key could serve a declared field: equal to its name or
/// alias, exactly or after ASCII case folding.
pub open spec fn key_serves(k: Seq<char>, fd: FieldDef) -> bool {
    ||| k == fd.name@
    ||| fold_seq(k) == fold_seq(fd.name@)
    ||| (fd.alias matches Option::Some(a) && (k == a@ || fold_seq(k) == fold_seq(a@)))
}

proof fn lemma_first_key_push(
    pairs: Seq<(String, Value)>,
    p: (String, Value),
    target: Seq<char>,
    folded: bool,
)
    ensures
        first_key(pairs.push(p), target, folded) == (match first_key(pairs, target, folded) {
            Option::Some(i) => Option::Some(i),
            Option::None => {
                if (if folded {
                    fold_seq(p.0@) == fold_seq(target)
                } else {
                    p.0@ == target
                }) {
                    Option::Some(pairs.len() as int)
                } else {
                    Option::None
                }
            },
        }),
    decreases pairs,
{
    if pairs.len() == 0 {
        assert(pairs.push(p)[0] == p);
        assert(pairs.push(p).drop_first() =~= pairs);
        assert(first_key(pairs, target, folded) is None);
        if (if folded {
            fold_seq(p.0@) == fold_seq(target)
        } else {
            p.0@ == target
        }) {
            assert(first_key(pairs.push(p), target, folded) == Option::Some(0int));
        } else {
            assert(first_key(pairs.push(p), target, folded) is None);
        }
    } else {
        assert(pairs.push(p)[0] == pairs[0]);
        assert(pairs.push(p).drop_first() =~= pairs.drop_first().push(p));
        lemma_first_key_push(pairs.drop_first(), p, target, folded);
        if !(if folded {
            fold_seq(pairs[0].0@) == fold_seq(target)
        } else {
            pairs[0].0@ == target
        }) {
            assert(first_key(pairs, target, folded) == (match first_key(
                pairs.drop_first(),
                target,
                folded,
            ) {
                Option::Some(i) => Option::Some(i + 1),
                Option::None => Option::<int>::None,
            }));
            assert(first_key(pairs.push(p), target, folded) == (match first_key(
                pairs.drop_first().push(p),
                target,
                folded,
            ) {
                Option::Some(i) => Option::Some(i + 1),
                Option::None => Option::<int>::None,
            }));
            match first_key(pairs.drop_first(), target, folded) {
                Option::Some(i) => {
                    assert(first_key(pairs, target, folded) == Option::Some(i + 1));
                    assert(first_key(pairs.drop_first().push(p), target, folded)
                        == Option::Some(i));
                    assert(first_key(pairs.push(p), target, folded) == Option::Some(i + 1));
                },
                Option::None => {
                    assert(first_key(pairs, target, folded) is None);
                    if (if folded {
                        fold_seq(p.0@) == fold_seq(target)
                    } else {
                        p.0@ == target
                    }) {
                        assert(first_key(pairs.drop_first().push(p), target, folded)
                            == Option::Some(pairs.drop_first().len() as int));
                        assert(first_key(pairs.push(p), target, folded) == Option::Some(
                            pairs.len() as int,
                        ));
                    } else {
                        assert(first_key(pairs.push(p), target, folded) is None);
                    }
                },
            }
        }
    }
}

proof fn lemma_locate_push(
    pairs: Seq<(String, Value)>,
    p: (String, Value),
    fd: FieldDef,
)
    requires
        !key_serves(p.0@, fd),
    ensures
        locate(pairs.push(p), fd.name@, alias_view(fd.alias)) == locate(
            pairs,
            fd.name@,
            alias_view(fd.alias),
        ),
{
    lemma_first_key_push(pairs, p, fd.name@, false);
    lemma_first_key_push(pairs, p, fd.name@, true);
    match fd.alias {
        Option::Some(a) => {
            lemma_first_key_push(pairs, p, a@, false);
            lemma_first_key_push(pairs, p, a@, true);
        },
        Option::None => {},
    }
}

proof fn lemma_locate_bound(pairs: Seq<(String, Value)>, name: Seq<char>, alias: Option<Seq<char>>)
    ensures
        locate(pairs, name, alias) matches Option::Some(i) ==> 0 <= i < pairs.len(),
{
    crate::coercer::lemma_first_key_ok(pairs, name, false);
    crate::coercer::lemma_first_key_ok(pairs, name, true);
    match alias {
        Option::Some(a) => {
            crate::coercer::lemma_first_key_ok(pairs, a, false);
            crate::coercer::lemma_first_key_ok(pairs, a, true);
        },
        Option::None => {},
    }
}

/// Extra object keys never fail class coercion: a key that serves no
/// declared field leaves every field's coercion result untouched, and the
/// class merely gains one informational extra-key flag for it.
pub proof fn law_extra_keys_ignored<E: ConstraintEvaluator>(
    ev: &E,
    reg: &Registry,
    scope: Seq<Seq<char>>,
    depth: nat,
    fields: Seq<FieldDef>,
    pairs: Seq<(String, Value)>,
    extra: (String, Value),
    n: int,
)
    requires
        forall|j: int| 0 <= j < fields.len() ==> !key_serves(extra.0@, #[trigger] fields[j]),
        n <= fields.len(),
    ensures
        field_results(ev, reg, scope, depth, fields, pairs.push(extra), n) == field_results(
            ev,
            reg,
            scope,
            depth,
            fields,
            pairs,
            n,
        ),
        extra_flags(pairs.push(extra), fields, pairs.len() as int + 1) == extra_flags(
            pairs,
            fields,
            pairs.len() as int,
        ).push(FlagV::ExtraKey(extra.0@)),
    decreases n,
{
    let pushed = pairs.push(extra);
    // every field locates the same key in both objects
    assert forall|j: int| 0 <= j < fields.len() implies #[trigger] locate(
        pushed,
        fields[j].name@,
        alias_view(fields[j].alias),
    ) == locate(pairs, fields[j].name@, alias_view(fields[j].alias)) by {
        lemma_locate_push(pairs, extra, fields[j]);
    }
    // hence per-field results agree
    if n > 0 {
        law_extra_keys_ignored(ev, reg, scope, depth, fields, pairs, extra, n - 1);
        let fdef = fields[n - 1];
        lemma_locate_bound(pairs, fdef.name@, alias_view(fdef.alias));
        match locate(pairs, fdef.name@, alias_view(fdef.alias)) {
            Option::Some(ki) => {
                assert(pushed[ki] == pairs[ki]);
            },
            Option::None => {},
        }
    }
    // and the key list gains exactly the one extra-key flag
    lemma_extra_flags_same(pairs, pushed, fields, pairs.len() as int);
    assert forall|j: int| 0 <= j < fields.len() implies !(#[trigger] locate(
        pushed,
        fields[j].name@,
        alias_view(fields[j].alias),
    ) == Option::Some(pairs.len() as int)) by {
        lemma_locate_push(pairs, extra, fields[j]);
        lemma_locate_bound(pairs, fields[j].name@, alias_view(fields[j].alias));
    }
    assert(!key_used(pushed, fields, pairs.len() as int));
    assert(extra_flags(pushed, fields, pairs.len() as int + 1) =~= extra_flags(
        pushed,
        fields,
        pairs.len() as int,
    ).push(FlagV::ExtraKey(extra.0@)));
}

/// Key-usage flags agree on a shared prefix of keys when every field
/// locates the same key in both objects.
proof fn lemma_extra_flags_same(
    pairs: Seq<(String, Value)>,
    pushed: Seq<(String, Value)>,
    fields: Seq<FieldDef>,
    n: int,
)
    requires
        n <= pairs.len(),
        n <= pushed.len(),
        forall|ki: int| 0 <= ki < n ==> #[trigger] pushed[ki] == pairs[ki],
        forall|j: int| 0 <= j < fields.len() ==> #[trigger] locate(
            pushed,
            fields[j].name@,
            alias_view(fields[j].alias),
        ) == locate(pairs, fields[j].name@, alias_view(fields[j].alias)),
    ensures
        extra_flags(pushed, fields, n) == extra_flags(pairs, fields, n),
    decreases n,
{
    if n > 0 {
        lemma_extra_flags_same(pairs, pushed, fields, n - 1);
        assert(key_used(pushed, fields, n - 1) == key_used(pairs, fields, n - 1)) by {
            if key_used(pushed, fields, n - 1) {
                let j = choose|j: int|
                    0 <= j < fields.len() && #[trigger] locate(
                        pushed,
                        fields[j].name@,
                        alias_view(fields[j].alias),
                    ) == Option::Some(n - 1);
                assert(locate(pairs, fields[j].name@, alias_view(fields[j].alias))
                    == Option::Some(n - 1));
            }
            if key_used(pairs, fields, n - 1) {
                let j = choose|j: int|
                    0 <= j < fields.len() && #[trigger] locate(
                        pairs,
                        fields[j].name@,
                        alias_view(fields[j].alias),
                    ) == Option::Some(n - 1);
                assert(locate(pushed, fields[j].name@, alias_view(fields[j].alias))
                    == Option::Some(n - 1));
            }
        }
    }
}

/// No flag anywhere in a coerced tree.
pub open spec fn flag_free(c: CoercedV) -> bool
    decreases c,
{
    c.flags.len() == 0 && kind_flag_free(c.kind)
}

pub open spec fn kind_flag_free(k: BamlKindV) -> bool
    decreases k,
{
    match k {
        BamlKindV::Class(_, fs) => pairs_flag_free(fs),
        BamlKindV::List(items) => items_flag_free(items),
        BamlKindV::Dict(es) => pairs_flag_free(es),
        _ => true,
    }
}

pub open spec fn pairs_flag_free(s: Seq<(Seq<char>, CoercedV)>) -> bool
    decreases s,
{
    if s.len() == 0 {
        true
    } else {
        flag_free(s[0].1) && pairs_flag_free(s.drop_first())
    }
}

pub open spec fn items_flag_free(s: Seq<CoercedV>) -> bool
    decreases s,
{
    if s.len() == 0 {
        true
    } else {
        flag_free(s[0]) && items_flag_free(s.drop_first())
    }
}

/// The coerced tree carries exactly the parsed value, node for node.
pub open spec fn corresponds(c: CoercedV, v: Value) -> bool
    decreases v.size(), 0nat,
{
    match v {
        Value::Null => c.kind == BamlKindV::Null,
        Value::Bool(b) => c.kind == BamlKindV::Bool(b),
        Value::Int(n) => c.kind == BamlKindV::Int(n as int),
        Value::Float(f) => c.kind == BamlKindV::Float(f@),
        Value::Str(s, _) => c.kind == BamlKindV::Str(s@),
        Value::Array(items, _) => {
            &&& c.kind is List
            &&& c.kind->List_0.len() == items@.len()
            &&& corresponds_items(c.kind->List_0, items@, items@.len() as int)
        },
        Value::Object(pairs, _) => {
            &&& c.kind is Class
            &&& c.kind->Class_1.len() == pairs@.len()
            &&& corresponds_fields(c.kind->Class_1, pairs@, pairs@.len() as int)
        },
        _ => false,
    }
}

pub open spec fn corresponds_items(cs: Seq<CoercedV>, items: Seq<Value>, n: int) -> bool
    decreases crate::value::seq_value_size(items), n,
{
    if n <= 0 || n > items.len() || n > cs.len() {
        true
    } else {
        proof {
            crate::value::lemma_seq_value_size_elem(items, n - 1);
        }
        corresponds_items(cs, items, n - 1) && corresponds(cs[n - 1], items[n - 1])
    }
}

pub open spec fn corresponds_fields(
    cs: Seq<(Seq<char>, CoercedV)>,
    pairs: Seq<(String, Value)>,
    n: int,
) -> bool
    decreases crate::value::pairs_value_size(pairs), n,
{
    if n <= 0 || n > pairs.len() || n > cs.len() {
        true
    } else {
        proof {
            crate::value::lemma_pairs_value_size_elem(pairs, n - 1);
        }
        corresponds_fields(cs, pairs, n - 1) && cs[n - 1].0 == pairs[n - 1].0@ && corresponds(
            cs[n - 1].1,
            pairs[n - 1].1,
        )
    }
}

/// The declared field names, pairwise distinct.
pub open spec fn distinct_names(fields: Seq<FieldDef>) -> bool {
    forall|j1: int, j2: int|
        0 <= j1 < j2 < fields.len() ==> #[trigger] fields[j1].name@ != #[trigger] fields[j2].name@
}

/// A value already matches the target's shape exactly: right primitive
/// kind, arrays against lists and tuples element by element, objects
/// against constraint-free classes field for field (same names, same
/// order), null or an exact inner value against optionals.
pub open spec fn exact_shape(reg: &Registry, depth: nat, t: FieldType, v: Value) -> bool
    decreases depth, type_size(t), ovsize(Option::Some(v)), 0nat,
{
    match t {
        FieldType::Primitive(TypeKind::NullKind) => v is Null,
        FieldType::Primitive(TypeKind::BoolKind) => v is Bool,
        FieldType::Primitive(TypeKind::IntKind) => v is Int,
        FieldType::Primitive(TypeKind::FloatKind) => v is Float,
        FieldType::Primitive(TypeKind::StringKind) => v is Str,
        FieldType::Optional(inner) => v is Null || (!(v is AnyOf) && !(v is Fenced)
            && exact_shape(reg, depth, *inner, v)),
        FieldType::List(inner) => v matches Value::Array(items, _) && exact_items(
            reg,
            depth,
            *inner,
            items@,
            items@.len() as int,
        ),
        FieldType::Tuple(ts) => v matches Value::Array(items, _) && items@.len() == ts@.len()
            && exact_tuple(reg, depth, ts@, items@, ts@.len() as int),
        FieldType::Class(name) => {
            &&& depth > 0
            &&& match find_class_spec(reg.classes@, name@) {
                Option::Some(ci) => {
                    let cdef = reg.classes@[ci];
                    &&& cdef.constraints@.len() == 0
                    &&& distinct_names(cdef.fields@)
                    &&& v matches Value::Object(pairs, _) && pairs@.len() == cdef.fields@.len()
                        && (forall|j: int|
                        0 <= j < pairs@.len() ==> (#[trigger] pairs@[j].0@)
                            == cdef.fields@[j].name@) && exact_fields(
                        reg,
                        (depth - 1) as nat,
                        cdef.fields@,
                        pairs@,
                        cdef.fields@.len() as int,
                    )
                },
                Option::None => false,
            }
        },
        _ => false,
    }
}

pub open spec fn exact_items(
    reg: &Registry,
    depth: nat,
    inner: FieldType,
    items: Seq<Value>,
    n: int,
) -> bool
    decreases depth, type_size(inner), crate::value::seq_value_size(items), n,
{
    if n <= 0 || n > items.len() {
        true
    } else {
        proof {
            crate::value::lemma_seq_value_size_elem(items, n - 1);
        }
        exact_items(reg, depth, inner, items, n - 1) && !(items[n - 1] is AnyOf) && !(items[n
            - 1] is Fenced) && exact_shape(reg, depth, inner, items[n - 1])
    }
}

pub open spec fn exact_tuple(
    reg: &Registry,
    depth: nat,
    ts: Seq<FieldType>,
    items: Seq<Value>,
    n: int,
) -> bool
    decreases depth, types_size(ts), crate::value::seq_value_size(items), n,
{
    if n <= 0 || n > items.len() || n > ts.len() {
        true
    } else {
        proof {
            crate::value::lemma_seq_value_size_elem(items, n - 1);
            crate::coercer::lemma_types_size_elem(ts, n - 1);
        }
        exact_tuple(reg, depth, ts, items, n - 1) && !(items[n - 1] is AnyOf) && !(items[n
            - 1] is Fenced) && exact_shape(reg, depth, ts[n - 1], items[n - 1])
    }
}

pub open spec fn exact_fields(
    reg: &Registry,
    depth: nat,
    fields: Seq<FieldDef>,
    pairs: Seq<(String, Value)>,
    n: int,
) -> bool
    decreases depth, fields_types_size(fields), crate::value::pairs_value_size(pairs), n,
{
    if n <= 0 || n > pairs.len() || n > fields.len() {
        true
    } else {
        proof {
            crate::value::lemma_pairs_value_size_elem(pairs, n - 1);
            crate::coercer::lemma_fields_size_elem(fields, n - 1);
        }
        exact_fields(reg, depth, fields, pairs, n - 1) && !(pairs[n - 1].1 is AnyOf) && !(pairs[n
            - 1].1 is Fenced) && exact_shape(reg, depth, fields[n - 1].target, pairs[n - 1].1)
    }
}

proof fn lemma_first_err_none(rs: Seq<Result<CoercedV, ErrV>>, n: int)
    requires
        forall|k: int| 0 <= k < n ==> (#[trigger] rs[k]) is Ok,
    ensures
        crate::coercer::first_err(rs, n) is None,
    decreases n,
{
    if n > 0 {
        lemma_first_err_none(rs, n - 1);
    }
}

proof fn lemma_oks_collect(rs: Seq<Result<CoercedV, ErrV>>, n: int)
    requires
        forall|k: int| 0 <= k < n ==> (#[trigger] rs[k]) is Ok,
    ensures
        crate::coercer::oks_of(rs, n).len() == (if n >= 0 {
            n
        } else {
            0
        }),
        forall|k: int|
            0 <= k < n ==> #[trigger] crate::coercer::oks_of(rs, n)[k] == rs[k]->Ok_0,
    decreases n,
{
    if n > 0 {
        lemma_oks_collect(rs, n - 1);
    }
}

proof fn lemma_ok_fields_collect(fields: Seq<FieldDef>, rs: Seq<Result<CoercedV, ErrV>>, n: int)
    requires
        forall|k: int| 0 <= k < n ==> (#[trigger] rs[k]) is Ok,
    ensures
        crate::coercer::ok_fields(fields, rs, n).len() == (if n >= 0 {
            n
        } else {
            0
        }),
        forall|k: int|
            0 <= k < n ==> #[trigger] crate::coercer::ok_fields(fields, rs, n)[k] == (
            fields[k].name@,
            rs[k]->Ok_0,
            ),
    decreases n,
{
    if n > 0 {
        lemma_ok_fields_collect(fields, rs, n - 1);
    }
}

proof fn lemma_items_flag_free_all(cs: Seq<CoercedV>)
    requires
        forall|k: int| 0 <= k < cs.len() ==> flag_free(#[trigger] cs[k]),
    ensures
        items_flag_free(cs),
    decreases cs,
{
    if cs.len() > 0 {
        assert(forall|k: int| 0 <= k < cs.drop_first().len() ==> cs.drop_first()[k] == cs[k + 1]);
        lemma_items_flag_free_all(cs.drop_first());
    }
}

proof fn lemma_pairs_flag_free_all(cs: Seq<(Seq<char>, CoercedV)>)
    requires
        forall|k: int| 0 <= k < cs.len() ==> flag_free(#[trigger] cs[k].1),
    ensures
        pairs_flag_free(cs),
    decreases cs,
{
    if cs.len() > 0 {
        assert(forall|k: int| 0 <= k < cs.drop_first().len() ==> cs.drop_first()[k] == cs[k + 1]);
        lemma_pairs_flag_free_all(cs.drop_first());
    }
}

proof fn lemma_corresponds_items_all(cs: Seq<CoercedV>, items: Seq<Value>, n: int)
    requires
        n <= items.len(),
        n <= cs.len(),
        forall|k: int| 0 <= k < n ==> corresponds(#[trigger] cs[k], items[k]),
    ensures
        corresponds_items(cs, items, n),
    decreases n,
{
    if n > 0 {
        lemma_corresponds_items_all(cs, items, n - 1);
    }
}

proof fn lemma_corresponds_fields_all(
    cs: Seq<(Seq<char>, CoercedV)>,
    pairs: Seq<(String, Value)>,
    n: int,
)
    requires
        n <= pairs.len(),
        n <= cs.len(),
        forall|k: int|
            0 <= k < n ==> (#[trigger] cs[k]).0 == pairs[k].0@ && corresponds(
                cs[k].1,
                pairs[k].1,
            ),
    ensures
        corresponds_fields(cs, pairs, n),
    decreases n,
{
    if n > 0 {
        lemma_corresponds_fields_all(cs, pairs, n - 1);
    }
}

proof fn lemma_extra_flags_all_used(pairs: Seq<(String, Value)>, fields: Seq<FieldDef>, n: int)
    requires
        n <= pairs.len(),
        forall|ki: int| 0 <= ki < n ==> key_used(pairs, fields, ki),
    ensures
        extra_flags(pairs, fields, n) =~= Seq::<FlagV>::empty(),
    decreases n,
{
    if n > 0 {
        lemma_extra_flags_all_used(pairs, fields, n - 1);
    }
}

/// Values that already match the target's shape round-trip exactly: the
/// coercion succeeds, carries the same data node for node, and attaches no
/// flag anywhere.
pub proof fn law_exact_roundtrip<E: ConstraintEvaluator>(
    ev: &E,
    reg: &Registry,
    scope: Seq<Seq<char>>,
    depth: nat,
    t: FieldType,
    v: Value,
)
    requires
        exact_shape(reg, depth, t, v),
        !(v is AnyOf),
        !(v is Fenced),
    ensures
        coerce_spec(ev, reg, scope, depth, t, Option::Some(v)) matches Result::Ok(c)
            && flag_free(c) && corresponds(c, v),
    decreases depth, type_size(t), ovsize(Option::Some(v)), 0nat,
{
    match t {
        FieldType::Primitive(_) => {
        },
        FieldType::Optional(inner) => {
            if !(v is Null) {
                law_exact_roundtrip(ev, reg, scope, depth, *inner, v);
            }
        },
        FieldType::List(inner) => {
            match v {
                Value::Array(items, comp) => {
                    let n = items@.len() as int;
                    lemma_exact_item_results(ev, reg, scope, depth, *inner, items@, n);
                    let rs = crate::coercer::item_results(
                        ev,
                        reg,
                        scope,
                        depth,
                        *inner,
                        items@,
                        n,
                    );
                    lemma_first_err_none(rs, n);
                    lemma_oks_collect(rs, n);
                    let oks = crate::coercer::oks_of(rs, n);
                    assert(forall|k: int| 0 <= k < n ==> flag_free(#[trigger] oks[k]));
                    lemma_items_flag_free_all(oks);
                    assert(forall|k: int|
                        0 <= k < n ==> corresponds(#[trigger] oks[k], items@[k]));
                    lemma_corresponds_items_all(oks, items@, n);
                },
                _ => {},
            }
        },
        FieldType::Tuple(ts) => {
            match v {
                Value::Array(items, comp) => {
                    let n = ts@.len() as int;
                    lemma_exact_tuple_results(ev, reg, scope, depth, ts@, items@, n);
                    let rs = crate::coercer::tuple_results(ev, reg, scope, depth, ts@, items@, n);
                    lemma_first_err_none(rs, n);
                    lemma_oks_collect(rs, n);
                    let oks = crate::coercer::oks_of(rs, n);
                    assert(forall|k: int| 0 <= k < n ==> flag_free(#[trigger] oks[k]));
                    lemma_items_flag_free_all(oks);
                    assert(forall|k: int|
                        0 <= k < n ==> corresponds(#[trigger] oks[k], items@[k]));
                    lemma_corresponds_items_all(oks, items@, n);
                },
                _ => {},
            }
        },
        FieldType::Class(name) => {
            let ci = find_class_spec(reg.classes@, name@)->Some_0;
            let cdef = reg.classes@[ci];
            match v {
                Value::Object(pairs, comp) => {
                    let n = cdef.fields@.len() as int;
                    lemma_exact_field_results(
                        ev,
                        reg,
                        scope,
                        (depth - 1) as nat,
                        cdef.fields@,
                        pairs@,
                        n,
                    );
                    let rs = crate::coercer::field_results(
                        ev,
                        reg,
                        scope,
                        (depth - 1) as nat,
                        cdef.fields@,
                        pairs@,
                        n,
                    );
                    lemma_first_err_none(rs, n);
                    lemma_ok_fields_collect(cdef.fields@, rs, n);
                    let named = crate::coercer::ok_fields(cdef.fields@, rs, n);
                    assert(forall|k: int| 0 <= k < n ==> flag_free(#[trigger] named[k].1));
                    lemma_pairs_flag_free_all(named);
                    assert(forall|k: int|
                        0 <= k < n ==> (#[trigger] named[k]).0 == pairs@[k].0@ && corresponds(
                            named[k].1,
                            pairs@[k].1,
                        ));
                    lemma_corresponds_fields_all(named, pairs@, n);
                    // every object key serves its own field, so no extra flags
                    assert forall|ki: int| 0 <= ki < pairs@.len() implies key_used(
                        pairs@,
                        cdef.fields@,
                        ki,
                    ) by {
                        lemma_exact_locate(cdef.fields@, pairs@, ki);
                    }
                    lemma_extra_flags_all_used(pairs@, cdef.fields@, pairs@.len() as int);
                    let base = crate::coerce_prim::node(
                        BamlKindV::Class(cdef.name@, named),
                        comp,
                        extra_flags(pairs@, cdef.fields@, pairs@.len() as int),
                    );
                    assert(apply_constraints_spec(ev, scope, base, cdef.constraints@)
                        == Result::<CoercedV, ErrV>::Ok(base));
                },
                _ => {},
            }
        },
        _ => {},
    }
}

/// With keys naming the fields in order and distinct names, each field is
/// located at its own position.
proof fn lemma_exact_locate(fields: Seq<FieldDef>, pairs: Seq<(String, Value)>, j: int)
    requires
        pairs.len() == fields.len(),
        0 <= j < pairs.len(),
        forall|k: int| 0 <= k < pairs.len() ==> (#[trigger] pairs[k].0@) == fields[k].name@,
        distinct_names(fields),
    ensures
        locate(pairs, fields[j].name@, alias_view(fields[j].alias)) == Option::Some(j),
{
    crate::coercer::lemma_first_key_prefix(pairs, fields[j].name@, false, j);
}

proof fn lemma_exact_item_results<E: ConstraintEvaluator>(
    ev: &E,
    reg: &Registry,
    scope: Seq<Seq<char>>,
    depth: nat,
    inner: FieldType,
    items: Seq<Value>,
    n: int,
)
    requires
        n <= items.len(),
        exact_items(reg, depth, inner, items, n),
    ensures
        crate::coercer::item_results(ev, reg, scope, depth, inner, items, n).len() == (if n >= 0 {
            n
        } else {
            0
        }),
        forall|k: int|
            0 <= k < n ==> {
                let rk = #[trigger] crate::coercer::item_results(
                    ev,
                    reg,
                    scope,
                    depth,
                    inner,
                    items,
                    n,
                )[k];
                rk is Ok && flag_free(rk->Ok_0) && corresponds(rk->Ok_0, items[k])
            },
    decreases depth, type_size(inner), crate::value::seq_value_size(items), n,
{
    if n > 0 {
        crate::value::lemma_seq_value_size_elem(items, n - 1);
        lemma_exact_item_results(ev, reg, scope, depth, inner, items, n - 1);
        law_exact_roundtrip(
            ev,
            reg,
            scope.push(crate::coercer::idx_component(n - 1)),
            depth,
            inner,
            items[n - 1],
        );
    }
}

proof fn lemma_exact_tuple_results<E: ConstraintEvaluator>(
    ev: &E,
    reg: &Registry,
    scope: Seq<Seq<char>>,
    depth: nat,
    ts: Seq<FieldType>,
    items: Seq<Value>,
    n: int,
)
    requires
        n <= items.len(),
        n <= ts.len(),
        exact_tuple(reg, depth, ts, items, n),
    ensures
        crate::coercer::tuple_results(ev, reg, scope, depth, ts, items, n).len() == (if n >= 0 {
            n
        } else {
            0
        }),
        forall|k: int|
            0 <= k < n ==> {
                let rk = #[trigger] crate::coercer::tuple_results(
                    ev,
                    reg,
                    scope,
                    depth,
                    ts,
                    items,
                    n,
                )[k];
                rk is Ok && flag_free(rk->Ok_0) && corresponds(rk->Ok_0, items[k])
            },
    decreases depth, types_size(ts), crate::value::seq_value_size(items), n,
{
    if n > 0 {
        crate::value::lemma_seq_value_size_elem(items, n - 1);
        crate::coercer::lemma_types_size_elem(ts, n - 1);
        lemma_exact_tuple_results(ev, reg, scope, depth, ts, items, n - 1);
        law_exact_roundtrip(
            ev,
            reg,
            scope.push(crate::coercer::idx_component(n - 1)),
            depth,
            ts[n - 1],
            items[n - 1],
        );
    }
}

proof fn lemma_exact_field_results<E: ConstraintEvaluator>(
    ev: &E,
    reg: &Registry,
    scope: Seq<Seq<char>>,
    depth: nat,
    fields: Seq<FieldDef>,
    pairs: Seq<(String, Value)>,
    n: int,
)
    requires
        pairs.len() == fields.len(),
        n <= fields.len(),
        forall|k: int| 0 <= k < pairs.len() ==> (#[trigger] pairs[k].0@) == fields[k].name@,
        distinct_names(fields),
        exact_fields(reg, depth, fields, pairs, n),
    ensures
        crate::coercer::field_results(ev, reg, scope, depth, fields, pairs, n).len() == (if n
            >= 0 {
            n
        } else {
            0
        }),
        forall|k: int|
            0 <= k < n ==> {
                let rk = #[trigger] crate::coercer::field_results(
                    ev,
                    reg,
                    scope,
                    depth,
                    fields,
                    pairs,
                    n,
                )[k];
                rk is Ok && flag_free(rk->Ok_0) && corresponds(rk->Ok_0, pairs[k].1)
            },
    decreases depth, fields_types_size(fields), crate::value::pairs_value_size(pairs), n,
{
    if n > 0 {
        crate::value::lemma_pairs_value_size_elem(pairs, n - 1);
        crate::coercer::lemma_fields_size_elem(fields, n - 1);
        lemma_exact_field_results(ev, reg, scope, depth, fields, pairs, n - 1);
        lemma_exact_locate(fields, pairs, n - 1);
        law_exact_roundtrip(
            ev,
            reg,
            scope.push(fields[n - 1].name@),
            depth,
            fields[n - 1].target,
            pairs[n - 1].1,
        );
    }
}

} // verus!
