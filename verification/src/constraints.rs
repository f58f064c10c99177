//! The constraint checker: wiring for `check` and `assert` constraints on a
//! candidate value.  Evaluation of the expression text itself is delegated
//! to a `ConstraintEvaluator` supplied by the caller; this module owns only
//! the pass/fail wiring, the order in which flags are attached, and the rule
//! that the first failing assert aborts the coercion.

use vstd::prelude::*;
use crate::coerced::Coerced;
use crate::coerced::CoercedV;
use crate::error::ErrV;
use crate::error::ErrorReason;
use crate::error::ParsingError;
use crate::error::ReasonV;
use crate::error::scope_view;
use crate::flags::Flag;
use crate::flags::FlagV;
use crate::flags::flags_view;
use crate::schema::Constraint;
use crate::schema::ConstraintLevel;

verus! {

/// Decides constraint expressions against a candidate value.  The engine
/// treats the verdict as opaque: it is whatever the implementor's `verdict`
/// says, and the wiring around it is verified for every implementation.
pub trait ConstraintEvaluator {
    /// The verdict the implementation gives to an expression on a subject.
    spec fn verdict(&self, expression: Seq<char>, subject: CoercedV) -> bool;

    /// Evaluate an expression against a candidate value.
    fn evaluate(&self, expression: &String, subject: &Coerced) -> (r: bool)
        ensures
            r == self.verdict(expression@, subject.model()),
    ;
}

/// An evaluator that decides by the expression text alone: every expression
/// passes unless it is listed as failing.  Suits schemas whose constraint
/// outcomes are known to the caller; richer evaluators can inspect the
/// subject value.
pub struct TableEvaluator {
    pub failing: Vec<String>,
}

impl ConstraintEvaluator for TableEvaluator {
    open spec fn verdict(&self, expression: Seq<char>, subject: CoercedV) -> bool {
        !(exists|i: int| 0 <= i < self.failing@.len() && #[trigger] self.failing@[i]@ == expression)
    }

    fn evaluate(&self, expression: &String, subject: &Coerced) -> (r: bool) {
        let n = self.failing.len();
        let mut i: usize = 0;
        while i < n
            invariant
                0 <= i <= n,
                n == self.failing@.len(),
                forall|j: int| 0 <= j < i ==> #[trigger] self.failing@[j]@ != expression@,
            decreases n - i,
        {
            if self.failing[i] == *expression {
                return false;
            }
            i = i + 1;
        }
        true
    }
}

/// What applying a list of constraints yields: the value with a flag per
/// check recording its verdict and label, in declaration order, unless an
/// assert fails first, which aborts with `AssertFailed` carrying the
/// asserted expression text.
pub open spec fn apply_constraints_spec<E: ConstraintEvaluator>(
    ev: &E,
    scope: Seq<Seq<char>>,
    value: CoercedV,
    constraints: Seq<Constraint>,
) -> Result<CoercedV, ErrV>
    decreases constraints.len(),
{
    if constraints.len() == 0 {
        Result::Ok(value)
    } else {
        let c = constraints[0];
        match c.level {
            ConstraintLevel::Check => {
                let flagged = value.with_flags(
                    seq![FlagV::CheckResult(c.label@, ev.verdict(c.expression@, value))],
                );
                apply_constraints_spec(ev, scope, flagged, constraints.drop_first())
            },
            ConstraintLevel::Assert => {
                if ev.verdict(c.expression@, value) {
                    apply_constraints_spec(ev, scope, value, constraints.drop_first())
                } else {
                    Result::Err(ErrV { scope, reason: ReasonV::AssertFailed(c.expression@) })
                }
            },
        }
    }
}

/// Results agree under the view: used to phrase every coercion contract.
pub open spec fn result_matches(r: Result<Coerced, ParsingError>, s: Result<CoercedV, ErrV>) -> bool {
    match (r, s) {
        (Result::Ok(c), Result::Ok(cv)) => c.model() == cv,
        (Result::Err(e), Result::Err(ev_)) => e.model() == ev_,
        _ => false,
    }
}

/// Apply constraints from position `i` on.
fn apply_from<E: ConstraintEvaluator>(
    ev: &E,
    scope: &Vec<String>,
    current: Coerced,
    constraints: &Vec<Constraint>,
    i: usize,
) -> (r: Result<Coerced, ParsingError>)
    requires
        i <= constraints@.len(),
    ensures
        result_matches(
            r,
            apply_constraints_spec(
                ev,
                scope_view(scope@),
                current.model(),
                constraints@.skip(i as int),
            ),
        ),
    decreases constraints@.len() - i,
{
    let ghost sc = scope_view(scope@);
    let ghost before = current.model();
    let ghost rest = constraints@.skip(i as int);
    let n = constraints.len();
    if i >= n {
        proof {
            assert(rest =~= Seq::<Constraint>::empty());
        }
        return Ok(current);
    }
    proof {
        assert(rest[0] == constraints@[i as int]);
        assert(rest.drop_first() =~= constraints@.skip(i + 1));
    }
    match constraints[i].level {
        ConstraintLevel::Check => {
            let verdict = ev.evaluate(&constraints[i].expression, &current);
            let label = constraints[i].label.clone();
            let mut flagged = current;
            let ghost old_flags = flagged.flags@;
            flagged.flags.push(Flag::CheckResult(label, verdict));
            proof {
                assert(flags_view(flagged.flags@) =~= flags_view(old_flags) + seq![
                    FlagV::CheckResult(constraints@[i as int].label@, verdict),
                ]);
                assert(flagged.model() == before.with_flags(
                    seq![
                        FlagV::CheckResult(
                            constraints@[i as int].label@,
                            ev.verdict(constraints@[i as int].expression@, before),
                        ),
                    ],
                ));
            }
            apply_from(ev, scope, flagged, constraints, i + 1)
        },
        ConstraintLevel::Assert => {
            let verdict = ev.evaluate(&constraints[i].expression, &current);
            if !verdict {
                let err = ParsingError {
                    scope: crate::textutil::clone_string_vec(scope),
                    reason: ErrorReason::AssertFailed(constraints[i].expression.clone()),
                };
                proof {
                    assert(err.model() == ErrV {
                        scope: sc,
                        reason: ReasonV::AssertFailed(constraints@[i as int].expression@),
                    });
                }
                Err(err)
            } else {
                apply_from(ev, scope, current, constraints, i + 1)
            }
        },
    }
}

/// Apply constraints to a candidate value, in declaration order.
pub fn apply_constraints<E: ConstraintEvaluator>(
    ev: &E,
    scope: &Vec<String>,
    value: Coerced,
    constraints: &Vec<Constraint>,
) -> (r: Result<Coerced, ParsingError>)
    ensures
        result_matches(
            r,
            apply_constraints_spec(ev, scope_view(scope@), value.model(), constraints@),
        ),
{
    proof {
        assert(constraints@.skip(0) =~= constraints@);
    }
    apply_from(ev, scope, value, constraints, 0)
}

} // verus!
