//! The top-level entry: raw text, a target type and a strictness flag in;
//! a typed, flag-annotated value or a structured error out.

use vstd::prelude::*;
use crate::coerced::Coerced;
use crate::coercer::DEPTH_LIMIT;
use crate::coercer::ParsingContext;
use crate::coercer::coerce;
use crate::coercer::coerce_spec;
use crate::constraints::ConstraintEvaluator;
use crate::constraints::result_matches;
use crate::error::ErrV;
use crate::error::ErrorReason;
use crate::error::ParsingError;
use crate::error::ReasonV;
use crate::parser::parse;
use crate::parser::parse_spec;
use crate::schema::FieldType;
use crate::schema::Registry;
use crate::value::Value;
use crate::value::vv_incomplete;

verus! {

/// Parse raw text and coerce the result onto the target type: the whole
/// engine in one call.  All-whitespace text is rejected as unparsable; so
/// is truncated text unless `allow_partials` is set.  Otherwise the parsed
/// tree — whose mathematical image `parse_spec` fixes — is coerced under
/// the full depth budget, and the outcome is exactly what `coerce_spec`
/// says for that tree.
pub fn from_str<E: ConstraintEvaluator>(
    ev: &E,
    reg: &Registry,
    target: &FieldType,
    text: &str,
    allow_partials: bool,
) -> (r: Result<Coerced, ParsingError>)
    ensures
        match parse_spec(text@) {
            Option::None => r matches Result::Err(e) && e.model() == ErrV {
                scope: Seq::empty(),
                reason: ReasonV::Unparsable(text@),
            },
            Option::Some(vv) => {
                if !allow_partials && vv_incomplete(vv) {
                    r matches Result::Err(e) && e.model() == ErrV {
                        scope: Seq::empty(),
                        reason: ReasonV::Unparsable(text@),
                    }
                } else {
                    exists|v: Value|
                        v.model() == vv && result_matches(
                            r,
                            #[trigger] coerce_spec(
                                ev,
                                reg,
                                Seq::empty(),
                                DEPTH_LIMIT as nat,
                                *target,
                                Option::Some(v),
                            ),
                        )
                }
            },
        },
{
    match parse(text) {
        Err(e) => Err(e),
        Ok(v) => {
            if !allow_partials && v.is_incomplete() {
                let err = ParsingError {
                    scope: Vec::new(),
                    reason: ErrorReason::Unparsable(text.to_owned()),
                };
                proof {
                    assert(crate::error::scope_view(err.scope@) =~= Seq::<Seq<char>>::empty());
                }
                Err(err)
            } else {
                let ctx = ParsingContext::new(reg, allow_partials);
                let ghost vg = v;
                let r = coerce(ev, &ctx, target, Some(&v));
                proof {
                    assert(crate::error::scope_view(ctx.scope@) =~= Seq::<Seq<char>>::empty());
                }
                r
            }
        },
    }
}

} // verus!
