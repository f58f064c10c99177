//! The structured failure side of a coercion: the scope path where it
//! happened and a reason that retains the causes of every alternative tried,
//! so the top-level error is self-explanatory without re-running the engine.

use vstd::prelude::*;

verus! {

/// Why a coercion failed.  Causes from union members, map entries and class
/// fields are retained instead of discarded.
#[derive(Debug)]
pub enum ErrorReason {
    /// The value's shape cannot serve the target; carries a short detail.
    TypeMismatch(String),
    /// No union member, parse candidate or enum value matched; the causes
    /// list what was tried and why each was rejected.
    NoCandidateMatched(Vec<ParsingError>),
    /// A fatal assert constraint failed; carries the asserted expression.
    AssertFailed(String),
    /// The recursion-depth ceiling was reached while resolving named types.
    RecursionLimitExceeded,
    /// A required field was absent, or its coercion failed (the causes).
    MissingRequiredField(String, Vec<ParsingError>),
    /// The root text had no interpretable structure at all.
    Unparsable(String),
}

/// A coercion failure, with the scope path (such as `MyClass.items[2]`)
/// where it arose.
#[derive(Debug)]
pub struct ParsingError {
    pub scope: Vec<String>,
    pub reason: ErrorReason,
}

/// Mathematical image of `ErrorReason`.
pub enum ReasonV {
    TypeMismatch(Seq<char>),
    NoCandidateMatched(Seq<ErrV>),
    AssertFailed(Seq<char>),
    RecursionLimitExceeded,
    MissingRequiredField(Seq<char>, Seq<ErrV>),
    Unparsable(Seq<char>),
}

/// Mathematical image of `ParsingError`.
pub struct ErrV {
    pub scope: Seq<Seq<char>>,
    pub reason: ReasonV,
}

impl ErrorReason {
    pub open spec fn model(self) -> ReasonV
        decreases self,
    {
        match self {
            ErrorReason::TypeMismatch(d) => ReasonV::TypeMismatch(d@),
            ErrorReason::NoCandidateMatched(cs) => ReasonV::NoCandidateMatched(model_errors(cs@)),
            ErrorReason::AssertFailed(e) => ReasonV::AssertFailed(e@),
            ErrorReason::RecursionLimitExceeded => ReasonV::RecursionLimitExceeded,
            ErrorReason::MissingRequiredField(n, cs) => ReasonV::MissingRequiredField(
                n@,
                model_errors(cs@),
            ),
            ErrorReason::Unparsable(r) => ReasonV::Unparsable(r@),
        }
    }
}

/// The mathematical image of a scope path.
pub open spec fn scope_view(s: Seq<String>) -> Seq<Seq<char>> {
    s.map_values(|x: String| x@)
}

impl ParsingError {
    pub open spec fn model(self) -> ErrV
        decreases self,
    {
        ErrV { scope: scope_view(self.scope@), reason: self.reason.model() }
    }
}

/// Image of a sequence of errors.
pub open spec fn model_errors(s: Seq<ParsingError>) -> Seq<ErrV>
    decreases s,
{
    if s.len() == 0 {
        Seq::empty()
    } else {
        seq![s[0].model()] + model_errors(s.drop_first())
    }
}

pub proof fn lemma_model_errors(s: Seq<ParsingError>)
    ensures
        model_errors(s).len() == s.len(),
        forall|i: int| 0 <= i < s.len() ==> model_errors(s)[i] == s[i].model(),
    decreases s,
{
    if s.len() > 0 {
        lemma_model_errors(s.drop_first());
    }
}

/// The scope path joined with dots; an empty scope reads `<root>`.
pub open spec fn scope_text(parts: Seq<Seq<char>>) -> Seq<char>
    decreases parts,
{
    if parts.len() == 0 {
        "<root>"@
    } else if parts.len() == 1 {
        parts[0]
    } else {
        scope_text(parts.drop_last()) + "."@ + parts.last()
    }
}

/// The human-readable message of an error: scope, reason, and the flattened
/// messages of every cause.
pub open spec fn message_text(e: ErrV) -> Seq<char>
    decreases e, 1int,
{
    scope_text(e.scope) + ": "@ + reason_text(e.reason)
}

pub open spec fn reason_text(r: ReasonV) -> Seq<char>
    decreases r, 1int,
{
    match r {
        ReasonV::TypeMismatch(d) => "type mismatch: "@ + d,
        ReasonV::NoCandidateMatched(cs) => "no candidate matched; tried: ["@ + causes_text(cs)
            + "]"@,
        ReasonV::AssertFailed(e) => "assert failed: "@ + e,
        ReasonV::RecursionLimitExceeded => "recursion limit exceeded"@,
        ReasonV::MissingRequiredField(n, cs) => {
            if cs.len() == 0 {
                "missing required field: "@ + n
            } else {
                "missing required field: "@ + n + "; tried: ["@ + causes_text(cs) + "]"@
            }
        },
        ReasonV::Unparsable(raw) => "unparsable input: "@ + raw,
    }
}

pub open spec fn causes_text(cs: Seq<ErrV>) -> Seq<char>
    decreases cs, 0int,
{
    if cs.len() == 0 {
        Seq::empty()
    } else if cs.len() == 1 {
        message_text(cs[0])
    } else {
        causes_text(cs.drop_last()) + "; "@ + message_text(cs.last())
    }
}

fn push_scope_text(parts: &Vec<String>, out: &mut String)
    ensures
        final(out)@ == old(out)@ + scope_text(scope_view(parts@)),
{
    let ghost view = scope_view(parts@);
    let n = parts.len();
    if n == 0 {
        out.append("<root>");
        return ;
    }
    let mut i: usize = 0;
    while i < n
        invariant
            0 < n == parts@.len(),
            0 <= i <= n,
            view == scope_view(parts@),
            i == 0 ==> out@ == old(out)@,
            i > 0 ==> out@ == old(out)@ + scope_text(view.take(i as int)),
        decreases n - i,
    {
        if i > 0 {
            out.append(".");
        }
        out.append(parts[i].as_str());
        proof {
            if i == 0 {
                assert(view.take(1) =~= seq![view[0]]);
                assert(scope_text(view.take(1)) == view[0]);
            } else {
                assert(view.take(i + 1).drop_last() =~= view.take(i as int));
                assert(view.take(i + 1).last() == view[i as int]);
            }
        }
        i = i + 1;
    }
    proof {
        assert(view.take(n as int) =~= view);
    }
}

impl ParsingError {
    /// Render the error, with all its causes, as one line of text.
    pub fn to_message(&self) -> (r: String)
        ensures
            r@ == message_text(self.model()),
    {
        let mut out = String::new();
        self.push_message(&mut out);
        out
    }

    fn push_message(&self, out: &mut String)
        ensures
            final(out)@ == old(out)@ + message_text(self.model()),
        decreases self,
    {
        push_scope_text(&self.scope, out);
        out.append(": ");
        match &self.reason {
            ErrorReason::TypeMismatch(d) => {
                out.append("type mismatch: ");
                out.append(d.as_str());
            },
            ErrorReason::NoCandidateMatched(cs) => {
                out.append("no candidate matched; tried: [");
                push_causes(cs, out);
                out.append("]");
            },
            ErrorReason::AssertFailed(e) => {
                out.append("assert failed: ");
                out.append(e.as_str());
            },
            ErrorReason::RecursionLimitExceeded => {
                out.append("recursion limit exceeded");
            },
            ErrorReason::MissingRequiredField(n, cs) => {
                out.append("missing required field: ");
                out.append(n.as_str());
                if cs.len() > 0 {
                    out.append("; tried: [");
                    push_causes(cs, out);
                    out.append("]");
                }
            },
            ErrorReason::Unparsable(raw) => {
                out.append("unparsable input: ");
                out.append(raw.as_str());
            },
        }
    }
}

fn push_causes(cs: &Vec<ParsingError>, out: &mut String)
    ensures
        final(out)@ == old(out)@ + causes_text(model_errors(cs@)),
    decreases cs,
{
    proof {
        lemma_model_errors(cs@);
    }
    let n = cs.len();
    let mut i: usize = 0;
    while i < n
        invariant
            0 <= i <= n,
            n == cs@.len(),
            model_errors(cs@).len() == n,
            forall|j: int| 0 <= j < n ==> model_errors(cs@)[j] == cs@[j].model(),
            out@ == old(out)@ + causes_text(model_errors(cs@).take(i as int)),
        decreases n - i,
    {
        if i > 0 {
            out.append("; ");
        }
        cs[i].push_message(out);
        proof {
            let m = model_errors(cs@);
            if i == 0 {
                assert(m.take(1) =~= seq![m[0]]);
                assert(causes_text(m.take(0)) =~= Seq::empty());
                assert(old(out)@ + causes_text(m.take(0 as int)) =~= old(out)@);
            } else {
                assert(m.take(i + 1).drop_last() =~= m.take(i as int));
                assert(m.take(i + 1).last() == m[i as int]);
            }
        }
        i = i + 1;
    }
    proof {
        assert(model_errors(cs@).take(n as int) =~= model_errors(cs@));
        if n == 0 {
            assert(out@ == old(out)@ + causes_text(model_errors(cs@).take(0)));
            assert(old(out)@ + causes_text(model_errors(cs@)) =~= out@);
        }
    }
}

} // verus!
