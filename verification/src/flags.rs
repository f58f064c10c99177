//! Flags: append-only annotations recording *how* a value was obtained.
//! Soft imperfections (implicit conversions, defaulting, dropped entries,
//! failing checks) are recorded here instead of being thrown, so that union
//! scoring is a pure function over flag counts and the caller can inspect
//! every best-effort step.

use vstd::prelude::*;

verus! {

/// How close a string match was; `Exact` matches carry no flag at all.
#[derive(PartialEq, Eq, Structural, Clone, Copy, Debug)]
pub enum MatchQuality {
    ExactMatch,
    CaseMatch,
    SubstringMatch,
    FuzzyMatch,
}

/// One annotation on a coerced value node.
#[derive(Debug)]
pub enum Flag {
    /// The value came from inside a fenced code block with this language tag.
    FromFence(String),
    /// A string was read as an integer.
    StringToInt,
    /// A string was read as a number.
    StringToFloat,
    /// A string was read as a boolean.
    StringToBool,
    /// An integer fed a float target.
    IntToFloat,
    /// A decimal was rounded to an integer target.
    FloatToInt,
    /// A non-string scalar was rendered for a string target.
    ValueToString,
    /// An enum value or literal was resolved by an inexact match.
    InexactMatch(MatchQuality),
    /// The match used the description text, not the name or alias.
    MatchedByDescription,
    /// An absent optional field was defaulted to null.
    DefaultedAbsent,
    /// A failed optional coercion was defaulted to null.
    DefaultedFromError,
    /// An object key matched no declared field and was dropped.
    ExtraKey(String),
    /// A map entry whose key or value failed to coerce was dropped.
    DroppedEntry(String),
    /// Chosen as the best of this many union or parse alternatives.
    UnionPick(u64),
    /// Outcome of a non-fatal check constraint, by label.
    CheckResult(String, bool),
}

/// Mathematical image of a `Flag`.
pub enum FlagV {
    FromFence(Seq<char>),
    StringToInt,
    StringToFloat,
    StringToBool,
    IntToFloat,
    FloatToInt,
    ValueToString,
    InexactMatch(MatchQuality),
    MatchedByDescription,
    DefaultedAbsent,
    DefaultedFromError,
    ExtraKey(Seq<char>),
    DroppedEntry(Seq<char>),
    UnionPick(int),
    CheckResult(Seq<char>, bool),
}

impl Flag {
    pub open spec fn model(self) -> FlagV {
        match self {
            Flag::FromFence(s) => FlagV::FromFence(s@),
            Flag::StringToInt => FlagV::StringToInt,
            Flag::StringToFloat => FlagV::StringToFloat,
            Flag::StringToBool => FlagV::StringToBool,
            Flag::IntToFloat => FlagV::IntToFloat,
            Flag::FloatToInt => FlagV::FloatToInt,
            Flag::ValueToString => FlagV::ValueToString,
            Flag::InexactMatch(q) => FlagV::InexactMatch(q),
            Flag::MatchedByDescription => FlagV::MatchedByDescription,
            Flag::DefaultedAbsent => FlagV::DefaultedAbsent,
            Flag::DefaultedFromError => FlagV::DefaultedFromError,
            Flag::ExtraKey(s) => FlagV::ExtraKey(s@),
            Flag::DroppedEntry(s) => FlagV::DroppedEntry(s@),
            Flag::UnionPick(n) => FlagV::UnionPick(n as int),
            Flag::CheckResult(s, b) => FlagV::CheckResult(s@, b),
        }
    }
}

/// Image of a flag list.
pub open spec fn flags_view(s: Seq<Flag>) -> Seq<FlagV> {
    s.map_values(|f: Flag| f.model())
}

/// Flags that record a best-effort or implicit conversion; the first tier of
/// union scoring counts these.
pub open spec fn is_conversion_flag(f: FlagV) -> bool {
    match f {
        FlagV::StringToInt => true,
        FlagV::StringToFloat => true,
        FlagV::StringToBool => true,
        FlagV::IntToFloat => true,
        FlagV::FloatToInt => true,
        FlagV::ValueToString => true,
        FlagV::InexactMatch(_) => true,
        FlagV::MatchedByDescription => true,
        _ => false,
    }
}

/// Flags that record defaulting or dropping; the second tier of union
/// scoring counts these.
pub open spec fn is_default_flag(f: FlagV) -> bool {
    match f {
        FlagV::DefaultedAbsent => true,
        FlagV::DefaultedFromError => true,
        FlagV::DroppedEntry(_) => true,
        _ => false,
    }
}

/// Number of conversion flags in a list.
pub open spec fn conv_in_flags(s: Seq<FlagV>) -> nat
    decreases s,
{
    if s.len() == 0 {
        0
    } else {
        (if is_conversion_flag(s[0]) {
            1nat
        } else {
            0nat
        }) + conv_in_flags(s.drop_first())
    }
}

/// Number of defaulting flags in a list.
pub open spec fn default_in_flags(s: Seq<FlagV>) -> nat
    decreases s,
{
    if s.len() == 0 {
        0
    } else {
        (if is_default_flag(s[0]) {
            1nat
        } else {
            0nat
        }) + default_in_flags(s.drop_first())
    }
}

} // verus!
