//! The typed result of a coercion: a plain typed value where every node also
//! owns its completion state and an ordered list of flags recording how it
//! was obtained.

use vstd::prelude::*;
use crate::flags::Flag;
use crate::flags::FlagV;
use crate::flags::conv_in_flags;
use crate::flags::default_in_flags;
use crate::flags::flags_view;
use crate::value::CompletionState;

verus! {

/// The payload of a coerced node.  Tuples are represented as lists; a union
/// coercion returns the chosen member's payload, marked by a flag.
#[derive(Debug)]
pub enum BamlKind {
    Null,
    Bool(bool),
    Int(i64),
    Float(String),
    Str(String),
    Enum(String, String),
    Class(String, Vec<(String, Coerced)>),
    List(Vec<Coerced>),
    Dict(Vec<(String, Coerced)>),
}

/// A coerced value node: payload, completion state, flags.
#[derive(Debug)]
pub struct Coerced {
    pub flags: Vec<Flag>,
    pub completion: CompletionState,
    pub kind: BamlKind,
}

/// Mathematical image of `BamlKind`.
pub enum BamlKindV {
    Null,
    Bool(bool),
    Int(int),
    Float(Seq<char>),
    Str(Seq<char>),
    Enum(Seq<char>, Seq<char>),
    Class(Seq<char>, Seq<(Seq<char>, CoercedV)>),
    List(Seq<CoercedV>),
    Dict(Seq<(Seq<char>, CoercedV)>),
}

/// Mathematical image of `Coerced`.
pub struct CoercedV {
    pub flags: Seq<FlagV>,
    pub completion: CompletionState,
    pub kind: BamlKindV,
}

impl BamlKind {
    pub open spec fn model(self) -> BamlKindV
        decreases self,
    {
        match self {
            BamlKind::Null => BamlKindV::Null,
            BamlKind::Bool(b) => BamlKindV::Bool(b),
            BamlKind::Int(n) => BamlKindV::Int(n as int),
            BamlKind::Float(s) => BamlKindV::Float(s@),
            BamlKind::Str(s) => BamlKindV::Str(s@),
            BamlKind::Enum(e, v) => BamlKindV::Enum(e@, v@),
            BamlKind::Class(n, fs) => BamlKindV::Class(n@, model_pairs(fs@)),
            BamlKind::List(items) => BamlKindV::List(model_items(items@)),
            BamlKind::Dict(es) => BamlKindV::Dict(model_pairs(es@)),
        }
    }
}

impl Coerced {
    pub open spec fn model(self) -> CoercedV
        decreases self,
    {
        CoercedV { flags: flags_view(self.flags@), completion: self.completion, kind: self.kind.model() }
    }
}

/// Image of a sequence of coerced nodes.
pub open spec fn model_items(s: Seq<Coerced>) -> Seq<CoercedV>
    decreases s,
{
    if s.len() == 0 {
        Seq::empty()
    } else {
        seq![s[0].model()] + model_items(s.drop_first())
    }
}

/// Image of a sequence of named coerced nodes.
pub open spec fn model_pairs(s: Seq<(String, Coerced)>) -> Seq<(Seq<char>, CoercedV)>
    decreases s,
{
    if s.len() == 0 {
        Seq::empty()
    } else {
        seq![(s[0].0@, s[0].1.model())] + model_pairs(s.drop_first())
    }
}

pub proof fn lemma_model_items(s: Seq<Coerced>)
    ensures
        model_items(s).len() == s.len(),
        forall|i: int| 0 <= i < s.len() ==> model_items(s)[i] == s[i].model(),
    decreases s,
{
    if s.len() > 0 {
        lemma_model_items(s.drop_first());
    }
}

pub proof fn lemma_model_pairs(s: Seq<(String, Coerced)>)
    ensures
        model_pairs(s).len() == s.len(),
        forall|i: int|
            0 <= i < s.len() ==> model_pairs(s)[i] == (s[i].0@, s[i].1.model()),
    decreases s,
{
    if s.len() > 0 {
        lemma_model_pairs(s.drop_first());
    }
}

impl CoercedV {
    /// The same node with extra flags appended.
    pub open spec fn with_flags(self, extra: Seq<FlagV>) -> CoercedV {
        CoercedV { flags: self.flags + extra, completion: self.completion, kind: self.kind }
    }

    /// The same node with its completion state replaced.
    pub open spec fn with_completion(self, c: CompletionState) -> CoercedV {
        CoercedV { flags: self.flags, completion: c, kind: self.kind }
    }

    /// Deep count of conversion flags: the first tier of the confidence
    /// score used to rank union candidates (fewer is better).
    pub open spec fn conv_score(self) -> nat
        decreases self,
    {
        conv_in_flags(self.flags) + kind_conv_score(self.kind)
    }

    /// Deep count of defaulting flags: the second tier of the score.
    pub open spec fn default_score(self) -> nat
        decreases self,
    {
        default_in_flags(self.flags) + kind_default_score(self.kind)
    }
}

pub open spec fn kind_conv_score(k: BamlKindV) -> nat
    decreases k,
{
    match k {
        BamlKindV::Class(_, fs) => pairs_conv_score(fs),
        BamlKindV::List(items) => items_conv_score(items),
        BamlKindV::Dict(es) => pairs_conv_score(es),
        _ => 0,
    }
}

pub open spec fn pairs_conv_score(s: Seq<(Seq<char>, CoercedV)>) -> nat
    decreases s,
{
    if s.len() == 0 {
        0
    } else {
        s[0].1.conv_score() + pairs_conv_score(s.drop_first())
    }
}

pub open spec fn items_conv_score(s: Seq<CoercedV>) -> nat
    decreases s,
{
    if s.len() == 0 {
        0
    } else {
        s[0].conv_score() + items_conv_score(s.drop_first())
    }
}

pub open spec fn kind_default_score(k: BamlKindV) -> nat
    decreases k,
{
    match k {
        BamlKindV::Class(_, fs) => pairs_default_score(fs),
        BamlKindV::List(items) => items_default_score(items),
        BamlKindV::Dict(es) => pairs_default_score(es),
        _ => 0,
    }
}

pub open spec fn pairs_default_score(s: Seq<(Seq<char>, CoercedV)>) -> nat
    decreases s,
{
    if s.len() == 0 {
        0
    } else {
        s[0].1.default_score() + pairs_default_score(s.drop_first())
    }
}

pub open spec fn items_default_score(s: Seq<CoercedV>) -> nat
    decreases s,
{
    if s.len() == 0 {
        0
    } else {
        s[0].default_score() + items_default_score(s.drop_first())
    }
}

} // verus!
