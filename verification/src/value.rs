//! The generic value tree produced by the flexible parser, before any type
//! information is applied.

use vstd::prelude::*;

verus! {

/// Whether the source text for a node was seen in full, or ended before the
/// closing delimiter (stream truncation).
#[derive(PartialEq, Eq, Structural, Clone, Copy, Debug)]
pub enum CompletionState {
    Complete,
    Incomplete,
}

/// An untyped value tree.  `AnyOf` records ambiguous parses (several viable
/// readings of the same text) so that the coercer, which knows the target
/// type, can pick among them; `Fenced` keeps the language tag of a markdown
/// code fence around its parsed content.  Numbers that are not integral are
/// kept as their decimal text, so no floating point enters the tree.
#[derive(Debug)]
pub enum Value {
    Null,
    Bool(bool),
    Int(i64),
    Float(String),
    Str(String, CompletionState),
    Array(Vec<Value>, CompletionState),
    Object(Vec<(String, Value)>, CompletionState),
    Fenced(String, Box<Value>),
    AnyOf(Vec<Value>, String),
}

impl Value {
    /// Structural size of the tree; used as a termination measure by the
    /// coercer, which recurses both over target types and over values.
    pub open spec fn size(self) -> nat
        decreases self,
    {
        match self {
            Value::Array(items, _) => 1 + seq_value_size(items@),
            Value::Object(fields, _) => 1 + pairs_value_size(fields@),
            Value::Fenced(_, inner) => 1 + inner.size(),
            Value::AnyOf(cands, _) => 1 + seq_value_size(cands@),
            _ => 1,
        }
    }

    /// The completion marker carried by this node itself (`Complete` for
    /// nodes that have no marker of their own).
    pub open spec fn completion(self) -> CompletionState
        decreases self,
    {
        match self {
            Value::Str(_, c) => c,
            Value::Array(_, c) => c,
            Value::Object(_, c) => c,
            Value::Fenced(_, inner) => inner.completion(),
            _ => CompletionState::Complete,
        }
    }
}

/// Mathematical image of a `Value`.
pub enum ValueV {
    Null,
    Bool(bool),
    Int(int),
    Float(Seq<char>),
    Str(Seq<char>, CompletionState),
    Array(Seq<ValueV>, CompletionState),
    Object(Seq<(Seq<char>, ValueV)>, CompletionState),
    Fenced(Seq<char>, Box<ValueV>),
    AnyOf(Seq<ValueV>, Seq<char>),
}

impl Value {
    pub open spec fn model(self) -> ValueV
        decreases self,
    {
        match self {
            Value::Null => ValueV::Null,
            Value::Bool(b) => ValueV::Bool(b),
            Value::Int(n) => ValueV::Int(n as int),
            Value::Float(f) => ValueV::Float(f@),
            Value::Str(s, c) => ValueV::Str(s@, c),
            Value::Array(items, c) => ValueV::Array(model_values(items@), c),
            Value::Object(fields, c) => ValueV::Object(model_value_pairs(fields@), c),
            Value::Fenced(lang, inner) => ValueV::Fenced(lang@, Box::new(inner.model())),
            Value::AnyOf(cands, raw) => ValueV::AnyOf(model_values(cands@), raw@),
        }
    }
}

/// Image of a sequence of values.
pub open spec fn model_values(s: Seq<Value>) -> Seq<ValueV>
    decreases s,
{
    if s.len() == 0 {
        Seq::empty()
    } else {
        seq![s[0].model()] + model_values(s.drop_first())
    }
}

/// Image of a sequence of keyed values.
pub open spec fn model_value_pairs(s: Seq<(String, Value)>) -> Seq<(Seq<char>, ValueV)>
    decreases s,
{
    if s.len() == 0 {
        Seq::empty()
    } else {
        seq![(s[0].0@, s[0].1.model())] + model_value_pairs(s.drop_first())
    }
}

pub proof fn lemma_model_values(s: Seq<Value>)
    ensures
        model_values(s).len() == s.len(),
        forall|i: int| 0 <= i < s.len() ==> model_values(s)[i] == s[i].model(),
    decreases s,
{
    if s.len() > 0 {
        lemma_model_values(s.drop_first());
    }
}

pub proof fn lemma_model_value_pairs(s: Seq<(String, Value)>)
    ensures
        model_value_pairs(s).len() == s.len(),
        forall|i: int|
            0 <= i < s.len() ==> model_value_pairs(s)[i] == (s[i].0@, s[i].1.model()),
    decreases s,
{
    if s.len() > 0 {
        lemma_model_value_pairs(s.drop_first());
    }
}

pub open spec fn seq_value_size(s: Seq<Value>) -> nat
    decreases s,
{
    if s.len() == 0 {
        0
    } else {
        s[0].size() + seq_value_size(s.drop_first())
    }
}

pub open spec fn pairs_value_size(s: Seq<(String, Value)>) -> nat
    decreases s,
{
    if s.len() == 0 {
        0
    } else {
        s[0].1.size() + pairs_value_size(s.drop_first())
    }
}

/// Whether any part of the tree was truncated: a node's own marker, or, for
/// ambiguous parses, any candidate's.
pub open spec fn vv_incomplete(v: ValueV) -> bool
    decreases v,
{
    match v {
        ValueV::Str(_, c) => c is Incomplete,
        ValueV::Array(_, c) => c is Incomplete,
        ValueV::Object(_, c) => c is Incomplete,
        ValueV::Fenced(_, inner) => vv_incomplete(*inner),
        ValueV::AnyOf(cands, _) => vv_any_incomplete(cands),
        _ => false,
    }
}

pub open spec fn vv_any_incomplete(s: Seq<ValueV>) -> bool
    decreases s,
{
    if s.len() == 0 {
        false
    } else {
        vv_incomplete(s[0]) || vv_any_incomplete(s.drop_first())
    }
}

impl Value {
    /// Whether the source text for this tree ended before it was closed.
    pub fn is_incomplete(&self) -> (r: bool)
        ensures
            r == vv_incomplete(self.model()),
        decreases *self,
    {
        match self {
            Value::Str(_, c) => match c {
                CompletionState::Incomplete => true,
                CompletionState::Complete => false,
            },
            Value::Array(_, c) => match c {
                CompletionState::Incomplete => true,
                CompletionState::Complete => false,
            },
            Value::Object(_, c) => match c {
                CompletionState::Incomplete => true,
                CompletionState::Complete => false,
            },
            Value::Fenced(_, inner) => inner.is_incomplete(),
            Value::AnyOf(cands, _) => {
                proof {
                    assert(model_values(cands@).skip(0) =~= model_values(cands@));
                }
                any_incomplete(cands, 0)
            },
            _ => false,
        }
    }
}

fn any_incomplete(cands: &Vec<Value>, i: usize) -> (r: bool)
    requires
        i <= cands@.len(),
    ensures
        r == vv_any_incomplete(model_values(cands@).skip(i as int)),
    decreases *cands, cands@.len() - i,
{
    proof {
        lemma_model_values(cands@);
    }
    let ghost m = model_values(cands@);
    if i >= cands.len() {
        proof {
            assert(m.skip(i as int) =~= Seq::<ValueV>::empty());
        }
        false
    } else {
        proof {
            assert(m.skip(i as int)[0] == m[i as int]);
            assert(m.skip(i as int).drop_first() =~= m.skip(i + 1));
        }
        if cands[i].is_incomplete() {
            true
        } else {
            any_incomplete(cands, i + 1)
        }
    }
}

/// Every element of a sequence weighs no more than the whole sequence.
pub proof fn lemma_seq_value_size_elem(s: Seq<Value>, i: int)
    requires
        0 <= i < s.len(),
    ensures
        s[i].size() <= seq_value_size(s),
    decreases s,
{
    if i == 0 {
    } else {
        lemma_seq_value_size_elem(s.drop_first(), i - 1);
    }
}

/// Every field value of a pair sequence weighs no more than the whole.
pub proof fn lemma_pairs_value_size_elem(s: Seq<(String, Value)>, i: int)
    requires
        0 <= i < s.len(),
    ensures
        s[i].1.size() <= pairs_value_size(s),
    decreases s,
{
    if i == 0 {
    } else {
        lemma_pairs_value_size_elem(s.drop_first(), i - 1);
    }
}

} // verus!
