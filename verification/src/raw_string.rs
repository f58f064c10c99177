//! Raw string blocks: the text of a fenced or block-quoted region, kept
//! both verbatim and in its cleaned form, with an optional language tag —
//! the shape in which block content travels alongside the parser's
//! `Fenced` values.  Source positions are plain offsets into a named file.

use vstd::prelude::*;

verus! {

/// A half-open source region in a named file.
pub struct Span {
    pub file: String,
    pub start: usize,
    pub end: usize,
}

/// A raw string block: the verbatim text, the cleaned (dedented) content,
/// an optional language tag with its own span, and the indent width that
/// was stripped from the content.
pub struct RawString {
    pub raw_span: Span,
    pub raw_value: String,
    pub inner_value: String,
    pub language: Option<(String, Span)>,
    pub indent: usize,
    pub inner_span_start: usize,
}

/// The two blocks agree on everything except their source positions.
pub open spec fn eq_up_to_span(a: RawString, b: RawString) -> bool {
    &&& a.inner_value@ == b.inner_value@
    &&& a.raw_value@ == b.raw_value@
    &&& match (a.language, b.language) {
        (Option::None, Option::None) => true,
        (Option::Some(la), Option::Some(lb)) => la.0@ == lb.0@,
        _ => false,
    }
    &&& a.indent == b.indent
}

impl RawString {
    /// The cleaned content of the block.
    pub fn value(&self) -> (r: &str)
        ensures
            r@ == self.inner_value@,
    {
        self.inner_value.as_str()
    }

    /// The verbatim text of the block.
    pub fn raw_value(&self) -> (r: &str)
        ensures
            r@ == self.raw_value@,
    {
        self.raw_value.as_str()
    }

    /// Check that another block carries the same text, content, language
    /// and indent; only the source positions may differ.
    pub fn assert_eq_up_to_span(&self, other: &RawString)
        requires
            eq_up_to_span(*self, *other),
    {
        assert(self.inner_value@ == other.inner_value@);
        assert(self.raw_value@ == other.raw_value@);
        assert(self.indent == other.indent);
    }
}

} // verus!
