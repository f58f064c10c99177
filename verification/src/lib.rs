//! Schema-directed coercion of loosely structured text onto declared types.
//!
//! The crate parses raw, possibly malformed or truncated text into a generic
//! value tree, then coerces that tree onto a target schema type (primitives,
//! enums, classes, lists, maps, tuples, unions, optionals and recursive
//! aliases), returning a typed value annotated with provenance flags, or a
//! structured error that explains every alternative that was tried.

pub mod coerce_prim;
pub mod coerced;
pub mod coercer;
pub mod constraints;
pub mod engine;
pub mod error;
pub mod flags;
pub mod laws;
pub mod matcher;
pub mod numtext;
pub mod parser;
pub mod raw_string;
pub mod schema;
pub mod textutil;
pub mod value;

pub use coerce_prim::coerce_enum;
pub use coerce_prim::coerce_literal;
pub use coerce_prim::coerce_prim;
pub use coerced::BamlKind;
pub use coerced::Coerced;
pub use coercer::DEPTH_LIMIT;
pub use coercer::ParsingContext;
pub use coercer::coerce;
pub use constraints::ConstraintEvaluator;
pub use constraints::TableEvaluator;
pub use constraints::apply_constraints;
pub use engine::from_str;
pub use error::ErrorReason;
pub use error::ParsingError;
pub use flags::Flag;
pub use flags::MatchQuality;
pub use matcher::match_string;
pub use numtext::parse_int_string;
pub use parser::parse;
pub use raw_string::RawString;
pub use raw_string::Span;
pub use schema::AliasDef;
pub use schema::ClassDef;
pub use schema::Constraint;
pub use schema::ConstraintLevel;
pub use schema::EnumDef;
pub use schema::EnumValueDef;
pub use schema::FieldDef;
pub use schema::FieldType;
pub use schema::LiteralValue;
pub use schema::Registry;
pub use schema::TypeKind;
pub use value::CompletionState;
pub use value::Value;
