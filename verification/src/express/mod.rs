//! EXPRESS (ISO 10303-11) schemas, read at run time.
//!
//! A STEP file's records only make sense against the schema that defines
//! them: how many attributes `PRODUCT` takes, which of them a subtype has
//! redeclared as derived (`*` in the file), and which lists must not be
//! empty. This module reads that much from a long-form EXPRESS schema and
//! nothing more.
pub mod check;
pub mod lexer;
pub mod parser;
pub mod schema;

pub use check::{check, Problem, ProblemKind};
pub use schema::{
    AggregateKind, Attribute, AttributeRef, Entity, Redeclaration, Schema, Slot, TypeDef, TypeRef,
};
