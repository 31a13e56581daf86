//! ISO 10303-21 ("Part 21") clear-text encoding.
//!
//! This module owns the lexical and syntactic layer only: turning bytes
//! into tokens, tokens into entity instances, and instances back into
//! bytes. It knows nothing about what the entities mean.
pub mod lexer;
pub mod exchange;
pub mod parser;
pub mod sections;
pub mod string;
pub mod writer;

pub use exchange::{
    Anchor, Exchange, ExternalReference, Instance, Literal, Param, Params, Record, Records,
    ReferenceName, References, Section,
};
pub use lexer::{Lexer, Span, Token, TokenKind};
pub use parser::parse;
pub use string::decode_string;
pub use writer::{Numbering, Replacements, Writer};
