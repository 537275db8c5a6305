//! Core of the refrain engine: the refrain AST, the S-expression parser,
//! the flat term form exchanged with the e-graph normaliser, the rhizome
//! bridge between causal ids and e-class ids, the pattern scheduler, and
//! the media-independent parts of the output adapters.

pub mod ast;
pub mod error;
pub mod lexer;
pub mod sexp;
pub mod parser;
pub mod term;
pub mod normalize;
pub mod rhizome;
pub mod schedule;
pub mod adapters;
pub mod laws;
pub mod term_laws;

pub use ast::{Op, Pattern, Refrain, StageKind};
pub use error::RefrainError;
pub use parser::parse;
