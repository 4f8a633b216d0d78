//! Compiler for a semantic P&ID description language: lexing, parsing,
//! normalization into a typed diagram model, validation and source edits.

pub mod text;
pub mod span;
pub mod diag;
pub mod ast;
pub mod lexer;
pub mod parser;
pub mod model;
pub mod normalize;
pub mod validate;
pub mod compile;
pub mod edit;
pub mod cuts;
pub mod readback;
pub mod symbols;
pub mod layout;
pub mod render;
pub mod dump;
