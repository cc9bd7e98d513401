//! Picture clauses: their model and their parser.
pub mod ast;
pub mod parser;
