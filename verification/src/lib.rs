//! Loom: parsing, analysis, optimisation and translation of legacy
//! (COBOL-style) programs.
pub mod text;
pub mod names;
pub mod ir;
pub mod cfg;
pub mod ssa;
pub mod phi;
pub mod interpreter;
pub mod parser_cobol;
pub mod data_division;
pub mod pic_parser;
pub mod types;
pub mod translate_rust;
pub mod translate_python;
pub mod translate_kotlin;
pub mod translate_dart;
pub mod translate_zig;
pub mod ast;
pub mod lowering;
pub mod semantic;
pub mod dataflow;
pub mod optimizer;
pub mod parser;
pub mod migration;
pub mod preprocessor;
pub mod parser_rpg;
pub mod parser_pli;
pub mod validation;
pub mod report;
