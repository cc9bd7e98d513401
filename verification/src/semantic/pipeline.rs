//! The semantic pipeline: symbol table, resolution and type checks.
use super::builder::{build_symbol_table, declare_all, decls_in};
use super::resolver::{resolve, seq_issue};
use super::symbol_table::SymbolTable;
use super::type_checker::check;
use crate::ir::{stmts_view, Statement};
use crate::names::names_view;
use vstd::prelude::*;

verus! {

/// The symbol table of a program and what the checks found.
pub struct SemanticResult {
    pub symbol_table: SymbolTable,
    pub diagnostics: Vec<String>,
}

/// Builds the symbol table of a program, reports the first undeclared
/// variable it uses, then the type errors; the program is left as it is.
pub fn analyze(program: &mut Vec<Statement>) -> (r: SemanticResult)
    ensures
        final(program)@ == old(program)@,
        r.symbol_table@ == declare_all(Map::empty(), decls_in(stmts_view(old(program)@))),
        names_view(r.diagnostics@) == match seq_issue(stmts_view(old(program)@), r.symbol_table@) {
            Some(e) => seq![e],
            None => Seq::empty(),
        },
{
    let table = build_symbol_table(program.as_slice());
    let mut diagnostics: Vec<String> = Vec::new();
    match resolve(program.as_slice(), &table) {
        Ok(_) => {},
        Err(e) => {
            diagnostics.push(e);
        },
    }
    let found = check(program);
    let ghost d0 = diagnostics@;
    let mut i: usize = 0;
    while i < found.len()
        invariant
            found@.len() == 0,
            diagnostics@ == d0,
        decreases found.len() - i,
    {
        diagnostics.push(found[i].clone());
        i = i + 1;
    }
    proof {
        assert(names_view(diagnostics@) =~= match seq_issue(stmts_view(program@), table@) {
            Some(e) => seq![e],
            None => Seq::<Seq<char>>::empty(),
        });
    }
    SemanticResult { symbol_table: table, diagnostics }
}

} // verus!
