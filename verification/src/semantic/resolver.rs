//! Checking that the variables a program uses are declared.
use super::symbol_table::{SymbolTable, SymbolV};
use crate::ir::{stmts_view, Expression, ExpressionV, Source, SourceV, Statement, StatementV};
use vstd::prelude::*;

verus! {

broadcast use vstd::std_specs::vec::group_vec_axioms, crate::ir::lemma_stmts_view;

pub open spec fn unknown_message(name: Seq<char>) -> Seq<char> {
    "Unknown variable '"@ + name + "'"@
}

/// The first undeclared variable an expression reads, left to right.
pub open spec fn expr_issue(e: ExpressionV, t: Map<Seq<char>, SymbolV>) -> Option<Seq<char>>
    decreases e,
{
    match e {
        ExpressionV::Variable(n) => if !t.contains_key(n) {
            Some(unknown_message(n))
        } else {
            None
        },
        ExpressionV::Binary { left, right, .. } => match expr_issue(*left, t) {
            Some(m) => Some(m),
            None => expr_issue(*right, t),
        },
        _ => None,
    }
}

/// The first undeclared variable a statement or a statement nested in it
/// names, as a message: targets of moves, additions and computations, the
/// variable a move reads and the variables a computation reads.
pub open spec fn stmt_issue(s: StatementV, t: Map<Seq<char>, SymbolV>) -> Option<Seq<char>>
    decreases s, 1nat,
{
    match s {
        StatementV::Move { source, target } => if !t.contains_key(target) {
            Some(unknown_message(target))
        } else {
            match source {
                SourceV::Variable(v) => if !t.contains_key(v) {
                    Some(unknown_message(v))
                } else {
                    None
                },
                _ => None,
            }
        },
        StatementV::Add { target, .. } => if !t.contains_key(target) {
            Some(unknown_message(target))
        } else {
            None
        },
        StatementV::Compute { target, expr } => if !t.contains_key(target) {
            Some(unknown_message(target))
        } else {
            expr_issue(expr, t)
        },
        StatementV::If { then_branch, else_branch, .. } => match seq_issue(then_branch, t) {
            Some(e) => Some(e),
            None => match else_branch {
                Some(b) => seq_issue(b, t),
                None => None,
            },
        },
        StatementV::Perform { body, .. } => seq_issue(body, t),
        StatementV::PerformUntil { body, .. } => seq_issue(body, t),
        StatementV::PerformVarying { body, .. } => seq_issue(body, t),
        _ => None,
    }
}

pub open spec fn seq_issue(ss: Seq<StatementV>, t: Map<Seq<char>, SymbolV>) -> Option<Seq<char>>
    decreases ss, 0nat,
{
    if ss.len() == 0 {
        None
    } else {
        match stmt_issue(ss[0], t) {
            Some(e) => Some(e),
            None => seq_issue(ss.drop_first(), t),
        }
    }
}

fn unknown(name: &String) -> (r: String)
    ensures
        r@ == unknown_message(name@),
{
    let mut r = crate::text::owned("Unknown variable '");
    crate::text::append_string(&mut r, name);
    crate::text::append_str(&mut r, "'");
    r
}

fn known(table: &SymbolTable, name: &String) -> (r: bool)
    ensures
        r == table@.contains_key(name@),
{
    table.lookup(name.as_str()).is_some()
}

fn resolve_expr(e: &Expression, table: &SymbolTable) -> (r: Result<(), String>)
    ensures
        match r {
            Ok(_) => expr_issue(e@, table@) is None,
            Err(m) => expr_issue(e@, table@) == Some(m@),
        },
    decreases e,
{
    match e {
        Expression::Variable(n) => {
            if !known(table, n) {
                return Err(unknown(n));
            }
            Ok(())
        },
        Expression::Binary { left, right, .. } => {
            match resolve_expr(left, table) {
                Ok(_) => {},
                Err(m) => {
                    return Err(m);
                },
            }
            resolve_expr(right, table)
        },
        Expression::Literal(_) => Ok(()),
    }
}

fn resolve_list(ss: &Vec<Statement>, table: &SymbolTable) -> (r: Result<(), String>)
    ensures
        match r {
            Ok(_) => seq_issue(stmts_view(ss@), table@) is None,
            Err(e) => seq_issue(stmts_view(ss@), table@) == Some(e@),
        },
    decreases ss, 0nat,
{
    let ghost sv = stmts_view(ss@);
    let mut i: usize = 0;
    assert(sv.skip(0) =~= sv);
    while i < ss.len()
        invariant
            i <= ss@.len(),
            sv == stmts_view(ss@),
            seq_issue(sv, table@) == seq_issue(sv.skip(i as int), table@),
        decreases ss.len() - i,
    {
        proof {
            assert(sv.skip(i as int)[0] == sv[i as int]);
            assert(sv.skip(i as int).drop_first() =~= sv.skip(i + 1));
            assert(decreases_to!(*ss => ss@));
        }
        match resolve_stmt(&ss[i], table) {
            Ok(_) => {},
            Err(e) => {
                return Err(e);
            },
        }
        i = i + 1;
    }
    assert(sv.skip(i as int).len() == 0);
    Ok(())
}

fn resolve_stmt(stmt: &Statement, table: &SymbolTable) -> (r: Result<(), String>)
    ensures
        match r {
            Ok(_) => stmt_issue(stmt@, table@) is None,
            Err(e) => stmt_issue(stmt@, table@) == Some(e@),
        },
    decreases stmt, 1nat,
{
    match stmt {
        Statement::Move { source, target } => {
            if !known(table, target) {
                return Err(unknown(target));
            }
            match source {
                Source::Variable(v) => {
                    if !known(table, v) {
                        return Err(unknown(v));
                    }
                },
                _ => {},
            }
            Ok(())
        },
        Statement::Add { target, .. } => {
            if !known(table, target) {
                return Err(unknown(target));
            }
            Ok(())
        },
        Statement::Compute { target, expr } => {
            if !known(table, target) {
                return Err(unknown(target));
            }
            resolve_expr(expr, table)
        },
        Statement::If { then_branch, else_branch, .. } => {
            match resolve_list(then_branch, table) {
                Ok(_) => {},
                Err(e) => {
                    return Err(e);
                },
            }
            match else_branch {
                Some(b) => {
                    proof {
                        assert(decreases_to!(*stmt => *else_branch));
                    }
                    resolve_list(b, table)
                },
                None => Ok(()),
            }
        },
        Statement::Perform { body, .. } | Statement::PerformUntil { body, .. }
        | Statement::PerformVarying { body, .. } => resolve_list(body, table),
        _ => Ok(()),
    }
}

/// Checks that the variables a program uses are declared in `table`; the
/// error names the first that is not.
pub fn resolve(program: &[Statement], table: &SymbolTable) -> (r: Result<(), String>)
    ensures
        match r {
            Ok(_) => seq_issue(stmts_view(program@), table@) is None,
            Err(e) => seq_issue(stmts_view(program@), table@) == Some(e@),
        },
{
    let ghost sv = stmts_view(program@);
    let mut i: usize = 0;
    assert(sv.skip(0) =~= sv);
    while i < program.len()
        invariant
            i <= program@.len(),
            sv == stmts_view(program@),
            seq_issue(sv, table@) == seq_issue(sv.skip(i as int), table@),
        decreases program.len() - i,
    {
        proof {
            assert(sv.skip(i as int)[0] == sv[i as int]);
            assert(sv.skip(i as int).drop_first() =~= sv.skip(i + 1));
        }
        match resolve_stmt(&program[i], table) {
            Ok(_) => {},
            Err(e) => {
                return Err(e);
            },
        }
        i = i + 1;
    }
    assert(sv.skip(i as int).len() == 0);
    Ok(())
}

} // verus!
