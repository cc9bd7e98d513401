//! Lowering of syntax trees to the IR.
use crate::ast::{AstCondition, AstStatement};
use crate::ir::{stmts_view, Condition, ConditionV, Literal, LiteralV, Source, SourceV, Statement, StatementV};
use crate::text::parse_int;
use vstd::prelude::*;

verus! {

broadcast use vstd::std_specs::vec::group_vec_axioms, crate::ir::lemma_stmts_view;

pub open spec fn lower_cond(c: AstCondition) -> ConditionV {
    ConditionV { left: c.left@, operator: c.operator@, right: c.right@ }
}

/// The IR statement of a syntax-tree statement: displays, moves, additions
/// (a value that is not a number adds 0), conditionals and loops until a
/// condition; anything else lowers to `NoOp`.
pub open spec fn lower_stmt(s: AstStatement) -> StatementV
    decreases s, 2nat,
{
    match s {
        AstStatement::Display { value } => StatementV::Display { value: LiteralV::Str(value@) },
        AstStatement::Move { source, target } => StatementV::Move {
            source: SourceV::Variable(source@),
            target: target@,
        },
        AstStatement::Add { value, target } => StatementV::Add {
            value: match parse_int(value@) {
                Some(v) => v,
                None => 0,
            },
            target: target@,
        },
        AstStatement::If { condition, then_branch, else_branch } => StatementV::If {
            condition: lower_cond(condition),
            then_branch: lower_seq(then_branch@),
            else_branch: match else_branch {
                Some(b) => Some(lower_seq(b@)),
                None => None,
            },
        },
        AstStatement::PerformUntil { condition, body } => StatementV::PerformUntil {
            condition: lower_cond(condition),
            body: lower_seq(body@),
        },
        _ => StatementV::NoOp,
    }
}

pub open spec fn lower_seq(s: Seq<AstStatement>) -> Seq<StatementV>
    decreases s, 1nat,
{
    if s.len() == 0 {
        Seq::empty()
    } else {
        lower_seq(s.drop_last()).push(lower_stmt(s.last()))
    }
}

pub broadcast proof fn lemma_lower_seq(s: Seq<AstStatement>)
    ensures
        #[trigger] lower_seq(s).len() == s.len(),
        forall|i: int| 0 <= i < s.len() ==> #[trigger] lower_seq(s)[i] == lower_stmt(s[i]),
    decreases s.len(),
{
    if s.len() > 0 {
        lemma_lower_seq(s.drop_last());
    }
}

fn lower_condition(c: &AstCondition) -> (r: Condition)
    ensures
        r@ == lower_cond(*c),
{
    Condition { left: c.left.clone(), operator: c.operator.clone(), right: c.right.clone() }
}

fn lower_vec(v: &Vec<AstStatement>) -> (r: Vec<Statement>)
    ensures
        stmts_view(r@) == lower_seq(v@),
    decreases v, 1nat,
{
    let mut r: Vec<Statement> = Vec::new();
    let mut i: usize = 0;
    while i < v.len()
        invariant
            i <= v@.len(),
            stmts_view(r@) == lower_seq(v@.take(i as int)),
        decreases v.len() - i,
    {
        proof {
            assert(decreases_to!(*v => v@));
        }
        let s = lower_statement(&v[i]);
        let ghost r0 = r@;
        r.push(s);
        proof {
            crate::ir::lemma_stmts_view_push(r0, s);
            assert(v@.take(i + 1).drop_last() =~= v@.take(i as int));
        }
        i = i + 1;
    }
    assert(v@.take(i as int) =~= v@);
    r
}

/// Lowers one statement.
pub fn lower_statement(stmt: &AstStatement) -> (r: Statement)
    ensures
        r@ == lower_stmt(*stmt),
    decreases stmt, 2nat,
{
    match stmt {
        AstStatement::Display { value } => Statement::Display { value: Literal::String(value.clone()) },
        AstStatement::Move { source, target } => Statement::Move {
            source: Source::Variable(source.clone()),
            target: target.clone(),
        },
        AstStatement::Add { value, target } => {
            let cs = crate::text::chars_of_string(value);
            let v = match crate::text::parse_i64(cs.as_slice()) {
                Some(v) => v,
                None => 0,
            };
            Statement::Add { value: v, target: target.clone() }
        },
        AstStatement::If { condition, then_branch, else_branch } => {
            let t = lower_vec(then_branch);
            let e = match else_branch {
                Some(b) => {
                    proof {
                        assert(decreases_to!(*stmt => *else_branch));
                    }
                    Some(lower_vec(b))
                },
                None => None,
            };
            Statement::If { condition: lower_condition(condition), then_branch: t, else_branch: e }
        },
        AstStatement::PerformUntil { condition, body } => Statement::PerformUntil {
            condition: lower_condition(condition),
            body: lower_vec(body),
        },
        _ => Statement::NoOp,
    }
}

/// Lowers a sequence of statements.
pub fn lower_program(ast: &[AstStatement]) -> (r: Vec<Statement>)
    ensures
        stmts_view(r@) == lower_seq(ast@),
{
    let mut r: Vec<Statement> = Vec::new();
    let mut i: usize = 0;
    while i < ast.len()
        invariant
            i <= ast@.len(),
            stmts_view(r@) == lower_seq(ast@.take(i as int)),
        decreases ast.len() - i,
    {
        let s = lower_statement(&ast[i]);
        let ghost r0 = r@;
        r.push(s);
        proof {
            crate::ir::lemma_stmts_view_push(r0, s);
            assert(ast@.take(i + 1).drop_last() =~= ast@.take(i as int));
        }
        i = i + 1;
    }
    assert(ast@.take(i as int) =~= ast@);
    r
}

} // verus!
