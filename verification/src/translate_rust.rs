//! Translation of programs to Rust source text.
use crate::ir::{stmts_view, Expression, ExpressionV, Function, FunctionV, Literal, LiteralV, Program, Statement, StatementV};
use crate::ssa::size;
use crate::ssa::sizes;
use crate::text::{append_str, append_string, int_string, int_text};
use vstd::prelude::*;

verus! {

broadcast use vstd::std_specs::vec::group_vec_axioms, crate::ir::lemma_stmts_view;

/// The text `format!("{:?}", e)` gives for an expression.
pub uninterp spec fn expr_debug(e: ExpressionV) -> Seq<char>;

/// The text `format!("{:#?}", f)` gives for a function.
pub uninterp spec fn function_debug(f: FunctionV) -> Seq<char>;

/// Calls `format!("{:?}", e)`, the derived `Debug` text of an expression;
/// the text is a function of the expression alone and is named, not
/// described.
#[verifier::external_body]
fn debug_expression(e: &Expression) -> (r: String)
    ensures
        r@ == expr_debug(e@),
{
    format!("{:?}", e)
}

/// Calls `format!("{:#?}", f)`, the pretty derived `Debug` text of a
/// function; the text is a function of the function alone and is named,
/// not described.
#[verifier::external_body]
fn debug_function(f: &Function) -> (r: String)
    ensures
        r@ == function_debug(f@),
{
    format!("{:#?}", f)
}

/// Four spaces per level.
pub open spec fn pad(level: nat) -> Seq<char>
    decreases level,
{
    if level == 0 {
        Seq::empty()
    } else {
        pad((level - 1) as nat) + "    "@
    }
}

/// The Rust text of a statement at an indentation level.
pub open spec fn rust_stmt(s: StatementV, level: nat) -> Seq<char>
    decreases s, 1nat,
{
    let p = pad(level);
    match s {
        StatementV::NoOp => Seq::empty(),
        StatementV::Display { value } => match value {
            LiteralV::Int(i) => p + "println!(\"{}\", "@ + int_text(i as int) + ");\n"@,
            LiteralV::Str(t) => p + "println!(\""@ + t + "\");\n"@,
        },
        StatementV::Move { target, .. } => p + "// MOVE -> "@ + target + "\n"@,
        StatementV::Add { target, value } => p + target + " += "@ + int_text(value as int) + ";\n"@,
        StatementV::Compute { target, expr } => p + "// COMPUTE "@ + target + " = "@ + expr_debug(expr) + "\n"@,
        StatementV::If { condition, then_branch, else_branch } => p + "if "@ + condition.left + " "@
            + condition.operator + " "@ + condition.right + " {\n"@ + rust_block(then_branch, level + 1) + p
            + "}\n"@ + match else_branch {
            Some(e) => p + "else {\n"@ + rust_block(e, level + 1) + p + "}\n"@,
            None => Seq::empty(),
        },
        StatementV::Perform { body, .. } => rust_block(body, level),
        StatementV::PerformUntil { condition, body } => p + "while !("@ + condition.left + " "@
            + condition.operator + " "@ + condition.right + ") {\n"@ + rust_block(body, level + 1) + p
            + "}\n"@,
        StatementV::Call { program, .. } => p + "// CALL "@ + program + "\n"@,
        _ => p + "// Unsupported statement\n"@,
    }
}

pub open spec fn rust_block(ss: Seq<StatementV>, level: nat) -> Seq<char>
    decreases ss, 0nat,
{
    if ss.len() == 0 {
        Seq::empty()
    } else {
        rust_stmt(ss[0], level) + rust_block(ss.drop_first(), level)
    }
}

/// The Rust program: a `main` holding the statements one level in.
pub open spec fn rust_program(ss: Seq<StatementV>) -> Seq<char> {
    "fn main() {\n"@ + rust_block(ss, 1) + "}\n"@
}

fn indent(level: usize) -> (r: String)
    ensures
        r@ == pad(level as nat),
{
    let mut r = String::new();
    let mut i: usize = 0;
    assert(r@ =~= pad(0));
    while i < level
        invariant
            i <= level,
            r@ == pad(i as nat),
        decreases level - i,
    {
        append_str(&mut r, "    ");
        i = i + 1;
    }
    r
}

fn translate_block(ss: &Vec<Statement>, level: usize, out: &mut String)
    requires
        level + sizes(stmts_view(ss@)) < usize::MAX,
    ensures
        final(out)@ == old(out)@ + rust_block(stmts_view(ss@), level as nat),
    decreases ss, 0nat,
{
    let ghost sv = stmts_view(ss@);
    let ghost o0 = out@;
    let mut i: usize = 0;
    assert(sv.skip(0) =~= sv);
    assert(o0 + Seq::<char>::empty() =~= o0);
    while i < ss.len()
        invariant
            i <= ss@.len(),
            sv == stmts_view(ss@),
            level + sizes(sv) < usize::MAX,
            sizes(sv.skip(i as int)) <= sizes(sv),
            out@ + rust_block(sv.skip(i as int), level as nat) == o0 + rust_block(sv, level as nat),
        decreases ss.len() - i,
    {
        proof {
            assert(sv.skip(i as int)[0] == sv[i as int]);
            assert(sv.skip(i as int).drop_first() =~= sv.skip(i + 1));
            assert(decreases_to!(*ss => ss@));
            assert(sizes(sv.skip(i as int)) == size(sv[i as int]) + sizes(sv.skip(i + 1)));
        }
        let ghost before = out@;
        translate_statement(&ss[i], level, out);
        assert(before + rust_block(sv.skip(i as int), level as nat) =~= out@ + rust_block(sv.skip(i + 1), level as nat));
        i = i + 1;
    }
    assert(sv.skip(i as int).len() == 0);
    assert(out@ + Seq::<char>::empty() =~= out@);
}

fn translate_if(stmt: &Statement, level: usize, out: &mut String)
    requires
        stmt is If,
        level + size(stmt@) < usize::MAX,
    ensures
        final(out)@ == old(out)@ + rust_stmt(stmt@, level as nat),
    decreases stmt, 0nat,
{
    let pad = indent(level);
    let ghost o0 = out@;
    let ghost p = pad@;
    match stmt {
        Statement::If { condition, then_branch, else_branch } => {
            append_string(out, &pad);
            append_str(out, "if ");
            append_string(out, &condition.left);
            append_str(out, " ");
            append_string(out, &condition.operator);
            append_str(out, " ");
            append_string(out, &condition.right);
            append_str(out, " {\n");
            let ghost o1 = out@;
            translate_block(then_branch, level + 1, out);
            append_string(out, &pad);
            append_str(out, "}\n");
            let ghost o2 = out@;
            match else_branch {
                Some(e) => {
                    proof {
                        assert(decreases_to!(*stmt => *else_branch));
                    }
                    append_string(out, &pad);
                    append_str(out, "else {\n");
                    translate_block(e, level + 1, out);
                    append_string(out, &pad);
                    append_str(out, "}\n");
                    assert(out@ =~= o2 + (p + "else {\n"@ + rust_block(stmts_view(e@), (level + 1) as nat) + p + "}\n"@));
                },
                None => {
                    assert(out@ =~= o2 + Seq::<char>::empty());
                },
            }
            assert(o2 =~= o0 + (p + "if "@ + condition.left@ + " "@ + condition.operator@ + " "@ + condition.right@ + " {\n"@ + rust_block(stmts_view(then_branch@), (level + 1) as nat) + p + "}\n"@));
            assert(out@ =~= o0 + rust_stmt(stmt@, level as nat));
        },
        _ => {},
    }
}

fn translate_until(stmt: &Statement, level: usize, out: &mut String)
    requires
        stmt is PerformUntil,
        level + size(stmt@) < usize::MAX,
    ensures
        final(out)@ == old(out)@ + rust_stmt(stmt@, level as nat),
    decreases stmt, 0nat,
{
    let pad = indent(level);
    let ghost o0 = out@;
    let ghost p = pad@;
    match stmt {
        Statement::PerformUntil { condition, body } => {
            append_string(out, &pad);
            append_str(out, "while !(");
            append_string(out, &condition.left);
            append_str(out, " ");
            append_string(out, &condition.operator);
            append_str(out, " ");
            append_string(out, &condition.right);
            append_str(out, ") {\n");
            translate_block(body, level + 1, out);
            append_string(out, &pad);
            append_str(out, "}\n");
            assert(out@ =~= o0 + (p + "while !("@ + condition.left@ + " "@ + condition.operator@ + " "@ + condition.right@ + ") {\n"@ + rust_block(stmts_view(body@), (level + 1) as nat) + p + "}\n"@));
        },
        _ => {},
    }
}

/// Appends the Rust text of a statement.
fn translate_statement(stmt: &Statement, level: usize, out: &mut String)
    requires
        level + size(stmt@) < usize::MAX,
    ensures
        final(out)@ == old(out)@ + rust_stmt(stmt@, level as nat),
    decreases stmt, 1nat,
{
    let pad = indent(level);
    let ghost o0 = out@;
    let ghost p = pad@;
    match stmt {
        Statement::NoOp => {
            assert(o0 + Seq::<char>::empty() =~= o0);
        },
        Statement::Display { value } => match value {
            Literal::Int(i) => {
                append_string(out, &pad);
                append_str(out, "println!(\"{}\", ");
                append_string(out, &int_string(*i));
                append_str(out, ");\n");
                assert(out@ =~= o0 + (p + "println!(\"{}\", "@ + int_text(*i as int) + ");\n"@));
            },
            Literal::String(s) => {
                append_string(out, &pad);
                append_str(out, "println!(\"");
                append_string(out, s);
                append_str(out, "\");\n");
                assert(out@ =~= o0 + (p + "println!(\""@ + s@ + "\");\n"@));
            },
        },
        Statement::Move { target, .. } => {
            append_string(out, &pad);
            append_str(out, "// MOVE -> ");
            append_string(out, target);
            append_str(out, "\n");
            assert(out@ =~= o0 + (p + "// MOVE -> "@ + target@ + "\n"@));
        },
        Statement::Add { target, value } => {
            append_string(out, &pad);
            append_string(out, target);
            append_str(out, " += ");
            append_string(out, &int_string(*value));
            append_str(out, ";\n");
            assert(out@ =~= o0 + (p + target@ + " += "@ + int_text(*value as int) + ";\n"@));
        },
        Statement::Compute { target, expr } => {
            append_string(out, &pad);
            append_str(out, "// COMPUTE ");
            append_string(out, target);
            append_str(out, " = ");
            append_string(out, &debug_expression(expr));
            append_str(out, "\n");
            assert(out@ =~= o0 + (p + "// COMPUTE "@ + target@ + " = "@ + expr_debug(expr@) + "\n"@));
        },
        Statement::If { .. } => {
            translate_if(stmt, level, out);
        },
        Statement::Perform { body, .. } => {
            translate_block(body, level, out);
        },
        Statement::PerformUntil { .. } => {
            translate_until(stmt, level, out);
        },
        Statement::Call { program, .. } => {
            append_string(out, &pad);
            append_str(out, "// CALL ");
            append_string(out, program);
            append_str(out, "\n");
            assert(out@ =~= o0 + (p + "// CALL "@ + program@ + "\n"@));
        },
        _ => {
            append_string(out, &pad);
            append_str(out, "// Unsupported statement\n");
        },
    }
}

/// The Rust text of a program: its statements inside `fn main`.
pub fn translate_program(program: &Program) -> (r: String)
    requires
        1 + sizes(stmts_view(program.statements@)) < usize::MAX,
    ensures
        r@ == rust_program(stmts_view(program.statements@)),
{
    let mut out = crate::text::owned("fn main() {\n");
    translate_block(&program.statements, 1, &mut out);
    append_str(&mut out, "}\n");
    out
}

/// The pretty `Debug` text of a function.
pub fn translate_function(func: &Function) -> (r: String)
    ensures
        r@ == function_debug(func@),
{
    debug_function(func)
}

} // verus!
