//! Translation of functions to Kotlin, and, by the same rules, to Dart:
//! the two languages differ here only in the function header, the name of
//! the printing function and the `;` that ends a Dart statement.
use crate::ir::{stmts_view, ConditionV, Function, Literal, LiteralV, Source, SourceV, Statement, StatementV};
use crate::text::{append_str, append_string, int_string, int_text};
use crate::translate_python::{is_name, is_name_exec};
use vstd::prelude::*;

verus! {

broadcast use vstd::std_specs::vec::group_vec_axioms, crate::ir::lemma_stmts_view;

/// The end of a statement: `;` and a newline in Dart, a newline in Kotlin.
pub open spec fn eol(dart: bool) -> Seq<char> {
    if dart {
        ";\n"@
    } else {
        "\n"@
    }
}

/// A comparison operator: COBOL's `=` is written `==`.
pub open spec fn op_text(op: Seq<char>) -> Seq<char> {
    if op == "="@ {
        "=="@
    } else {
        op
    }
}

pub open spec fn cond_text(c: ConditionV) -> Seq<char> {
    c.left + " "@ + op_text(c.operator) + " "@ + c.right
}

/// What a print shows: a number, the variable a name names, or quoted text.
pub open spec fn shown(l: LiteralV) -> Seq<char> {
    match l {
        LiteralV::Int(i) => int_text(i as int),
        LiteralV::Str(s) => if is_name(s) {
            s
        } else {
            "\""@ + s + "\""@
        },
    }
}

pub open spec fn source_text(s: SourceV) -> Seq<char> {
    match s {
        SourceV::Literal(i) => int_text(i as int),
        SourceV::LiteralString(t) => "\""@ + t + "\""@,
        SourceV::Variable(v) => v,
    }
}

/// The text of a statement at an indentation; statements with no
/// counterpart here give no text.
pub open spec fn stmt_text(s: StatementV, ind: Seq<char>, dart: bool) -> Seq<char>
    decreases s, 1nat,
{
    match s {
        StatementV::Add { target, value } => ind + target + " += "@ + int_text(value as int) + eol(dart),
        StatementV::Subtract { value, target } => ind + target + " -= "@ + value + eol(dart),
        StatementV::Multiply { value, target } => ind + target + " *= "@ + value + eol(dart),
        StatementV::Divide { value, target } => ind + target + " /= "@ + value + eol(dart),
        StatementV::Move { source, target } => ind + target + " = "@ + source_text(source) + eol(dart),
        StatementV::Display { value } => ind + (if dart {
            "print("@
        } else {
            "println("@
        }) + shown(value) + ")"@ + eol(dart),
        StatementV::If { condition, then_branch, else_branch } => ind + "if ("@ + cond_text(condition) + ") {\n"@
            + block_text(then_branch, ind + "    "@, dart) + match else_branch {
            Some(e) => ind + "} else {\n"@ + block_text(e, ind + "    "@, dart),
            None => Seq::empty(),
        } + ind + "}\n"@,
        StatementV::Perform { name, body } => match name {
            Some(n) => ind + n + "()"@ + eol(dart),
            None => block_text(body, ind, dart),
        },
        StatementV::PerformUntil { condition, body } => ind + "while (!("@ + cond_text(condition) + ")) {\n"@
            + block_text(body, ind + "    "@, dart) + ind + "}\n"@,
        _ => Seq::empty(),
    }
}

pub open spec fn block_text(ss: Seq<StatementV>, ind: Seq<char>, dart: bool) -> Seq<char>
    decreases ss, 0nat,
{
    if ss.len() == 0 {
        Seq::empty()
    } else {
        stmt_text(ss[0], ind, dart) + block_text(ss.drop_first(), ind, dart)
    }
}

/// The function: its header, its statements indented by four spaces, and
/// a closing brace.
pub open spec fn function_text(name: Seq<char>, body: Seq<StatementV>, dart: bool) -> Seq<char> {
    (if dart {
        "void "@
    } else {
        "fun "@
    }) + name + "() {\n"@ + block_text(body, "    "@, dart) + "}\n"@
}

fn deeper(ind: &String) -> (r: String)
    ensures
        r@ == ind@ + "    "@,
{
    let mut r = ind.clone();
    append_str(&mut r, "    ");
    r
}

fn end_statement(out: &mut String, dart: bool)
    ensures
        final(out)@ == old(out)@ + eol(dart),
{
    if dart {
        append_str(out, ";\n");
    } else {
        append_str(out, "\n");
    }
}

fn cond_exec(c: &crate::ir::Condition, out: &mut String)
    ensures
        final(out)@ == old(out)@ + cond_text(c@),
{
    let ghost o0 = out@;
    append_string(out, &c.left);
    append_str(out, " ");
    if crate::text::string_eq_str(&c.operator, "=") {
        append_str(out, "==");
    } else {
        append_string(out, &c.operator);
    }
    append_str(out, " ");
    append_string(out, &c.right);
    assert(out@ =~= o0 + cond_text(c@));
}

fn block_exec(ss: &Vec<Statement>, ind: &String, dart: bool, out: &mut String)
    ensures
        final(out)@ == old(out)@ + block_text(stmts_view(ss@), ind@, dart),
    decreases ss, 0nat,
{
    let ghost sv = stmts_view(ss@);
    let ghost o0 = out@;
    let mut i: usize = 0;
    assert(sv.skip(0) =~= sv);
    assert(o0 + Seq::<char>::empty() =~= o0);
    while i < ss.len()
        invariant
            i <= ss@.len(),
            sv == stmts_view(ss@),
            out@ + block_text(sv.skip(i as int), ind@, dart) == o0 + block_text(sv, ind@, dart),
        decreases ss.len() - i,
    {
        proof {
            assert(sv.skip(i as int)[0] == sv[i as int]);
            assert(sv.skip(i as int).drop_first() =~= sv.skip(i + 1));
            assert(decreases_to!(*ss => ss@));
        }
        let ghost before = out@;
        statement_exec(&ss[i], ind, dart, out);
        assert(before + block_text(sv.skip(i as int), ind@, dart) =~= out@ + block_text(sv.skip(i + 1), ind@, dart));
        i = i + 1;
    }
    assert(sv.skip(i as int).len() == 0);
    assert(out@ + Seq::<char>::empty() =~= out@);
}

fn quoted(t: &String) -> (r: String)
    ensures
        r@ == "\""@ + t@ + "\""@,
{
    let mut q = crate::text::owned("\"");
    append_string(&mut q, t);
    append_str(&mut q, "\"");
    q
}

fn if_exec(stmt: &Statement, ind: &String, dart: bool, out: &mut String)
    requires
        stmt is If,
    ensures
        final(out)@ == old(out)@ + stmt_text(stmt@, ind@, dart),
    decreases stmt, 1nat,
{
    let ghost o0 = out@;
    match stmt {
        Statement::If { condition, then_branch, else_branch } => {
            let inner = deeper(ind);
            append_string(out, ind);
            append_str(out, "if (");
            cond_exec(condition, out);
            append_str(out, ") {\n");
            block_exec(then_branch, &inner, dart, out);
            let ghost o2 = out@;
            match else_branch {
                Some(e) => {
                    proof {
                        assert(decreases_to!(*stmt => *else_branch));
                    }
                    append_string(out, ind);
                    append_str(out, "} else {\n");
                    block_exec(e, &inner, dart, out);
                    assert(out@ =~= o2 + (ind@ + "} else {\n"@ + block_text(stmts_view(e@), ind@ + "    "@, dart)));
                },
                None => {
                    assert(out@ =~= o2 + Seq::<char>::empty());
                },
            }
            append_string(out, ind);
            append_str(out, "}\n");
            assert(o2 =~= o0 + (ind@ + "if ("@ + cond_text(condition@) + ") {\n"@ + block_text(stmts_view(then_branch@), ind@ + "    "@, dart)));
            assert(out@ =~= o0 + stmt_text(stmt@, ind@, dart));
        },
        _ => {},
    }
}

fn until_exec(stmt: &Statement, ind: &String, dart: bool, out: &mut String)
    requires
        stmt is PerformUntil,
    ensures
        final(out)@ == old(out)@ + stmt_text(stmt@, ind@, dart),
    decreases stmt, 1nat,
{
    let ghost o0 = out@;
    match stmt {
        Statement::PerformUntil { condition, body } => {
            let inner = deeper(ind);
            append_string(out, ind);
            append_str(out, "while (!(");
            cond_exec(condition, out);
            append_str(out, ")) {\n");
            block_exec(body, &inner, dart, out);
            append_string(out, ind);
            append_str(out, "}\n");
            assert(out@ =~= o0 + stmt_text(stmt@, ind@, dart));
        },
        _ => {},
    }
}

/// Appends the text of a statement.
fn statement_exec(stmt: &Statement, ind: &String, dart: bool, out: &mut String)
    ensures
        final(out)@ == old(out)@ + stmt_text(stmt@, ind@, dart),
    decreases stmt, 2nat,
{
    let ghost o0 = out@;
    match stmt {
        Statement::Add { target, value } => {
            append_string(out, ind);
            append_string(out, target);
            append_str(out, " += ");
            append_string(out, &int_string(*value));
            end_statement(out, dart);
            assert(out@ =~= o0 + stmt_text(stmt@, ind@, dart));
        },
        Statement::Subtract { value, target } => {
            append_string(out, ind);
            append_string(out, target);
            append_str(out, " -= ");
            append_string(out, value);
            end_statement(out, dart);
            assert(out@ =~= o0 + stmt_text(stmt@, ind@, dart));
        },
        Statement::Multiply { value, target } => {
            append_string(out, ind);
            append_string(out, target);
            append_str(out, " *= ");
            append_string(out, value);
            end_statement(out, dart);
            assert(out@ =~= o0 + stmt_text(stmt@, ind@, dart));
        },
        Statement::Divide { value, target } => {
            append_string(out, ind);
            append_string(out, target);
            append_str(out, " /= ");
            append_string(out, value);
            end_statement(out, dart);
            assert(out@ =~= o0 + stmt_text(stmt@, ind@, dart));
        },
        Statement::Move { source, target } => {
            let src = match source {
                Source::Literal(i) => int_string(*i),
                Source::LiteralString(t) => quoted(t),
                Source::Variable(v) => v.clone(),
            };
            append_string(out, ind);
            append_string(out, target);
            append_str(out, " = ");
            append_string(out, &src);
            end_statement(out, dart);
            assert(out@ =~= o0 + stmt_text(stmt@, ind@, dart));
        },
        Statement::Display { value } => {
            let text = match value {
                Literal::Int(i) => int_string(*i),
                Literal::String(t) => {
                    let cs = crate::text::chars_of_string(t);
                    if is_name_exec(&cs) {
                        t.clone()
                    } else {
                        quoted(t)
                    }
                },
            };
            append_string(out, ind);
            if dart {
                append_str(out, "print(");
            } else {
                append_str(out, "println(");
            }
            append_string(out, &text);
            append_str(out, ")");
            end_statement(out, dart);
            assert(out@ =~= o0 + stmt_text(stmt@, ind@, dart));
        },
        Statement::If { .. } => {
            if_exec(stmt, ind, dart, out);
        },
        Statement::Perform { name, body } => match name {
            Some(n) => {
                append_string(out, ind);
                append_string(out, n);
                append_str(out, "()");
                end_statement(out, dart);
                assert(out@ =~= o0 + stmt_text(stmt@, ind@, dart));
            },
            None => {
                block_exec(body, ind, dart, out);
            },
        },
        Statement::PerformUntil { .. } => {
            until_exec(stmt, ind, dart, out);
        },
        _ => {
            assert(out@ =~= o0 + stmt_text(stmt@, ind@, dart));
        },
    }
}

/// The text of a function in Kotlin (`dart` false) or Dart (`dart` true).
pub(crate) fn function_exec(function: &Function, dart: bool) -> (r: String)
    ensures
        r@ == function_text(function.name@, stmts_view(function.body@), dart),
{
    let mut out = if dart {
        crate::text::owned("void ")
    } else {
        crate::text::owned("fun ")
    };
    append_string(&mut out, &function.name);
    append_str(&mut out, "() {\n");
    let ind = crate::text::owned("    ");
    block_exec(&function.body, &ind, dart, &mut out);
    append_str(&mut out, "}\n");
    assert(out@ =~= function_text(function.name@, stmts_view(function.body@), dart));
    out
}

/// The Kotlin text of a function: `fun name() { .. }`.
pub fn translate(function: &Function) -> (r: String)
    ensures
        r@ == function_text(function.name@, stmts_view(function.body@), false),
{
    function_exec(function, false)
}

} // verus!
