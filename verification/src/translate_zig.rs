//! Translation of functions to Zig.
use crate::ir::{stmts_view, ConditionV, Function, Literal, LiteralV, Source, SourceV, Statement, StatementV};
use crate::text::{append_str, append_string, int_string, int_text};
use vstd::prelude::*;

verus! {

broadcast use vstd::std_specs::vec::group_vec_axioms, crate::ir::lemma_stmts_view;

pub open spec fn cond_text(c: ConditionV) -> Seq<char> {
    c.left + " "@ + c.operator + " "@ + c.right
}

/// What `std.debug.print` is given: a number, or the text as it stands.
pub open spec fn shown(l: LiteralV) -> Seq<char> {
    match l {
        LiteralV::Int(i) => int_text(i as int),
        LiteralV::Str(s) => s,
    }
}

pub open spec fn source_text(s: SourceV) -> Seq<char> {
    match s {
        SourceV::Literal(i) => int_text(i as int),
        SourceV::LiteralString(t) => "\""@ + t + "\""@,
        SourceV::Variable(v) => v,
    }
}

/// The Zig text of a statement at an indentation; statements with no
/// counterpart here give no text.
pub open spec fn stmt_text(s: StatementV, ind: Seq<char>) -> Seq<char>
    decreases s, 1nat,
{
    match s {
        StatementV::Add { target, value } => ind + target + " = "@ + target + " + "@ + int_text(value as int) + ";\n"@,
        StatementV::Move { source, target } => ind + target + " = "@ + source_text(source) + ";\n"@,
        StatementV::Display { value } => ind + "std.debug.print(\"{}\\n\", .{"@ + shown(value) + "});\n"@,
        StatementV::If { condition, then_branch, else_branch } => ind + "if ("@ + cond_text(condition) + ") {\n"@
            + block_text(then_branch, ind + "    "@) + match else_branch {
            Some(e) => ind + "} else {\n"@ + block_text(e, ind + "    "@),
            None => Seq::empty(),
        } + ind + "}\n"@,
        StatementV::Perform { name, body } => match name {
            Some(n) => ind + n + "();\n"@,
            None => block_text(body, ind),
        },
        StatementV::PerformUntil { condition, body } => ind + "while (!("@ + cond_text(condition) + ")) {\n"@
            + block_text(body, ind + "    "@) + ind + "}\n"@,
        _ => Seq::empty(),
    }
}

pub open spec fn block_text(ss: Seq<StatementV>, ind: Seq<char>) -> Seq<char>
    decreases ss, 0nat,
{
    if ss.len() == 0 {
        Seq::empty()
    } else {
        stmt_text(ss[0], ind) + block_text(ss.drop_first(), ind)
    }
}

/// The Zig function: `fn translated_func() void { .. }` holding the
/// statements indented by four spaces, or a comment when there are none.
pub open spec fn function_text(body: Seq<StatementV>) -> Seq<char> {
    "fn translated_func() void {\n"@ + (if body.len() == 0 {
        "    // nothing\n"@
    } else {
        block_text(body, "    "@)
    }) + "}\n"@
}

fn deeper(ind: &String) -> (r: String)
    ensures
        r@ == ind@ + "    "@,
{
    let mut r = ind.clone();
    append_str(&mut r, "    ");
    r
}

fn cond_exec(c: &crate::ir::Condition, out: &mut String)
    ensures
        final(out)@ == old(out)@ + cond_text(c@),
{
    let ghost o0 = out@;
    append_string(out, &c.left);
    append_str(out, " ");
    append_string(out, &c.operator);
    append_str(out, " ");
    append_string(out, &c.right);
    assert(out@ =~= o0 + cond_text(c@));
}

fn block_exec(ss: &Vec<Statement>, ind: &String, out: &mut String)
    ensures
        final(out)@ == old(out)@ + block_text(stmts_view(ss@), ind@),
    decreases ss, 0nat,
{
    let ghost sv = stmts_view(ss@);
    let ghost o0 = out@;
    let mut i: usize = 0;
    assert(sv.skip(0) =~= sv);
    assert(o0 + Seq::<char>::empty() =~= o0);
    while i < ss.len()
        invariant
            i <= ss@.len(),
            sv == stmts_view(ss@),
            out@ + block_text(sv.skip(i as int), ind@) == o0 + block_text(sv, ind@),
        decreases ss.len() - i,
    {
        proof {
            assert(sv.skip(i as int)[0] == sv[i as int]);
            assert(sv.skip(i as int).drop_first() =~= sv.skip(i + 1));
            assert(decreases_to!(*ss => ss@));
        }
        let ghost before = out@;
        statement_exec(&ss[i], ind, out);
        assert(before + block_text(sv.skip(i as int), ind@) =~= out@ + block_text(sv.skip(i + 1), ind@));
        i = i + 1;
    }
    assert(sv.skip(i as int).len() == 0);
    assert(out@ + Seq::<char>::empty() =~= out@);
}

fn quoted(t: &String) -> (r: String)
    ensures
        r@ == "\""@ + t@ + "\""@,
{
    let mut q = crate::text::owned("\"");
    append_string(&mut q, t);
    append_str(&mut q, "\"");
    q
}

fn if_exec(stmt: &Statement, ind: &String, out: &mut String)
    requires
        stmt is If,
    ensures
        final(out)@ == old(out)@ + stmt_text(stmt@, ind@),
    decreases stmt, 1nat,
{
    let ghost o0 = out@;
    match stmt {
        Statement::If { condition, then_branch, else_branch } => {
            let inner = deeper(ind);
            append_string(out, ind);
            append_str(out, "if (");
            cond_exec(condition, out);
            append_str(out, ") {\n");
            block_exec(then_branch, &inner, out);
            let ghost o2 = out@;
            match else_branch {
                Some(e) => {
                    proof {
                        assert(decreases_to!(*stmt => *else_branch));
                    }
                    append_string(out, ind);
                    append_str(out, "} else {\n");
                    block_exec(e, &inner, out);
                    assert(out@ =~= o2 + (ind@ + "} else {\n"@ + block_text(stmts_view(e@), ind@ + "    "@)));
                },
                None => {
                    assert(out@ =~= o2 + Seq::<char>::empty());
                },
            }
            append_string(out, ind);
            append_str(out, "}\n");
            assert(o2 =~= o0 + (ind@ + "if ("@ + cond_text(condition@) + ") {\n"@ + block_text(stmts_view(then_branch@), ind@ + "    "@)));
            assert(out@ =~= o0 + stmt_text(stmt@, ind@));
        },
        _ => {},
    }
}

fn until_exec(stmt: &Statement, ind: &String, out: &mut String)
    requires
        stmt is PerformUntil,
    ensures
        final(out)@ == old(out)@ + stmt_text(stmt@, ind@),
    decreases stmt, 1nat,
{
    let ghost o0 = out@;
    match stmt {
        Statement::PerformUntil { condition, body } => {
            let inner = deeper(ind);
            append_string(out, ind);
            append_str(out, "while (!(");
            cond_exec(condition, out);
            append_str(out, ")) {\n");
            block_exec(body, &inner, out);
            append_string(out, ind);
            append_str(out, "}\n");
            assert(out@ =~= o0 + stmt_text(stmt@, ind@));
        },
        _ => {},
    }
}

/// Appends the text of a statement.
fn statement_exec(stmt: &Statement, ind: &String, out: &mut String)
    ensures
        final(out)@ == old(out)@ + stmt_text(stmt@, ind@),
    decreases stmt, 2nat,
{
    let ghost o0 = out@;
    match stmt {
        Statement::Add { target, value } => {
            append_string(out, ind);
            append_string(out, target);
            append_str(out, " = ");
            append_string(out, target);
            append_str(out, " + ");
            append_string(out, &int_string(*value));
            append_str(out, ";\n");
            assert(out@ =~= o0 + stmt_text(stmt@, ind@));
        },
        Statement::Move { source, target } => {
            let src = match source {
                Source::Literal(i) => int_string(*i),
                Source::LiteralString(t) => quoted(t),
                Source::Variable(v) => v.clone(),
            };
            append_string(out, ind);
            append_string(out, target);
            append_str(out, " = ");
            append_string(out, &src);
            append_str(out, ";\n");
            assert(out@ =~= o0 + stmt_text(stmt@, ind@));
        },
        Statement::Display { value } => {
            let text = match value {
                Literal::Int(i) => int_string(*i),
                Literal::String(t) => t.clone(),
            };
            append_string(out, ind);
            append_str(out, "std.debug.print(\"{}\\n\", .{");
            append_string(out, &text);
            append_str(out, "});\n");
            assert(out@ =~= o0 + stmt_text(stmt@, ind@));
        },
        Statement::If { .. } => {
            if_exec(stmt, ind, out);
        },
        Statement::Perform { name, body } => match name {
            Some(n) => {
                append_string(out, ind);
                append_string(out, n);
                append_str(out, "();\n");
                assert(out@ =~= o0 + stmt_text(stmt@, ind@));
            },
            None => {
                block_exec(body, ind, out);
            },
        },
        Statement::PerformUntil { .. } => {
            until_exec(stmt, ind, out);
        },
        _ => {
            assert(out@ =~= o0 + stmt_text(stmt@, ind@));
        },
    }
}

/// The Zig text of a function. Every function is written under the name
/// `translated_func`.
pub fn translate(function: &Function) -> (r: String)
    ensures
        r@ == function_text(stmts_view(function.body@)),
{
    let mut out = crate::text::owned("fn translated_func() void {\n");
    if function.body.len() == 0 {
        append_str(&mut out, "    // nothing\n");
    } else {
        let ind = crate::text::owned("    ");
        block_exec(&function.body, &ind, &mut out);
    }
    append_str(&mut out, "}\n");
    assert(out@ =~= function_text(stmts_view(function.body@)));
    out
}

} // verus!
