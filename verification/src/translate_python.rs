//! Translation of functions to Python source text.
use crate::ir::{
    branches_view, stmts_view, ConditionV, Function, Literal, LiteralV, Source, SourceV, Statement,
    StatementV,
};
use crate::names::names_view;
use crate::text::{append_str, append_string, int_string, int_text, lower};
use vstd::prelude::*;

verus! {

broadcast use vstd::std_specs::vec::group_vec_axioms, crate::ir::lemma_stmts_view, crate::ir::lemma_branches_view;

/// A character that may stand in a name: an ASCII letter or digit, `-` or
/// `_`.
pub open spec fn name_char(c: char) -> bool {
    ||| 'a' <= c <= 'z'
    ||| 'A' <= c <= 'Z'
    ||| '0' <= c <= '9'
    ||| c == '-'
    ||| c == '_'
}

/// Text that reads as a variable's name: an ASCII letter, then name
/// characters.
pub open spec fn is_name(t: Seq<char>) -> bool {
    &&& t.len() > 0
    &&& ('a' <= t[0] <= 'z' || 'A' <= t[0] <= 'Z')
    &&& forall|i: int| 0 <= i < t.len() ==> name_char(#[trigger] t[i])
}

/// How Python writes a name: in lower case. Other text (a number) is kept.
pub open spec fn py_name(t: Seq<char>) -> Seq<char> {
    if is_name(t) {
        lower(t)
    } else {
        t
    }
}

pub open spec fn py_cond(c: ConditionV) -> Seq<char> {
    py_name(c.left) + " "@ + c.operator + " "@ + py_name(c.right)
}

/// What `print` shows: a number, the variable a name names, or quoted
/// text.
pub open spec fn py_literal(l: LiteralV) -> Seq<char> {
    match l {
        LiteralV::Int(i) => int_text(i as int),
        LiteralV::Str(s) => if is_name(s) {
            lower(s)
        } else {
            "'"@ + s + "'"@
        },
    }
}

pub open spec fn py_source(s: SourceV) -> Seq<char> {
    match s {
        SourceV::Literal(i) => int_text(i as int),
        SourceV::LiteralString(t) => "'"@ + t + "'"@,
        SourceV::Variable(v) => py_name(v),
    }
}

pub open spec fn py_names(ss: Seq<Seq<char>>) -> Seq<Seq<char>> {
    Seq::new(ss.len(), |i: int| py_name(ss[i]))
}

/// Names joined by ` + `.
pub open spec fn join_plus(ss: Seq<Seq<char>>) -> Seq<char>
    decreases ss.len(),
{
    if ss.len() == 0 {
        Seq::empty()
    } else if ss.len() == 1 {
        ss[0]
    } else {
        join_plus(ss.drop_last()) + " + "@ + ss.last()
    }
}

/// The Python text of a statement at an indentation.
pub open spec fn py_stmt(s: StatementV, ind: Seq<char>) -> Seq<char>
    decreases s, 2nat,
{
    match s {
        StatementV::Add { target, value } => ind + py_name(target) + " = "@ + py_name(target) + " + "@ + int_text(
            value as int,
        ) + "\n"@,
        StatementV::Move { source, target } => ind + py_name(target) + " = "@ + py_source(source) + "\n"@,
        StatementV::If { condition, then_branch, else_branch } => ind + "if "@ + py_cond(condition) + ":\n"@
            + py_block(then_branch, ind + "    "@) + match else_branch {
            Some(e) => ind + "else:\n"@ + py_block(e, ind + "    "@),
            None => Seq::empty(),
        },
        StatementV::Perform { name, body } => match name {
            Some(n) => ind + n + "()\n"@,
            None => py_block(body, ind),
        },
        StatementV::PerformUntil { condition, body } => ind + "while not ("@ + py_cond(condition) + "):\n"@
            + py_block(body, ind + "    "@),
        StatementV::Display { value } => ind + "print("@ + py_literal(value) + ")\n"@,
        StatementV::Evaluate { value, branches } => ind + "match "@ + py_name(value) + ":\n"@ + py_cases(branches, ind),
        StatementV::String { sources, into } => ind + py_name(into) + " = "@ + join_plus(py_names(sources)) + "\n"@,
        _ => Seq::empty(),
    }
}

/// The `case` arms of a `match`.
pub open spec fn py_cases(bs: Seq<(Seq<char>, Seq<StatementV>)>, ind: Seq<char>) -> Seq<char>
    decreases bs, 1nat,
{
    if bs.len() == 0 {
        Seq::empty()
    } else {
        ind + "    case "@ + bs[0].0 + ":\n"@ + py_block(bs[0].1, ind + "        "@) + py_cases(
            bs.drop_first(),
            ind,
        )
    }
}

pub open spec fn py_block(ss: Seq<StatementV>, ind: Seq<char>) -> Seq<char>
    decreases ss, 0nat,
{
    if ss.len() == 0 {
        Seq::empty()
    } else {
        py_stmt(ss[0], ind) + py_block(ss.drop_first(), ind)
    }
}

/// The Python function: a `def` of the function's name holding its
/// statements, or `pass` when it has none.
pub open spec fn py_function(name: Seq<char>, body: Seq<StatementV>) -> Seq<char> {
    "def "@ + name + "():\n"@ + if body.len() == 0 {
        "    pass\n"@
    } else {
        py_block(body, "    "@)
    }
}

fn deeper(ind: &String, extra: &str) -> (r: String)
    ensures
        r@ == ind@ + extra@,
{
    let mut r = ind.clone();
    append_str(&mut r, extra);
    r
}

pub(crate) fn is_name_exec(t: &Vec<char>) -> (r: bool)
    ensures
        r == is_name(t@),
{
    if t.len() == 0 {
        return false;
    }
    let c0 = t[0];
    if !(('a' <= c0 && c0 <= 'z') || ('A' <= c0 && c0 <= 'Z')) {
        return false;
    }
    let mut i: usize = 0;
    while i < t.len()
        invariant
            i <= t@.len(),
            forall|j: int| 0 <= j < i ==> name_char(#[trigger] t@[j]),
        decreases t.len() - i,
    {
        let c = t[i];
        if !(('a' <= c && c <= 'z') || ('A' <= c && c <= 'Z') || ('0' <= c && c <= '9') || c == '-' || c == '_') {
            return false;
        }
        i = i + 1;
    }
    true
}

fn py_name_exec(t: &String) -> (r: String)
    ensures
        r@ == py_name(t@),
{
    let cs = crate::text::chars_of_string(t);
    if is_name_exec(&cs) {
        let l = crate::text::to_lower(cs.as_slice());
        crate::text::string_of(l.as_slice())
    } else {
        t.clone()
    }
}

fn py_cond_exec(c: &crate::ir::Condition, out: &mut String)
    ensures
        final(out)@ == old(out)@ + py_cond(c@),
{
    let ghost o0 = out@;
    append_string(out, &py_name_exec(&c.left));
    append_str(out, " ");
    append_string(out, &c.operator);
    append_str(out, " ");
    append_string(out, &py_name_exec(&c.right));
    assert(out@ =~= o0 + py_cond(c@));
}

fn py_block_exec(ss: &Vec<Statement>, ind: &String, out: &mut String)
    ensures
        final(out)@ == old(out)@ + py_block(stmts_view(ss@), ind@),
    decreases ss, 0nat,
{
    let ghost sv = stmts_view(ss@);
    let ghost o0 = out@;
    let mut i: usize = 0;
    assert(sv.skip(0) =~= sv);
    assert(o0 + Seq::<char>::empty() =~= o0);
    while i < ss.len()
        invariant
            i <= ss@.len(),
            sv == stmts_view(ss@),
            out@ + py_block(sv.skip(i as int), ind@) == o0 + py_block(sv, ind@),
        decreases ss.len() - i,
    {
        proof {
            assert(sv.skip(i as int)[0] == sv[i as int]);
            assert(sv.skip(i as int).drop_first() =~= sv.skip(i + 1));
            assert(decreases_to!(*ss => ss@));
        }
        let ghost before = out@;
        py_statement(&ss[i], ind, out);
        assert(before + py_block(sv.skip(i as int), ind@) =~= out@ + py_block(sv.skip(i + 1), ind@));
        i = i + 1;
    }
    assert(sv.skip(i as int).len() == 0);
    assert(out@ + Seq::<char>::empty() =~= out@);
}

fn py_if(stmt: &Statement, ind: &String, out: &mut String)
    requires
        stmt is If,
    ensures
        final(out)@ == old(out)@ + py_stmt(stmt@, ind@),
    decreases stmt, 1nat,
{
    let ghost o0 = out@;
    match stmt {
        Statement::If { condition, then_branch, else_branch } => {
            let inner = deeper(ind, "    ");
            append_string(out, ind);
            append_str(out, "if ");
            py_cond_exec(condition, out);
            append_str(out, ":\n");
            py_block_exec(then_branch, &inner, out);
            let ghost o2 = out@;
            match else_branch {
                Some(e) => {
                    proof {
                        assert(decreases_to!(*stmt => *else_branch));
                    }
                    append_string(out, ind);
                    append_str(out, "else:\n");
                    py_block_exec(e, &inner, out);
                    assert(out@ =~= o2 + (ind@ + "else:\n"@ + py_block(stmts_view(e@), ind@ + "    "@)));
                },
                None => {
                    assert(out@ =~= o2 + Seq::<char>::empty());
                },
            }
            assert(o2 =~= o0 + (ind@ + "if "@ + py_cond(condition@) + ":\n"@ + py_block(stmts_view(then_branch@), ind@ + "    "@)));
            assert(out@ =~= o0 + py_stmt(stmt@, ind@));
        },
        _ => {},
    }
}

fn py_evaluate(stmt: &Statement, ind: &String, out: &mut String)
    requires
        stmt is Evaluate,
    ensures
        final(out)@ == old(out)@ + py_stmt(stmt@, ind@),
    decreases stmt, 1nat,
{
    let ghost o0 = out@;
    match stmt {
        Statement::Evaluate { value, branches } => {
            append_string(out, ind);
            append_str(out, "match ");
            append_string(out, &py_name_exec(value));
            append_str(out, ":\n");
            let ghost o1 = out@;
            let ghost bv = branches_view(branches@);
            let case_ind = deeper(ind, "    case ");
            let body_ind = deeper(ind, "        ");
            let mut k: usize = 0;
            assert(bv.skip(0) =~= bv);
            assert(o1 + Seq::<char>::empty() =~= o1);
            while k < branches.len()
                invariant
                    k <= branches@.len(),
                    *stmt is Evaluate,
                    stmt->branches == *branches,
                    bv == branches_view(branches@),
                    case_ind@ == ind@ + "    case "@,
                    body_ind@ == ind@ + "        "@,
                    out@ + py_cases(bv.skip(k as int), ind@) == o1 + py_cases(bv, ind@),
                decreases branches.len() - k,
            {
                proof {
                    assert(bv.skip(k as int)[0] == bv[k as int]);
                    assert(bv.skip(k as int).drop_first() =~= bv.skip(k + 1));
                    assert(decreases_to!(*stmt => *branches));
                    assert(decreases_to!(*branches => branches@));
                    assert(decreases_to!(branches@ => branches@[k as int]));
                    assert(decreases_to!(branches@[k as int] => branches@[k as int].1));
                }
                let ghost before = out@;
                append_string(out, &case_ind);
                append_string(out, &branches[k].0);
                append_str(out, ":\n");
                py_block_exec(&branches[k].1, &body_ind, out);
                assert(before + py_cases(bv.skip(k as int), ind@) =~= out@ + py_cases(bv.skip(k + 1), ind@));
                k = k + 1;
            }
            assert(bv.skip(k as int).len() == 0);
            assert(out@ + Seq::<char>::empty() =~= out@);
            assert(out@ =~= o0 + py_stmt(stmt@, ind@));
        },
        _ => {},
    }
}

fn join_plus_exec(ss: &Vec<String>) -> (r: String)
    ensures
        r@ == join_plus(names_view(ss@)),
{
    let mut r = String::new();
    let mut i: usize = 0;
    assert(names_view(ss@).take(0) =~= Seq::<Seq<char>>::empty());
    while i < ss.len()
        invariant
            i <= ss@.len(),
            r@ == join_plus(names_view(ss@).take(i as int)),
        decreases ss.len() - i,
    {
        if i > 0 {
            append_str(&mut r, " + ");
        }
        append_string(&mut r, &ss[i]);
        proof {
            let t = names_view(ss@).take(i + 1);
            assert(t.drop_last() =~= names_view(ss@).take(i as int));
            if i == 0 {
                assert(r@ =~= t[0]);
            }
        }
        i = i + 1;
    }
    assert(names_view(ss@).take(i as int) =~= names_view(ss@));
    r
}

/// Appends the Python text of a statement.
fn py_statement(stmt: &Statement, ind: &String, out: &mut String)
    ensures
        final(out)@ == old(out)@ + py_stmt(stmt@, ind@),
    decreases stmt, 2nat,
{
    let ghost o0 = out@;
    match stmt {
        Statement::Add { target, value } => {
            let t = py_name_exec(target);
            append_string(out, ind);
            append_string(out, &t);
            append_str(out, " = ");
            append_string(out, &t);
            append_str(out, " + ");
            append_string(out, &int_string(*value));
            append_str(out, "\n");
            assert(out@ =~= o0 + py_stmt(stmt@, ind@));
        },
        Statement::Move { source, target } => {
            let src = match source {
                Source::Literal(i) => int_string(*i),
                Source::LiteralString(t) => {
                    let mut q = crate::text::owned("'");
                    append_string(&mut q, t);
                    append_str(&mut q, "'");
                    q
                },
                Source::Variable(v) => py_name_exec(v),
            };
            append_string(out, ind);
            append_string(out, &py_name_exec(target));
            append_str(out, " = ");
            append_string(out, &src);
            append_str(out, "\n");
            assert(out@ =~= o0 + py_stmt(stmt@, ind@));
        },
        Statement::If { .. } => {
            py_if(stmt, ind, out);
        },
        Statement::Perform { name, body } => match name {
            Some(n) => {
                append_string(out, ind);
                append_string(out, n);
                append_str(out, "()\n");
                assert(out@ =~= o0 + py_stmt(stmt@, ind@));
            },
            None => {
                py_block_exec(body, ind, out);
            },
        },
        Statement::PerformUntil { condition, body } => {
            let inner = deeper(ind, "    ");
            append_string(out, ind);
            append_str(out, "while not (");
            py_cond_exec(condition, out);
            append_str(out, "):\n");
            py_block_exec(body, &inner, out);
            assert(out@ =~= o0 + py_stmt(stmt@, ind@));
        },
        Statement::Display { value } => {
            let text = match value {
                Literal::Int(i) => int_string(*i),
                Literal::String(t) => {
                    let cs = crate::text::chars_of_string(t);
                    if is_name_exec(&cs) {
                        let l = crate::text::to_lower(cs.as_slice());
                        crate::text::string_of(l.as_slice())
                    } else {
                        let mut q = crate::text::owned("'");
                        append_string(&mut q, t);
                        append_str(&mut q, "'");
                        q
                    }
                },
            };
            append_string(out, ind);
            append_str(out, "print(");
            append_string(out, &text);
            append_str(out, ")\n");
            assert(out@ =~= o0 + py_stmt(stmt@, ind@));
        },
        Statement::Evaluate { .. } => {
            py_evaluate(stmt, ind, out);
        },
        Statement::String { sources, into } => {
            let mut names: Vec<String> = Vec::new();
            let mut k: usize = 0;
            while k < sources.len()
                invariant
                    k <= sources@.len(),
                    names@.len() == k,
                    names_view(names@) == py_names(names_view(sources@)).take(k as int),
                decreases sources.len() - k,
            {
                let ghost n0 = names@;
                let x = py_name_exec(&sources[k]);
                names.push(x);
                assert forall|j: int| 0 <= j < k + 1 implies names_view(names@)[j] == py_names(names_view(sources@)).take(k + 1)[j] by {
                    if j < k {
                        assert(names@[j] == n0[j]);
                        assert(names_view(n0)[j] == py_names(names_view(sources@)).take(k as int)[j]);
                    }
                }
                assert(names_view(names@) =~= py_names(names_view(sources@)).take(k + 1));
                k = k + 1;
            }
            assert(py_names(names_view(sources@)).take(k as int) =~= py_names(names_view(sources@)));
            let joined = join_plus_exec(&names);
            append_string(out, ind);
            append_string(out, &py_name_exec(into));
            append_str(out, " = ");
            append_string(out, &joined);
            append_str(out, "\n");
            assert(out@ =~= o0 + py_stmt(stmt@, ind@));
        },
        _ => {
            assert(out@ =~= o0 + py_stmt(stmt@, ind@));
        },
    }
}

/// The Python text of a function.
pub fn translate(function: &Function) -> (r: String)
    ensures
        r@ == py_function(function.name@, stmts_view(function.body@)),
{
    let mut out = crate::text::owned("def ");
    append_string(&mut out, &function.name);
    append_str(&mut out, "():\n");
    if function.body.len() == 0 {
        append_str(&mut out, "    pass\n");
    } else {
        let ind = crate::text::owned("    ");
        py_block_exec(&function.body, &ind, &mut out);
    }
    out
}

/// The Python text of blocks joined is the text of each in turn.
pub proof fn law_block_text_joins(a: Seq<StatementV>, b: Seq<StatementV>, ind: Seq<char>)
    ensures
        py_block(a + b, ind) == py_block(a, ind) + py_block(b, ind),
    decreases a.len(),
{
    if a.len() == 0 {
        assert(a + b =~= b);
        assert(py_block(a, ind) + py_block(b, ind) =~= py_block(b, ind));
    } else {
        assert((a + b).drop_first() =~= a.drop_first() + b);
        law_block_text_joins(a.drop_first(), b, ind);
        assert(py_block(a + b, ind) =~= py_block(a, ind) + py_block(b, ind));
    }
}

/// An `IF` with an else-branch is written as the same `IF` without it,
/// followed by an `else:` line at the `IF`'s indentation and the text of
/// the else-branch's statements one level (four spaces) deeper.
pub proof fn law_else_branch_follows_then_branch(
    c: ConditionV,
    then_branch: Seq<StatementV>,
    else_branch: Seq<StatementV>,
    ind: Seq<char>,
)
    ensures
        py_stmt(StatementV::If { condition: c, then_branch, else_branch: Some(else_branch) }, ind) == py_stmt(
            StatementV::If { condition: c, then_branch, else_branch: None },
            ind,
        ) + ind + "else:\n"@ + py_block(else_branch, ind + "    "@),
        py_stmt(StatementV::If { condition: c, then_branch, else_branch: Some(else_branch) }, ind).len() > py_stmt(
            StatementV::If { condition: c, then_branch, else_branch: None },
            ind,
        ).len(),
{
    reveal_strlit("else:\n");
    let a = py_stmt(StatementV::If { condition: c, then_branch, else_branch: Some(else_branch) }, ind);
    let b = py_stmt(StatementV::If { condition: c, then_branch, else_branch: None }, ind);
    assert(b + Seq::<char>::empty() =~= b);
    assert(a =~= b + ind + "else:\n"@ + py_block(else_branch, ind + "    "@));
}

/// The then-branch of an `IF` is written right after its `if` line, one
/// level (four spaces) deeper: the text of an `IF` is the text of the same
/// `IF` with an empty then-branch with the then-branch's statements put in
/// after the `if` line.
pub proof fn law_then_branch_follows_if_line(
    c: ConditionV,
    then_branch: Seq<StatementV>,
    else_branch: Option<Seq<StatementV>>,
    ind: Seq<char>,
)
    ensures
        ({
            let head = py_stmt(StatementV::If { condition: c, then_branch: Seq::empty(), else_branch: None }, ind);
            let tail = match else_branch {
                Some(e) => ind + "else:\n"@ + py_block(e, ind + "    "@),
                None => Seq::<char>::empty(),
            };
            py_stmt(StatementV::If { condition: c, then_branch, else_branch }, ind) == head + py_block(
                then_branch,
                ind + "    "@,
            ) + tail
        }),
{
    let head = py_stmt(StatementV::If { condition: c, then_branch: Seq::empty(), else_branch: None }, ind);
    assert(py_block(Seq::<StatementV>::empty(), ind + "    "@) == Seq::<char>::empty());
    assert(head =~= ind + "if "@ + py_cond(c) + ":\n"@);
    let tail = match else_branch {
        Some(e) => ind + "else:\n"@ + py_block(e, ind + "    "@),
        None => Seq::<char>::empty(),
    };
    assert(py_stmt(StatementV::If { condition: c, then_branch, else_branch }, ind) =~= head + py_block(
        then_branch,
        ind + "    "@,
    ) + tail);
}

} // verus!
