//! A line-oriented parser for COBOL procedure statements: one statement
//! per line, `PERFORM ... END-PERFORM` and `PERFORM VARYING` bodies,
//! `IF ... [ELSE ...] END-IF` branches; division and section headers,
//! blank lines and comment lines are skipped.
use crate::ir::{
    stmts_view, Condition, ConditionV, Expression, ExpressionV, Literal, LiteralV, Source, SourceV,
    Statement, StatementV,
};
use crate::text::{
    join_spaced, lines, lower, parse_int, remove_char, seqs_view, starts_with, trim, upper, words,
};
use vstd::prelude::*;

verus! {

broadcast use vstd::std_specs::vec::group_vec_axioms, crate::ir::lemma_stmts_view;

/// Why a source text could not be parsed.
#[derive(Debug)]
pub struct ParseError {
    pub message: String,
}

// ---------------------------------------------------------------------
// Grammar
// ---------------------------------------------------------------------

/// A source line without byte-order marks and surrounding white space.
pub open spec fn clean_line(raw: Seq<char>) -> Seq<char> {
    trim(remove_char(raw, '\u{feff}'))
}

/// The words of a statement line, full stops removed.
pub open spec fn stmt_words(line: Seq<char>) -> Seq<Seq<char>> {
    words(remove_char(line, '.'))
}

/// An expression of tokens: a number or a name, or `left op rest` with
/// the rest parsed the same way; anything else is 0.
pub open spec fn expr_of(ts: Seq<Seq<char>>) -> ExpressionV
    decreases ts.len(),
{
    if ts.len() == 1 {
        match parse_int(ts[0]) {
            Some(n) => ExpressionV::Literal(LiteralV::Int(n)),
            None => ExpressionV::Variable(ts[0]),
        }
    } else if ts.len() >= 3 {
        ExpressionV::Binary {
            left: Box::new(expr_of(ts.take(1))),
            operator: ts[1],
            right: Box::new(expr_of(ts.skip(2))),
        }
    } else {
        ExpressionV::Literal(LiteralV::Int(0))
    }
}

/// A loop condition of words: left, operator (`=` when missing), right
/// (`0` when missing).
pub open spec fn cond_of(ws: Seq<Seq<char>>) -> ConditionV {
    ConditionV {
        left: if ws.len() > 0 { ws[0] } else { Seq::empty() },
        operator: if ws.len() > 1 { ws[1] } else { "="@ },
        right: if ws.len() > 2 { ws[2] } else { "0"@ },
    }
}

/// The statement of one line; `None` when the line's keyword asks for
/// more words than it has.
pub open spec fn stmt_of(line: Seq<char>) -> Option<StatementV> {
    let ws = stmt_words(line);
    if ws.len() == 0 {
        Some(StatementV::NoOp)
    } else {
        let kw = lower(ws[0]);
        if kw == "display"@ {
            Some(StatementV::Display { value: LiteralV::Str(join_spaced(ws.skip(1))) })
        } else if kw == "move"@ {
            if ws.len() >= 4 {
                Some(StatementV::Move { source: SourceV::Variable(ws[1]), target: ws[3] })
            } else {
                None
            }
        } else if kw == "add"@ {
            if ws.len() >= 4 {
                Some(
                    StatementV::Add {
                        value: match parse_int(ws[1]) {
                            Some(v) => v,
                            None => 0,
                        },
                        target: ws[3],
                    },
                )
            } else {
                None
            }
        } else if kw == "compute"@ {
            if ws.len() >= 3 {
                Some(StatementV::Compute { target: ws[1], expr: expr_of(ws.skip(3)) })
            } else {
                None
            }
        } else if kw == "if"@ {
            if ws.len() >= 4 {
                Some(
                    StatementV::If {
                        condition: ConditionV { left: ws[1], operator: ws[2], right: ws[3] },
                        then_branch: Seq::empty(),
                        else_branch: None,
                    },
                )
            } else {
                None
            }
        } else if kw == "call"@ {
            if ws.len() >= 2 {
                Some(StatementV::Call { program: remove_char(ws[1], '"'), using_args: Seq::empty() })
            } else {
                None
            }
        } else if kw == "perform"@ {
            if ws.len() >= 2 {
                Some(StatementV::Perform { name: Some(ws[1]), body: Seq::empty() })
            } else {
                None
            }
        } else {
            Some(StatementV::NoOp)
        }
    }
}

pub open spec fn is_header(up: Seq<char>) -> bool {
    ||| starts_with(up, "IDENTIFICATION DIVISION"@)
    ||| starts_with(up, "ENVIRONMENT DIVISION"@)
    ||| starts_with(up, "DATA DIVISION"@)
    ||| starts_with(up, "PROCEDURE DIVISION"@)
    ||| starts_with(up, "WORKING-STORAGE SECTION"@)
    ||| starts_with(up, "FILE SECTION"@)
    ||| starts_with(up, "LINKAGE SECTION"@)
}

pub open spec fn is_end_perform(line: Seq<char>) -> bool {
    upper(line) == "END-PERFORM"@ || upper(line) == "END-PERFORM."@
}

pub open spec fn is_else(line: Seq<char>) -> bool {
    upper(line) == "ELSE"@ || upper(line) == "ELSE."@
}

pub open spec fn is_end_if(line: Seq<char>) -> bool {
    upper(line) == "END-IF"@ || upper(line) == "END-IF."@
}

/// The statements of the lines of a `PERFORM` body from line `i` up to
/// the `END-PERFORM` line (or the end), one per line, and where it stops.
pub open spec fn perform_body(ls: Seq<Seq<char>>, i: int) -> Option<(Seq<StatementV>, int)>
    decreases ls.len() - i,
{
    if i < 0 || i >= ls.len() {
        Some((Seq::empty(), ls.len() as int))
    } else if is_end_perform(trim(ls[i])) {
        Some((Seq::empty(), i))
    } else {
        match (stmt_of(trim(ls[i])), perform_body(ls, i + 1)) {
            (Some(s), Some(rest)) => Some((seq![s] + rest.0, rest.1)),
            _ => None,
        }
    }
}

pub open spec fn prepend(
    acc: Seq<StatementV>,
    r: Option<(Seq<StatementV>, int, nat)>,
) -> Option<(Seq<StatementV>, int, nat)> {
    match r {
        Some(x) => Some((acc + x.0, x.1, x.2)),
        None => None,
    }
}

/// Where parsing goes on after a construct that ended at `j` and began at
/// line `i`: after `i`, and not past the end.
pub open spec fn resume(j: int, i: int, len: int) -> int {
    if j <= i {
        i + 1
    } else if j > len {
        len
    } else {
        j
    }
}

/// A `PERFORM VARYING` line at `i` with the body lines after it, and the
/// line after its `END-PERFORM`.
pub open spec fn varying_stmt(ls: Seq<Seq<char>>, i: int) -> Option<(StatementV, int)> {
    let ws = words(clean_line(ls[i]));
    if ws.len() < 8 {
        None
    } else {
        match perform_body(ls, i + 1) {
            Some(b) => Some(
                (
                    StatementV::PerformVarying {
                        variable: ws[2],
                        from: ExpressionV::Literal(
                            LiteralV::Int(
                                match parse_int(ws[4]) {
                                    Some(v) => v,
                                    None => 0,
                                },
                            ),
                        ),
                        by: ExpressionV::Literal(
                            LiteralV::Int(
                                match parse_int(ws[6]) {
                                    Some(v) => v,
                                    None => 1,
                                },
                            ),
                        ),
                        until: cond_of(ws.skip(8)),
                        body: b.0,
                    },
                    b.1,
                ),
            ),
            None => None,
        }
    }
}

/// A `PERFORM` line at `i` with the body lines after it, and the last
/// line it takes (its `END-PERFORM`).
pub open spec fn perform_stmt(ls: Seq<Seq<char>>, i: int) -> Option<(StatementV, int)> {
    match perform_body(ls, i + 1) {
        Some(b) => Some((StatementV::Perform { name: None, body: b.0 }, b.1)),
        None => None,
    }
}

/// The line is an `IF`: its first statement word is `if`.
pub open spec fn is_if_line(line: Seq<char>) -> bool {
    stmt_words(line).len() > 0 && lower(stmt_words(line)[0]) == "if"@
}

/// An `IF` line at `i` with its branches, and the last line it takes
/// (its `END-IF`).
pub open spec fn if_stmt(ls: Seq<Seq<char>>, i: int) -> Option<(StatementV, int)>
    decreases ls.len() - i, 0nat,
{
    let ws = stmt_words(clean_line(ls[i]));
    if i < 0 || i >= ls.len() || ws.len() < 4 {
        None
    } else {
        let cond = ConditionV { left: ws[1], operator: ws[2], right: ws[3] };
        match block(ls, i + 1, true) {
            Some(t) => if t.2 == 1 {
                match block(ls, resume(t.1 + 1, i, ls.len() as int), true) {
                    Some(e) => Some(
                        (
                            StatementV::If {
                                condition: cond,
                                then_branch: t.0,
                                else_branch: Some(e.0),
                            },
                            e.1,
                        ),
                    ),
                    None => None,
                }
            } else {
                Some(
                    (
                        StatementV::If { condition: cond, then_branch: t.0, else_branch: None },
                        t.1,
                    ),
                )
            },
            None => None,
        }
    }
}

/// The statements of the lines from `i` on, and where and why they stop:
/// 0 at the end of the text; inside an `IF` (`nested`), 1 at an `ELSE`
/// line and 2 at an `END-IF` line. `None` when a line is too short for
/// its keyword.
pub open spec fn block(ls: Seq<Seq<char>>, i: int, nested: bool) -> Option<(Seq<StatementV>, int, nat)>
    decreases ls.len() - i, 1nat,
{
    if i < 0 || i >= ls.len() {
        Some((Seq::empty(), ls.len() as int, 0))
    } else {
        let line = clean_line(ls[i]);
        let up = upper(line);
        if line.len() == 0 || line[0] == '*' {
            block(ls, i + 1, nested)
        } else if nested && is_else(line) {
            Some((Seq::empty(), i, 1))
        } else if nested && is_end_if(line) {
            Some((Seq::empty(), i, 2))
        } else if is_header(up) {
            block(ls, i + 1, nested)
        } else {
            let r = if starts_with(up, "PERFORM VARYING"@) {
                varying_stmt(ls, i)
            } else if up == "PERFORM"@ {
                perform_stmt(ls, i)
            } else if is_if_line(line) {
                if_stmt(ls, i)
            } else {
                match stmt_of(line) {
                    Some(st) => Some((st, i)),
                    None => None,
                }
            };
            match r {
                Some(x) => prepend(seq![x.0], block(ls, resume(x.1 + 1, i, ls.len() as int), nested)),
                None => None,
            }
        }
    }
}

/// The statements of a source text; `None` when a line is too short for
/// its keyword.
pub open spec fn parse_spec(input: Seq<char>) -> Option<Seq<StatementV>> {
    match block(lines(input), 0, false) {
        Some(r) => Some(r.0),
        None => None,
    }
}


// ---------------------------------------------------------------------
// Parsing
// ---------------------------------------------------------------------

fn words_vec(s: &[char]) -> (r: Vec<Vec<char>>)
    ensures
        seqs_view(r@) == words(s@),
{
    let r = crate::text::split_words(s);
    assert(seqs_view(r@) =~= words(s@));
    r
}

fn copy_chars(v: &Vec<char>) -> (r: Vec<char>)
    ensures
        r@ == v@,
{
    let r = crate::text::slice_of(v.as_slice(), 0, v.len());
    assert(r@ =~= v@);
    r
}

/// The words from position `k` on.
fn tail_words(ws: &Vec<Vec<char>>, k: usize) -> (r: Vec<Vec<char>>)
    requires
        k <= ws@.len(),
    ensures
        seqs_view(r@) == seqs_view(ws@).skip(k as int),
{
    let mut r: Vec<Vec<char>> = Vec::new();
    let mut j: usize = k;
    while j < ws.len()
        invariant
            k <= j <= ws@.len(),
            seqs_view(r@) == seqs_view(ws@).subrange(k as int, j as int),
        decreases ws.len() - j,
    {
        let ghost r0 = r@;
        r.push(copy_chars(&ws[j]));
        assert(seqs_view(r@) =~= seqs_view(r0).push(ws@[j as int]@));
        assert(seqs_view(ws@).subrange(k as int, j + 1) =~= seqs_view(ws@).subrange(k as int, j as int).push(ws@[j as int]@));
        j = j + 1;
    }
    assert(seqs_view(ws@).subrange(k as int, j as int) =~= seqs_view(ws@).skip(k as int));
    r
}

fn token_expression(t: &Vec<char>) -> (r: Expression)
    ensures
        r@ == expr_of(seq![t@]),
{
    match crate::text::parse_i64(t.as_slice()) {
        Some(n) => Expression::Literal(Literal::Int(n)),
        None => Expression::Variable(crate::text::string_of(t.as_slice())),
    }
}

/// The expression of the tokens from position `k` on.
fn parse_expression(ts: &Vec<Vec<char>>, k: usize) -> (r: Expression)
    requires
        k <= ts@.len(),
    ensures
        r@ == expr_of(seqs_view(ts@).skip(k as int)),
    decreases ts@.len() - k,
{
    let ghost rest = seqs_view(ts@).skip(k as int);
    let n = ts.len() - k;
    if n == 1 {
        assert(rest =~= seq![ts@[k as int]@]);
        token_expression(&ts[k])
    } else if n >= 3 {
        let left = token_expression(&ts[k]);
        let operator = crate::text::string_of(ts[k + 1].as_slice());
        let right = parse_expression(ts, k + 2);
        proof {
            assert(rest.take(1) =~= seq![ts@[k as int]@]);
            assert(rest.skip(2) =~= seqs_view(ts@).skip(k + 2));
            assert(rest[1] == ts@[k + 1]@);
        }
        Expression::Binary { left: Box::new(left), operator, right: Box::new(right) }
    } else {
        Expression::Literal(Literal::Int(0))
    }
}

fn parse_condition_words(ws: &Vec<Vec<char>>, k: usize) -> (r: Condition)
    requires
        k <= ws@.len(),
    ensures
        r@ == cond_of(seqs_view(ws@).skip(k as int)),
{
    let n = ws.len() - k;
    let left = if n > 0 {
        crate::text::string_of(ws[k].as_slice())
    } else {
        String::new()
    };
    let operator = if n > 1 {
        crate::text::string_of(ws[k + 1].as_slice())
    } else {
        crate::text::owned("=")
    };
    let right = if n > 2 {
        crate::text::string_of(ws[k + 2].as_slice())
    } else {
        crate::text::owned("0")
    };
    Condition { left, operator, right }
}

pub open spec fn opt_stmt(r: Option<Statement>) -> Option<StatementV> {
    match r {
        Some(s) => Some(s@),
        None => None,
    }
}

fn int_or(t: &Vec<char>, d: i64) -> (r: i64)
    ensures
        r == match parse_int(t@) {
            Some(v) => v,
            None => d,
        },
{
    match crate::text::parse_i64(t.as_slice()) {
        Some(v) => v,
        None => d,
    }
}

/// The statement of one line, or `None` when the line's keyword asks
/// for more words than it has.
pub fn parse_statement(line: &[char]) -> (r: Option<Statement>)
    ensures
        opt_stmt(r) == stmt_of(line@),
{
    let clean = crate::text::without_char(line, '.');
    let ws = words_vec(clean.as_slice());
    let ghost sw = stmt_words(line@);
    assert(sw == seqs_view(ws@));
    assert(forall|j: int| 0 <= j < sw.len() ==> #[trigger] sw[j] == ws@[j]@);
    if ws.len() == 0 {
        return Some(Statement::NoOp);
    }
    let kw = crate::text::to_lower(ws[0].as_slice());
    assert(kw@ == lower(sw[0]));
    if crate::text::chars_eq_str(kw.as_slice(), "display") {
        let tail = tail_words(&ws, 1);
        assert(seqs_view(tail@) == sw.skip(1));
        let text = crate::text::join_words(tail.as_slice());
        Some(Statement::Display { value: Literal::String(crate::text::string_of(text.as_slice())) })
    } else if crate::text::chars_eq_str(kw.as_slice(), "move") {
        if ws.len() >= 4 {
            Some(
                Statement::Move {
                    source: Source::Variable(crate::text::string_of(ws[1].as_slice())),
                    target: crate::text::string_of(ws[3].as_slice()),
                },
            )
        } else {
            None
        }
    } else if crate::text::chars_eq_str(kw.as_slice(), "add") {
        if ws.len() >= 4 {
            Some(
                Statement::Add {
                    value: int_or(&ws[1], 0),
                    target: crate::text::string_of(ws[3].as_slice()),
                },
            )
        } else {
            None
        }
    } else if crate::text::chars_eq_str(kw.as_slice(), "compute") {
        if ws.len() >= 3 {
            Some(
                Statement::Compute {
                    target: crate::text::string_of(ws[1].as_slice()),
                    expr: parse_expression(&ws, 3),
                },
            )
        } else {
            None
        }
    } else if crate::text::chars_eq_str(kw.as_slice(), "if") {
        if ws.len() >= 4 {
            let st = Statement::If {
                condition: Condition {
                    left: crate::text::string_of(ws[1].as_slice()),
                    operator: crate::text::string_of(ws[2].as_slice()),
                    right: crate::text::string_of(ws[3].as_slice()),
                },
                then_branch: Vec::new(),
                else_branch: None,
            };
            assert(stmts_view(Seq::<Statement>::empty()) =~= Seq::<StatementV>::empty());
            Some(st)
        } else {
            None
        }
    } else if crate::text::chars_eq_str(kw.as_slice(), "call") {
        if ws.len() >= 2 {
            let p = crate::text::without_char(ws[1].as_slice(), '"');
            let st = Statement::Call { program: crate::text::string_of(p.as_slice()), using_args: Vec::new() };
            assert(crate::names::names_view(Seq::<String>::empty()) =~= Seq::<Seq<char>>::empty());
            Some(st)
        } else {
            None
        }
    } else if crate::text::chars_eq_str(kw.as_slice(), "perform") {
        if ws.len() >= 2 {
            let st = Statement::Perform { name: Some(crate::text::string_of(ws[1].as_slice())), body: Vec::new() };
            assert(stmts_view(Seq::<Statement>::empty()) =~= Seq::<StatementV>::empty());
            Some(st)
        } else {
            None
        }
    } else {
        Some(Statement::NoOp)
    }
}

pub open spec fn opt_body(r: Option<(Vec<Statement>, usize)>) -> Option<(Seq<StatementV>, int)> {
    match r {
        Some(x) => Some((stmts_view(x.0@), x.1 as int)),
        None => None,
    }
}

/// The statements of a `PERFORM` body from line `i` on.
fn perform_lines(ls: &Vec<Vec<char>>, i: usize) -> (r: Option<(Vec<Statement>, usize)>)
    ensures
        opt_body(r) == perform_body(seqs_view(ls@), i as int),
        r matches Some(x) ==> x.1 <= ls@.len(),
{
    let ghost lv = seqs_view(ls@);
    let ghost target = perform_body(lv, i as int);
    let mut acc: Vec<Statement> = Vec::new();
    let mut k: usize = i;
    proof {
        assert(stmts_view(acc@) =~= Seq::<StatementV>::empty());
        assert(target == match perform_body(lv, k as int) {
            Some(x) => Some((stmts_view(acc@) + x.0, x.1)),
            None => None,
        }) by {
            match perform_body(lv, k as int) {
                Some(x) => { assert(stmts_view(acc@) + x.0 =~= x.0); },
                None => {},
            }
        }
    }
    while k < ls.len()
        invariant
            lv == seqs_view(ls@),
            i <= k,
            target == perform_body(lv, i as int),
            target == match perform_body(lv, k as int) {
                Some(x) => Some((stmts_view(acc@) + x.0, x.1)),
                None => None,
            },
        decreases ls.len() - k,
    {
        let inner = crate::text::trim_chars(ls[k].as_slice());
        let up = crate::text::to_upper(inner.as_slice());
        assert(lv[k as int] == ls@[k as int]@);
        assert(inner@ == trim(lv[k as int]));
        assert(up@ == upper(trim(lv[k as int])));
        if crate::text::chars_eq_str(up.as_slice(), "END-PERFORM") || crate::text::chars_eq_str(
            up.as_slice(),
            "END-PERFORM.",
        ) {
            assert(stmts_view(acc@) + Seq::<StatementV>::empty() =~= stmts_view(acc@));
            return Some((acc, k));
        }
        match parse_statement(inner.as_slice()) {
            Some(st) => {
                let ghost a0 = acc@;
                acc.push(st);
                proof {
                    crate::ir::lemma_stmts_view_push(a0, st);
                    match perform_body(lv, k + 1) {
                        Some(x) => {
                            assert(stmts_view(a0) + (seq![st@] + x.0) =~= stmts_view(acc@) + x.0);
                        },
                        None => {},
                    }
                }
                k = k + 1;
            },
            None => {
                return None;
            },
        }
    }
    assert(stmts_view(acc@) + Seq::<StatementV>::empty() =~= stmts_view(acc@));
    Some((acc, ls.len()))
}

pub open spec fn opt_block(r: Option<(Vec<Statement>, usize, u8)>) -> Option<(Seq<StatementV>, int, nat)> {
    match r {
        Some(x) => Some((stmts_view(x.0@), x.1 as int, x.2 as nat)),
        None => None,
    }
}

proof fn lemma_prepend(a: Seq<StatementV>, b: Seq<StatementV>, r: Option<(Seq<StatementV>, int, nat)>)
    ensures
        prepend(a, prepend(b, r)) == prepend(a + b, r),
{
    match r {
        Some(x) => {
            assert(a + (b + x.0) =~= (a + b) + x.0);
        },
        None => {},
    }
}

fn resume_at(j: usize, i: usize, len: usize) -> (r: usize)
    requires
        i < len,
    ensures
        r as int == resume(j as int, i as int, len as int),
{
    if j <= i {
        i + 1
    } else if j > len {
        len
    } else {
        j
    }
}

fn resume_after(j: usize, i: usize, len: usize) -> (r: usize)
    requires
        i < len,
        j <= len,
    ensures
        r as int == resume(j + 1, i as int, len as int),
{
    if j >= len {
        len
    } else {
        resume_at(j + 1, i, len)
    }
}

fn is_header_exec(up: &[char]) -> (r: bool)
    ensures
        r == is_header(up@),
{
    crate::text::starts_with_str(up, "IDENTIFICATION DIVISION") || crate::text::starts_with_str(
        up,
        "ENVIRONMENT DIVISION",
    ) || crate::text::starts_with_str(up, "DATA DIVISION") || crate::text::starts_with_str(
        up,
        "PROCEDURE DIVISION",
    ) || crate::text::starts_with_str(up, "WORKING-STORAGE SECTION")
        || crate::text::starts_with_str(up, "FILE SECTION") || crate::text::starts_with_str(
        up,
        "LINKAGE SECTION",
    )
}

pub open spec fn opt_next(r: Option<(Statement, usize)>) -> Option<(StatementV, int)> {
    match r {
        Some(x) => Some((x.0@, x.1 as int)),
        None => None,
    }
}

fn varying_at(ls: &Vec<Vec<char>>, k: usize) -> (r: Option<(Statement, usize)>)
    requires
        k < ls@.len(),
    ensures
        opt_next(r) == varying_stmt(seqs_view(ls@), k as int),
        r matches Some(x) ==> x.1 <= ls@.len(),
{
    let n = ls.len();
    let ghost lv = seqs_view(ls@);
    let line0 = crate::text::without_char(ls[k].as_slice(), '\u{feff}');
    let line = crate::text::trim_chars(line0.as_slice());
    assert(line@ == clean_line(lv[k as int]));
    let ws = words_vec(line.as_slice());
    if ws.len() < 8 {
        return None;
    }
    match perform_lines(ls, k + 1) {
        Some((body, end)) => {
            let st = Statement::PerformVarying {
                variable: crate::text::string_of(ws[2].as_slice()),
                from: Expression::Literal(Literal::Int(int_or(&ws[4], 0))),
                by: Expression::Literal(Literal::Int(int_or(&ws[6], 1))),
                until: parse_condition_words(&ws, 8),
                body,
            };
            Some((st, end))
        },
        None => None,
    }
}

fn perform_at(ls: &Vec<Vec<char>>, k: usize) -> (r: Option<(Statement, usize)>)
    requires
        k < ls@.len(),
    ensures
        opt_next(r) == perform_stmt(seqs_view(ls@), k as int),
        r matches Some(x) ==> x.1 <= ls@.len(),
{
    let n = ls.len();
    match perform_lines(ls, k + 1) {
        Some((body, end)) => Some((Statement::Perform { name: None, body }, end)),
        None => None,
    }
}

fn if_at(ls: &Vec<Vec<char>>, k: usize) -> (r: Option<(Statement, usize)>)
    requires
        k < ls@.len(),
    ensures
        opt_next(r) == if_stmt(seqs_view(ls@), k as int),
        r matches Some(x) ==> x.1 <= ls@.len(),
    decreases ls@.len() - k, 0nat,
{
    let ghost lv = seqs_view(ls@);
    let n = ls.len();
    let line0 = crate::text::without_char(ls[k].as_slice(), '\u{feff}');
    let line = crate::text::trim_chars(line0.as_slice());
    assert(line@ == clean_line(lv[k as int]));
    let sclean = crate::text::without_char(line.as_slice(), '.');
    let sw = words_vec(sclean.as_slice());
    if sw.len() < 4 {
        return None;
    }
    let condition = Condition {
        left: crate::text::string_of(sw[1].as_slice()),
        operator: crate::text::string_of(sw[2].as_slice()),
        right: crate::text::string_of(sw[3].as_slice()),
    };
    match parse_block(ls, k + 1, true) {
        Some((then_branch, t_end, t_kind)) => {
            if t_kind == 1 {
                let e_start = resume_after(t_end, k, n);
                match parse_block(ls, e_start, true) {
                    Some((else_branch, e_end, _)) => {
                        Some((Statement::If { condition, then_branch, else_branch: Some(else_branch) }, e_end))
                    },
                    None => None,
                }
            } else {
                Some((Statement::If { condition, then_branch, else_branch: None }, t_end))
            }
        },
        None => None,
    }
}

/// Parses the lines from `i` on; see `block`.
fn parse_block(ls: &Vec<Vec<char>>, i: usize, nested: bool) -> (r: Option<(Vec<Statement>, usize, u8)>)
    ensures
        opt_block(r) == block(seqs_view(ls@), i as int, nested),
        r matches Some(x) ==> x.1 <= ls@.len(),
    decreases ls@.len() - i, 1nat,
{
    let ghost lv = seqs_view(ls@);
    let ghost target = block(lv, i as int, nested);
    let n = ls.len();
    let mut acc: Vec<Statement> = Vec::new();
    let mut k: usize = i;
    proof {
        assert(stmts_view(acc@) =~= Seq::<StatementV>::empty());
        match block(lv, k as int, nested) {
            Some(x) => { assert(Seq::<StatementV>::empty() + x.0 =~= x.0); },
            None => {},
        }
    }
    while k < n
        invariant
            n == ls@.len(),
            lv == seqs_view(ls@),
            i <= k,
            target == block(lv, i as int, nested),
            target == prepend(stmts_view(acc@), block(lv, k as int, nested)),
        decreases n - k,
    {
        let line0 = crate::text::without_char(ls[k].as_slice(), '\u{feff}');
        let line = crate::text::trim_chars(line0.as_slice());
        let up = crate::text::to_upper(line.as_slice());
        proof {
            assert(line@ == clean_line(lv[k as int]));
            assert(up@ == upper(line@));
        }
        if line.len() == 0 || line[0] == '*' {
            k = k + 1;
        } else if nested && (crate::text::chars_eq_str(up.as_slice(), "ELSE") || crate::text::chars_eq_str(
            up.as_slice(),
            "ELSE.",
        )) {
            assert(stmts_view(acc@) + Seq::<StatementV>::empty() =~= stmts_view(acc@));
            return Some((acc, k, 1));
        } else if nested && (crate::text::chars_eq_str(up.as_slice(), "END-IF")
            || crate::text::chars_eq_str(up.as_slice(), "END-IF.")) {
            assert(stmts_view(acc@) + Seq::<StatementV>::empty() =~= stmts_view(acc@));
            return Some((acc, k, 2));
        } else if is_header_exec(up.as_slice()) {
            k = k + 1;
        } else {
            let r = if crate::text::starts_with_str(up.as_slice(), "PERFORM VARYING") {
                varying_at(ls, k)
            } else if crate::text::chars_eq_str(up.as_slice(), "PERFORM") {
                perform_at(ls, k)
            } else {
                let sclean = crate::text::without_char(line.as_slice(), '.');
                let sw = words_vec(sclean.as_slice());
                let is_if = if sw.len() > 0 {
                    let kw = crate::text::to_lower(sw[0].as_slice());
                    crate::text::chars_eq_str(kw.as_slice(), "if")
                } else {
                    false
                };
                if is_if {
                    if_at(ls, k)
                } else {
                    match parse_statement(line.as_slice()) {
                        Some(st) => Some((st, k)),
                        None => None,
                    }
                }
            };
            match r {
                Some((st, raw)) => {
                    let next = resume_after(raw, k, n);
                    let ghost a0 = acc@;
                    acc.push(st);
                    proof {
                        crate::ir::lemma_stmts_view_push(a0, st);
                        lemma_prepend(stmts_view(a0), seq![st@], block(lv, next as int, nested));
                    }
                    k = next;
                },
                None => {
                    return None;
                },
            }
        }
    }
    assert(stmts_view(acc@) + Seq::<StatementV>::empty() =~= stmts_view(acc@));
    Some((acc, n, 0))
}

/// Whether `parse_program` accepts a source text: no line is too short
/// for its keyword.
pub fn can_parse(input: &str) -> (r: bool)
    ensures
        r == parse_spec(input@) is Some,
{
    let cs = crate::text::chars_of(input);
    let ls = crate::text::split_lines(cs.as_slice());
    assert(seqs_view(ls@) =~= lines(input@));
    parse_block(&ls, 0, false).is_some()
}

/// The statements of a COBOL source text.
pub fn parse_program(input: &str) -> (r: Result<Vec<Statement>, ParseError>)
    requires
        parse_spec(input@) is Some,
    ensures
        r matches Ok(v) && stmts_view(v@) == parse_spec(input@)->Some_0,
{
    let cs = crate::text::chars_of(input);
    let ls = crate::text::split_lines(cs.as_slice());
    assert(seqs_view(ls@) =~= lines(input@));
    match parse_block(&ls, 0, false) {
        Some((v, _, _)) => Ok(v),
        None => Err(ParseError { message: crate::text::owned("a line is too short for its keyword") }),
    }
}

/// The statements of a COBOL source text, or `None` where a line is too
/// short for its keyword.
pub fn try_parse_program(input: &str) -> (r: Option<Result<Vec<Statement>, ParseError>>)
    ensures
        r is None <==> parse_spec(input@) is None,
        r matches Some(x) ==> (x matches Ok(v) && stmts_view(v@) == parse_spec(input@)->Some_0),
{
    if can_parse(input) {
        Some(parse_program(input))
    } else {
        None
    }
}

// ---------------------------------------------------------------------
// Laws of expressions
// ---------------------------------------------------------------------

/// One token as an operand: the number it spells, else the variable it
/// names.
pub open spec fn operand(t: Seq<char>) -> ExpressionV {
    match parse_int(t) {
        Some(n) => ExpressionV::Literal(LiteralV::Int(n)),
        None => ExpressionV::Variable(t),
    }
}

/// The operands of an expression, left to right.
pub open spec fn operands(e: ExpressionV) -> Seq<ExpressionV>
    decreases e,
{
    match e {
        ExpressionV::Binary { left, right, .. } => operands(*left) + operands(*right),
        _ => seq![e],
    }
}

/// The operators of an expression, left to right.
pub open spec fn operators(e: ExpressionV) -> Seq<Seq<char>>
    decreases e,
{
    match e {
        ExpressionV::Binary { left, operator, right } => operators(*left) + seq![operator] + operators(*right),
        _ => Seq::empty(),
    }
}

/// An expression keeps the tokens in source order: for tokens
/// `a0 op1 a1 op2 a2 ...` (an odd number of them), its operands read left
/// to right are `a0, a1, a2, ...` and its operators `op1, op2, ...`.
pub proof fn law_expression_keeps_source_order(ts: Seq<Seq<char>>)
    requires
        ts.len() % 2 == 1,
    ensures
        operands(expr_of(ts)) == Seq::new(((ts.len() + 1) / 2) as nat, |k: int| operand(ts[2 * k])),
        operators(expr_of(ts)) == Seq::new((ts.len() / 2) as nat, |k: int| ts[2 * k + 1]),
    decreases ts.len(),
{
    if ts.len() == 1 {
        assert(operands(expr_of(ts)) =~= Seq::new(((ts.len() + 1) / 2) as nat, |k: int| operand(ts[2 * k])));
        assert(operators(expr_of(ts)) =~= Seq::new((ts.len() / 2) as nat, |k: int| ts[2 * k + 1]));
    } else {
        let rest = ts.skip(2);
        law_expression_keeps_source_order(rest);
        assert(ts.take(1) =~= seq![ts[0]]);
        assert(operands(expr_of(ts.take(1))) == seq![operand(ts[0])]);
        let want_a = Seq::new(((ts.len() + 1) / 2) as nat, |k: int| operand(ts[2 * k]));
        let got_a = operands(expr_of(ts));
        assert(got_a == seq![operand(ts[0])] + operands(expr_of(rest)));
        assert forall|k: int| 0 <= k < want_a.len() implies #[trigger] got_a[k] == want_a[k] by {
            if k > 0 {
                assert(rest[2 * (k - 1)] == ts[2 * k]);
            }
        }
        assert(got_a =~= want_a);
        let want_o = Seq::new((ts.len() / 2) as nat, |k: int| ts[2 * k + 1]);
        let got_o = operators(expr_of(ts));
        assert(operators(expr_of(ts.take(1))) == Seq::<Seq<char>>::empty());
        assert(got_o == Seq::<Seq<char>>::empty() + seq![ts[1]] + operators(expr_of(rest)));
        assert forall|k: int| 0 <= k < want_o.len() implies #[trigger] got_o[k] == want_o[k] by {
            if k > 0 {
                assert(rest[2 * (k - 1) + 1] == ts[2 * k + 1]);
            }
        }
        assert(got_o =~= want_o);
    }
}

/// An expression `a op rest` computes `op` on the value of `a` and the
/// value of `rest`, in that order, for every value of the variables: the
/// first operand stands on the left (`10 - 3` is 7, not -7).
pub proof fn law_expression_applies_operator_in_source_order(ts: Seq<Seq<char>>, vars: Seq<(Seq<char>, i64)>)
    requires
        ts.len() >= 3,
    ensures
        crate::interpreter::eval(expr_of(ts), vars) == match (
            crate::interpreter::eval(operand(ts[0]), vars),
            crate::interpreter::eval(expr_of(ts.skip(2)), vars),
        ) {
            (Some(a), Some(b)) => crate::interpreter::arith(ts[1], a, b),
            _ => None,
        },
{
    assert(ts.take(1) =~= seq![ts[0]]);
    assert(expr_of(ts.take(1)) == operand(ts[0]));
}

} // verus!
