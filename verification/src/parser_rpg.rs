//! Parser for RPG calculation specifications: `MOVE`, `ADD`, `SUB`,
//! `MULT`, `DIV` and `DISPLAY`/`DSPLY`, in free form or in fixed form
//! (code in columns 7 to 72 of a line of at least 72 characters).
use crate::ir::{stmts_view, Literal, LiteralV, Source, Statement, StatementV};
use crate::parser::{int_error, value_source};
use crate::parser_cobol::ParseError;
use crate::preprocessor::{strip_prefixes, trim_char};
use crate::text::{int_text, join_spaced, lines, parse_int, trim, upper, words};
use vstd::prelude::*;

verus! {

broadcast use vstd::std_specs::vec::group_vec_axioms, crate::ir::lemma_stmts_view;

// ---------------------------------------------------------------------
// Grammar
// ---------------------------------------------------------------------

/// The code part of a line: columns 7 to 72 of a long line, else all.
pub open spec fn rpg_code(line: Seq<char>) -> Seq<char> {
    if line.len() >= 72 {
        line.subrange(6, 72)
    } else {
        line
    }
}

/// The tokens of a line, without a leading `C` (calculation) marker.
pub open spec fn rpg_tokens(line: Seq<char>) -> Seq<Seq<char>> {
    let t = words(trim(rpg_code(line)));
    if t.len() > 0 && t[0] == "C"@ {
        t.drop_first()
    } else {
        t
    }
}

/// Position of the first `TO` (in any case) at or after `k`.
pub open spec fn to_from(tokens: Seq<Seq<char>>, k: int) -> Option<int>
    decreases tokens.len() - k,
{
    if k < 0 || k >= tokens.len() {
        None
    } else if upper(tokens[k]) == "TO"@ {
        Some(k)
    } else {
        to_from(tokens, k + 1)
    }
}

/// The position of the target after `TO`, when there is one.
pub open spec fn rpg_target(tokens: Seq<Seq<char>>) -> Option<int> {
    match to_from(tokens, 0) {
        Some(k) => if k + 1 < tokens.len() { Some(k + 1) } else { None },
        None => None,
    }
}

pub open spec fn is_arith_op(op: Seq<char>) -> bool {
    op == "ADD"@ || op == "SUB"@ || op == "MULT"@ || op == "DIV"@
}

/// What one line means: `None` where the line makes the parser panic
/// (`SUB` of the least `i64`, whose negation overflows); else a statement,
/// nothing (a blank, short or unknown line), or an error message.
pub open spec fn rpg_line(line: Seq<char>) -> Option<Result<Option<StatementV>, Seq<char>>> {
    let tokens = rpg_tokens(line);
    if tokens.len() < 3 {
        Some(Ok(None))
    } else {
        let op = upper(tokens[0]);
        if op == "MOVE"@ {
            match rpg_target(tokens) {
                Some(t) => Some(Ok(Some(StatementV::Move { source: value_source(tokens[1]), target: tokens[t] }))),
                None => Some(Err("Invalid MOVE statement: "@ + line)),
            }
        } else if is_arith_op(op) {
            match rpg_target(tokens) {
                None => Some(Err("Invalid "@ + op + " statement: "@ + line)),
                Some(t) => match parse_int(tokens[1]) {
                    None => Some(Err(int_error(tokens[1]))),
                    Some(v) => if op == "ADD"@ {
                        Some(Ok(Some(StatementV::Add { value: v, target: tokens[t] })))
                    } else if op == "SUB"@ {
                        if v == i64::MIN {
                            None
                        } else {
                            Some(Ok(Some(StatementV::Add { value: (-v) as i64, target: tokens[t] })))
                        }
                    } else {
                        Some(Ok(Some(StatementV::Display {
                            value: LiteralV::Str("# "@ + op + " "@ + int_text(v as int) + " TO "@ + tokens[t] + " not implemented"@),
                        })))
                    },
                },
            }
        } else if op == "DISPLAY"@ || op == "DSPLY"@ {
            let lit = join_spaced(tokens.skip(1));
            match parse_int(lit) {
                Some(n) => Some(Ok(Some(StatementV::Display { value: LiteralV::Int(n) }))),
                None => Some(Ok(Some(StatementV::Display { value: LiteralV::Str(trim_char(lit, '\'')) }))),
            }
        } else {
            Some(Ok(None))
        }
    }
}

/// The statements of the lines, the first error, or `None` where a line
/// makes the parser panic before any error.
pub open spec fn rpg_lines(ls: Seq<Seq<char>>) -> Option<Result<Seq<StatementV>, Seq<char>>>
    decreases ls.len(),
{
    if ls.len() == 0 {
        Some(Ok(Seq::empty()))
    } else {
        match rpg_lines(ls.drop_last()) {
            None => None,
            Some(Err(e)) => Some(Err(e)),
            Some(Ok(v)) => match rpg_line(ls.last()) {
                None => None,
                Some(Ok(None)) => Some(Ok(v)),
                Some(Ok(Some(s))) => Some(Ok(v.push(s))),
                Some(Err(e)) => Some(Err(e)),
            },
        }
    }
}

/// What an RPG source text means (a leading byte-order mark is skipped).
pub open spec fn rpg_program(input: Seq<char>) -> Option<Result<Seq<StatementV>, Seq<char>>> {
    rpg_lines(lines(strip_prefixes(input, seq!['\u{feff}'])))
}

// ---------------------------------------------------------------------
// Parser
// ---------------------------------------------------------------------

fn upper_is(w: &Vec<char>, keyword: &str) -> (r: bool)
    ensures
        r == (upper(w@) == keyword@),
{
    let u = crate::text::to_upper(w.as_slice());
    crate::text::chars_eq_str(u.as_slice(), keyword)
}

fn target_exec(tokens: &Vec<Vec<char>>) -> (r: Option<usize>)
    ensures
        match r {
            Some(t) => rpg_target(seqs_of(tokens@)) == Some(t as int) && t < tokens@.len(),
            None => rpg_target(seqs_of(tokens@)) is None,
        },
{
    let ghost tv = seqs_of(tokens@);
    let mut k: usize = 0;
    while k < tokens.len()
        invariant
            k <= tokens@.len(),
            tv == seqs_of(tokens@),
            to_from(tv, k as int) == to_from(tv, 0),
        decreases tokens.len() - k,
    {
        if upper_is(&tokens[k], "TO") {
            if k + 1 < tokens.len() {
                return Some(k + 1);
            } else {
                return None;
            }
        }
        k = k + 1;
    }
    None
}

pub open spec fn seqs_of(v: Seq<Vec<char>>) -> Seq<Seq<char>> {
    Seq::new(v.len(), |i: int| v[i]@)
}

fn string_of_vec(v: &Vec<char>) -> (r: String)
    ensures
        r@ == v@,
{
    crate::text::string_of(v.as_slice())
}

fn line_error(prefix: &str, op: &Vec<char>, mid: &str, line: &Vec<char>) -> (r: ParseError)
    ensures
        r.message@ == prefix@ + op@ + mid@ + line@,
{
    let mut m = crate::text::owned(prefix);
    crate::text::append_chars(&mut m, op.as_slice());
    crate::text::append_str(&mut m, mid);
    crate::text::append_chars(&mut m, line.as_slice());
    ParseError { message: m }
}

/// The tokens of a line as `rpg_tokens` gives them.
fn tokens_of(line: &Vec<char>) -> (r: Vec<Vec<char>>)
    ensures
        seqs_of(r@) == rpg_tokens(line@),
{
    let code = if line.len() >= 72 {
        crate::text::slice_of(line.as_slice(), 6, 72)
    } else {
        line.clone()
    };
    let t = crate::text::trim_chars(code.as_slice());
    let ws = crate::text::split_words(t.as_slice());
    let ghost wv = words(trim(rpg_code(line@)));
    assert(seqs_of(ws@) =~= wv);
    if ws.len() > 0 && crate::text::chars_eq_str(ws[0].as_slice(), "C") {
        let mut rest: Vec<Vec<char>> = Vec::new();
        let mut k: usize = 1;
        while k < ws.len()
            invariant
                1 <= k <= ws@.len(),
                seqs_of(ws@) == wv,
                rest@.len() == k - 1,
                forall|j: int| 0 <= j < rest@.len() ==> #[trigger] rest@[j]@ == wv[j + 1],
            decreases ws.len() - k,
        {
            rest.push(ws[k].clone());
            k = k + 1;
        }
        assert(seqs_of(rest@) =~= wv.drop_first());
        rest
    } else {
        ws
    }
}

/// One line: `Some(Ok(None))` for a line that gives no statement, `None`
/// for one that the parser cannot get through.
fn parse_rpg_line(line: &Vec<char>) -> (r: Option<Result<Option<Statement>, ParseError>>)
    ensures
        match (r, rpg_line(line@)) {
            (None, None) => true,
            (Some(Ok(None)), Some(Ok(None))) => true,
            (Some(Ok(Some(s))), Some(Ok(Some(t)))) => s@ == t,
            (Some(Err(e)), Some(Err(m))) => e.message@ == m,
            _ => false,
        },
{
    let tokens = tokens_of(line);
    let ghost tv = rpg_tokens(line@);
    if tokens.len() < 3 {
        return Some(Ok(None));
    }
    let op = crate::text::to_upper(tokens[0].as_slice());
    assert(tokens@[0]@ == tv[0]);
    assert(tokens@[1]@ == tv[1]);
    assert(op@ == upper(tv[0]));
    if crate::text::chars_eq_str(op.as_slice(), "MOVE") {
        match target_exec(&tokens) {
            Some(t) => {
                let source = match crate::text::parse_i64(tokens[1].as_slice()) {
                    Some(n) => Source::Literal(n),
                    None => Source::Variable(string_of_vec(&tokens[1])),
                };
                Some(Ok(Some(Statement::Move { source, target: string_of_vec(&tokens[t]) })))
            },
            None => {
                let e = line_error("Invalid MOVE statement: ", &Vec::new(), "", line);
                proof {
                    reveal_strlit("");
                    assert(e.message@ =~= "Invalid MOVE statement: "@ + line@);
                }
                Some(Err(e))
            },
        }
    } else if crate::text::chars_eq_str(op.as_slice(), "ADD") || crate::text::chars_eq_str(op.as_slice(), "SUB")
        || crate::text::chars_eq_str(op.as_slice(), "MULT") || crate::text::chars_eq_str(op.as_slice(), "DIV") {
        match target_exec(&tokens) {
            None => Some(Err(line_error("Invalid ", &op, " statement: ", line))),
            Some(t) => match crate::text::parse_i64(tokens[1].as_slice()) {
                None => Some(Err(crate::parser::int_error_message(&tokens[1]))),
                Some(v) => {
                    if crate::text::chars_eq_str(op.as_slice(), "ADD") {
                        Some(Ok(Some(Statement::Add { value: v, target: string_of_vec(&tokens[t]) })))
                    } else if crate::text::chars_eq_str(op.as_slice(), "SUB") {
                        if v == i64::MIN {
                            return None;
                        }
                        Some(Ok(Some(Statement::Add { value: -v, target: string_of_vec(&tokens[t]) })))
                    } else {
                        let mut m = crate::text::owned("# ");
                        crate::text::append_chars(&mut m, op.as_slice());
                        crate::text::append_str(&mut m, " ");
                        let digits = crate::text::int_chars(v);
                        crate::text::append_chars(&mut m, digits.as_slice());
                        crate::text::append_str(&mut m, " TO ");
                        crate::text::append_chars(&mut m, tokens[t].as_slice());
                        crate::text::append_str(&mut m, " not implemented");
                        assert(m@ =~= "# "@ + op@ + " "@ + int_text(v as int) + " TO "@ + tv[t as int] + " not implemented"@);
                        Some(Ok(Some(Statement::Display { value: Literal::String(m) })))
                    }
                },
            },
        }
    } else if crate::text::chars_eq_str(op.as_slice(), "DISPLAY") || crate::text::chars_eq_str(op.as_slice(), "DSPLY") {
        let mut rest: Vec<Vec<char>> = Vec::new();
        let mut k: usize = 1;
        while k < tokens.len()
            invariant
                1 <= k <= tokens@.len(),
                seqs_of(tokens@) == tv,
                rest@.len() == k - 1,
                forall|j: int| 0 <= j < rest@.len() ==> #[trigger] rest@[j]@ == tv[j + 1],
            decreases tokens.len() - k,
        {
            rest.push(tokens[k].clone());
            k = k + 1;
        }
        assert(crate::text::seqs_view(rest@) =~= tv.skip(1));
        let lit = crate::text::join_words(rest.as_slice());
        match crate::text::parse_i64(lit.as_slice()) {
            Some(n) => Some(Ok(Some(Statement::Display { value: Literal::Int(n) }))),
            None => {
                let s = crate::preprocessor::trim_char_exec(lit.as_slice(), '\'');
                Some(Ok(Some(Statement::Display { value: Literal::String(string_of_vec(&s)) })))
            },
        }
    } else {
        Some(Ok(None))
    }
}

/// Parses an RPG source text as `parse_program` does, or gives `None`
/// where that would panic (a `SUB` of the least `i64` before any error).
pub fn try_parse_program(input: &str) -> (r: Option<Result<Vec<Statement>, ParseError>>)
    ensures
        match (r, rpg_program(input@)) {
            (None, None) => true,
            (Some(Ok(v)), Some(Ok(t))) => stmts_view(v@) == t,
            (Some(Err(e)), Some(Err(m))) => e.message@ == m,
            _ => false,
        },
{
    let cs = crate::text::chars_of(input);
    let mut start: usize = 0;
    assert(cs@.skip(0) =~= cs@);
    while start < cs.len() && cs[start] == '\u{feff}'
        invariant
            start <= cs@.len(),
            strip_prefixes(cs@.skip(start as int), seq!['\u{feff}']) == strip_prefixes(cs@, seq!['\u{feff}']),
        decreases cs.len() - start,
    {
        assert(cs@.skip(start as int).take(1) =~= seq!['\u{feff}']);
        assert(cs@.skip(start as int).skip(1) =~= cs@.skip(start + 1));
        start = start + 1;
    }
    proof {
        if start < cs@.len() {
            assert(cs@.skip(start as int).take(1)[0] == cs@[start as int]);
        } else {
            assert(cs@.skip(start as int).len() == 0);
        }
    }
    let body = crate::text::slice_of(cs.as_slice(), start, cs.len());
    assert(body@ =~= cs@.skip(start as int));
    let ls = crate::text::split_lines(body.as_slice());
    let ghost lv = lines(strip_prefixes(input@, seq!['\u{feff}']));
    let mut out: Vec<Statement> = Vec::new();
    let mut i: usize = 0;
    assert(lv.take(0) =~= Seq::<Seq<char>>::empty());
    while i < ls.len()
        invariant
            i <= ls@.len(),
            lv == lines(strip_prefixes(input@, seq!['\u{feff}'])),
            ls@.len() == lv.len(),
            forall|k: int| 0 <= k < ls@.len() ==> #[trigger] ls@[k]@ == lv[k],
            rpg_lines(lv.take(i as int)) == Some(Ok::<Seq<StatementV>, Seq<char>>(stmts_view(out@))),
        decreases ls.len() - i,
    {
        proof {
            assert(lv.take(i + 1).drop_last() =~= lv.take(i as int));
            assert(lv.take(i + 1).last() == lv[i as int]);
            assert(ls@[i as int]@ == lv[i as int]);
        }
        match parse_rpg_line(&ls[i]) {
            None => {
                proof {
                    lemma_rpg_none(lv, i as int);
                }
                return None;
            },
            Some(Ok(None)) => {},
            Some(Ok(Some(s))) => {
                let ghost o0 = out@;
                out.push(s);
                proof {
                    crate::ir::lemma_stmts_view_push(o0, s);
                }
            },
            Some(Err(e)) => {
                proof {
                    lemma_rpg_err(lv, i as int, e.message@);
                }
                return Some(Err(e));
            },
        }
        i = i + 1;
    }
    assert(lv.take(i as int) =~= lv);
    Some(Ok(out))
}

/// Parses an RPG source text: the statements of its lines in order, or
/// the error of the first line that is malformed. Lines with fewer than
/// three tokens, and lines of other operations, give no statement.
pub fn parse_program(input: &str) -> (r: Result<Vec<Statement>, ParseError>)
    requires
        rpg_program(input@) is Some,
    ensures
        match (r, rpg_program(input@)) {
            (Ok(v), Some(Ok(t))) => stmts_view(v@) == t,
            (Err(e), Some(Err(m))) => e.message@ == m,
            _ => false,
        },
{
    match try_parse_program(input) {
        Some(r) => r,
        // `requires` rules this case out.
        None => Err(ParseError { message: crate::text::owned("negation overflow") }),
    }
}

/// A panic at one line ends every longer prefix in a panic.
proof fn lemma_rpg_none(ls: Seq<Seq<char>>, i: int)
    requires
        0 <= i < ls.len(),
        rpg_lines(ls.take(i + 1)) is None,
    ensures
        rpg_lines(ls) is None,
    decreases ls.len() - i,
{
    if i + 1 == ls.len() {
        assert(ls.take(i + 1) =~= ls);
    } else {
        assert(ls.take(i + 2).drop_last() =~= ls.take(i + 1));
        lemma_rpg_none(ls, i + 1);
    }
}

/// An error at one line is the error of every longer prefix.
proof fn lemma_rpg_err(ls: Seq<Seq<char>>, i: int, m: Seq<char>)
    requires
        0 <= i < ls.len(),
        rpg_lines(ls.take(i + 1)) == Some(Err::<Seq<StatementV>, Seq<char>>(m)),
    ensures
        rpg_lines(ls) == Some(Err::<Seq<StatementV>, Seq<char>>(m)),
    decreases ls.len() - i,
{
    if i + 1 == ls.len() {
        assert(ls.take(i + 1) =~= ls);
    } else {
        assert(ls.take(i + 2).drop_last() =~= ls.take(i + 1));
        lemma_rpg_err(ls, i + 1, m);
    }
}

} // verus!
