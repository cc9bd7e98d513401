//! Parser for the simple line-oriented legacy language: one statement per
//! line, `MOVE <value> TO <name>` or `ADD <number> TO <name>`, keywords in
//! any case.
use crate::ir::{stmts_view, Source, SourceV, Statement, StatementV};
use crate::parser_cobol::ParseError;
use crate::text::{all_digits, lines, lower, parse_int, trim, words};
use vstd::prelude::*;

verus! {

broadcast use vstd::std_specs::vec::group_vec_axioms, crate::ir::lemma_stmts_view;

// ---------------------------------------------------------------------
// Grammar
// ---------------------------------------------------------------------

/// The message of the error that `str::parse::<i64>` reports for a word it
/// rejects: a sign with digits after it is out of range, anything else
/// holds a character that is no digit.
pub open spec fn int_error(w: Seq<char>) -> Seq<char> {
    let body = if w.len() > 0 && (w[0] == '-' || w[0] == '+') { w.drop_first() } else { w };
    if w.len() == 0 {
        "cannot parse integer from empty string"@
    } else if body.len() > 0 && all_digits(body) {
        if w[0] == '-' {
            "number too small to fit in target type"@
        } else {
            "number too large to fit in target type"@
        }
    } else {
        "invalid digit found in string"@
    }
}

/// A number where the word is one, else the variable it names.
pub open spec fn value_source(w: Seq<char>) -> SourceV {
    match parse_int(w) {
        Some(n) => SourceV::Literal(n),
        None => SourceV::Variable(w),
    }
}

/// Whether the words have the shape `<keyword> <value> TO <name>`.
pub open spec fn to_shaped(parts: Seq<Seq<char>>) -> bool {
    parts.len() == 4 && lower(parts[2]) == "to"@
}

/// What one line means: `None` for a blank line, else the statement or
/// the message of the error it raises.
pub open spec fn simple_line(raw: Seq<char>) -> Option<Result<StatementV, Seq<char>>> {
    let line = trim(raw);
    let parts = words(line);
    if line.len() == 0 || parts.len() == 0 {
        None
    } else if lower(parts[0]) == "move"@ {
        if !to_shaped(parts) {
            Some(Err("Invalid MOVE statement: "@ + line))
        } else {
            Some(Ok(StatementV::Move { source: value_source(parts[1]), target: parts[3] }))
        }
    } else if lower(parts[0]) == "add"@ {
        if !to_shaped(parts) {
            Some(Err("Invalid ADD statement: "@ + line))
        } else {
            match parse_int(parts[1]) {
                Some(n) => Some(Ok(StatementV::Add { value: n, target: parts[3] })),
                None => Some(Err(int_error(parts[1]))),
            }
        }
    } else {
        Some(Err("Unknown statement: "@ + line))
    }
}

/// The statements of the lines in order, or the error of the first line
/// that raises one.
pub open spec fn simple_lines(ls: Seq<Seq<char>>) -> Result<Seq<StatementV>, Seq<char>>
    decreases ls.len(),
{
    if ls.len() == 0 {
        Ok(Seq::empty())
    } else {
        match simple_lines(ls.drop_last()) {
            Err(e) => Err(e),
            Ok(v) => match simple_line(ls.last()) {
                None => Ok(v),
                Some(Ok(s)) => Ok(v.push(s)),
                Some(Err(e)) => Err(e),
            },
        }
    }
}

/// What a whole program text means.
pub open spec fn simple_program(input: Seq<char>) -> Result<Seq<StatementV>, Seq<char>> {
    simple_lines(lines(trim(input)))
}

// ---------------------------------------------------------------------
// Parser
// ---------------------------------------------------------------------

fn error_with(prefix: &str, line: &Vec<char>) -> (r: ParseError)
    ensures
        r.message@ == prefix@ + line@,
{
    let mut m = crate::text::owned(prefix);
    crate::text::append_chars(&mut m, line.as_slice());
    ParseError { message: m }
}

pub(crate) fn int_error_message(w: &Vec<char>) -> (r: ParseError)
    ensures
        r.message@ == int_error(w@),
{
    if w.len() == 0 {
        return ParseError { message: crate::text::owned("cannot parse integer from empty string") };
    }
    let start: usize = if w[0] == '-' || w[0] == '+' { 1 } else { 0 };
    let ghost body = if w@[0] == '-' || w@[0] == '+' { w@.drop_first() } else { w@ };
    let mut all: bool = start < w.len();
    let mut i: usize = start;
    while i < w.len()
        invariant
            start <= i <= w@.len(),
            w@.len() > 0,
            start == (if w@[0] == '-' || w@[0] == '+' { 1usize } else { 0usize }),
            body == w@.skip(start as int),
            all == (start < w@.len() && forall|k: int| start <= k < i ==> #[trigger] crate::text::is_digit(w@[k])),
        decreases w.len() - i,
    {
        if !crate::text::char_is_digit(w[i]) {
            all = false;
        }
        i = i + 1;
    }
    proof {
        if all {
            assert forall|k: int| 0 <= k < body.len() implies #[trigger] crate::text::is_digit(body[k]) by {
                assert(body[k] == w@[k + start]);
            }
        } else if body.len() > 0 {
            let k = choose|k: int| start <= k < w@.len() && !crate::text::is_digit(w@[k]);
            assert(body[k - start] == w@[k]);
        }
    }
    if all {
        if w[0] == '-' {
            ParseError { message: crate::text::owned("number too small to fit in target type") }
        } else {
            ParseError { message: crate::text::owned("number too large to fit in target type") }
        }
    } else {
        ParseError { message: crate::text::owned("invalid digit found in string") }
    }
}

fn word_is(w: &Vec<char>, keyword: &str) -> (r: bool)
    ensures
        r == (lower(w@) == keyword@),
{
    let l = crate::text::to_lower(w.as_slice());
    crate::text::chars_eq_str(l.as_slice(), keyword)
}

fn word_string(w: &Vec<char>) -> (r: String)
    ensures
        r@ == w@,
{
    crate::text::string_of(w.as_slice())
}

/// One line: `None` when it is blank.
fn parse_line(raw: &Vec<char>) -> (r: Option<Result<Statement, ParseError>>)
    ensures
        match (r, simple_line(raw@)) {
            (None, None) => true,
            (Some(Ok(s)), Some(Ok(t))) => s@ == t,
            (Some(Err(e)), Some(Err(m))) => e.message@ == m,
            _ => false,
        },
{
    let line = crate::text::trim_chars(raw.as_slice());
    if line.len() == 0 {
        return None;
    }
    let parts = crate::text::split_words(line.as_slice());
    if parts.len() == 0 {
        return None;
    }
    let shaped = parts.len() == 4 && word_is(&parts[2], "to");
    if word_is(&parts[0], "move") {
        if !shaped {
            return Some(Err(error_with("Invalid MOVE statement: ", &line)));
        }
        let source = match crate::text::parse_i64(parts[1].as_slice()) {
            Some(n) => Source::Literal(n),
            None => Source::Variable(word_string(&parts[1])),
        };
        Some(Ok(Statement::Move { source, target: word_string(&parts[3]) }))
    } else if word_is(&parts[0], "add") {
        if !shaped {
            return Some(Err(error_with("Invalid ADD statement: ", &line)));
        }
        match crate::text::parse_i64(parts[1].as_slice()) {
            Some(n) => Some(Ok(Statement::Add { value: n, target: word_string(&parts[3]) })),
            None => Some(Err(int_error_message(&parts[1]))),
        }
    } else {
        Some(Err(error_with("Unknown statement: ", &line)))
    }
}

/// Parses a program of the simple language: the statements of its lines,
/// or the error of the first line that is no statement.
pub fn parse_program(input: &str) -> (r: Result<Vec<Statement>, ParseError>)
    ensures
        match (r, simple_program(input@)) {
            (Ok(v), Ok(t)) => stmts_view(v@) == t,
            (Err(e), Err(m)) => e.message@ == m,
            _ => false,
        },
{
    let cs = crate::text::chars_of(input);
    let t = crate::text::trim_chars(cs.as_slice());
    let ls = crate::text::split_lines(t.as_slice());
    let ghost lv = lines(trim(input@));
    let mut out: Vec<Statement> = Vec::new();
    let mut i: usize = 0;
    assert(lv.take(0) =~= Seq::<Seq<char>>::empty());
    while i < ls.len()
        invariant
            i <= ls@.len(),
            lv == lines(trim(input@)),
            ls@.len() == lv.len(),
            forall|k: int| 0 <= k < ls@.len() ==> #[trigger] ls@[k]@ == lv[k],
            simple_lines(lv.take(i as int)) == Ok::<Seq<StatementV>, Seq<char>>(stmts_view(out@)),
        decreases ls.len() - i,
    {
        proof {
            assert(lv.take(i + 1).drop_last() =~= lv.take(i as int));
            assert(lv.take(i + 1).last() == lv[i as int]);
        }
        match parse_line(&ls[i]) {
            None => {},
            Some(Ok(s)) => {
                let ghost o0 = out@;
                out.push(s);
                proof {
                    crate::ir::lemma_stmts_view_push(o0, s);
                }
            },
            Some(Err(e)) => {
                proof {
                    assert(ls@[i as int]@ == lv[i as int]);
                    assert(simple_line(lv[i as int]) == Some(Err::<StatementV, Seq<char>>(e.message@)));
                    assert(simple_lines(lv.take(i + 1)) == Err::<Seq<StatementV>, Seq<char>>(e.message@));
                    lemma_simple_lines_err(lv, i as int, e.message@);
                    assert(simple_program(input@) == Err::<Seq<StatementV>, Seq<char>>(e.message@));
                }
                return Err(e);
            },
        }
        i = i + 1;
    }
    assert(lv.take(i as int) =~= lv);
    Ok(out)
}

/// An error at one line is the error of every longer prefix.
proof fn lemma_simple_lines_err(ls: Seq<Seq<char>>, i: int, m: Seq<char>)
    requires
        0 <= i < ls.len(),
        simple_lines(ls.take(i + 1)) == Err::<Seq<StatementV>, Seq<char>>(m),
    ensures
        simple_lines(ls) == Err::<Seq<StatementV>, Seq<char>>(m),
    decreases ls.len() - i,
{
    if i + 1 == ls.len() {
        assert(ls.take(i + 1) =~= ls);
    } else {
        assert(ls.take(i + 2).drop_last() =~= ls.take(i + 1));
        lemma_simple_lines_err(ls, i + 1, m);
    }
}

} // verus!
