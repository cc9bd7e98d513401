//! Parser for a small PL/I subset: assignments `T = A` and `T = A + n`,
//! and `PUT SKIP LIST (e)`, where `LIST` stands as a word of its own.
//! Other lines give no statement.
use crate::ir::{stmts_view, Literal, LiteralV, Source, Statement, StatementV};
use crate::parser::value_source;
use crate::parser_cobol::ParseError;
use crate::phi::last_index;
use crate::preprocessor::{strip_prefixes, trim_end_char};
use crate::text::{find_char, lines, parse_int, trim, upper, words};
use vstd::prelude::*;

verus! {

broadcast use vstd::std_specs::vec::group_vec_axioms, crate::ir::lemma_stmts_view;

// ---------------------------------------------------------------------
// Grammar
// ---------------------------------------------------------------------

/// A line as the parser reads it: trimmed, with its trailing `;` removed.
pub open spec fn pli_text(raw: Seq<char>) -> Seq<char> {
    trim_end_char(trim(raw), ';')
}

/// An assignment `left = right`: a move of a number or a variable, or,
/// where `right` holds a `+`, an `ADD` of the number after it (of the
/// number before it when both sides are numbers); no statement when the
/// addition has no number after the `+`.
pub open spec fn pli_assign(left: Seq<char>, right: Seq<char>) -> Option<StatementV> {
    match find_char(right, '+') {
        Some(p) => {
            let lo = parse_int(trim(right.take(p)));
            let ro = parse_int(trim(right.skip(p + 1)));
            match (lo, ro) {
                (Some(a), Some(_)) => Some(StatementV::Add { value: a, target: left }),
                (_, Some(b)) => Some(StatementV::Add { value: b, target: left }),
                _ => None,
            }
        },
        None => Some(StatementV::Move { source: value_source(right), target: left }),
    }
}

/// Whether the first three words are `PUT SKIP LIST`, in any case.
pub open spec fn is_put(tokens: Seq<Seq<char>>) -> bool {
    tokens.len() >= 3 && upper(tokens[0]) == "PUT"@ && upper(tokens[1]) == "SKIP"@ && upper(tokens[2]) == "LIST"@
}

/// What one line means: `None` where the parser panics (a `PUT` line whose
/// last `)` comes before its first `(`); else a statement, nothing (a
/// blank or unknown line), or an error message.
pub open spec fn pli_line(raw: Seq<char>) -> Option<Result<Option<StatementV>, Seq<char>>> {
    let line = pli_text(raw);
    let tokens = words(line);
    if tokens.len() == 0 {
        Some(Ok(None))
    } else {
        match find_char(line, '=') {
            Some(eq) => Some(Ok(pli_assign(trim(line.take(eq)), trim(line.skip(eq + 1))))),
            None => if is_put(tokens) {
                match find_char(line, '(') {
                    None => Some(Err("Missing '(' in PUT"@)),
                    Some(start) => match last_index(line, ')') {
                        None => Some(Err("Missing ')' in PUT"@)),
                        Some(end) => if end < start {
                            None
                        } else {
                            let e = trim(line.subrange(start + 1, end));
                            Some(
                                Ok(
                                    Some(
                                        StatementV::Display {
                                            value: match parse_int(e) {
                                                Some(n) => LiteralV::Int(n),
                                                None => LiteralV::Str(e),
                                            },
                                        },
                                    ),
                                ),
                            )
                        },
                    },
                }
            } else {
                Some(Ok(None))
            },
        }
    }
}

/// The statements of the lines, the first error, or `None` where a line
/// makes the parser panic before any error.
pub open spec fn pli_lines(ls: Seq<Seq<char>>) -> Option<Result<Seq<StatementV>, Seq<char>>>
    decreases ls.len(),
{
    if ls.len() == 0 {
        Some(Ok(Seq::empty()))
    } else {
        match pli_lines(ls.drop_last()) {
            None => None,
            Some(Err(e)) => Some(Err(e)),
            Some(Ok(v)) => match pli_line(ls.last()) {
                None => None,
                Some(Ok(None)) => Some(Ok(v)),
                Some(Ok(Some(s))) => Some(Ok(v.push(s))),
                Some(Err(e)) => Some(Err(e)),
            },
        }
    }
}

/// What a PL/I source text means (leading byte-order marks are skipped).
pub open spec fn pli_program(input: Seq<char>) -> Option<Result<Seq<StatementV>, Seq<char>>> {
    pli_lines(lines(strip_prefixes(input, seq!['\u{feff}'])))
}

// ---------------------------------------------------------------------
// Parser
// ---------------------------------------------------------------------

fn upper_is(w: &Vec<char>, keyword: &str) -> (r: bool)
    ensures
        r == (upper(w@) == keyword@),
{
    let u = crate::text::to_upper(w.as_slice());
    crate::text::chars_eq_str(u.as_slice(), keyword)
}

/// The position of the last `c` in `s`.
fn find_last(s: &Vec<char>, c: char) -> (r: Option<usize>)
    ensures
        match r {
            Some(k) => last_index(s@, c) == Some(k as int) && k < s@.len() && s@[k as int] == c,
            None => last_index(s@, c) is None,
        },
{
    let mut j: usize = s.len();
    assert(s@.take(j as int) =~= s@);
    while j > 0
        invariant
            j <= s@.len(),
            last_index(s@.take(j as int), c) == last_index(s@, c),
        decreases j,
    {
        assert(s@.take(j as int).last() == s@[j - 1]);
        if s[j - 1] == c {
            return Some(j - 1);
        }
        assert(s@.take(j as int).drop_last() =~= s@.take(j - 1));
        j = j - 1;
    }
    None
}

fn string_of_vec(v: &Vec<char>) -> (r: String)
    ensures
        r@ == v@,
{
    crate::text::string_of(v.as_slice())
}

fn assign_exec(left: &Vec<char>, right: &Vec<char>) -> (r: Option<Statement>)
    ensures
        match (r, pli_assign(left@, right@)) {
            (Some(s), Some(t)) => s@ == t,
            (None, None) => true,
            _ => false,
        },
{
    match crate::text::find_first(right.as_slice(), '+') {
        Some(p) => {
            let rl = right.len();
            assert(p < rl);
            let a = crate::text::slice_of(right.as_slice(), 0, p);
            let b = crate::text::slice_of(right.as_slice(), p + 1, rl);
            assert(a@ =~= right@.take(p as int));
            assert(b@ =~= right@.skip(p + 1));
            let at = crate::text::trim_chars(a.as_slice());
            let bt = crate::text::trim_chars(b.as_slice());
            let lo = crate::text::parse_i64(at.as_slice());
            let ro = crate::text::parse_i64(bt.as_slice());
            match (lo, ro) {
                (Some(x), Some(_)) => Some(Statement::Add { value: x, target: string_of_vec(left) }),
                (_, Some(y)) => Some(Statement::Add { value: y, target: string_of_vec(left) }),
                _ => None,
            }
        },
        None => {
            let source = match crate::text::parse_i64(right.as_slice()) {
                Some(n) => Source::Literal(n),
                None => Source::Variable(string_of_vec(right)),
            };
            Some(Statement::Move { source, target: string_of_vec(left) })
        },
    }
}

/// One line: `Some(Ok(None))` for a line that gives no statement, `None`
/// for one that the parser cannot get through.
fn parse_pli_line(raw: &Vec<char>) -> (r: Option<Result<Option<Statement>, ParseError>>)
    ensures
        match (r, pli_line(raw@)) {
            (None, None) => true,
            (Some(Ok(None)), Some(Ok(None))) => true,
            (Some(Ok(Some(s))), Some(Ok(Some(t)))) => s@ == t,
            (Some(Err(e)), Some(Err(m))) => e.message@ == m,
            _ => false,
        },
{
    let t = crate::text::trim_chars(raw.as_slice());
    let line = crate::preprocessor::trim_end_char_exec(t.as_slice(), ';');
    let tokens = crate::text::split_words(line.as_slice());
    let ghost tv = words(line@);
    if tokens.len() == 0 {
        return Some(Ok(None));
    }
    match crate::text::find_first(line.as_slice(), '=') {
        Some(eq) => {
            let ll = line.len();
            assert(eq < ll);
            let l0 = crate::text::slice_of(line.as_slice(), 0, eq);
            let r0 = crate::text::slice_of(line.as_slice(), eq + 1, ll);
            assert(l0@ =~= line@.take(eq as int));
            assert(r0@ =~= line@.skip(eq + 1));
            let left = crate::text::trim_chars(l0.as_slice());
            let right = crate::text::trim_chars(r0.as_slice());
            Some(Ok(assign_exec(&left, &right)))
        },
        None => {
            let put = tokens.len() >= 3 && upper_is(&tokens[0], "PUT") && upper_is(&tokens[1], "SKIP") && upper_is(
                &tokens[2],
                "LIST",
            );
            proof {
                if tokens@.len() >= 3 {
                    assert(tokens@[0]@ == tv[0]);
                    assert(tokens@[1]@ == tv[1]);
                    assert(tokens@[2]@ == tv[2]);
                }
            }
            if !put {
                return Some(Ok(None));
            }
            match crate::text::find_first(line.as_slice(), '(') {
                None => Some(Err(ParseError { message: crate::text::owned("Missing '(' in PUT") })),
                Some(start) => match find_last(&line, ')') {
                    None => Some(Err(ParseError { message: crate::text::owned("Missing ')' in PUT") })),
                    Some(end) => {
                        if end < start {
                            return None;
                        }
                        assert(line@[start as int] == '(' && line@[end as int] == ')');
                        let inner = crate::text::slice_of(line.as_slice(), start + 1, end);
                        assert(inner@ =~= line@.subrange(start + 1, end as int));
                        let e = crate::text::trim_chars(inner.as_slice());
                        let value = match crate::text::parse_i64(e.as_slice()) {
                            Some(n) => Literal::Int(n),
                            None => Literal::String(string_of_vec(&e)),
                        };
                        Some(Ok(Some(Statement::Display { value })))
                    },
                },
            }
        },
    }
}

/// A panic at one line ends every longer prefix in a panic.
proof fn lemma_pli_none(ls: Seq<Seq<char>>, i: int)
    requires
        0 <= i < ls.len(),
        pli_lines(ls.take(i + 1)) is None,
    ensures
        pli_lines(ls) is None,
    decreases ls.len() - i,
{
    if i + 1 == ls.len() {
        assert(ls.take(i + 1) =~= ls);
    } else {
        assert(ls.take(i + 2).drop_last() =~= ls.take(i + 1));
        lemma_pli_none(ls, i + 1);
    }
}

/// An error at one line is the error of every longer prefix.
proof fn lemma_pli_err(ls: Seq<Seq<char>>, i: int, m: Seq<char>)
    requires
        0 <= i < ls.len(),
        pli_lines(ls.take(i + 1)) == Some(Err::<Seq<StatementV>, Seq<char>>(m)),
    ensures
        pli_lines(ls) == Some(Err::<Seq<StatementV>, Seq<char>>(m)),
    decreases ls.len() - i,
{
    if i + 1 == ls.len() {
        assert(ls.take(i + 1) =~= ls);
    } else {
        assert(ls.take(i + 2).drop_last() =~= ls.take(i + 1));
        lemma_pli_err(ls, i + 1, m);
    }
}

/// Parses a PL/I source text as `parse_program` does, or gives `None`
/// where that would panic (a `PUT` line with its last `)` before its
/// first `(`, before any error).
pub fn try_parse_program(input: &str) -> (r: Option<Result<Vec<Statement>, ParseError>>)
    ensures
        match (r, pli_program(input@)) {
            (None, None) => true,
            (Some(Ok(v)), Some(Ok(t))) => stmts_view(v@) == t,
            (Some(Err(e)), Some(Err(m))) => e.message@ == m,
            _ => false,
        },
{
    let cs = crate::text::chars_of(input);
    let mut start: usize = 0;
    assert(cs@.skip(0) =~= cs@);
    while start < cs.len() && cs[start] == '\u{feff}'
        invariant
            start <= cs@.len(),
            strip_prefixes(cs@.skip(start as int), seq!['\u{feff}']) == strip_prefixes(cs@, seq!['\u{feff}']),
        decreases cs.len() - start,
    {
        assert(cs@.skip(start as int).take(1) =~= seq!['\u{feff}']);
        assert(cs@.skip(start as int).skip(1) =~= cs@.skip(start + 1));
        start = start + 1;
    }
    proof {
        if start < cs@.len() {
            assert(cs@.skip(start as int).take(1)[0] == cs@[start as int]);
        } else {
            assert(cs@.skip(start as int).len() == 0);
        }
    }
    let body = crate::text::slice_of(cs.as_slice(), start, cs.len());
    assert(body@ =~= cs@.skip(start as int));
    let ls = crate::text::split_lines(body.as_slice());
    let ghost lv = lines(strip_prefixes(input@, seq!['\u{feff}']));
    let mut out: Vec<Statement> = Vec::new();
    let mut i: usize = 0;
    assert(lv.take(0) =~= Seq::<Seq<char>>::empty());
    while i < ls.len()
        invariant
            i <= ls@.len(),
            lv == lines(strip_prefixes(input@, seq!['\u{feff}'])),
            ls@.len() == lv.len(),
            forall|k: int| 0 <= k < ls@.len() ==> #[trigger] ls@[k]@ == lv[k],
            pli_lines(lv.take(i as int)) == Some(Ok::<Seq<StatementV>, Seq<char>>(stmts_view(out@))),
        decreases ls.len() - i,
    {
        proof {
            assert(lv.take(i + 1).drop_last() =~= lv.take(i as int));
            assert(lv.take(i + 1).last() == lv[i as int]);
            assert(ls@[i as int]@ == lv[i as int]);
        }
        match parse_pli_line(&ls[i]) {
            None => {
                proof {
                    lemma_pli_none(lv, i as int);
                }
                return None;
            },
            Some(Ok(None)) => {},
            Some(Ok(Some(s))) => {
                let ghost o0 = out@;
                out.push(s);
                proof {
                    crate::ir::lemma_stmts_view_push(o0, s);
                }
            },
            Some(Err(e)) => {
                proof {
                    lemma_pli_err(lv, i as int, e.message@);
                }
                return Some(Err(e));
            },
        }
        i = i + 1;
    }
    assert(lv.take(i as int) =~= lv);
    Some(Ok(out))
}

/// Parses a PL/I source text: the statements of its lines in order, or
/// the error of the first `PUT SKIP LIST` line without a `(` or a `)`.
/// Blank lines and lines of other forms give no statement.
pub fn parse_program(input: &str) -> (r: Result<Vec<Statement>, ParseError>)
    requires
        pli_program(input@) is Some,
    ensures
        match (r, pli_program(input@)) {
            (Ok(v), Some(Ok(t))) => stmts_view(v@) == t,
            (Err(e), Some(Err(m))) => e.message@ == m,
            _ => false,
        },
{
    match try_parse_program(input) {
        Some(r) => r,
        // `requires` rules this case out.
        None => Err(ParseError { message: crate::text::owned("unbalanced parentheses in PUT") }),
    }
}

} // verus!
