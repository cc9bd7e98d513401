//! The parser of picture clauses (`PIC S9(5)V99 COMP-3` and the like).
use super::ast::{PictureCategory, PictureClause, Usage};
use crate::text::{
    count_char, ends_with, find_char, parse_nat, remove_all, starts_with, trim, upper,
};
use vstd::prelude::*;

verus! {

/// The picture text without a leading `PIC` keyword.
pub open spec fn pic_body(t: Seq<char>) -> Seq<char> {
    if starts_with(t, "PIC "@) {
        trim(t.skip(4))
    } else {
        t
    }
}

/// The usage named at the end of a picture, and the picture without it.
pub open spec fn usage_split(t: Seq<char>) -> (Usage, Seq<char>) {
    if ends_with(t, " COMP-3"@) {
        (Usage::Comp3, remove_all(t, " COMP-3"@))
    } else if ends_with(t, " COMP"@) {
        (Usage::Comp, remove_all(t, " COMP"@))
    } else if ends_with(t, " BINARY"@) {
        (Usage::Binary, remove_all(t, " BINARY"@))
    } else if ends_with(t, " DISPLAY"@) {
        (Usage::Display, remove_all(t, " DISPLAY"@))
    } else {
        (Usage::Display, t)
    }
}

/// The count written as `c(n)` at the start of `t`.
pub open spec fn paren_count(t: Seq<char>, c: char) -> Option<usize> {
    if starts_with(t, seq![c, '(']) {
        match find_char(t, ')') {
            Some(end) => if 2 <= end {
                parse_nat(t.subrange(2, end))
            } else {
                None
            },
            None => None,
        }
    } else {
        None
    }
}

/// The part after the first `V`, up to the next one.
pub open spec fn after_v(t: Seq<char>) -> Seq<char> {
    match find_char(t, 'V') {
        Some(p) => {
            let rest = t.skip(p + 1);
            match find_char(rest, 'V') {
                Some(q) => rest.take(q),
                None => rest,
            }
        },
        None => Seq::empty(),
    }
}

/// The part before the first `V`.
pub open spec fn before_v(t: Seq<char>) -> Seq<char> {
    match find_char(t, 'V') {
        Some(p) => t.take(p),
        None => t,
    }
}

/// Digits before the point: only a `9(n)` count is read.
pub open spec fn int_digits(left: Seq<char>) -> nat {
    match paren_count(left, '9') {
        Some(n) => n as nat,
        None => 0,
    }
}

/// Digits after the point: a `9(n)` count, or the number of `9`s.
pub open spec fn frac_digits(right: Seq<char>) -> nat {
    if starts_with(right, "9("@) {
        match paren_count(right, '9') {
            Some(n) => n as nat,
            None => 0,
        }
    } else {
        count_char(right, '9')
    }
}

pub open spec fn clause(signed: bool, category: PictureCategory, length: usize, scale: usize, usage: Usage) -> PictureClause {
    PictureClause { signed, category, length, scale, usage }
}

/// What a picture clause parses to: `X`, `A` and `9` alone or with a
/// count, or a numeric picture with an implied point `V`; `None` where the
/// digit count of a decimal picture overflows.
pub open spec fn picture_spec(input: Seq<char>) -> Option<Result<PictureClause, Seq<char>>> {
    picture_of(pic_body(upper(trim(input))), input)
}

/// What a picture parses to from its upper-cased text without `PIC`; the
/// error repeats the input as given.
pub open spec fn picture_of(t1: Seq<char>, input: Seq<char>) -> Option<Result<PictureClause, Seq<char>>> {
    let signed = starts_with(t1, "S"@);
    let t2 = if signed { t1.drop_first() } else { t1 };
    let (usage, t) = usage_split(t2);
    if t == "X"@ {
        Some(Ok(clause(signed, PictureCategory::Alphanumeric, 1, 0, usage)))
    } else if paren_count(t, 'X') is Some {
        Some(Ok(clause(signed, PictureCategory::Alphanumeric, paren_count(t, 'X')->Some_0, 0, usage)))
    } else if t == "A"@ {
        Some(Ok(clause(signed, PictureCategory::Alphabetic, 1, 0, usage)))
    } else if paren_count(t, 'A') is Some {
        Some(Ok(clause(signed, PictureCategory::Alphabetic, paren_count(t, 'A')->Some_0, 0, usage)))
    } else if t == "9"@ {
        Some(Ok(clause(signed, PictureCategory::Numeric, 1, 0, usage)))
    } else if paren_count(t, '9') is Some {
        Some(Ok(clause(signed, PictureCategory::Numeric, paren_count(t, '9')->Some_0, 0, usage)))
    } else if find_char(t, 'V') is Some {
        let il = int_digits(before_v(t));
        let fl = frac_digits(after_v(t));
        if il + fl <= usize::MAX {
            Some(Ok(clause(signed, PictureCategory::Numeric, (il + fl) as usize, fl as usize, usage)))
        } else {
            None
        }
    } else {
        Some(Err("Unsupported PIC: "@ + input))
    }
}

fn paren_count_exec(t: &Vec<char>, c: char) -> (r: Option<usize>)
    ensures
        r == paren_count(t@, c),
{
    if t.len() >= 2 && t[0] == c && t[1] == '(' {
        proof {
            assert(t@.take(2) =~= seq![c, '(']);
        }
        match crate::text::find_first(t.as_slice(), ')') {
            Some(end) => if 2 <= end {
                let inner = crate::text::slice_of(t.as_slice(), 2, end);
                crate::text::parse_usize(inner.as_slice())
            } else {
                None
            },
            None => None,
        }
    } else {
        proof {
            if t@.len() >= 2 {
                assert(t@.take(2) != seq![c, '('] ==> !starts_with(t@, seq![c, '(']));
                if starts_with(t@, seq![c, '(']) {
                    assert(t@.take(2)[0] == t@[0]);
                    assert(t@.take(2)[1] == t@[1]);
                }
            }
        }
        None
    }
}

fn picture_exec(input: &str) -> (r: Option<Result<PictureClause, String>>)
    ensures
        match r {
            Some(Ok(p)) => picture_spec(input@) == Some(Ok::<PictureClause, Seq<char>>(p)),
            Some(Err(e)) => picture_spec(input@) == Some(Err::<PictureClause, Seq<char>>(e@)),
            None => picture_spec(input@) is None,
        },
{
    proof {
        reveal_strlit("PIC ");
        reveal_strlit("S");
    }
    let cs = crate::text::chars_of(input);
    let tr = crate::text::trim_chars(cs.as_slice());
    let mut t = crate::text::to_upper(tr.as_slice());
    if crate::text::starts_with_str(t.as_slice(), "PIC ") {
        let rest = crate::text::slice_of(t.as_slice(), 4, t.len());
        t = crate::text::trim_chars(rest.as_slice());
        assert(rest@ =~= upper(trim(input@)).skip(4));
    }
    let signed = crate::text::starts_with_str(t.as_slice(), "S");
    if signed {
        t = crate::text::slice_of(t.as_slice(), 1, t.len());
        assert(t@ =~= pic_body(upper(trim(input@))).drop_first());
    }
    let mut usage = Usage::Display;
    if crate::text::ends_with_str(t.as_slice(), " COMP-3") {
        usage = Usage::Comp3;
        t = crate::text::remove_all_str(t.as_slice(), " COMP-3");
    } else if crate::text::ends_with_str(t.as_slice(), " COMP") {
        usage = Usage::Comp;
        t = crate::text::remove_all_str(t.as_slice(), " COMP");
    } else if crate::text::ends_with_str(t.as_slice(), " BINARY") {
        usage = Usage::Binary;
        t = crate::text::remove_all_str(t.as_slice(), " BINARY");
    } else if crate::text::ends_with_str(t.as_slice(), " DISPLAY") {
        usage = Usage::Display;
        t = crate::text::remove_all_str(t.as_slice(), " DISPLAY");
    }
    if crate::text::chars_eq_str(t.as_slice(), "X") {
        return Some(Ok(PictureClause { signed, category: PictureCategory::Alphanumeric, length: 1, scale: 0, usage }));
    }
    match paren_count_exec(&t, 'X') {
        Some(length) => {
            return Some(Ok(PictureClause { signed, category: PictureCategory::Alphanumeric, length, scale: 0, usage }));
        },
        None => {},
    }
    if crate::text::chars_eq_str(t.as_slice(), "A") {
        return Some(Ok(PictureClause { signed, category: PictureCategory::Alphabetic, length: 1, scale: 0, usage }));
    }
    match paren_count_exec(&t, 'A') {
        Some(length) => {
            return Some(Ok(PictureClause { signed, category: PictureCategory::Alphabetic, length, scale: 0, usage }));
        },
        None => {},
    }
    if crate::text::chars_eq_str(t.as_slice(), "9") {
        return Some(Ok(PictureClause { signed, category: PictureCategory::Numeric, length: 1, scale: 0, usage }));
    }
    match paren_count_exec(&t, '9') {
        Some(length) => {
            return Some(Ok(PictureClause { signed, category: PictureCategory::Numeric, length, scale: 0, usage }));
        },
        None => {},
    }
    let tl = t.len();
    match crate::text::find_first(t.as_slice(), 'V') {
        Some(p) => {
            let left = crate::text::slice_of(t.as_slice(), 0, p);
            let rest = crate::text::slice_of(t.as_slice(), p + 1, t.len());
            let right = match crate::text::find_first(rest.as_slice(), 'V') {
                Some(q) => crate::text::slice_of(rest.as_slice(), 0, q),
                None => rest,
            };
            proof {
                assert(left@ =~= before_v(t@));
                assert(right@ =~= after_v(t@));
            }
            let int_len: usize = match paren_count_exec(&left, '9') {
                Some(n) => n,
                None => 0,
            };
            let frac_len: usize = if crate::text::starts_with_str(right.as_slice(), "9(") {
                match paren_count_exec(&right, '9') {
                    Some(n) => n,
                    None => 0,
                }
            } else {
                crate::text::count_of(right.as_slice(), '9')
            };
            if int_len > usize::MAX - frac_len {
                return None;
            }
            Some(
                Ok(
                    PictureClause {
                        signed,
                        category: PictureCategory::Numeric,
                        length: int_len + frac_len,
                        scale: frac_len,
                        usage,
                    },
                ),
            )
        },
        None => {
            let mut msg = crate::text::owned("Unsupported PIC: ");
            crate::text::append_str(&mut msg, input);
            Some(Err(msg))
        },
    }
}

/// Parses a picture clause.
pub fn parse_picture(input: &str) -> (r: Result<PictureClause, String>)
    requires
        picture_spec(input@) is Some,
    ensures
        match r {
            Ok(p) => picture_spec(input@) == Some(Ok::<PictureClause, Seq<char>>(p)),
            Err(e) => picture_spec(input@) == Some(Err::<PictureClause, Seq<char>>(e@)),
        },
{
    match picture_exec(input) {
        Some(r) => r,
        None => Err(crate::text::owned("digit count out of range")),
    }
}

/// Parses a picture clause, or gives `None` where the digit count of a
/// decimal picture does not fit in `usize`.
pub fn checked_parse_picture(input: &str) -> (r: Option<Result<PictureClause, String>>)
    ensures
        picture_spec(input@) is None <==> r is None,
        match r {
            Some(Ok(p)) => picture_spec(input@) == Some(Ok::<PictureClause, Seq<char>>(p)),
            Some(Err(e)) => picture_spec(input@) == Some(Err::<PictureClause, Seq<char>>(e@)),
            None => true,
        },
{
    match picture_exec(input) {
        Some(_) => Some(parse_picture(input)),
        None => None,
    }
}

/// A decimal picture `V9(m)` (signed as `SV9(m)`), whatever its count
/// `m` that fits in `usize`, has `m` digits, all after the point: scale
/// `m` and length `m`, numeric, with display usage.
pub proof fn law_decimal_picture_counts_digits_after_point(signed: bool, d: Seq<char>, input: Seq<char>)
    requires
        parse_nat(d) is Some,
        d.len() > 0,
        d[0] != '+',
    ensures
        ({
            let m = parse_nat(d)->Some_0;
            let t1 = (if signed { seq!['S'] } else { Seq::<char>::empty() }) + seq!['V', '9', '('] + d + seq![')'];
            picture_of(t1, input) == Some(Ok::<PictureClause, Seq<char>>(clause(signed, PictureCategory::Numeric, m, m, Usage::Display)))
        }),
{
    let m = parse_nat(d)->Some_0;
    let pre = if signed { seq!['S'] } else { Seq::<char>::empty() };
    let t1 = pre + seq!['V', '9', '('] + d + seq![')'];
    let t = seq!['V', '9', '('] + d + seq![')'];
    reveal_strlit("S");
    reveal_strlit("X");
    reveal_strlit("A");
    reveal_strlit("9");
    reveal_strlit("9(");
    reveal_strlit(" COMP-3");
    reveal_strlit(" COMP");
    reveal_strlit(" BINARY");
    reveal_strlit(" DISPLAY");
    assert(crate::text::all_digits(d));
    // The sign.
    if signed {
        assert(t1.take(1) =~= seq!['S']);
        assert(t1.drop_first() =~= t);
    } else {
        assert(t1 =~= t);
        assert(t1.take(1) =~= seq!['V']);
        assert(seq!['V'] != "S"@) by {
            assert(seq!['V'][0] != "S"@[0]);
        }
    }
    let n = t.len();
    assert(t[n - 1] == ')');
    // No usage at the end: the last character is `)`.
    assert(!ends_with(t, " COMP-3"@)) by {
        if ends_with(t, " COMP-3"@) {
            assert(t.skip(n - 7)[6] == t[n - 1]);
        }
    }
    assert(!ends_with(t, " COMP"@)) by {
        if ends_with(t, " COMP"@) {
            assert(t.skip(n - 5)[4] == t[n - 1]);
        }
    }
    assert(!ends_with(t, " BINARY"@)) by {
        if ends_with(t, " BINARY"@) {
            assert(t.skip(n - 7)[6] == t[n - 1]);
        }
    }
    assert(!ends_with(t, " DISPLAY"@)) by {
        if ends_with(t, " DISPLAY"@) {
            assert(t.skip(n - 8)[7] == t[n - 1]);
        }
    }
    assert(usage_split(t) == (Usage::Display, t));
    // None of the forms before the point: `t` starts with `V`.
    assert(t[0] == 'V');
    assert(t != "X"@ && t != "A"@ && t != "9"@) by {
        assert("X"@[0] == 'X' && "A"@[0] == 'A' && "9"@[0] == '9');
    }
    assert(!starts_with(t, seq!['X', '('])) by {
        if starts_with(t, seq!['X', '(']) {
            assert(t.take(2)[0] == t[0]);
        }
    }
    assert(!starts_with(t, seq!['A', '('])) by {
        if starts_with(t, seq!['A', '(']) {
            assert(t.take(2)[0] == t[0]);
        }
    }
    assert(!starts_with(t, seq!['9', '('])) by {
        if starts_with(t, seq!['9', '(']) {
            assert(t.take(2)[0] == t[0]);
        }
    }
    // The point is first; nothing comes before it.
    crate::text::lemma_find_char_pub(t, 'V', 0);
    assert(before_v(t) =~= Seq::<char>::empty());
    assert(!starts_with(Seq::<char>::empty(), seq!['9', '(']));
    assert(int_digits(before_v(t)) == 0);
    // After it: `9(d)`, with no other point and its first `)` last.
    let r = t.skip(1);
    assert(r =~= seq!['9', '('] + d + seq![')']);
    assert forall|j: int| 0 <= j < r.len() implies #[trigger] r[j] != 'V' by {
        if 2 <= j < r.len() - 1 {
            assert(r[j] == d[j - 2]);
            assert(crate::text::is_digit(d[j - 2]));
        }
    }
    crate::text::lemma_find_char_pub(r, 'V', r.len() as int);
    assert(after_v(t) == r);
    assert forall|j: int| 0 <= j < r.len() - 1 implies #[trigger] r[j] != ')' by {
        if 2 <= j {
            assert(r[j] == d[j - 2]);
            assert(crate::text::is_digit(d[j - 2]));
        }
    }
    crate::text::lemma_find_char_pub(r, ')', r.len() - 1);
    assert(r.take(2) =~= seq!['9', '(']);
    assert("9("@ =~= seq!['9', '(']);
    assert(r.subrange(2, r.len() - 1) =~= d);
    assert(paren_count(r, '9') == Some(m));
    assert(frac_digits(r) == m as nat);
    assert("S"@ =~= seq!['S']);
    assert(starts_with(t1, "S"@) == signed);
    let t2 = if signed { t1.drop_first() } else { t1 };
    assert(t2 == t);
    assert(paren_count(t, 'X') is None);
    assert(paren_count(t, 'A') is None);
    assert(paren_count(t, '9') is None);
    assert(find_char(t, 'V') is Some);
}

/// A picture that starts with a count `9(n)` is numeric with `n` digits
/// and no scale, whatever follows the count (as long as no usage word ends
/// it): `9(5)V9(2)` has length 5 and scale 0, as the count form is tried
/// before the decimal form.
pub proof fn law_counted_numeric_picture(d: Seq<char>, rest: Seq<char>, input: Seq<char>)
    requires
        parse_nat(d) is Some,
        d.len() > 0,
        d[0] != '+',
        rest.len() == 0 || rest.last() == ')',
    ensures
        picture_of(seq!['9', '('] + d + seq![')'] + rest, input) == Some(
            Ok::<PictureClause, Seq<char>>(clause(false, PictureCategory::Numeric, parse_nat(d)->Some_0, 0, Usage::Display)),
        ),
{
    let t = seq!['9', '('] + d + seq![')'] + rest;
    reveal_strlit("S");
    reveal_strlit("X");
    reveal_strlit("A");
    reveal_strlit("9");
    reveal_strlit(" COMP-3");
    reveal_strlit(" COMP");
    reveal_strlit(" BINARY");
    reveal_strlit(" DISPLAY");
    assert(crate::text::all_digits(d));
    let n = t.len();
    assert(t[n - 1] == ')');
    assert(t.take(1) =~= seq!['9']);
    assert(!starts_with(t, "S"@)) by {
        assert(t.take(1)[0] != "S"@[0]);
    }
    assert(!ends_with(t, " COMP-3"@)) by {
        if ends_with(t, " COMP-3"@) {
            assert(t.skip(n - 7)[6] == t[n - 1]);
        }
    }
    assert(!ends_with(t, " COMP"@)) by {
        if ends_with(t, " COMP"@) {
            assert(t.skip(n - 5)[4] == t[n - 1]);
        }
    }
    assert(!ends_with(t, " BINARY"@)) by {
        if ends_with(t, " BINARY"@) {
            assert(t.skip(n - 7)[6] == t[n - 1]);
        }
    }
    assert(!ends_with(t, " DISPLAY"@)) by {
        if ends_with(t, " DISPLAY"@) {
            assert(t.skip(n - 8)[7] == t[n - 1]);
        }
    }
    assert(usage_split(t) == (Usage::Display, t));
    assert(t != "X"@ && t != "A"@ && t != "9"@) by {
        assert("X"@[0] == 'X' && "A"@[0] == 'A' && "9"@.len() == 1);
    }
    assert(!starts_with(t, seq!['X', '('])) by {
        if starts_with(t, seq!['X', '(']) {
            assert(t.take(2)[0] == t[0]);
        }
    }
    assert(!starts_with(t, seq!['A', '('])) by {
        if starts_with(t, seq!['A', '(']) {
            assert(t.take(2)[0] == t[0]);
        }
    }
    assert(paren_count(t, 'X') is None);
    assert(paren_count(t, 'A') is None);
    assert(t.take(2) =~= seq!['9', '(']);
    let e: int = 2 + d.len() as int;
    assert(t[e] == ')');
    assert forall|j: int| 0 <= j < e implies #[trigger] t[j] != ')' by {
        if 2 <= j {
            assert(t[j] == d[j - 2]);
            assert(crate::text::is_digit(d[j - 2]));
        }
    }
    crate::text::lemma_find_char_pub(t, ')', e);
    assert(t.subrange(2, e) =~= d);
    assert(paren_count(t, '9') == parse_nat(d));
}

} // verus!
