//! The COBOL text preprocessor: `REPLACE old BY new.` statements, and
//! `COPY name [REPLACING old BY new].` statements that bring in the text
//! of a copybook. The copybooks' texts are handed in by the caller, which
//! reads them; `copybook_names` says which ones a source asks for.
use crate::names::value_of;
use crate::text::{join_spaced, lines, seqs_view, starts_with, trim, upper, words};
use vstd::prelude::*;

verus! {

broadcast use vstd::std_specs::vec::group_vec_axioms;

// ---------------------------------------------------------------------
// Text operations
// ---------------------------------------------------------------------

/// `s` with every leading copy of `p` removed (`trim_start_matches`).
pub open spec fn strip_prefixes(s: Seq<char>, p: Seq<char>) -> Seq<char>
    decreases s.len(),
{
    if p.len() > 0 && starts_with(s, p) {
        strip_prefixes(s.skip(p.len() as int), p)
    } else {
        s
    }
}

/// `s` with every trailing `c` removed (`trim_end_matches`).
pub open spec fn trim_end_char(s: Seq<char>, c: char) -> Seq<char>
    decreases s.len(),
{
    if s.len() > 0 && s.last() == c {
        trim_end_char(s.drop_last(), c)
    } else {
        s
    }
}

/// `s` with every leading `c` removed (`trim_start_matches`).
pub open spec fn trim_start_char(s: Seq<char>, c: char) -> Seq<char>
    decreases s.len(),
{
    if s.len() > 0 && s[0] == c {
        trim_start_char(s.drop_first(), c)
    } else {
        s
    }
}

/// `s` with `c` removed at both ends (`trim_matches`).
pub open spec fn trim_char(s: Seq<char>, c: char) -> Seq<char> {
    trim_end_char(trim_start_char(s, c), c)
}

/// The first position at or after `i` where `p` occurs in `s`.
pub open spec fn find_from(s: Seq<char>, p: Seq<char>, i: int) -> Option<int>
    decreases s.len() + 1 - i,
{
    if i < 0 || i > s.len() {
        None
    } else if starts_with(s.skip(i), p) {
        Some(i)
    } else {
        find_from(s, p, i + 1)
    }
}

/// The text before and after the first `p` in `s` (`split_once`).
pub open spec fn split_once(s: Seq<char>, p: Seq<char>) -> Option<(Seq<char>, Seq<char>)> {
    match find_from(s, p, 0) {
        Some(i) => Some((s.take(i), s.skip(i + p.len()))),
        None => None,
    }
}

/// `s` from position `i` on, with each occurrence of the non-empty `p`
/// replaced by `r`, scanning left to right (`str::replace`).
pub open spec fn replace_from(s: Seq<char>, p: Seq<char>, r: Seq<char>, i: int) -> Seq<char>
    decreases s.len() - i,
{
    if i < 0 || i >= s.len() || p.len() == 0 {
        Seq::empty()
    } else if starts_with(s.skip(i), p) {
        r + replace_from(s, p, r, i + p.len())
    } else {
        seq![s[i]] + replace_from(s, p, r, i + 1)
    }
}

/// `str::replace` with an empty pattern: `r` before every character and
/// at the end.
pub open spec fn interleave_from(s: Seq<char>, r: Seq<char>, i: int) -> Seq<char>
    decreases s.len() - i,
{
    if i < 0 || i >= s.len() {
        r
    } else {
        r + seq![s[i]] + interleave_from(s, r, i + 1)
    }
}

/// `s.replace(p, r)`.
pub open spec fn replace_all(s: Seq<char>, p: Seq<char>, r: Seq<char>) -> Seq<char> {
    if p.len() == 0 {
        interleave_from(s, r, 0)
    } else {
        replace_from(s, p, r, 0)
    }
}

// ---------------------------------------------------------------------
// The preprocessor
// ---------------------------------------------------------------------

/// A token after the replacements in order: each pair whose old text is
/// the token as it stands by then gives it the pair's new text.
pub open spec fn replace_token(t: Seq<char>, repl: Seq<(Seq<char>, Seq<char>)>) -> Seq<char>
    decreases repl.len(),
{
    if repl.len() == 0 {
        t
    } else {
        let t1 = replace_token(t, repl.drop_last());
        if t1 == repl.last().0 {
            repl.last().1
        } else {
            t1
        }
    }
}

/// The words of a text, each replaced, joined by single spaces.
pub open spec fn apply_replacements(text: Seq<char>, repl: Seq<(Seq<char>, Seq<char>)>) -> Seq<char> {
    join_spaced(words(text).map_values(|w: Seq<char>| replace_token(w, repl)))
}

/// The replacement a `REPLACE old BY new.` line records, if it has ` BY `.
pub open spec fn replace_pair(trimmed: Seq<char>) -> Option<(Seq<char>, Seq<char>)> {
    let text = trim_end_char(trim(strip_prefixes(trimmed, "REPLACE"@)), '.');
    match split_once(text, " BY "@) {
        Some((o, n)) => Some((trim_char(trim(o), '='), trim_char(trim(n), '='))),
        None => None,
    }
}

/// Whether a line (as trimmed) is a `COPY` statement.
pub open spec fn is_copy(trimmed: Seq<char>) -> bool {
    starts_with(upper(trimmed), "COPY "@) && words(trimmed).len() >= 2
}

/// The copybook a `COPY` line names.
pub open spec fn copy_name(trimmed: Seq<char>) -> Seq<char> {
    trim_end_char(words(trimmed)[1], '.')
}

/// A copybook's text after the `REPLACING old BY new` of its `COPY` line.
/// The clause is read from the line at the place where its upper case has
/// `REPLACING`; where that place lies past the line's end, nothing is
/// replaced.
pub open spec fn copy_text(book: Seq<char>, trimmed: Seq<char>) -> Seq<char> {
    match find_from(upper(trimmed), "REPLACING"@, 0) {
        Some(pos) => if pos + 9 <= trimmed.len() {
            match split_once(trimmed.skip(pos + 9), "BY"@) {
                Some((o, n)) => replace_all(
                    book,
                    trim_char(trim(o), '='),
                    trim_char(trim_end_char(trim(n), '.'), '='),
                ),
                None => book,
            }
        } else {
            book
        },
        None => book,
    }
}

/// What a line that records no replacement puts out, before its newline.
pub open spec fn expand_line(
    line: Seq<char>,
    repl: Seq<(Seq<char>, Seq<char>)>,
    books: Seq<(Seq<char>, Seq<char>)>,
) -> Seq<char> {
    let trimmed = trim(line);
    if is_copy(trimmed) {
        match value_of(books, copy_name(trimmed)) {
            Some(book) => apply_replacements(copy_text(book, trimmed), repl),
            None => apply_replacements(line, repl),
        }
    } else {
        apply_replacements(line, repl)
    }
}

/// The output so far and the replacements recorded so far, after the
/// given lines.
pub open spec fn preprocess_lines(
    ls: Seq<Seq<char>>,
    books: Seq<(Seq<char>, Seq<char>)>,
) -> (Seq<char>, Seq<(Seq<char>, Seq<char>)>)
    decreases ls.len(),
{
    if ls.len() == 0 {
        (Seq::empty(), Seq::empty())
    } else {
        let (out, repl) = preprocess_lines(ls.drop_last(), books);
        let line = ls.last();
        if starts_with(upper(trim(line)), "REPLACE "@) {
            match replace_pair(trim(line)) {
                Some(p) => (out, repl.push(p)),
                None => (out, repl),
            }
        } else {
            (out + expand_line(line, repl, books) + seq!['\n'], repl)
        }
    }
}

/// The names of the copybooks that the `COPY` lines of the given lines ask
/// for, in order.
pub open spec fn copy_names(ls: Seq<Seq<char>>) -> Seq<Seq<char>>
    decreases ls.len(),
{
    if ls.len() == 0 {
        Seq::empty()
    } else {
        let t = trim(ls.last());
        if !starts_with(upper(t), "REPLACE "@) && is_copy(t) {
            copy_names(ls.drop_last()).push(copy_name(t))
        } else {
            copy_names(ls.drop_last())
        }
    }
}

/// The pairs of a slice of string pairs, as character sequences.
pub open spec fn pairs_view(v: Seq<(String, String)>) -> Seq<(Seq<char>, Seq<char>)> {
    Seq::new(v.len(), |i: int| (v[i].0@, v[i].1@))
}

// ---------------------------------------------------------------------
// Executable text operations
// ---------------------------------------------------------------------

fn starts_at(s: &[char], p: &[char], i: usize) -> (r: bool)
    requires
        i <= s.len(),
    ensures
        r == starts_with(s@.skip(i as int), p@),
{
    if p.len() > s.len() - i {
        return false;
    }
    let mut k: usize = 0;
    while k < p.len()
        invariant
            k <= p.len(),
            i + p.len() <= s.len(),
            forall|j: int| 0 <= j < k ==> s@[i + j] == p@[j],
        decreases p.len() - k,
    {
        if s[i + k] != p[k] {
            assert(s@.skip(i as int).take(p.len() as int)[k as int] == s@[i + k]);
            return false;
        }
        k = k + 1;
    }
    assert(s@.skip(i as int).take(p.len() as int) =~= p@);
    true
}

fn strip_prefixes_exec(s: &[char], p: &[char]) -> (r: Vec<char>)
    ensures
        r@ == strip_prefixes(s@, p@),
{
    let mut i: usize = 0;
    assert(s@.skip(0) =~= s@);
    if p.len() > 0 {
        while i < s.len() && starts_at(s, p, i)
            invariant
                i <= s.len(),
                p.len() > 0,
                strip_prefixes(s@.skip(i as int), p@) == strip_prefixes(s@, p@),
            decreases s.len() - i,
        {
            assert(s@.skip(i as int).skip(p.len() as int) =~= s@.skip(i + p.len()));
            i = i + p.len();
        }
        if i == s.len() {
            assert(s@.skip(i as int) =~= Seq::<char>::empty());
        }
    }
    crate::text::slice_of(s, i, s.len())
}

pub(crate) fn trim_end_char_exec(s: &[char], c: char) -> (r: Vec<char>)
    ensures
        r@ == trim_end_char(s@, c),
{
    let mut j: usize = s.len();
    assert(s@.take(j as int) =~= s@);
    while j > 0 && s[j - 1] == c
        invariant
            j <= s.len(),
            trim_end_char(s@.take(j as int), c) == trim_end_char(s@, c),
        decreases j,
    {
        assert(s@.take(j as int).drop_last() =~= s@.take(j - 1));
        j = j - 1;
    }
    crate::text::slice_of(s, 0, j)
}

pub(crate) fn trim_char_exec(s: &[char], c: char) -> (r: Vec<char>)
    ensures
        r@ == trim_char(s@, c),
{
    let mut i: usize = 0;
    assert(s@.skip(0) =~= s@);
    while i < s.len() && s[i] == c
        invariant
            i <= s.len(),
            trim_start_char(s@.skip(i as int), c) == trim_start_char(s@, c),
        decreases s.len() - i,
    {
        assert(s@.skip(i as int).drop_first() =~= s@.skip(i + 1));
        i = i + 1;
    }
    let t = crate::text::slice_of(s, i, s.len());
    assert(t@ =~= s@.skip(i as int));
    trim_end_char_exec(t.as_slice(), c)
}

fn find_exec(s: &[char], p: &[char], from: usize) -> (r: Option<usize>)
    requires
        from <= s.len(),
    ensures
        match r {
            Some(i) => find_from(s@, p@, from as int) == Some(i as int) && i + p@.len() <= s@.len(),
            None => find_from(s@, p@, from as int) is None,
        },
{
    let mut i: usize = from;
    while i < s.len()
        invariant
            from <= i <= s.len(),
            find_from(s@, p@, i as int) == find_from(s@, p@, from as int),
        decreases s.len() - i,
    {
        if starts_at(s, p, i) {
            return Some(i);
        }
        i = i + 1;
    }
    if starts_at(s, p, i) {
        return Some(i);
    }
    assert(find_from(s@, p@, i + 1) is None);
    None
}

fn split_once_exec(s: &[char], p: &[char]) -> (r: Option<(Vec<char>, Vec<char>)>)
    ensures
        match r {
            Some((a, b)) => split_once(s@, p@) == Some((a@, b@)),
            None => split_once(s@, p@) is None,
        },
{
    match find_exec(s, p, 0) {
        Some(i) => {
            let a = crate::text::slice_of(s, 0, i);
            let b = crate::text::slice_of(s, i + p.len(), s.len());
            assert(a@ =~= s@.take(i as int));
            assert(b@ =~= s@.skip(i + p.len()));
            Some((a, b))
        },
        None => None,
    }
}

fn replace_all_exec(s: &[char], p: &[char], r: &[char]) -> (out: Vec<char>)
    ensures
        out@ == replace_all(s@, p@, r@),
{
    let mut out: Vec<char> = Vec::new();
    let mut i: usize = 0;
    if p.len() == 0 {
        while i < s.len()
            invariant
                i <= s.len(),
                out@ + interleave_from(s@, r@, i as int) == interleave_from(s@, r@, 0),
            decreases s.len() - i,
        {
            let ghost o0 = out@;
            append_all(&mut out, r);
            out.push(s[i]);
            assert(out@ + interleave_from(s@, r@, i + 1) =~= o0 + interleave_from(s@, r@, i as int));
            i = i + 1;
        }
        let ghost o0 = out@;
        append_all(&mut out, r);
        assert(out@ =~= o0 + interleave_from(s@, r@, i as int));
    } else {
        while i < s.len()
            invariant
                i <= s.len(),
                p.len() > 0,
                out@ + replace_from(s@, p@, r@, i as int) == replace_from(s@, p@, r@, 0),
            decreases s.len() - i,
        {
            let ghost o0 = out@;
            if starts_at(s, p, i) {
                append_all(&mut out, r);
                assert(out@ + replace_from(s@, p@, r@, i + p.len()) =~= o0 + replace_from(s@, p@, r@, i as int));
                i = i + p.len();
            } else {
                out.push(s[i]);
                assert(out@ + replace_from(s@, p@, r@, i + 1) =~= o0 + replace_from(s@, p@, r@, i as int));
                i = i + 1;
            }
        }
        assert(out@ =~= out@ + replace_from(s@, p@, r@, i as int));
    }
    out
}

fn append_all(out: &mut Vec<char>, t: &[char])
    ensures
        final(out)@ == old(out)@ + t@,
{
    let ghost o0 = out@;
    let mut k: usize = 0;
    while k < t.len()
        invariant
            k <= t.len(),
            out@ == o0 + t@.take(k as int),
        decreases t.len() - k,
    {
        out.push(t[k]);
        assert(o0 + t@.take(k + 1) =~= (o0 + t@.take(k as int)).push(t@[k as int]));
        k = k + 1;
    }
    assert(t@.take(k as int) =~= t@);
}

// ---------------------------------------------------------------------
// Executable preprocessor
// ---------------------------------------------------------------------

fn replace_one_token(t: &Vec<char>, repl: &Vec<(Vec<char>, Vec<char>)>) -> (r: Vec<char>)
    ensures
        r@ == replace_token(t@, seq_pairs(repl@)),
{
    let ghost rv = seq_pairs(repl@);
    let mut cur: Vec<char> = t.clone();
    let mut j: usize = 0;
    assert(rv.take(0) =~= Seq::<(Seq<char>, Seq<char>)>::empty());
    while j < repl.len()
        invariant
            j <= repl@.len(),
            rv == seq_pairs(repl@),
            cur@ == replace_token(t@, rv.take(j as int)),
        decreases repl.len() - j,
    {
        assert(rv.take(j + 1).drop_last() =~= rv.take(j as int));
        assert(rv.take(j + 1).last() == rv[j as int]);
        if crate::text::chars_eq(cur.as_slice(), repl[j].0.as_slice()) {
            cur = repl[j].1.clone();
        }
        j = j + 1;
    }
    assert(rv.take(j as int) =~= rv);
    cur
}

/// The pairs of a vector of character-vector pairs, as sequences.
pub open spec fn seq_pairs(v: Seq<(Vec<char>, Vec<char>)>) -> Seq<(Seq<char>, Seq<char>)> {
    Seq::new(v.len(), |i: int| (v[i].0@, v[i].1@))
}

fn apply_replacements_exec(text: &[char], repl: &Vec<(Vec<char>, Vec<char>)>) -> (r: Vec<char>)
    ensures
        r@ == apply_replacements(text@, seq_pairs(repl@)),
{
    let ws = crate::text::split_words(text);
    let ghost wv = words(text@);
    let mut out: Vec<Vec<char>> = Vec::new();
    let mut i: usize = 0;
    while i < ws.len()
        invariant
            i <= ws@.len(),
            wv == words(text@),
            ws@.len() == wv.len(),
            forall|k: int| 0 <= k < ws@.len() ==> #[trigger] ws@[k]@ == wv[k],
            out@.len() == i,
            forall|k: int| 0 <= k < i ==> #[trigger] out@[k]@ == replace_token(wv[k], seq_pairs(repl@)),
        decreases ws.len() - i,
    {
        out.push(replace_one_token(&ws[i], repl));
        i = i + 1;
    }
    assert(seqs_view(out@) =~= wv.map_values(|w: Seq<char>| replace_token(w, seq_pairs(repl@))));
    crate::text::join_words(out.as_slice())
}

fn book_lookup(books: &[(String, String)], name: &Vec<char>) -> (r: Option<Vec<char>>)
    ensures
        match r {
            Some(t) => value_of(pairs_view(books@), name@) == Some(t@),
            None => value_of(pairs_view(books@), name@) is None,
        },
{
    let ghost bv = pairs_view(books@);
    let mut j: usize = books.len();
    assert(bv.take(j as int) =~= bv);
    while j > 0
        invariant
            j <= books@.len(),
            bv == pairs_view(books@),
            crate::names::index_of_key(bv, name@) == crate::names::index_of_key(bv.take(j as int), name@),
        decreases j,
    {
        let key = crate::text::chars_of_string(&books[j - 1].0);
        let ghost t = bv.take(j as int);
        assert(t.last() == bv[j - 1]);
        if crate::text::chars_eq(key.as_slice(), name.as_slice()) {
            proof {
                crate::names::lemma_index_of_key(t, name@);
            }
            return Some(crate::text::chars_of_string(&books[j - 1].1));
        }
        assert(t.drop_last() =~= bv.take(j - 1));
        j = j - 1;
    }
    assert(bv.take(0) =~= Seq::<(Seq<char>, Seq<char>)>::empty());
    None
}

fn copy_text_exec(book: &Vec<char>, trimmed: &Vec<char>) -> (r: Vec<char>)
    ensures
        r@ == copy_text(book@, trimmed@),
{
    let up = crate::text::to_upper(trimmed.as_slice());
    let key = crate::text::chars_of("REPLACING");
    match find_exec(up.as_slice(), key.as_slice(), 0) {
        Some(pos) => {
            proof {
                reveal_strlit("REPLACING");
                assert(key@ == "REPLACING"@);
                assert(key@.len() == 9);
            }
            if pos > trimmed.len() || trimmed.len() - pos < key.len() {
                return book.clone();
            }
            let start: usize = pos + key.len();
            let clause = crate::text::slice_of(trimmed.as_slice(), start, trimmed.len());
            assert(clause@ =~= trimmed@.skip(pos + 9));
            let by = crate::text::chars_of("BY");
            match split_once_exec(clause.as_slice(), by.as_slice()) {
                Some((o, n)) => {
                    let o1 = crate::text::trim_chars(o.as_slice());
                    let o2 = trim_char_exec(o1.as_slice(), '=');
                    let n1 = crate::text::trim_chars(n.as_slice());
                    let n2 = trim_end_char_exec(n1.as_slice(), '.');
                    let n3 = trim_char_exec(n2.as_slice(), '=');
                    replace_all_exec(book.as_slice(), o2.as_slice(), n3.as_slice())
                },
                None => book.clone(),
            }
        },
        None => book.clone(),
    }
}

fn replace_pair_exec(trimmed: &Vec<char>) -> (r: Option<(Vec<char>, Vec<char>)>)
    ensures
        match r {
            Some((o, n)) => replace_pair(trimmed@) == Some((o@, n@)),
            None => replace_pair(trimmed@) is None,
        },
{
    let kw = crate::text::chars_of("REPLACE");
    let a = strip_prefixes_exec(trimmed.as_slice(), kw.as_slice());
    let b = crate::text::trim_chars(a.as_slice());
    let text = trim_end_char_exec(b.as_slice(), '.');
    let by = crate::text::chars_of(" BY ");
    match split_once_exec(text.as_slice(), by.as_slice()) {
        Some((o, n)) => {
            let o1 = crate::text::trim_chars(o.as_slice());
            let n1 = crate::text::trim_chars(n.as_slice());
            Some((trim_char_exec(o1.as_slice(), '='), trim_char_exec(n1.as_slice(), '=')))
        },
        None => None,
    }
}

/// Whether the trimmed line is a `COPY` line, and the name it asks for.
fn copy_request(trimmed: &Vec<char>) -> (r: Option<Vec<char>>)
    ensures
        match r {
            Some(n) => is_copy(trimmed@) && n@ == copy_name(trimmed@),
            None => !is_copy(trimmed@),
        },
{
    let up = crate::text::to_upper(trimmed.as_slice());
    if !crate::text::starts_with_str(up.as_slice(), "COPY ") {
        return None;
    }
    let parts = crate::text::split_words(trimmed.as_slice());
    if parts.len() < 2 {
        return None;
    }
    Some(trim_end_char_exec(parts[1].as_slice(), '.'))
}

fn is_replace_line(trimmed: &Vec<char>) -> (r: bool)
    ensures
        r == starts_with(upper(trimmed@), "REPLACE "@),
{
    let up = crate::text::to_upper(trimmed.as_slice());
    crate::text::starts_with_str(up.as_slice(), "REPLACE ")
}

/// The names of the copybooks that the `COPY` lines of `source` ask for,
/// in the order of the lines.
pub fn copybook_names(source: &str) -> (r: Vec<String>)
    ensures
        r@.len() == copy_names(lines(source@)).len(),
        forall|k: int| 0 <= k < r@.len() ==> #[trigger] r@[k]@ == copy_names(lines(source@))[k],
{
    let cs = crate::text::chars_of(source);
    let ls = crate::text::split_lines(cs.as_slice());
    let ghost lv = lines(source@);
    let mut r: Vec<String> = Vec::new();
    let mut i: usize = 0;
    assert(lv.take(0) =~= Seq::<Seq<char>>::empty());
    while i < ls.len()
        invariant
            i <= ls@.len(),
            lv == lines(source@),
            ls@.len() == lv.len(),
            forall|k: int| 0 <= k < ls@.len() ==> #[trigger] ls@[k]@ == lv[k],
            r@.len() == copy_names(lv.take(i as int)).len(),
            forall|k: int| 0 <= k < r@.len() ==> #[trigger] r@[k]@ == copy_names(lv.take(i as int))[k],
        decreases ls.len() - i,
    {
        assert(lv.take(i + 1).drop_last() =~= lv.take(i as int));
        assert(lv.take(i + 1).last() == lv[i as int]);
        let trimmed = crate::text::trim_chars(ls[i].as_slice());
        if !is_replace_line(&trimmed) {
            match copy_request(&trimmed) {
                Some(n) => {
                    r.push(crate::text::string_of(n.as_slice()));
                },
                None => {},
            }
        }
        i = i + 1;
    }
    assert(lv.take(i as int) =~= lv);
    r
}

/// Expands a source text: `REPLACE` lines record replacements and put out
/// nothing; a `COPY` line of a copybook in `books` puts out the copybook's
/// text (after its `REPLACING`); every other line is put out as it is.
/// What is put out has the replacements recorded so far applied word by
/// word, and ends with a newline.
pub fn preprocess(source: &str, books: &[(String, String)]) -> (r: String)
    ensures
        r@ == preprocess_lines(lines(source@), pairs_view(books@)).0,
{
    let cs = crate::text::chars_of(source);
    let ls = crate::text::split_lines(cs.as_slice());
    let ghost lv = lines(source@);
    let ghost bv = pairs_view(books@);
    let mut out: Vec<char> = Vec::new();
    let mut repl: Vec<(Vec<char>, Vec<char>)> = Vec::new();
    let mut i: usize = 0;
    assert(lv.take(0) =~= Seq::<Seq<char>>::empty());
    assert(seq_pairs(repl@) =~= Seq::<(Seq<char>, Seq<char>)>::empty());
    while i < ls.len()
        invariant
            i <= ls@.len(),
            lv == lines(source@),
            bv == pairs_view(books@),
            ls@.len() == lv.len(),
            forall|k: int| 0 <= k < ls@.len() ==> #[trigger] ls@[k]@ == lv[k],
            preprocess_lines(lv.take(i as int), bv) == (out@, seq_pairs(repl@)),
        decreases ls.len() - i,
    {
        assert(lv.take(i + 1).drop_last() =~= lv.take(i as int));
        assert(lv.take(i + 1).last() == lv[i as int]);
        let line = &ls[i];
        let trimmed = crate::text::trim_chars(line.as_slice());
        if is_replace_line(&trimmed) {
            match replace_pair_exec(&trimmed) {
                Some(p) => {
                    let ghost r0 = repl@;
                    repl.push(p);
                    assert(seq_pairs(repl@) =~= seq_pairs(r0).push((p.0@, p.1@)));
                },
                None => {},
            }
        } else {
            let piece = match copy_request(&trimmed) {
                Some(name) => match book_lookup(books, &name) {
                    Some(book) => {
                        let text = copy_text_exec(&book, &trimmed);
                        apply_replacements_exec(text.as_slice(), &repl)
                    },
                    None => apply_replacements_exec(line.as_slice(), &repl),
                },
                None => apply_replacements_exec(line.as_slice(), &repl),
            };
            append_all(&mut out, piece.as_slice());
            out.push('\n');
        }
        i = i + 1;
    }
    assert(lv.take(i as int) =~= lv);
    crate::text::string_of(out.as_slice())
}

} // verus!
