//! Checking a translation against the interpreter: the variables a
//! function uses, generated test inputs, `key=value` inputs, and the
//! `name=value` lines a translated program prints.
use crate::ir::{stmts_view, Function, Source, SourceV, Statement, StatementV};
use crate::names::{index_of_key, value_of, NameSet};
use crate::parser_cobol::ParseError;
use crate::preprocessor::{find_from, split_once};
use crate::text::{lines, parse_int, trim};
use crate::translate_python::{is_name, is_name_exec};
use rand::Rng;
use vstd::prelude::*;

verus! {

broadcast use vstd::std_specs::vec::group_vec_axioms, crate::ir::lemma_stmts_view;

// ---------------------------------------------------------------------
// Variables of a function
// ---------------------------------------------------------------------

/// A name added to an ordered set of names.
pub open spec fn add_name(m: Seq<Seq<char>>, x: Seq<char>) -> Seq<Seq<char>> {
    if m.contains(x) {
        m
    } else {
        m.push(x)
    }
}

pub open spec fn add_names(m: Seq<Seq<char>>, xs: Seq<Seq<char>>) -> Seq<Seq<char>>
    decreases xs.len(),
{
    if xs.len() == 0 {
        m
    } else {
        add_names(add_name(m, xs[0]), xs.drop_first())
    }
}

/// A name added when it reads as a variable's name (`is_name`) rather than
/// as a literal (a number or quoted text).
pub open spec fn add_var(m: Seq<Seq<char>>, x: Seq<char>) -> Seq<Seq<char>> {
    if is_name(x) {
        add_name(m, x)
    } else {
        m
    }
}

pub open spec fn add_vars(m: Seq<Seq<char>>, xs: Seq<Seq<char>>) -> Seq<Seq<char>>
    decreases xs.len(),
{
    if xs.len() == 0 {
        m
    } else {
        add_vars(add_var(m, xs[0]), xs.drop_first())
    }
}

/// The names after those a statement mentions as variables: the targets
/// of `ADD` and `MOVE`, a moved variable, the left side of the condition
/// of an `IF` or loop, the subject of an `EVALUATE` and each `WHEN` value
/// that is a variable, the target and variable sources of a `STRING`, the
/// source and targets of an `UNSTRING`, and those of nested statements. A
/// `PERFORM` of a paragraph is not followed.
pub open spec fn vars_stmt(s: StatementV, m: Seq<Seq<char>>) -> Seq<Seq<char>>
    decreases s, 2nat,
{
    match s {
        StatementV::Add { target, .. } => add_name(m, target),
        StatementV::Move { source, target } => match source {
            SourceV::Variable(v) => add_name(add_name(m, target), v),
            _ => add_name(m, target),
        },
        StatementV::If { condition, then_branch, else_branch } => {
            let m2 = vars_block(then_branch, add_name(m, condition.left));
            match else_branch {
                Some(e) => vars_block(e, m2),
                None => m2,
            }
        },
        StatementV::PerformUntil { condition, body } => vars_block(body, add_name(m, condition.left)),
        StatementV::Evaluate { value, branches } => vars_branches(branches, add_name(m, value)),
        StatementV::String { sources, into } => add_vars(add_name(m, into), sources),
        StatementV::Unstring { source, into } => add_names(add_name(m, source), into),
        _ => m,
    }
}

pub open spec fn vars_branches(bs: Seq<(Seq<char>, Seq<StatementV>)>, m: Seq<Seq<char>>) -> Seq<Seq<char>>
    decreases bs, 1nat,
{
    if bs.len() == 0 {
        m
    } else {
        vars_branches(bs.drop_first(), vars_block(bs[0].1, add_var(m, bs[0].0)))
    }
}

pub open spec fn vars_block(ss: Seq<StatementV>, m: Seq<Seq<char>>) -> Seq<Seq<char>>
    decreases ss, 0nat,
{
    if ss.len() == 0 {
        m
    } else {
        vars_block(ss.drop_first(), vars_stmt(ss[0], m))
    }
}

fn add_name_exec(set: &mut NameSet, name: &String)
    ensures
        final(set).members() == add_name(old(set).members(), name@),
{
    let _ = set.insert(name.clone());
}

fn add_names_exec(set: &mut NameSet, names: &Vec<String>)
    ensures
        final(set).members() == add_names(old(set).members(), crate::names::names_view(names@)),
{
    let ghost nv = crate::names::names_view(names@);
    let ghost m0 = set.members();
    let mut i: usize = 0;
    assert(nv.skip(0) =~= nv);
    while i < names.len()
        invariant
            i <= names@.len(),
            nv == crate::names::names_view(names@),
            add_names(set.members(), nv.skip(i as int)) == add_names(m0, nv),
        decreases names.len() - i,
    {
        assert(nv.skip(i as int)[0] == names@[i as int]@);
        assert(nv.skip(i as int).drop_first() =~= nv.skip(i + 1));
        add_name_exec(set, &names[i]);
        i = i + 1;
    }
    assert(nv.skip(i as int).len() == 0);
}

fn add_var_exec(set: &mut NameSet, name: &String)
    ensures
        final(set).members() == add_var(old(set).members(), name@),
{
    let cs = crate::text::chars_of_string(name);
    if is_name_exec(&cs) {
        add_name_exec(set, name);
    }
}

fn add_vars_exec(set: &mut NameSet, names: &Vec<String>)
    ensures
        final(set).members() == add_vars(old(set).members(), crate::names::names_view(names@)),
{
    let ghost nv = crate::names::names_view(names@);
    let ghost m0 = set.members();
    let mut i: usize = 0;
    assert(nv.skip(0) =~= nv);
    while i < names.len()
        invariant
            i <= names@.len(),
            nv == crate::names::names_view(names@),
            add_vars(set.members(), nv.skip(i as int)) == add_vars(m0, nv),
        decreases names.len() - i,
    {
        assert(nv.skip(i as int)[0] == names@[i as int]@);
        assert(nv.skip(i as int).drop_first() =~= nv.skip(i + 1));
        add_var_exec(set, &names[i]);
        i = i + 1;
    }
    assert(nv.skip(i as int).len() == 0);
}

fn collect_block(ss: &Vec<Statement>, set: &mut NameSet)
    ensures
        final(set).members() == vars_block(stmts_view(ss@), old(set).members()),
    decreases ss, 0nat,
{
    let ghost sv = stmts_view(ss@);
    let ghost m0 = set.members();
    let mut i: usize = 0;
    assert(sv.skip(0) =~= sv);
    while i < ss.len()
        invariant
            i <= ss@.len(),
            sv == stmts_view(ss@),
            vars_block(sv.skip(i as int), set.members()) == vars_block(sv, m0),
        decreases ss.len() - i,
    {
        proof {
            assert(sv.skip(i as int)[0] == sv[i as int]);
            assert(sv.skip(i as int).drop_first() =~= sv.skip(i + 1));
            assert(decreases_to!(*ss => ss@));
        }
        collect_stmt(&ss[i], set);
        i = i + 1;
    }
    assert(sv.skip(i as int).len() == 0);
}

fn collect_branches(bs: &Vec<(String, Vec<Statement>)>, set: &mut NameSet)
    ensures
        final(set).members() == vars_branches(crate::ir::branches_view(bs@), old(set).members()),
    decreases bs, 1nat,
{
    let ghost bv = crate::ir::branches_view(bs@);
    let ghost m0 = set.members();
    proof {
        crate::ir::lemma_branches_view(bs@);
    }
    let mut i: usize = 0;
    assert(bv.skip(0) =~= bv);
    while i < bs.len()
        invariant
            i <= bs@.len(),
            bv == crate::ir::branches_view(bs@),
            bv.len() == bs@.len(),
            forall|k: int| 0 <= k < bs@.len() ==> #[trigger] bv[k] == (bs@[k].0@, stmts_view(bs@[k].1@)),
            vars_branches(bv.skip(i as int), set.members()) == vars_branches(bv, m0),
        decreases bs.len() - i,
    {
        proof {
            assert(bv.skip(i as int)[0] == bv[i as int]);
            assert(bv.skip(i as int).drop_first() =~= bv.skip(i + 1));
            assert(decreases_to!(*bs => bs@));
            assert(decreases_to!(bs@ => bs@[i as int]));
            assert(decreases_to!(bs@[i as int] => bs@[i as int].1));
        }
        add_var_exec(set, &bs[i].0);
        collect_block(&bs[i].1, set);
        i = i + 1;
    }
    assert(bv.skip(i as int).len() == 0);
}

fn collect_stmt(s: &Statement, set: &mut NameSet)
    ensures
        final(set).members() == vars_stmt(s@, old(set).members()),
    decreases s, 1nat,
{
    match s {
        Statement::Add { target, .. } => add_name_exec(set, target),
        Statement::Move { source, target } => {
            add_name_exec(set, target);
            match source {
                Source::Variable(v) => add_name_exec(set, v),
                _ => {},
            }
        },
        Statement::If { condition, then_branch, else_branch } => {
            add_name_exec(set, &condition.left);
            collect_block(then_branch, set);
            match else_branch {
                Some(e) => {
                    proof {
                        assert(decreases_to!(*s => *else_branch));
                    }
                    collect_block(e, set)
                },
                None => {},
            }
        },
        Statement::PerformUntil { condition, body } => {
            add_name_exec(set, &condition.left);
            collect_block(body, set);
        },
        Statement::Evaluate { value, branches } => {
            add_name_exec(set, value);
            collect_branches(branches, set);
        },
        Statement::String { sources, into } => {
            add_name_exec(set, into);
            add_vars_exec(set, sources);
        },
        Statement::Unstring { source, into } => {
            add_name_exec(set, source);
            add_names_exec(set, into);
        },
        _ => {},
    }
}

/// The variables a function's body mentions, each once, in the order of
/// first mention.
pub fn collect_variables(func: &Function) -> (r: Vec<String>)
    ensures
        crate::names::names_view(r@) == vars_block(func@.body, Seq::empty()),
{
    let mut set = NameSet::new();
    collect_block(&func.body, &mut set);
    set.to_vec()
}

// ---------------------------------------------------------------------
// Test inputs
// ---------------------------------------------------------------------

/// A random number generator of the `rand` crate, local to the thread.
#[verifier::external_type_specification]
#[verifier::external_body]
pub struct ExThreadRng(rand::rngs::ThreadRng);

/// Calls `rand::thread_rng`, which hands out the thread's generator. Its
/// state is not modelled: nothing is stated of it.
#[verifier::external_body]
fn thread_rng() -> rand::rngs::ThreadRng {
    rand::thread_rng()
}

/// Calls `Rng::gen_range` on `lo..hi`, which returns a number of the range
/// (it panics on an empty range, which `requires` rules out). Which
/// number comes is left to chance and not stated.
#[verifier::external_body]
fn gen_range(rng: &mut rand::rngs::ThreadRng, lo: i64, hi: i64) -> (r: i64)
    requires
        lo < hi,
    ensures
        lo <= r < hi,
{
    rng.gen_range(lo..hi)
}

/// How many cases `generate_test_cases` makes.
pub const TEST_CASES: usize = 5;

/// Whether a case gives each of the names, in order, a value in
/// `-100..100`.
pub open spec fn case_for(case: Seq<(String, i64)>, names: Seq<Seq<char>>) -> bool {
    &&& case.len() == names.len()
    &&& forall|j: int| 0 <= j < case.len() ==> (#[trigger] case[j]).0@ == names[j] && -100 <= case[j].1 < 100
}

/// Random inputs for a function: none when it mentions no variable, else
/// five cases, each with a random value in `-100..100` for every variable
/// that `collect_variables` finds, in its order.
pub fn generate_test_cases(func: &Function) -> (r: Vec<Vec<(String, i64)>>)
    ensures
        vars_block(func@.body, Seq::empty()).len() == 0 ==> r@.len() == 0,
        vars_block(func@.body, Seq::empty()).len() > 0 ==> r@.len() == TEST_CASES,
        forall|c: int| 0 <= c < r@.len() ==> case_for(#[trigger] r@[c]@, vars_block(func@.body, Seq::empty())),
{
    let vars = collect_variables(func);
    let ghost names = vars_block(func@.body, Seq::empty());
    let mut tests: Vec<Vec<(String, i64)>> = Vec::new();
    if vars.len() == 0 {
        return tests;
    }
    let mut rng = thread_rng();
    let mut c: usize = 0;
    while c < TEST_CASES
        invariant
            c <= TEST_CASES,
            tests@.len() == c,
            crate::names::names_view(vars@) == names,
            forall|k: int| 0 <= k < tests@.len() ==> case_for(#[trigger] tests@[k]@, names),
        decreases TEST_CASES - c,
    {
        let mut case: Vec<(String, i64)> = Vec::new();
        let mut j: usize = 0;
        while j < vars.len()
            invariant
                j <= vars@.len(),
                case@.len() == j,
                crate::names::names_view(vars@) == names,
                forall|k: int| 0 <= k < j ==> (#[trigger] case@[k]).0@ == names[k] && -100 <= case@[k].1 < 100,
            decreases vars.len() - j,
        {
            let v = gen_range(&mut rng, -100, 100);
            case.push((vars[j].clone(), v));
            j = j + 1;
        }
        tests.push(case);
        c = c + 1;
    }
    tests
}

// ---------------------------------------------------------------------
// Bindings
// ---------------------------------------------------------------------

/// Bindings of names to values, as character sequences.
pub open spec fn bindings_view(v: Seq<(String, i64)>) -> Seq<(Seq<char>, i64)> {
    crate::names::view_entries(v)
}

/// A `key=value` argument: exactly one `=`, and an integer after it.
pub open spec fn key_value(s: Seq<char>) -> Result<(Seq<char>, i64), Seq<char>> {
    match find_from(s, "="@, 0) {
        None => Err("Format must be key=value"@),
        Some(i) => {
            let rest = s.skip(i + 1);
            if find_from(rest, "="@, 0) is Some {
                Err("Format must be key=value"@)
            } else {
                match parse_int(rest) {
                    Some(v) => Ok((s.take(i), v)),
                    None => Err("Value must be an integer"@),
                }
            }
        },
    }
}

fn find_char_from(s: &[char], c: char, from: usize) -> (r: Option<usize>)
    requires
        from <= s.len(),
    ensures
        match r {
            Some(i) => find_from(s@, seq![c], from as int) == Some(i as int) && i < s@.len(),
            None => find_from(s@, seq![c], from as int) is None,
        },
{
    let mut i: usize = from;
    while i < s.len()
        invariant
            from <= i <= s.len(),
            find_from(s@, seq![c], i as int) == find_from(s@, seq![c], from as int),
        decreases s.len() - i,
    {
        assert(s@.skip(i as int).take(1) =~= seq![s@[i as int]]);
        if s[i] == c {
            return Some(i);
        }
        assert(s@.skip(i as int).take(1)[0] != seq![c][0]);
        i = i + 1;
    }
    assert(find_from(s@, seq![c], i + 1) is None);
    None
}

/// Parses a `key=value` argument.
pub fn parse_key_val(s: &str) -> (r: Result<(String, i64), String>)
    ensures
        match (r, key_value(s@)) {
            (Ok((k, v)), Ok((k2, v2))) => k@ == k2 && v == v2,
            (Err(e), Err(m)) => e@ == m,
            _ => false,
        },
{
    let cs = crate::text::chars_of(s);
    proof {
        reveal_strlit("=");
        assert("="@ =~= seq!['=']);
    }
    match find_char_from(cs.as_slice(), '=', 0) {
        None => Err(crate::text::owned("Format must be key=value")),
        Some(i) => {
            assert(i < cs.len() && cs.len() <= usize::MAX);
            let rest = crate::text::slice_of(cs.as_slice(), i + 1, cs.len());
            assert(rest@ =~= cs@.skip(i + 1));
            if find_char_from(rest.as_slice(), '=', 0).is_some() {
                return Err(crate::text::owned("Format must be key=value"));
            }
            match crate::text::parse_i64(rest.as_slice()) {
                Some(v) => {
                    let key = crate::text::slice_of(cs.as_slice(), 0, i);
                    assert(key@ =~= cs@.take(i as int));
                    Ok((crate::text::string_of(key.as_slice()), v))
                },
                None => Err(crate::text::owned("Value must be an integer")),
            }
        },
    }
}

/// The bindings that `name=value` lines give: a line without `=` is
/// skipped, a later line for a name replaces its value; the error of the
/// first value that is no integer.
pub open spec fn output_lines(ls: Seq<Seq<char>>) -> Result<Seq<(Seq<char>, i64)>, Seq<char>>
    decreases ls.len(),
{
    if ls.len() == 0 {
        Ok(Seq::empty())
    } else {
        match output_lines(ls.drop_last()) {
            Err(e) => Err(e),
            Ok(b) => match split_once(ls.last(), "="@) {
                None => Ok(b),
                Some((k, v)) => match parse_int(trim(v)) {
                    Some(n) => Ok(crate::names::put_value(b, trim(k), n)),
                    None => Err(crate::parser::int_error(trim(v))),
                },
            },
        }
    }
}

/// Parses the `name=value` lines that a program printed.
pub fn parse_output(s: &str) -> (r: Result<Vec<(String, i64)>, ParseError>)
    ensures
        match (r, output_lines(lines(s@))) {
            (Ok(b), Ok(t)) => bindings_view(b@) == t,
            (Err(e), Err(m)) => e.message@ == m,
            _ => false,
        },
{
    let cs = crate::text::chars_of(s);
    let ls = crate::text::split_lines(cs.as_slice());
    let ghost lv = lines(s@);
    let mut map: crate::names::NameMap<i64> = crate::names::NameMap::new();
    let mut i: usize = 0;
    proof {
        reveal_strlit("=");
        assert("="@ =~= seq!['=']);
    }
    assert(lv.take(0) =~= Seq::<Seq<char>>::empty());
    assert(crate::names::view_entries(map.entries()) =~= Seq::<(Seq<char>, i64)>::empty());
    while i < ls.len()
        invariant
            i <= ls@.len(),
            lv == lines(s@),
            "="@ == seq!['='],
            ls@.len() == lv.len(),
            forall|k: int| 0 <= k < ls@.len() ==> #[trigger] ls@[k]@ == lv[k],
            output_lines(lv.take(i as int)) == Ok::<Seq<(Seq<char>, i64)>, Seq<char>>(
                crate::names::view_entries(map.entries()),
            ),
        decreases ls.len() - i,
    {
        proof {
            assert(lv.take(i + 1).drop_last() =~= lv.take(i as int));
            assert(lv.take(i + 1).last() == lv[i as int]);
            assert(ls@[i as int]@ == lv[i as int]);
        }
        let line = &ls[i];
        match find_char_from(line.as_slice(), '=', 0) {
            None => {},
            Some(p) => {
                assert(p < line.len() && line.len() <= usize::MAX);
                let k0 = crate::text::slice_of(line.as_slice(), 0, p);
                let v0 = crate::text::slice_of(line.as_slice(), p + 1, line.len());
                assert(k0@ =~= line@.take(p as int));
                assert(v0@ =~= line@.skip(p + 1));
                let k = crate::text::trim_chars(k0.as_slice());
                let v = crate::text::trim_chars(v0.as_slice());
                match crate::text::parse_i64(v.as_slice()) {
                    Some(n) => {
                        let ghost e0 = map.entries();
                        let key = crate::text::string_of(k.as_slice());
                        map.insert(key, n);
                        proof {
                            crate::names::lemma_view_insert(e0, map.entries(), key, n);
                        }
                    },
                    None => {
                        let e = crate::parser::int_error_message(&v);
                        proof {
                            lemma_output_err(lv, i as int, e.message@);
                        }
                        return Err(e);
                    },
                }
            },
        }
        i = i + 1;
    }
    assert(lv.take(i as int) =~= lv);
    let mut out: Vec<(String, i64)> = Vec::new();
    let mut k: usize = 0;
    while k < map.len()
        invariant
            k <= map.entries().len(),
            out@.len() == k,
            forall|j: int| 0 <= j < k ==> (#[trigger] out@[j]).0@ == map.entries()[j].0@ && out@[j].1 == map.entries()[j].1,
        decreases map.entries().len() - k,
    {
        let (n, v) = map.entry_at(k);
        out.push((n.clone(), *v));
        k = k + 1;
    }
    assert(bindings_view(out@) =~= crate::names::view_entries(map.entries()));
    Ok(out)
}

proof fn lemma_output_err(ls: Seq<Seq<char>>, i: int, m: Seq<char>)
    requires
        0 <= i < ls.len(),
        output_lines(ls.take(i + 1)) == Err::<Seq<(Seq<char>, i64)>, Seq<char>>(m),
    ensures
        output_lines(ls) == Err::<Seq<(Seq<char>, i64)>, Seq<char>>(m),
    decreases ls.len() - i,
{
    if i + 1 == ls.len() {
        assert(ls.take(i + 1) =~= ls);
    } else {
        assert(ls.take(i + 2).drop_last() =~= ls.take(i + 1));
        lemma_output_err(ls, i + 1, m);
    }
}

/// Whether two sets of bindings give every name the same value (or give
/// it none); the order of the bindings does not matter.
pub open spec fn same_bindings(a: Seq<(Seq<char>, i64)>, b: Seq<(Seq<char>, i64)>) -> bool {
    forall|k: Seq<char>| #[trigger] value_of(a, k) == value_of(b, k)
}

fn value_in(bs: &Vec<(String, i64)>, name: &String) -> (r: Option<i64>)
    ensures
        r == value_of(bindings_view(bs@), name@),
{
    let ghost bv = bindings_view(bs@);
    let mut j: usize = bs.len();
    assert(bv.take(j as int) =~= bv);
    while j > 0
        invariant
            j <= bs@.len(),
            bv == bindings_view(bs@),
            index_of_key(bv, name@) == index_of_key(bv.take(j as int), name@),
        decreases j,
    {
        let ghost t = bv.take(j as int);
        assert(t.last() == bv[j - 1]);
        if crate::text::same_text(&bs[j - 1].0, name) {
            return Some(bs[j - 1].1);
        }
        assert(t.drop_last() =~= bv.take(j - 1));
        j = j - 1;
    }
    assert(bv.take(0) =~= Seq::<(Seq<char>, i64)>::empty());
    None
}

/// Whether every name of `a` has the same value in `b`.
fn agrees_into(a: &Vec<(String, i64)>, b: &Vec<(String, i64)>) -> (r: bool)
    ensures
        r == forall|j: int| 0 <= j < a@.len() ==> value_of(bindings_view(a@), #[trigger] a@[j].0@) == value_of(bindings_view(b@), a@[j].0@),
{
    let mut j: usize = 0;
    while j < a.len()
        invariant
            j <= a@.len(),
            forall|k: int| 0 <= k < j ==> value_of(bindings_view(a@), #[trigger] a@[k].0@) == value_of(bindings_view(b@), a@[k].0@),
        decreases a.len() - j,
    {
        if value_in(a, &a[j].0) != value_in(b, &a[j].0) {
            return false;
        }
        j = j + 1;
    }
    true
}

/// Whether the interpreter's bindings and those a translation printed
/// agree, name by name.
pub fn outputs_agree(a: &Vec<(String, i64)>, b: &Vec<(String, i64)>) -> (r: bool)
    ensures
        r == same_bindings(bindings_view(a@), bindings_view(b@)),
{
    let x = agrees_into(a, b);
    let y = agrees_into(b, a);
    proof {
        let av = bindings_view(a@);
        let bv = bindings_view(b@);
        if x && y {
            assert forall|k: Seq<char>| #[trigger] value_of(av, k) == value_of(bv, k) by {
                crate::names::lemma_index_of_key(av, k);
                crate::names::lemma_index_of_key(bv, k);
                match index_of_key(av, k) {
                    Some(i) => {
                        assert(a@[i].0@ == k);
                    },
                    None => {
                        match index_of_key(bv, k) {
                            Some(i) => {
                                assert(b@[i].0@ == k);
                            },
                            None => {},
                        }
                    },
                }
            }
        }
    }
    x && y
}

} // verus!
