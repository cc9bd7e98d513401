//! Static single assignment: version counters, renaming passes, use-def
//! chains, phi placement at iterated dominance frontiers and renaming
//! along the dominator tree.
use crate::ir::{
    stmt_view, stmts_view, Condition, ConditionV, Expression, ExpressionV, Program, Source,
    SourceV, Statement, StatementV,
};
use crate::names::{key_index, lookup, NameMap};
use crate::text::{nat_text, push_char, string_of, usize_chars};
use crate::cfg::ControlFlowGraph;
use crate::phi::{
    built_from, checked_sizes, nat_view, phi_blocks, phi_placement, phi_slots, place_phis, rename_program, slots_match, ssa_result,
    with_phis,
};
pub use crate::phi::{find_phi_candidates, insert_phi_nodes, PhiCandidate};
use vstd::prelude::*;

verus! {

broadcast use vstd::std_specs::vec::group_vec_axioms, crate::ir::lemma_stmts_view;

// ---------------------------------------------------------------------
// Versions
// ---------------------------------------------------------------------

/// `name_version`: the name with an underscore and the version number.
pub open spec fn versioned(name: Seq<char>, version: nat) -> Seq<char> {
    name + seq!['_'] + nat_text(version)
}

/// Counts, for every name, how many versions of it were handed out.
pub struct VersionCounter {
    versions: NameMap<usize>,
}

impl VersionCounter {
    /// The number of versions handed out for `name` so far.
    pub closed spec fn issued(&self, name: Seq<char>) -> nat {
        match lookup(self.versions.entries(), name) {
            Some(v) => v as nat,
            None => 0,
        }
    }

    pub fn new() -> (r: Self)
        ensures
            forall|name: Seq<char>| r.issued(name) == 0,
    {
        VersionCounter { versions: NameMap::new() }
    }

    /// Hands out the next version of `variable`: 1 for the first call on a
    /// name, then 2, 3, ... Other names are not affected.
    pub fn next_version(&mut self, variable: &str) -> (r: usize)
        requires
            old(self).issued(variable@) < usize::MAX,
        ensures
            r == old(self).issued(variable@) + 1,
            final(self).issued(variable@) == r,
            forall|name: Seq<char>| name != variable@ ==> final(self).issued(name) == old(self).issued(name),
    {
        let key = crate::text::owned(variable);
        let current: usize = match self.versions.get_name(&key) {
            Some(v) => *v,
            None => 0,
        };
        let next = current + 1;
        let ghost e0 = self.versions.entries();
        self.versions.insert(key, next);
        self.versions.note_distinct();
        proof {
            crate::names::lemma_key_index(e0, variable@);
            let e1 = self.versions.entries();
            assert forall|name: Seq<char>| name != variable@ implies lookup(e1, name) == lookup(e0, name) by {
                crate::names::lemma_key_index(e0, name);
                crate::names::lemma_key_index(e1, name);
                match key_index(e0, name) {
                    Some(i) => {
                        crate::names::lemma_key_index_at(e1, name, i);
                    },
                    None => {
                        if key_index(e1, name) is Some {
                            let i = key_index(e1, name)->Some_0;
                            if i < e0.len() {
                                assert(e1[i].0@ == e0[i].0@);
                            }
                        }
                    },
                }
            }
            crate::names::lemma_key_index(e1, variable@);
            match key_index(e0, variable@) {
                Some(i) => {
                    crate::names::lemma_key_index_at(e1, variable@, i);
                },
                None => {
                    crate::names::lemma_key_index_at(e1, variable@, e0.len() as int);
                },
            }
        }
        next
    }
}

impl Default for VersionCounter {
    fn default() -> (r: Self)
        ensures
            forall|name: Seq<char>| r.issued(name) == 0,
    {
        VersionCounter::new()
    }
}

/// The name of version `version` of `name`: `name_version`.
pub fn rename_variable(name: &str, version: usize) -> (r: String)
    ensures
        r@ == versioned(name@, version as nat),
{
    let mut r = crate::text::owned(name);
    push_char(&mut r, '_');
    let digits = usize_chars(version);
    crate::text::append_chars(&mut r, digits.as_slice());
    r
}

fn rename_string(name: &String, version: usize) -> (r: String)
    ensures
        r@ == versioned(name@, version as nat),
{
    rename_variable(name.as_str(), version)
}

// ---------------------------------------------------------------------
// Renaming the targets of top-level statements
// ---------------------------------------------------------------------

/// How many of the first `i` statements assign `name` through `kind`.
pub open spec fn assigned_count(
    s: Seq<StatementV>,
    i: int,
    name: Seq<char>,
    kind: spec_fn(StatementV) -> Option<Seq<char>>,
) -> nat
    decreases i,
{
    if i <= 0 {
        0
    } else {
        assigned_count(s, i - 1, name, kind) + if kind(s[i - 1]) == Some(name) {
            1nat
        } else {
            0nat
        }
    }
}

pub open spec fn move_target(s: StatementV) -> Option<Seq<char>> {
    match s {
        StatementV::Move { target, .. } => Some(target),
        _ => None,
    }
}

pub open spec fn compute_target(s: StatementV) -> Option<Seq<char>> {
    match s {
        StatementV::Compute { target, .. } => Some(target),
        _ => None,
    }
}

/// The name that an arithmetic statement or an initialisation assigns.
pub open spec fn arithmetic_target(s: StatementV) -> Option<Seq<char>> {
    match s {
        StatementV::Add { target, .. } => Some(target),
        StatementV::Subtract { target, .. } => Some(target),
        StatementV::Multiply { target, .. } => Some(target),
        StatementV::Divide { target, .. } => Some(target),
        StatementV::Initialize { variable } => Some(variable),
        _ => None,
    }
}

/// `s` with the name it assigns (through `kind`) replaced by `name`.
pub open spec fn with_target(s: StatementV, name: Seq<char>) -> StatementV {
    match s {
        StatementV::Move { source, .. } => StatementV::Move { source, target: name },
        StatementV::Compute { expr, .. } => StatementV::Compute { target: name, expr },
        StatementV::Add { value, .. } => StatementV::Add { value, target: name },
        StatementV::Subtract { value, .. } => StatementV::Subtract { value, target: name },
        StatementV::Multiply { value, .. } => StatementV::Multiply { value, target: name },
        StatementV::Divide { value, .. } => StatementV::Divide { value, target: name },
        StatementV::Initialize { .. } => StatementV::Initialize { variable: name },
        _ => s,
    }
}

/// Every top-level statement that assigns a name through `kind` gets the
/// next version of that name, counted from `base` (the versions already
/// handed out); the other statements are kept.
pub open spec fn versioned_targets(
    s: Seq<StatementV>,
    kind: spec_fn(StatementV) -> Option<Seq<char>>,
    base: spec_fn(Seq<char>) -> nat,
) -> Seq<StatementV> {
    Seq::new(
        s.len(),
        |i: int|
            match kind(s[i]) {
                Some(t) => with_target(s[i], versioned(t, base(t) + assigned_count(s, i + 1, t, kind))),
                None => s[i],
            },
    )
}

fn target_of(s: &Statement, which: u8) -> (r: Option<&String>)
    ensures
        which == 0 ==> opt_view(r) == move_target(s@),
        which == 1 ==> opt_view(r) == compute_target(s@),
        which == 2 ==> opt_view(r) == arithmetic_target(s@),
{
    match s {
        Statement::Move { target, .. } => if which == 0 { Some(target) } else { None },
        Statement::Compute { target, .. } => if which == 1 { Some(target) } else { None },
        Statement::Add { target, .. } => if which == 2 { Some(target) } else { None },
        Statement::Subtract { target, .. } => if which == 2 { Some(target) } else { None },
        Statement::Multiply { target, .. } => if which == 2 { Some(target) } else { None },
        Statement::Divide { target, .. } => if which == 2 { Some(target) } else { None },
        Statement::Initialize { variable } => if which == 2 { Some(variable) } else { None },
        _ => None,
    }
}

pub open spec fn opt_view(o: Option<&String>) -> Option<Seq<char>> {
    match o {
        Some(s) => Some(s@),
        None => None,
    }
}

fn retarget(s: &Statement, name: String) -> (r: Statement)
    ensures
        r@ == with_target(s@, name@),
{
    match s {
        Statement::Move { source, .. } => Statement::Move { source: source.copy(), target: name },
        Statement::Compute { expr, .. } => Statement::Compute { target: name, expr: expr.copy() },
        Statement::Add { value, .. } => Statement::Add { value: *value, target: name },
        Statement::Subtract { value, .. } => Statement::Subtract { value: value.clone(), target: name },
        Statement::Multiply { value, .. } => Statement::Multiply { value: value.clone(), target: name },
        Statement::Divide { value, .. } => Statement::Divide { value: value.clone(), target: name },
        Statement::Initialize { .. } => Statement::Initialize { variable: name },
        _ => crate::ir::clone_statement(s),
    }
}

pub open spec fn kind_of(which: u8) -> spec_fn(StatementV) -> Option<Seq<char>> {
    if which == 0 {
        |s: StatementV| move_target(s)
    } else if which == 1 {
        |s: StatementV| compute_target(s)
    } else {
        |s: StatementV| arithmetic_target(s)
    }
}

proof fn lemma_assigned_count_le(
    s: Seq<StatementV>,
    i: int,
    name: Seq<char>,
    kind: spec_fn(StatementV) -> Option<Seq<char>>,
)
    ensures
        assigned_count(s, i, name, kind) <= if i < 0 { 0 } else { i },
    decreases i,
{
    if i > 0 {
        lemma_assigned_count_le(s, i - 1, name, kind);
    }
}

/// Renames the targets selected by `which` in the top-level statements,
/// continuing the counts of `counter`.
fn rename_targets(statements: &mut Vec<Statement>, which: u8, counter: &mut VersionCounter)
    requires
        which <= 2,
        forall|name: Seq<char>| #[trigger] old(counter).issued(name) + old(statements)@.len() < usize::MAX,
    ensures
        stmts_view(final(statements)@) == versioned_targets(
            stmts_view(old(statements)@),
            kind_of(which),
            |name: Seq<char>| old(counter).issued(name),
        ),
        forall|name: Seq<char>|
            #[trigger] final(counter).issued(name) == old(counter).issued(name) + assigned_count(
                stmts_view(old(statements)@),
                old(statements)@.len() as int,
                name,
                kind_of(which),
            ),
{
    let ghost sv = stmts_view(statements@);
    let ghost kind = kind_of(which);
    let ghost c0 = *counter;
    let mut out: Vec<Statement> = Vec::new();
    let mut i: usize = 0;
    while i < statements.len()
        invariant
            i <= statements@.len(),
            sv == stmts_view(statements@),
            kind == kind_of(which),
            which <= 2,
            forall|name: Seq<char>| #[trigger] c0.issued(name) + statements@.len() < usize::MAX,
            forall|name: Seq<char>| #[trigger] counter.issued(name) == c0.issued(name) + assigned_count(sv, i as int, name, kind),
            stmts_view(out@) == versioned_targets(sv, kind, |name: Seq<char>| c0.issued(name)).take(i as int),
        decreases statements.len() - i,
    {
        let s = &statements[i];
        let ghost old_out = out@;
        match target_of(s, which) {
            Some(t) => {
                let tname = t.clone();
                proof {
                    lemma_assigned_count_le(sv, i as int, tname@, kind);
                    assert(kind(sv[i as int]) == Some(tname@));
                }
                let v = counter.next_version(tname.as_str());
                let nn = rename_string(&tname, v);
                let r = retarget(s, nn);
                out.push(r);
                proof {
                    crate::ir::lemma_stmts_view_push(old_out, r);
                    assert forall|name: Seq<char>| #[trigger] counter.issued(name) == c0.issued(name) + assigned_count(sv, i + 1, name, kind) by {}
                }
            },
            None => {
                let r = crate::ir::clone_statement(s);
                out.push(r);
                proof {
                    crate::ir::lemma_stmts_view_push(old_out, r);
                    assert(kind(sv[i as int]) is None);
                    assert forall|name: Seq<char>| #[trigger] counter.issued(name) == c0.issued(name) + assigned_count(sv, i + 1, name, kind) by {}
                }
            },
        }
        proof {
            assert(stmts_view(out@) =~= versioned_targets(sv, kind, |name: Seq<char>| c0.issued(name)).take(i + 1));
        }
        i = i + 1;
    }
    assert(versioned_targets(sv, kind, |name: Seq<char>| c0.issued(name)).take(i as int) =~= versioned_targets(sv, kind, |name: Seq<char>| c0.issued(name)));
    *statements = out;
}

/// Gives every top-level `MOVE` target a fresh version: the `k`-th move
/// to a name becomes `name_k`.
pub fn rename_move_targets(program: &mut Program)
    requires
        old(program).statements@.len() < usize::MAX,
    ensures
        stmts_view(final(program).statements@) == versioned_targets(
            stmts_view(old(program).statements@),
            kind_of(0),
            |name: Seq<char>| 0nat,
        ),
        final(program).variables == old(program).variables,
        final(program).paragraphs == old(program).paragraphs,
{
    let mut counter = VersionCounter::new();
    rename_targets(&mut program.statements, 0, &mut counter);
    assert(versioned_targets(stmts_view(old(program).statements@), kind_of(0), |name: Seq<char>| counter_zero(name))
        =~= versioned_targets(stmts_view(old(program).statements@), kind_of(0), |name: Seq<char>| 0nat));
}

spec fn counter_zero(name: Seq<char>) -> nat {
    0
}

/// Gives every top-level `COMPUTE` target a fresh version: the `k`-th
/// computation of a name becomes `name_k`.
pub fn rename_compute_targets(program: &mut Program)
    requires
        old(program).statements@.len() < usize::MAX,
    ensures
        stmts_view(final(program).statements@) == versioned_targets(
            stmts_view(old(program).statements@),
            kind_of(1),
            |name: Seq<char>| 0nat,
        ),
        final(program).variables == old(program).variables,
        final(program).paragraphs == old(program).paragraphs,
{
    let mut counter = VersionCounter::new();
    rename_targets(&mut program.statements, 1, &mut counter);
    assert(versioned_targets(stmts_view(old(program).statements@), kind_of(1), |name: Seq<char>| counter_zero(name))
        =~= versioned_targets(stmts_view(old(program).statements@), kind_of(1), |name: Seq<char>| 0nat));
}

/// Gives every top-level arithmetic target (`ADD`, `SUBTRACT`, `MULTIPLY`,
/// `DIVIDE`, `INITIALIZE`) the next version from a shared counter.
pub fn rename_arithmetic_targets(program: &mut Program, counter: &mut VersionCounter)
    requires
        forall|name: Seq<char>| #[trigger] old(counter).issued(name) + old(program).statements@.len() < usize::MAX,
    ensures
        stmts_view(final(program).statements@) == versioned_targets(
            stmts_view(old(program).statements@),
            kind_of(2),
            |name: Seq<char>| old(counter).issued(name),
        ),
        forall|name: Seq<char>|
            #[trigger] final(counter).issued(name) == old(counter).issued(name) + assigned_count(
                stmts_view(old(program).statements@),
                old(program).statements@.len() as int,
                name,
                kind_of(2),
            ),
        final(program).variables == old(program).variables,
        final(program).paragraphs == old(program).paragraphs,
{
    rename_targets(&mut program.statements, 2, counter);
}


// ---------------------------------------------------------------------
// Renaming uses after the targets were versioned
// ---------------------------------------------------------------------

/// The part of a name before its first underscore (the whole name when it
/// has none).
pub open spec fn before_underscore(name: Seq<char>) -> Seq<char> {
    match crate::text::find_char(name, '_') {
        Some(k) => name.take(k),
        None => name,
    }
}

/// A latest-version table: for each base name, the last target seen.
pub type Latest = spec_fn(Seq<char>) -> Option<Seq<char>>;

pub open spec fn latest_of(latest: Latest, name: Seq<char>) -> Seq<char> {
    match latest(name) {
        Some(v) => v,
        None => name,
    }
}

pub open spec fn record_latest(latest: Latest, target: Seq<char>) -> Latest {
    |k: Seq<char>| if k == before_underscore(target) { Some(target) } else { latest(k) }
}

pub open spec fn latest_expr(e: ExpressionV, latest: Latest) -> ExpressionV
    decreases e,
{
    match e {
        ExpressionV::Variable(n) => ExpressionV::Variable(latest_of(latest, n)),
        ExpressionV::Binary { left, operator, right } => ExpressionV::Binary {
            left: Box::new(latest_expr(*left, latest)),
            operator,
            right: Box::new(latest_expr(*right, latest)),
        },
        _ => e,
    }
}

pub open spec fn latest_cond(c: ConditionV, latest: Latest) -> ConditionV {
    ConditionV {
        left: latest_of(latest, c.left),
        operator: c.operator,
        right: latest_of(latest, c.right),
    }
}

/// One statement of the uses pass, and the table after it.
pub open spec fn latest_step(s: StatementV, latest: Latest) -> (StatementV, Latest) {
    match s {
        StatementV::Move { source, target } => (
            StatementV::Move {
                source: match source {
                    SourceV::Variable(n) => SourceV::Variable(latest_of(latest, n)),
                    _ => source,
                },
                target,
            },
            record_latest(latest, target),
        ),
        StatementV::Compute { target, expr } => (
            StatementV::Compute { target, expr: latest_expr(expr, latest) },
            record_latest(latest, target),
        ),
        StatementV::If { condition, then_branch, else_branch } => (
            StatementV::If { condition: latest_cond(condition, latest), then_branch, else_branch },
            latest,
        ),
        StatementV::PerformUntil { condition, body } => (
            StatementV::PerformUntil { condition: latest_cond(condition, latest), body },
            latest,
        ),
        StatementV::PerformVarying { variable, from, by, until, body } => (
            StatementV::PerformVarying {
                variable,
                from,
                by,
                until: latest_cond(until, latest),
                body,
            },
            latest,
        ),
        _ => (s, latest),
    }
}

/// The uses pass over the top-level statements, from position `i` on.
pub open spec fn latest_pass(s: Seq<StatementV>, i: int, latest: Latest) -> Seq<StatementV>
    decreases s.len() - i,
{
    if i < 0 || i >= s.len() {
        Seq::empty()
    } else {
        let (t, l2) = latest_step(s[i], latest);
        seq![t] + latest_pass(s, i + 1, l2)
    }
}

fn first_part(name: &String) -> (r: String)
    ensures
        r@ == before_underscore(name@),
{
    let cs = crate::text::chars_of_string(name);
    let mut k: usize = 0;
    while k < cs.len() && cs[k] != '_'
        invariant
            k <= cs@.len(),
            forall|j: int| 0 <= j < k ==> #[trigger] cs@[j] != '_',
        decreases cs.len() - k,
    {
        k = k + 1;
    }
    proof {
        crate::text::lemma_find_char_pub(cs@, '_', k as int);
        if k == cs.len() {
            assert(cs@.subrange(0, k as int) == cs@);
        } else {
            assert(cs@.subrange(0, k as int) == cs@.take(k as int));
        }
    }
    let part = crate::text::slice_of(cs.as_slice(), 0, k);
    string_of(part.as_slice())
}

pub open spec fn table_of(m: Seq<(String, String)>) -> Latest {
    |k: Seq<char>|
        match lookup(m, k) {
            Some(v) => Some(v@),
            None => None,
        }
}

fn latest_name(latest: &NameMap<String>, name: &String) -> (r: String)
    ensures
        r@ == latest_of(table_of(latest.entries()), name@),
{
    match latest.get_name(name) {
        Some(v) => v.clone(),
        None => name.clone(),
    }
}

fn latest_expression(e: &Expression, latest: &NameMap<String>) -> (r: Expression)
    ensures
        r@ == latest_expr(e@, table_of(latest.entries())),
    decreases e,
{
    match e {
        Expression::Variable(n) => Expression::Variable(latest_name(latest, n)),
        Expression::Binary { left, operator, right } => {
            let l = latest_expression(&**left, latest);
            let r = latest_expression(&**right, latest);
            Expression::Binary { left: Box::new(l), operator: operator.clone(), right: Box::new(r) }
        },
        Expression::Literal(l) => Expression::Literal(l.copy()),
    }
}

fn latest_condition(c: &Condition, latest: &NameMap<String>) -> (r: Condition)
    ensures
        r@ == latest_cond(c@, table_of(latest.entries())),
{
    Condition {
        left: latest_name(latest, &c.left),
        operator: c.operator.clone(),
        right: latest_name(latest, &c.right),
    }
}

fn note_target(latest: &mut NameMap<String>, target: &String)
    ensures
        table_of(final(latest).entries()) == record_latest(table_of(old(latest).entries()), target@),
{
    let key = first_part(target);
    let ghost kv = key@;
    let ghost e0 = latest.entries();
    let tv = target.clone();
    latest.note_distinct();
    latest.insert(key, tv);
    latest.note_distinct();
    proof {
        let e1 = latest.entries();
        crate::names::lemma_key_index(e0, kv);
        assert forall|k: Seq<char>| #[trigger] table_of(e1)(k) == record_latest(table_of(e0), target@)(k) by {
            crate::names::lemma_key_index(e0, k);
            crate::names::lemma_key_index(e1, k);
            if k == kv {
                match key_index(e0, kv) {
                    Some(j) => {
                        assert(e1[j].0@ == kv);
                        crate::names::lemma_key_index_at(e1, k, j);
                    },
                    None => {
                        assert(e1[e0.len() as int].0@ == kv);
                        crate::names::lemma_key_index_at(e1, k, e0.len() as int);
                    },
                }
            } else {
                match key_index(e0, k) {
                    Some(i) => {
                        assert(e1.len() >= e0.len());
                        assert(e1[i] == e0[i]);
                        crate::names::lemma_key_index_at(e1, k, i);
                    },
                    None => {
                        if key_index(e1, k) is Some {
                            let i = key_index(e1, k)->Some_0;
                            if i < e0.len() {
                                assert(e1[i] == e0[i]);
                            } else {
                                assert(e1[i].0@ == kv);
                            }
                        }
                    },
                }
            }
        }
        assert(table_of(e1) =~= record_latest(table_of(e0), target@));
    }
}

/// Rewrites the uses in the top-level statements to the latest version of
/// each name: every `MOVE` or `COMPUTE` target records itself as the latest
/// version of the part of its name before the first underscore, and
/// later sources, expressions and conditions that name exactly such a key
/// are rewritten to it.
pub fn rename_variable_uses(program: &mut Program)
    ensures
        stmts_view(final(program).statements@) == latest_pass(
            stmts_view(old(program).statements@),
            0,
            |k: Seq<char>| None::<Seq<char>>,
        ),
        final(program).variables == old(program).variables,
        final(program).paragraphs == old(program).paragraphs,
{
    let ghost sv = stmts_view(program.statements@);
    let mut latest: NameMap<String> = NameMap::new();
    let mut out: Vec<Statement> = Vec::new();
    let mut i: usize = 0;
    assert(table_of(latest.entries()) =~= (|k: Seq<char>| None::<Seq<char>>));
    while i < program.statements.len()
        invariant
            i <= program.statements@.len(),
            sv == stmts_view(program.statements@),
            stmts_view(out@) + latest_pass(sv, i as int, table_of(latest.entries())) == latest_pass(
                sv,
                0,
                |k: Seq<char>| None::<Seq<char>>,
            ),
        decreases program.statements.len() - i,
    {
        let ghost l0 = table_of(latest.entries());
        let ghost old_out = out@;
        let s = &program.statements[i];
        let r = match s {
            Statement::Move { source, target } => {
                let src = match source {
                    Source::Variable(n) => Source::Variable(latest_name(&latest, n)),
                    _ => source.copy(),
                };
                note_target(&mut latest, target);
                Statement::Move { source: src, target: target.clone() }
            },
            Statement::Compute { target, expr } => {
                let e = latest_expression(expr, &latest);
                note_target(&mut latest, target);
                Statement::Compute { target: target.clone(), expr: e }
            },
            Statement::If { condition, then_branch, else_branch } => Statement::If {
                condition: latest_condition(condition, &latest),
                then_branch: crate::ir::clone_stmts(then_branch),
                else_branch: match else_branch {
                    Some(b) => Some(crate::ir::clone_stmts(b)),
                    None => None,
                },
            },
            Statement::PerformUntil { condition, body } => Statement::PerformUntil {
                condition: latest_condition(condition, &latest),
                body: crate::ir::clone_stmts(body),
            },
            Statement::PerformVarying { variable, from, by, until, body } =>
                Statement::PerformVarying {
                variable: variable.clone(),
                from: from.copy(),
                by: by.copy(),
                until: latest_condition(until, &latest),
                body: crate::ir::clone_stmts(body),
            },
            _ => crate::ir::clone_statement(s),
        };
        proof {
            let (t, l2) = latest_step(sv[i as int], l0);
            assert(r@ == t);
            assert(table_of(latest.entries()) == l2);
        }
        out.push(r);
        proof {
            crate::ir::lemma_stmts_view_push(old_out, r);
            assert(latest_pass(sv, i as int, l0) == seq![r@] + latest_pass(sv, i + 1, table_of(latest.entries())));
            assert(stmts_view(out@) + latest_pass(sv, i + 1, table_of(latest.entries())) =~= stmts_view(old_out) + latest_pass(sv, i as int, l0));
        }
        i = i + 1;
    }
    assert(latest_pass(sv, i as int, table_of(latest.entries())) =~= Seq::<StatementV>::empty());
    assert(stmts_view(out@) =~= stmts_view(out@) + Seq::<StatementV>::empty());
    program.statements = out;
}


// ---------------------------------------------------------------------
// Use-def chains
// ---------------------------------------------------------------------

/// Number of statements a statement stands for in the pre-order numbering:
/// itself and the statements of its branches and bodies.
pub open spec fn size(s: StatementV) -> nat
    decreases s, 1nat,
{
    match s {
        StatementV::If { then_branch, else_branch, .. } => 1 + sizes(then_branch) + match else_branch {
            Some(e) => sizes(e),
            None => 0,
        },
        StatementV::Perform { body, .. } => 1 + sizes(body),
        StatementV::PerformUntil { body, .. } => 1 + sizes(body),
        StatementV::PerformVarying { body, .. } => 1 + sizes(body),
        StatementV::For { body, .. } => 1 + sizes(body),
        _ => 1,
    }
}

pub open spec fn sizes(s: Seq<StatementV>) -> nat
    decreases s, 0nat,
{
    if s.len() == 0 {
        0
    } else {
        size(s[0]) + sizes(s.drop_first())
    }
}

/// Variables read by an expression, left to right.
pub open spec fn expr_uses(e: ExpressionV) -> Seq<Seq<char>>
    decreases e,
{
    match e {
        ExpressionV::Variable(n) => seq![n],
        ExpressionV::Binary { left, right, .. } => expr_uses(*left) + expr_uses(*right),
        _ => Seq::empty(),
    }
}

/// The non-empty sides of a condition.
pub open spec fn cond_uses(c: ConditionV) -> Seq<Seq<char>> {
    (if c.left.len() > 0 { seq![c.left] } else { Seq::empty() }) + (if c.right.len() > 0 {
        seq![c.right]
    } else {
        Seq::empty()
    })
}

/// Names a statement itself defines (not counting nested statements).
pub open spec fn own_defs(s: StatementV) -> Seq<Seq<char>> {
    match s {
        StatementV::Move { target, .. } => seq![target],
        StatementV::Compute { target, .. } => seq![target],
        StatementV::PerformVarying { variable, .. } => seq![variable],
        StatementV::String { into, .. } => seq![into],
        StatementV::Unstring { into, .. } => into,
        StatementV::Subtract { target, .. } => seq![target],
        StatementV::Multiply { target, .. } => seq![target],
        StatementV::Divide { target, .. } => seq![target],
        StatementV::For { variable, .. } => seq![variable],
        _ => Seq::empty(),
    }
}

/// Names a statement itself reads (not counting nested statements).
pub open spec fn own_uses(s: StatementV) -> Seq<Seq<char>> {
    match s {
        StatementV::Move { source, .. } => match source {
            SourceV::Variable(n) => seq![n],
            _ => Seq::empty(),
        },
        StatementV::Compute { expr, .. } => expr_uses(expr),
        StatementV::If { condition, .. } => cond_uses(condition),
        StatementV::PerformUntil { condition, .. } => cond_uses(condition),
        StatementV::PerformVarying { from, by, until, .. } => expr_uses(from) + expr_uses(by)
            + cond_uses(until),
        StatementV::Call { using_args, .. } => using_args,
        StatementV::String { sources, .. } => sources,
        StatementV::Unstring { source, .. } => seq![source],
        StatementV::Subtract { value, .. } => seq![value],
        StatementV::Multiply { value, .. } => seq![value],
        StatementV::Divide { value, .. } => seq![value],
        StatementV::For { start, step, until, .. } => expr_uses(start) + expr_uses(step)
            + cond_uses(until),
        _ => Seq::empty(),
    }
}

pub open spec fn tag(names: Seq<Seq<char>>, k: nat) -> Seq<(Seq<char>, nat)> {
    Seq::new(names.len(), |i: int| (names[i], k))
}

/// The (name, statement number) events of a statement numbered `k` and of
/// the statements nested in it; `defs` selects definitions or uses.
pub open spec fn stmt_events(s: StatementV, k: nat, defs: bool) -> Seq<(Seq<char>, nat)>
    decreases s, 1nat,
{
    let own = tag(if defs { own_defs(s) } else { own_uses(s) }, k);
    match s {
        StatementV::If { then_branch, else_branch, .. } => own + seq_events(then_branch, k + 1, defs)
            + match else_branch {
            Some(e) => seq_events(e, k + 1 + sizes(then_branch), defs),
            None => Seq::empty(),
        },
        StatementV::Perform { body, .. } => own + seq_events(body, k + 1, defs),
        StatementV::PerformUntil { body, .. } => own + seq_events(body, k + 1, defs),
        StatementV::PerformVarying { body, .. } => own + seq_events(body, k + 1, defs),
        StatementV::For { body, .. } => own + seq_events(body, k + 1, defs),
        _ => own,
    }
}

pub open spec fn seq_events(s: Seq<StatementV>, k: nat, defs: bool) -> Seq<(Seq<char>, nat)>
    decreases s, 0nat,
{
    if s.len() == 0 {
        Seq::empty()
    } else {
        stmt_events(s[0], k, defs) + seq_events(s.drop_first(), k + size(s[0]), defs)
    }
}

pub open spec fn find_entry(m: Seq<(Seq<char>, Seq<usize>)>, name: Seq<char>) -> Option<int>
    decreases m.len(),
{
    if m.len() == 0 {
        None
    } else if m.last().0 == name {
        Some(m.len() - 1)
    } else {
        find_entry(m.drop_last(), name)
    }
}

/// Records one event: the number joins the list of its name, a new name
/// is appended.
pub open spec fn push_event(m: Seq<(Seq<char>, Seq<usize>)>, e: (Seq<char>, nat)) -> Seq<
    (Seq<char>, Seq<usize>),
> {
    match find_entry(m, e.0) {
        Some(j) => m.update(j, (e.0, m[j].1.push(e.1 as usize))),
        None => m.push((e.0, seq![e.1 as usize])),
    }
}

pub open spec fn record_events(m: Seq<(Seq<char>, Seq<usize>)>, ev: Seq<(Seq<char>, nat)>) -> Seq<
    (Seq<char>, Seq<usize>),
>
    decreases ev.len(),
{
    if ev.len() == 0 {
        m
    } else {
        push_event(record_events(m, ev.drop_last()), ev.last())
    }
}

pub open spec fn chain_view(m: Seq<(String, Vec<usize>)>) -> Seq<(Seq<char>, Seq<usize>)> {
    Seq::new(m.len(), |i: int| (m[i].0@, m[i].1@))
}

/// For every name, the numbers of the statements that define it and of
/// those that read it, in the pre-order numbering of the program.
#[derive(Debug)]
pub struct UseDefChains {
    pub defs: NameMap<Vec<usize>>,
    pub uses: NameMap<Vec<usize>>,
}

impl Default for UseDefChains {
    fn default() -> (r: Self)
        ensures
            r.defs.entries().len() == 0,
            r.uses.entries().len() == 0,
    {
        UseDefChains { defs: NameMap::new(), uses: NameMap::new() }
    }
}

proof fn lemma_find_entry(m: Seq<(String, Vec<usize>)>, name: Seq<char>)
    ensures
        find_entry(chain_view(m), name) == key_index(m, name),
    decreases m.len(),
{
    if m.len() > 0 {
        assert(chain_view(m).drop_last() =~= chain_view(m.drop_last()));
        lemma_find_entry(m.drop_last(), name);
    }
}

fn record(map: &mut NameMap<Vec<usize>>, name: &String, index: usize)
    ensures
        chain_view(final(map).entries()) == push_event(chain_view(old(map).entries()), (name@, index as nat)),
{
    let ghost e0 = map.entries();
    map.push_index(name, index);
    proof {
        let e1 = map.entries();
        lemma_find_entry(e0, name@);
        crate::names::lemma_key_index(e0, name@);
        match key_index(e0, name@) {
            Some(j) => {
                assert(chain_view(e1) =~= chain_view(e0).update(j, (name@, chain_view(e0)[j].1.push(index))));
            },
            None => {
                assert(chain_view(e1) =~= chain_view(e0).push((name@, seq![index])));
            },
        }
    }
}

proof fn lemma_record_append(
    m: Seq<(Seq<char>, Seq<usize>)>,
    a: Seq<(Seq<char>, nat)>,
    b: Seq<(Seq<char>, nat)>,
)
    ensures
        record_events(m, a + b) == record_events(record_events(m, a), b),
    decreases b.len(),
{
    if b.len() == 0 {
        assert(a + b == a);
    } else {
        assert((a + b).drop_last() == a + b.drop_last());
        lemma_record_append(m, a, b.drop_last());
    }
}

fn record_all(map: &mut NameMap<Vec<usize>>, names: &Vec<String>, index: usize)
    ensures
        chain_view(final(map).entries()) == record_events(
            chain_view(old(map).entries()),
            tag(crate::names::names_view(names@), index as nat),
        ),
{
    let ghost m0 = chain_view(map.entries());
    let ghost nv = crate::names::names_view(names@);
    let mut i: usize = 0;
    while i < names.len()
        invariant
            i <= names@.len(),
            nv == crate::names::names_view(names@),
            chain_view(map.entries()) == record_events(m0, tag(nv, index as nat).take(i as int)),
        decreases names.len() - i,
    {
        record(map, &names[i], index);
        assert(tag(nv, index as nat).take(i + 1).drop_last() =~= tag(nv, index as nat).take(i as int));
        i = i + 1;
    }
    assert(tag(nv, index as nat).take(i as int) =~= tag(nv, index as nat));
}

fn record_one(map: &mut NameMap<Vec<usize>>, name: &String, index: usize)
    ensures
        chain_view(final(map).entries()) == record_events(
            chain_view(old(map).entries()),
            tag(seq![name@], index as nat),
        ),
{
    let ghost m0 = chain_view(map.entries());
    record(map, name, index);
    proof {
        let ev = tag(seq![name@], index as nat);
        assert(ev.len() == 1);
        assert(ev.drop_last() =~= Seq::<(Seq<char>, nat)>::empty());
        assert(ev.last() == (name@, index as nat));
        assert(record_events(m0, ev.drop_last()) == m0);
    }
}

fn expression_uses(e: &Expression, index: usize, chains: &mut UseDefChains)
    ensures
        chain_view(final(chains).uses.entries()) == record_events(
            chain_view(old(chains).uses.entries()),
            tag(expr_uses(e@), index as nat),
        ),
        final(chains).defs == old(chains).defs,
    decreases e,
{
    match e {
        Expression::Variable(name) => {
            record_one(&mut chains.uses, name, index);
        },
        Expression::Binary { left, right, .. } => {
            let ghost m0 = chain_view(chains.uses.entries());
            expression_uses(&**left, index, chains);
            expression_uses(&**right, index, chains);
            proof {
                lemma_record_append(m0, tag(expr_uses(left@), index as nat), tag(expr_uses(right@), index as nat));
                assert(tag(expr_uses(e@), index as nat) =~= tag(expr_uses(left@), index as nat) + tag(expr_uses(right@), index as nat));
            }
        },
        Expression::Literal(_) => {
            assert(tag(expr_uses(e@), index as nat) =~= Seq::<(Seq<char>, nat)>::empty());
        },
    }
}

fn condition_uses(c: &Condition, index: usize, chains: &mut UseDefChains)
    ensures
        chain_view(final(chains).uses.entries()) == record_events(
            chain_view(old(chains).uses.entries()),
            tag(cond_uses(c@), index as nat),
        ),
        final(chains).defs == old(chains).defs,
{
    let ghost m0 = chain_view(chains.uses.entries());
    let ghost lpart: Seq<Seq<char>> = if c.left@.len() > 0 { seq![c.left@] } else { Seq::empty() };
    let ghost rpart: Seq<Seq<char>> = if c.right@.len() > 0 { seq![c.right@] } else { Seq::empty() };
    if c.left.as_str().is_empty() == false {
        record_one(&mut chains.uses, &c.left, index);
    } else {
        assert(tag(lpart, index as nat) =~= Seq::<(Seq<char>, nat)>::empty());
    }
    let ghost m1 = chain_view(chains.uses.entries());
    if c.right.as_str().is_empty() == false {
        record_one(&mut chains.uses, &c.right, index);
    } else {
        assert(tag(rpart, index as nat) =~= Seq::<(Seq<char>, nat)>::empty());
    }
    proof {
        lemma_record_append(m0, tag(lpart, index as nat), tag(rpart, index as nat));
        assert(tag(cond_uses(c@), index as nat) =~= tag(lpart, index as nat) + tag(rpart, index as nat));
    }
}

/// Records the events of a statement's own fields.
fn own_events(stmt: &Statement, index: usize, chains: &mut UseDefChains)
    ensures
        chain_view(final(chains).defs.entries()) == record_events(
            chain_view(old(chains).defs.entries()),
            tag(own_defs(stmt@), index as nat),
        ),
        chain_view(final(chains).uses.entries()) == record_events(
            chain_view(old(chains).uses.entries()),
            tag(own_uses(stmt@), index as nat),
        ),
{
    let ghost d0 = chain_view(chains.defs.entries());
    let ghost u0 = chain_view(chains.uses.entries());
    let ghost empty_ev = Seq::<(Seq<char>, nat)>::empty();
    match stmt {
        Statement::Move { source, target } => {
            record_one(&mut chains.defs, target, index);
            match source {
                Source::Variable(name) => {
                    record_one(&mut chains.uses, name, index);
                },
                _ => {
                    assert(tag(own_uses(stmt@), index as nat) =~= empty_ev);
                },
            }
        },
        Statement::Compute { target, expr } => {
            record_one(&mut chains.defs, target, index);
            expression_uses(expr, index, chains);
        },
        Statement::If { condition, .. } => {
            condition_uses(condition, index, chains);
            assert(tag(own_defs(stmt@), index as nat) =~= empty_ev);
        },
        Statement::PerformUntil { condition, .. } => {
            condition_uses(condition, index, chains);
            assert(tag(own_defs(stmt@), index as nat) =~= empty_ev);
        },
        Statement::PerformVarying { variable, from, by, until, .. } => {
            record_one(&mut chains.defs, variable, index);
            expression_uses(from, index, chains);
            let ghost m1 = chain_view(chains.uses.entries());
            expression_uses(by, index, chains);
            let ghost m2 = chain_view(chains.uses.entries());
            condition_uses(until, index, chains);
            proof {
                lemma_record_append(u0, tag(expr_uses(from@), index as nat), tag(expr_uses(by@), index as nat));
                lemma_record_append(u0, tag(expr_uses(from@), index as nat) + tag(expr_uses(by@), index as nat), tag(cond_uses(until@), index as nat));
                assert(tag(own_uses(stmt@), index as nat) =~= tag(expr_uses(from@), index as nat) + tag(expr_uses(by@), index as nat) + tag(cond_uses(until@), index as nat));
            }
        },
        Statement::For { variable, start, step, until, .. } => {
            record_one(&mut chains.defs, variable, index);
            expression_uses(start, index, chains);
            expression_uses(step, index, chains);
            condition_uses(until, index, chains);
            proof {
                lemma_record_append(u0, tag(expr_uses(start@), index as nat), tag(expr_uses(step@), index as nat));
                lemma_record_append(u0, tag(expr_uses(start@), index as nat) + tag(expr_uses(step@), index as nat), tag(cond_uses(until@), index as nat));
                assert(tag(own_uses(stmt@), index as nat) =~= tag(expr_uses(start@), index as nat) + tag(expr_uses(step@), index as nat) + tag(cond_uses(until@), index as nat));
            }
        },
        Statement::Call { using_args, .. } => {
            record_all(&mut chains.uses, using_args, index);
            assert(tag(own_defs(stmt@), index as nat) =~= empty_ev);
        },
        Statement::String { sources, into } => {
            record_all(&mut chains.uses, sources, index);
            record_one(&mut chains.defs, into, index);
        },
        Statement::Unstring { source, into } => {
            record_one(&mut chains.uses, source, index);
            record_all(&mut chains.defs, into, index);
        },
        Statement::Subtract { value, target } | Statement::Multiply { value, target }
        | Statement::Divide { value, target } => {
            record_one(&mut chains.uses, value, index);
            record_one(&mut chains.defs, target, index);
        },
        _ => {
            assert(tag(own_uses(stmt@), index as nat) =~= empty_ev);
            assert(tag(own_defs(stmt@), index as nat) =~= empty_ev);
        },
    }
}

pub open spec fn chains_at(c: &UseDefChains) -> (Seq<(Seq<char>, Seq<usize>)>, Seq<(Seq<char>, Seq<usize>)>) {
    (chain_view(c.defs.entries()), chain_view(c.uses.entries()))
}

fn collect_use_def_chains(statements: &Vec<Statement>, chains: &mut UseDefChains, index: &mut usize)
    requires
        *old(index) + sizes(stmts_view(statements@)) <= usize::MAX,
    ensures
        *final(index) == *old(index) + sizes(stmts_view(statements@)),
        chain_view(final(chains).defs.entries()) == record_events(
            chain_view(old(chains).defs.entries()),
            seq_events(stmts_view(statements@), *old(index) as nat, true),
        ),
        chain_view(final(chains).uses.entries()) == record_events(
            chain_view(old(chains).uses.entries()),
            seq_events(stmts_view(statements@), *old(index) as nat, false),
        ),
    decreases statements, 0nat,
{
    let ghost sv = stmts_view(statements@);
    let ghost start = *index;
    let ghost d0 = chain_view(chains.defs.entries());
    let ghost u0 = chain_view(chains.uses.entries());
    let mut i: usize = 0;
    proof {
        assert(sv.skip(0) == sv);
    }
    while i < statements.len()
        invariant
            i <= statements@.len(),
            sv == stmts_view(statements@),
            start + sizes(sv) <= usize::MAX,
            *index + sizes(sv.skip(i as int)) == start + sizes(sv),
            record_events(chain_view(chains.defs.entries()), seq_events(sv.skip(i as int), *index as nat, true))
                == record_events(d0, seq_events(sv, start as nat, true)),
            record_events(chain_view(chains.uses.entries()), seq_events(sv.skip(i as int), *index as nat, false))
                == record_events(u0, seq_events(sv, start as nat, false)),
        decreases statements.len() - i,
    {
        proof {
            assert(sv.skip(i as int)[0] == sv[i as int]);
            assert(sv.skip(i as int).drop_first() == sv.skip(i + 1));
            assert(decreases_to!(*statements => statements@));
        }
        let ghost k = *index;
        let ghost dd = chain_view(chains.defs.entries());
        let ghost uu = chain_view(chains.uses.entries());
        collect_statement(&statements[i], chains, index);
        proof {
            lemma_record_append(dd, stmt_events(sv[i as int], k as nat, true), seq_events(sv.skip(i + 1), *index as nat, true));
            lemma_record_append(uu, stmt_events(sv[i as int], k as nat, false), seq_events(sv.skip(i + 1), *index as nat, false));
        }
        i = i + 1;
    }
    proof {
        assert(sv.skip(i as int).len() == 0);
    }
}

proof fn lemma_if_events(
    s: StatementV,
    k: nat,
    defs: bool,
    d0: Seq<(Seq<char>, Seq<usize>)>,
)
    requires
        s is If,
    ensures
        record_events(d0, stmt_events(s, k, defs)) == record_events(
            record_events(record_events(d0, tag(if defs { own_defs(s) } else { own_uses(s) }, k)),
                seq_events(s->then_branch, k + 1, defs)),
            match s->else_branch {
                Some(e) => seq_events(e, k + 1 + sizes(s->then_branch), defs),
                None => Seq::empty(),
            },
        ),
{
    let own = tag(if defs { own_defs(s) } else { own_uses(s) }, k);
    let a = seq_events(s->then_branch, k + 1, defs);
    let b = match s->else_branch {
        Some(e) => seq_events(e, k + 1 + sizes(s->then_branch), defs),
        None => Seq::empty(),
    };
    assert(stmt_events(s, k, defs) =~= own + a + b);
    lemma_record_append(d0, own + a, b);
    lemma_record_append(d0, own, a);
    assert(record_events(record_events(record_events(d0, own), a), Seq::empty()) == record_events(
        record_events(d0, own),
        a,
    ));
}

proof fn lemma_body_events(
    s: StatementV,
    body: Seq<StatementV>,
    k: nat,
    defs: bool,
    d0: Seq<(Seq<char>, Seq<usize>)>,
)
    requires
        s is Perform ==> body == s->Perform_body,
        s is PerformUntil ==> body == s->PerformUntil_body,
        s is PerformVarying ==> body == s->PerformVarying_body,
        s is For ==> body == s->For_body,
        s is Perform || s is PerformUntil || s is PerformVarying || s is For,
    ensures
        record_events(d0, stmt_events(s, k, defs)) == record_events(
            record_events(d0, tag(if defs { own_defs(s) } else { own_uses(s) }, k)),
            seq_events(body, k + 1, defs),
        ),
{
    let own = tag(if defs { own_defs(s) } else { own_uses(s) }, k);
    assert(stmt_events(s, k, defs) =~= own + seq_events(body, k + 1, defs));
    lemma_record_append(d0, own, seq_events(body, k + 1, defs));
}

proof fn lemma_leaf_events(s: StatementV, k: nat, defs: bool)
    requires
        !(s is If || s is Perform || s is PerformUntil || s is PerformVarying || s is For),
    ensures
        stmt_events(s, k, defs) == tag(if defs { own_defs(s) } else { own_uses(s) }, k),
        size(s) == 1,
{
}

fn collect_if(stmt: &Statement, chains: &mut UseDefChains, index: &mut usize)
    requires
        stmt is If,
        *old(index) >= 1,
        *old(index) - 1 + size(stmt@) <= usize::MAX,
    ensures
        *final(index) == *old(index) - 1 + size(stmt@),
        chain_view(final(chains).defs.entries()) == record_events(
            chain_view(old(chains).defs.entries()),
            seq_events(stmt@->then_branch, *old(index) as nat, true) + match stmt@->else_branch {
                Some(e) => seq_events(e, (*old(index) + sizes(stmt@->then_branch)) as nat, true),
                None => Seq::empty(),
            },
        ),
        chain_view(final(chains).uses.entries()) == record_events(
            chain_view(old(chains).uses.entries()),
            seq_events(stmt@->then_branch, *old(index) as nat, false) + match stmt@->else_branch {
                Some(e) => seq_events(e, (*old(index) + sizes(stmt@->then_branch)) as nat, false),
                None => Seq::empty(),
            },
        ),
    decreases stmt, 0nat,
{
    let ghost d1 = chain_view(chains.defs.entries());
    let ghost u1 = chain_view(chains.uses.entries());
    let ghost k1 = *index;
    match stmt {
        Statement::If { then_branch, else_branch, .. } => {
            proof {
                assert(decreases_to!(*stmt => *then_branch));
            }
            collect_use_def_chains(then_branch, chains, index);
            let ghost k2 = *index;
            let ghost td = seq_events(stmts_view(then_branch@), k1 as nat, true);
            let ghost tu = seq_events(stmts_view(then_branch@), k1 as nat, false);
            match else_branch {
                Some(e) => {
                    proof {
                        assert(decreases_to!(*stmt => *else_branch));
                    }
                    collect_use_def_chains(e, chains, index);
                    proof {
                        lemma_record_append(d1, td, seq_events(stmts_view(e@), k2 as nat, true));
                        lemma_record_append(u1, tu, seq_events(stmts_view(e@), k2 as nat, false));
                    }
                },
                None => {
                    assert(td + Seq::<(Seq<char>, nat)>::empty() =~= td);
                    assert(tu + Seq::<(Seq<char>, nat)>::empty() =~= tu);
                },
            }
        },
        _ => {},
    }
}

fn collect_statement(stmt: &Statement, chains: &mut UseDefChains, index: &mut usize)
    requires
        *old(index) + size(stmt@) <= usize::MAX,
    ensures
        *final(index) == *old(index) + size(stmt@),
        chain_view(final(chains).defs.entries()) == record_events(
            chain_view(old(chains).defs.entries()),
            stmt_events(stmt@, *old(index) as nat, true),
        ),
        chain_view(final(chains).uses.entries()) == record_events(
            chain_view(old(chains).uses.entries()),
            stmt_events(stmt@, *old(index) as nat, false),
        ),
    decreases stmt, 1nat,
{
    let current = *index;
    let ghost d0 = chain_view(chains.defs.entries());
    let ghost u0 = chain_view(chains.uses.entries());
    *index = *index + 1;
    own_events(stmt, current, chains);
    let ghost d1 = chain_view(chains.defs.entries());
    let ghost u1 = chain_view(chains.uses.entries());
    match stmt {
        Statement::If { .. } => {
            collect_if(stmt, chains, index);
            proof {
                lemma_if_events(stmt@, current as nat, true, d0);
                lemma_if_events(stmt@, current as nat, false, d0);
                lemma_if_events(stmt@, current as nat, false, u0);
                let s = stmt@;
                let a = seq_events(s->then_branch, (current + 1) as nat, true);
                let b = match s->else_branch {
                    Some(e) => seq_events(e, ((current + 1) + sizes(s->then_branch)) as nat, true),
                    None => Seq::empty(),
                };
                lemma_record_append(d1, a, b);
                let a2 = seq_events(s->then_branch, (current + 1) as nat, false);
                let b2 = match s->else_branch {
                    Some(e) => seq_events(e, ((current + 1) + sizes(s->then_branch)) as nat, false),
                    None => Seq::empty(),
                };
                lemma_record_append(u1, a2, b2);
            }
        },
        Statement::Perform { body, .. } | Statement::PerformUntil { body, .. }
        | Statement::PerformVarying { body, .. } | Statement::For { body, .. } => {
            collect_use_def_chains(body, chains, index);
            proof {
                lemma_body_events(stmt@, stmts_view(body@), current as nat, true, d0);
                lemma_body_events(stmt@, stmts_view(body@), current as nat, false, u0);
            }
        },
        _ => {
            proof {
                lemma_leaf_events(stmt@, current as nat, true);
                lemma_leaf_events(stmt@, current as nat, false);
            }
        },
    }
}

/// The use-def chains of a program's statements.
pub fn build_use_def_chains(program: &Program) -> (r: UseDefChains)
    requires
        sizes(stmts_view(program.statements@)) <= usize::MAX,
    ensures
        chain_view(r.defs.entries()) == record_events(
            Seq::empty(),
            seq_events(stmts_view(program.statements@), 0, true),
        ),
        chain_view(r.uses.entries()) == record_events(
            Seq::empty(),
            seq_events(stmts_view(program.statements@), 0, false),
        ),
{
    let mut chains = UseDefChains::default();
    let mut index: usize = 0;
    assert(chain_view(chains.defs.entries()) =~= Seq::empty());
    assert(chain_view(chains.uses.entries()) =~= Seq::empty());
    collect_use_def_chains(&program.statements, &mut chains, &mut index);
    chains
}


// ---------------------------------------------------------------------
// Conversion
// ---------------------------------------------------------------------

/// Converts a program to static single assignment form: builds its
/// control-flow graph, inserts phi nodes where iterated dominance
/// frontiers call for them, and renames every definition to a fresh
/// version of its base name, following the dominator tree for the names
/// that uses and phi nodes refer to.
pub fn convert_to_ssa(program: &mut Program)
    requires
        1 + 4 * sizes(stmts_view(old(program).statements@)) <= usize::MAX,
    ensures
        exists|cfg: ControlFlowGraph, groups: Seq<Seq<Seq<char>>>|
            #[trigger] ssa_result(*old(program), cfg, groups, *final(program)),
{
    let ghost before = *program;
    let cfg = ControlFlowGraph::build(program);
    let (ins, slots) = place_phis(program, &cfg);
    let ghost groups = choose|groups: Seq<Seq<Seq<char>>>|
        #[trigger] phi_placement(before, &cfg, groups) && ins@.statements == with_phis(before@.statements, groups)
            && slots_match(
            nat_view(slots@),
            ins@.statements,
            phi_blocks(before@.statements, groups, before@.statements.len() as int),
        ) && nat_view(slots@) == phi_slots(before@.statements, groups, before@.statements.len() as int);
    let fits = match checked_sizes(&ins.statements) {
        Some(k) => k < usize::MAX,
        None => false,
    };
    if fits {
        proof {
            let b1 = Seq::new(ins@.statements.len(), |m: int| slots@[sizes(ins@.statements.take(m)) as int] as nat);
            let b2 = phi_blocks(before@.statements, groups, before@.statements.len() as int);
            assert forall|m: int| 0 <= m < b1.len() implies b1[m] == b2[m] by {
                crate::phi::lemma_sizes_take(ins@.statements, m);
                assert(nat_view(slots@)[sizes(ins@.statements.take(m)) as int] == b2[m]);
            }
            assert(b1 =~= b2);
        }
        *program = rename_program(ins, slots, &cfg);
    } else {
        *program = ins;
    }
    proof {
        assert(built_from(&cfg, before));
        assert(ssa_result(before, cfg, groups, *program));
    }
}

} // verus!
