//! Optimisation passes over the top-level statements of a program and of
//! its paragraphs: constant folding, constant propagation, copy
//! propagation and removal of `NoOp` statements.
use crate::interpreter::{fits, run_block, run_stmt, trunc_div, Machine};
use crate::ir::{
    expr_view,    paras_view, stmts_view, Expression, ExpressionV, Literal, LiteralV, Paragraph, ParagraphV, Program,
    ProgramV, Source, SourceV, Statement, StatementV,
};
use crate::names::{del_value, index_of_key, map_entries, put_value, value_of, NameMap};
use vstd::prelude::*;

verus! {

broadcast use vstd::std_specs::vec::group_vec_axioms, crate::ir::lemma_stmts_view;

// ---------------------------------------------------------------------
// Constant folding
// ---------------------------------------------------------------------

/// The value of `a op b` when the operator folds: `+`, `-`, `*`, and `/`
/// by a non-zero number (rounding toward zero).
pub open spec fn fold_value(op: Seq<char>, a: i64, b: i64) -> Option<int> {
    if op == "+"@ {
        Some(a + b)
    } else if op == "-"@ {
        Some(a - b)
    } else if op == "*"@ {
        Some(a * b)
    } else if op == "/"@ && b != 0 {
        Some(trunc_div(a as int, b as int))
    } else {
        None
    }
}

/// The folded value of a computation of two numbers, if it folds.
pub open spec fn folded(s: StatementV) -> Option<int> {
    match s {
        StatementV::Compute { expr, .. } => match expr {
            ExpressionV::Binary { left, operator, right } => match (*left, *right) {
                (
                    ExpressionV::Literal(LiteralV::Int(a)),
                    ExpressionV::Literal(LiteralV::Int(b)),
                ) => fold_value(operator, a, b),
                _ => None,
            },
            _ => None,
        },
        _ => None,
    }
}

/// A computation of two numbers becomes the number it computes.
pub open spec fn fold_stmt(s: StatementV) -> StatementV {
    match folded(s) {
        Some(v) => match fits(v) {
            Some(x) => StatementV::Compute {
                target: s->Compute_target,
                expr: ExpressionV::Literal(LiteralV::Int(x)),
            },
            None => s,
        },
        None => s,
    }
}

/// Folding does not overflow (where it would, `i64` arithmetic panics).
pub open spec fn folds_fit(ss: Seq<StatementV>) -> bool {
    forall|i: int| 0 <= i < ss.len() ==> match #[trigger] folded(ss[i]) {
        Some(v) => fits(v) is Some,
        None => true,
    }
}

pub open spec fn fold_seq(ss: Seq<StatementV>) -> Seq<StatementV> {
    Seq::new(ss.len(), |i: int| fold_stmt(ss[i]))
}

// ---------------------------------------------------------------------
// Constant and copy propagation
// ---------------------------------------------------------------------

pub open spec fn literal_source(l: LiteralV) -> SourceV {
    match l {
        LiteralV::Int(i) => SourceV::Literal(i),
        LiteralV::Str(s) => SourceV::LiteralString(s),
    }
}

/// A move of a known constant becomes a move of that constant; moves
/// record or forget the constant their target holds.
pub open spec fn prop_stmt(s: StatementV, c: Seq<(Seq<char>, LiteralV)>) -> (StatementV, Seq<(Seq<char>, LiteralV)>) {
    match s {
        StatementV::Move { source, target } => match source {
            SourceV::Literal(i) => (s, put_value(c, target, LiteralV::Int(i))),
            SourceV::LiteralString(t) => (s, put_value(c, target, LiteralV::Str(t))),
            SourceV::Variable(v) => match value_of(c, v) {
                Some(val) => (StatementV::Move { source: literal_source(val), target }, put_value(c, target, val)),
                None => (s, del_value(c, target)),
            },
        },
        _ => (s, c),
    }
}

pub open spec fn prop_seq(ss: Seq<StatementV>, c: Seq<(Seq<char>, LiteralV)>) -> (Seq<StatementV>, Seq<(Seq<char>, LiteralV)>)
    decreases ss.len(),
{
    if ss.len() == 0 {
        (Seq::empty(), c)
    } else {
        let r = prop_seq(ss.drop_last(), c);
        let x = prop_stmt(ss.last(), r.1);
        (r.0.push(x.0), x.1)
    }
}

/// A move from a copy reads the variable it was copied from; writes forget copies.
pub open spec fn copy_stmt(s: StatementV, a: Seq<(Seq<char>, Seq<char>)>) -> (StatementV, Seq<(Seq<char>, Seq<char>)>) {
    match s {
        StatementV::Move { source, target } => match source {
            SourceV::Variable(v) => {
                let orig = match value_of(a, v) {
                    Some(r) => r,
                    None => v,
                };
                (StatementV::Move { source: SourceV::Variable(orig), target }, put_value(a, target, orig))
            },
            _ => (s, del_value(a, target)),
        },
        StatementV::Compute { target, .. } => (s, del_value(a, target)),
        StatementV::Add { target, .. } => (s, del_value(a, target)),
        StatementV::Subtract { target, .. } => (s, del_value(a, target)),
        StatementV::Multiply { target, .. } => (s, del_value(a, target)),
        StatementV::Divide { target, .. } => (s, del_value(a, target)),
        _ => (s, a),
    }
}

pub open spec fn copy_seq(ss: Seq<StatementV>, a: Seq<(Seq<char>, Seq<char>)>) -> (Seq<StatementV>, Seq<(Seq<char>, Seq<char>)>)
    decreases ss.len(),
{
    if ss.len() == 0 {
        (Seq::empty(), a)
    } else {
        let r = copy_seq(ss.drop_last(), a);
        let x = copy_stmt(ss.last(), r.1);
        (r.0.push(x.0), x.1)
    }
}

/// The statements without `NoOp`s.
pub open spec fn live_seq(ss: Seq<StatementV>) -> Seq<StatementV>
    decreases ss.len(),
{
    if ss.len() == 0 {
        Seq::empty()
    } else if ss.last() is NoOp {
        live_seq(ss.drop_last())
    } else {
        live_seq(ss.drop_last()).push(ss.last())
    }
}

// ---------------------------------------------------------------------
// Passes over paragraphs
// ---------------------------------------------------------------------

pub open spec fn with_body(p: ParagraphV, ss: Seq<StatementV>) -> ParagraphV {
    ParagraphV { name: p.name, statements: ss }
}

pub open spec fn prop_paras(ps: Seq<ParagraphV>, c: Seq<(Seq<char>, LiteralV)>) -> (Seq<ParagraphV>, Seq<(Seq<char>, LiteralV)>)
    decreases ps.len(),
{
    if ps.len() == 0 {
        (Seq::empty(), c)
    } else {
        let r = prop_paras(ps.drop_last(), c);
        let x = prop_seq(ps.last().statements, r.1);
        (r.0.push(with_body(ps.last(), x.0)), x.1)
    }
}

pub open spec fn copy_paras(ps: Seq<ParagraphV>, a: Seq<(Seq<char>, Seq<char>)>) -> (Seq<ParagraphV>, Seq<(Seq<char>, Seq<char>)>)
    decreases ps.len(),
{
    if ps.len() == 0 {
        (Seq::empty(), a)
    } else {
        let r = copy_paras(ps.drop_last(), a);
        let x = copy_seq(ps.last().statements, r.1);
        (r.0.push(with_body(ps.last(), x.0)), x.1)
    }
}

pub open spec fn fold_program(p: ProgramV) -> ProgramV {
    ProgramV {
        paragraphs: Seq::new(p.paragraphs.len(), |i: int| with_body(p.paragraphs[i], fold_seq(p.paragraphs[i].statements))),
        statements: fold_seq(p.statements),
        ..p
    }
}

pub open spec fn prop_program(p: ProgramV) -> ProgramV {
    let r = prop_paras(p.paragraphs, Seq::empty());
    ProgramV { paragraphs: r.0, statements: prop_seq(p.statements, r.1).0, ..p }
}

pub open spec fn copy_program(p: ProgramV) -> ProgramV {
    let r = copy_paras(p.paragraphs, Seq::empty());
    ProgramV { paragraphs: r.0, statements: copy_seq(p.statements, r.1).0, ..p }
}

pub open spec fn dead_program(p: ProgramV) -> ProgramV {
    ProgramV {
        paragraphs: Seq::new(p.paragraphs.len(), |i: int| with_body(p.paragraphs[i], live_seq(p.paragraphs[i].statements))),
        statements: live_seq(p.statements),
        ..p
    }
}

/// Folding fits in every paragraph and in the program's statements.
pub open spec fn program_folds_fit(p: ProgramV) -> bool {
    &&& forall|i: int| 0 <= i < p.paragraphs.len() ==> #[trigger] folds_fit(p.paragraphs[i].statements)
    &&& folds_fit(p.statements)
}

// ---------------------------------------------------------------------
// Executable passes
// ---------------------------------------------------------------------

fn fold_statement(s: &Statement) -> (r: Statement)
    requires
        match folded(s@) {
            Some(v) => fits(v) is Some,
            None => true,
        },
    ensures
        r@ == fold_stmt(s@),
{
    match s {
        Statement::Compute { target, expr: Expression::Binary { left, operator, right } } => {
            match (&**left, &**right) {
                (Expression::Literal(Literal::Int(a)), Expression::Literal(Literal::Int(b))) => {
                    let a = *a;
                    let b = *b;
                    let ghost fv = folded(s@);
                    assert(expr_view(**left) == ExpressionV::Literal(LiteralV::Int(a)));
                    assert(expr_view(**right) == ExpressionV::Literal(LiteralV::Int(b)));
                    assert(s@->Compute_expr == ExpressionV::Binary {
                        left: Box::new(ExpressionV::Literal(LiteralV::Int(a))),
                        operator: operator@,
                        right: Box::new(ExpressionV::Literal(LiteralV::Int(b))),
                    });
                    assert(fv == fold_value(operator@, a, b));
                    let v: Option<i64> = if crate::text::string_eq_str(operator, "+") {
                        assert(fits(a + b) is Some);
                        Some(a + b)
                    } else if crate::text::string_eq_str(operator, "-") {
                        assert(fits(a - b) is Some);
                        Some(a - b)
                    } else if crate::text::string_eq_str(operator, "*") {
                        assert(fits(a * b) is Some);
                        Some(a * b)
                    } else if crate::text::string_eq_str(operator, "/") && b != 0 {
                        let aa: i128 = if a < 0 { -(a as i128) } else { a as i128 };
                        let bb: i128 = if b < 0 { -(b as i128) } else { b as i128 };
                        let q: i128 = aa / bb;
                        assert(q <= aa) by (nonlinear_arith)
                            requires
                                aa >= 0,
                                bb >= 1,
                                q == aa / bb,
                        ;
                        let r: i128 = if (a < 0) != (b < 0) { -q } else { q };
                        assert(r == trunc_div(a as int, b as int));
                        assert(fits(r as int) is Some);
                        Some(r as i64)
                    } else {
                        None
                    };
                    match v {
                        Some(x) => Statement::Compute {
                            target: target.clone(),
                            expr: Expression::Literal(Literal::Int(x)),
                        },
                        None => crate::ir::clone_statement(s),
                    }
                },
                _ => crate::ir::clone_statement(s),
            }
        },
        _ => crate::ir::clone_statement(s),
    }
}

fn fold_block(block: &Vec<Statement>) -> (r: Vec<Statement>)
    requires
        folds_fit(stmts_view(block@)),
    ensures
        stmts_view(r@) == fold_seq(stmts_view(block@)),
{
    let ghost sv = stmts_view(block@);
    let mut r: Vec<Statement> = Vec::new();
    let mut i: usize = 0;
    while i < block.len()
        invariant
            i <= block@.len(),
            sv == stmts_view(block@),
            folds_fit(sv),
            stmts_view(r@) == fold_seq(sv).take(i as int),
        decreases block.len() - i,
    {
        proof {
            crate::ir::lemma_stmts_view(block@);
            assert(sv[i as int] == block@[i as int]@);
            assert(match folded(sv[i as int]) {
                Some(v) => fits(v) is Some,
                None => true,
            });
        }
        let s = fold_statement(&block[i]);
        let ghost r0 = r@;
        r.push(s);
        proof {
            crate::ir::lemma_stmts_view_push(r0, s);
            assert(fold_seq(sv).take(i + 1) =~= fold_seq(sv).take(i as int).push(s@));
        }
        i = i + 1;
    }
    assert(fold_seq(sv).take(i as int) =~= fold_seq(sv));
    r
}

pub open spec fn consts_view(m: &NameMap<Literal>) -> Seq<(Seq<char>, LiteralV)> {
    map_entries(m.entries(), |l: Literal| l@)
}

pub open spec fn aliases_view(m: &NameMap<String>) -> Seq<(Seq<char>, Seq<char>)> {
    map_entries(m.entries(), |s: String| s@)
}

fn put_const(m: &mut NameMap<Literal>, name: &String, v: Literal)
    ensures
        consts_view(final(m)) == put_value(consts_view(old(m)), name@, v@),
{
    let ghost e0 = m.entries();
    m.insert(name.clone(), v);
    proof {
        crate::names::lemma_map_insert(e0, m.entries(), *name, v, |l: Literal| l@);
    }
}

fn drop_const(m: &mut NameMap<Literal>, name: &String)
    ensures
        consts_view(final(m)) == del_value(consts_view(old(m)), name@),
{
    let ghost e0 = m.entries();
    let _ = m.remove(name);
    proof {
        crate::names::lemma_map_remove(e0, m.entries(), name@, |l: Literal| l@);
    }
}

fn propagate_block(block: &Vec<Statement>, constants: &mut NameMap<Literal>) -> (r: Vec<Statement>)
    ensures
        (stmts_view(r@), consts_view(final(constants))) == prop_seq(stmts_view(block@), consts_view(old(constants))),
{
    let ghost sv = stmts_view(block@);
    let ghost c0 = consts_view(constants);
    let mut r: Vec<Statement> = Vec::new();
    let mut i: usize = 0;
    assert(sv.take(0) =~= Seq::<StatementV>::empty());
    assert(stmts_view(r@) =~= Seq::<StatementV>::empty());
    while i < block.len()
        invariant
            i <= block@.len(),
            sv == stmts_view(block@),
            (stmts_view(r@), consts_view(constants)) == prop_seq(sv.take(i as int), c0),
        decreases block.len() - i,
    {
        proof {
            assert(sv.take(i + 1).drop_last() =~= sv.take(i as int));
            assert(sv.take(i + 1).last() == sv[i as int]);
            crate::ir::lemma_stmts_view(block@);
            assert(sv[i as int] == block@[i as int]@);
        }
        let ghost c1 = consts_view(constants);
        let s = match &block[i] {
            Statement::Move { source, target } => match source {
                Source::Literal(n) => {
                    put_const(constants, target, Literal::Int(*n));
                    crate::ir::clone_statement(&block[i])
                },
                Source::LiteralString(t) => {
                    put_const(constants, target, Literal::String(t.clone()));
                    crate::ir::clone_statement(&block[i])
                },
                Source::Variable(v) => {
                    proof {
                        crate::names::lemma_map_lookup(constants.entries(), |l: Literal| l@, v@);
                    }
                    let found = match constants.get_name(v) {
                        Some(val) => Some(val.copy()),
                        None => None,
                    };
                    match found {
                        Some(val) => {
                            let src = match &val {
                                Literal::Int(n) => Source::Literal(*n),
                                Literal::String(t) => Source::LiteralString(t.clone()),
                            };
                            put_const(constants, target, val);
                            Statement::Move { source: src, target: target.clone() }
                        },
                        None => {
                            drop_const(constants, target);
                            crate::ir::clone_statement(&block[i])
                        },
                    }
                },
            },
            _ => crate::ir::clone_statement(&block[i]),
        };
        let ghost r0 = r@;
        r.push(s);
        proof {
            crate::ir::lemma_stmts_view_push(r0, s);
            assert((s@, consts_view(constants)) == prop_stmt(sv[i as int], c1));
        }
        i = i + 1;
    }
    assert(sv.take(i as int) =~= sv);
    r
}

fn put_alias(m: &mut NameMap<String>, name: &String, v: String)
    ensures
        aliases_view(final(m)) == put_value(aliases_view(old(m)), name@, v@),
{
    let ghost e0 = m.entries();
    m.insert(name.clone(), v);
    proof {
        crate::names::lemma_map_insert(e0, m.entries(), *name, v, |s: String| s@);
    }
}

fn drop_alias(m: &mut NameMap<String>, name: &String)
    ensures
        aliases_view(final(m)) == del_value(aliases_view(old(m)), name@),
{
    let ghost e0 = m.entries();
    let _ = m.remove(name);
    proof {
        crate::names::lemma_map_remove(e0, m.entries(), name@, |s: String| s@);
    }
}

fn propagate_copies(block: &Vec<Statement>, aliases: &mut NameMap<String>) -> (r: Vec<Statement>)
    ensures
        (stmts_view(r@), aliases_view(final(aliases))) == copy_seq(stmts_view(block@), aliases_view(old(aliases))),
{
    let ghost sv = stmts_view(block@);
    let ghost a0 = aliases_view(aliases);
    let mut r: Vec<Statement> = Vec::new();
    let mut i: usize = 0;
    assert(sv.take(0) =~= Seq::<StatementV>::empty());
    assert(stmts_view(r@) =~= Seq::<StatementV>::empty());
    while i < block.len()
        invariant
            i <= block@.len(),
            sv == stmts_view(block@),
            (stmts_view(r@), aliases_view(aliases)) == copy_seq(sv.take(i as int), a0),
        decreases block.len() - i,
    {
        proof {
            assert(sv.take(i + 1).drop_last() =~= sv.take(i as int));
            assert(sv.take(i + 1).last() == sv[i as int]);
            crate::ir::lemma_stmts_view(block@);
            assert(sv[i as int] == block@[i as int]@);
        }
        let ghost a1 = aliases_view(aliases);
        let s = match &block[i] {
            Statement::Move { source, target } => match source {
                Source::Variable(v) => {
                    proof {
                        crate::names::lemma_map_lookup(aliases.entries(), |s: String| s@, v@);
                    }
                    let orig = match aliases.get_name(v) {
                        Some(x) => x.clone(),
                        None => v.clone(),
                    };
                    put_alias(aliases, target, orig.clone());
                    Statement::Move { source: Source::Variable(orig), target: target.clone() }
                },
                _ => {
                    drop_alias(aliases, target);
                    crate::ir::clone_statement(&block[i])
                },
            },
            Statement::Compute { target, .. } | Statement::Add { target, .. } | Statement::Subtract {
                target,
                ..
            } | Statement::Multiply { target, .. } | Statement::Divide { target, .. } => {
                drop_alias(aliases, target);
                crate::ir::clone_statement(&block[i])
            },
            _ => crate::ir::clone_statement(&block[i]),
        };
        let ghost r0 = r@;
        r.push(s);
        proof {
            crate::ir::lemma_stmts_view_push(r0, s);
            assert((s@, aliases_view(aliases)) == copy_stmt(sv[i as int], a1));
        }
        i = i + 1;
    }
    assert(sv.take(i as int) =~= sv);
    r
}

fn remove_noops(block: &Vec<Statement>) -> (r: Vec<Statement>)
    ensures
        stmts_view(r@) == live_seq(stmts_view(block@)),
{
    let ghost sv = stmts_view(block@);
    let mut r: Vec<Statement> = Vec::new();
    let mut i: usize = 0;
    assert(sv.take(0) =~= Seq::<StatementV>::empty());
    assert(stmts_view(r@) =~= Seq::<StatementV>::empty());
    while i < block.len()
        invariant
            i <= block@.len(),
            sv == stmts_view(block@),
            stmts_view(r@) == live_seq(sv.take(i as int)),
        decreases block.len() - i,
    {
        proof {
            assert(sv.take(i + 1).drop_last() =~= sv.take(i as int));
            assert(sv.take(i + 1).last() == sv[i as int]);
            crate::ir::lemma_stmts_view(block@);
            assert(sv[i as int] == block@[i as int]@);
        }
        match &block[i] {
            Statement::NoOp => {},
            _ => {
                let s = crate::ir::clone_statement(&block[i]);
                let ghost r0 = r@;
                r.push(s);
                proof {
                    crate::ir::lemma_stmts_view_push(r0, s);
                }
            },
        }
        i = i + 1;
    }
    assert(sv.take(i as int) =~= sv);
    r
}

// ---------------------------------------------------------------------
// The optimiser
// ---------------------------------------------------------------------

fn replace_bodies(paras: &Vec<Paragraph>, bodies: Vec<Vec<Statement>>) -> (r: Vec<Paragraph>)
    requires
        bodies@.len() == paras@.len(),
    ensures
        r@.len() == paras@.len(),
        forall|i: int| 0 <= i < r@.len() ==> #[trigger] r@[i]@ == with_body(paras@[i]@, stmts_view(bodies@[i]@)),
{
    let mut r: Vec<Paragraph> = Vec::new();
    let mut bodies = bodies;
    let ghost b0 = bodies@;
    let mut i: usize = 0;
    while i < paras.len()
        invariant
            i <= paras@.len(),
            b0.len() == paras@.len(),
            bodies@ == b0.skip(i as int),
            r@.len() == i,
            forall|k: int| 0 <= k < i ==> #[trigger] r@[k]@ == with_body(paras@[k]@, stmts_view(b0[k]@)),
        decreases paras.len() - i,
    {
        let body = bodies.remove(0);
        assert(body == b0[i as int]);
        r.push(Paragraph { name: paras[i].name.clone(), statements: body });
        assert(bodies@ =~= b0.skip(i + 1));
        i = i + 1;
    }
    r
}

fn constant_folding(program: &mut Program)
    requires
        program_folds_fit(old(program)@),
    ensures
        final(program)@ == fold_program(old(program)@),
{
    let ghost p0 = program@;
    let mut bodies: Vec<Vec<Statement>> = Vec::new();
    let mut i: usize = 0;
    while i < program.paragraphs.len()
        invariant
            i <= program.paragraphs@.len(),
            program@ == p0,
            program_folds_fit(p0),
            bodies@.len() == i,
            forall|k: int| 0 <= k < i ==> #[trigger] stmts_view(bodies@[k]@) == fold_seq(p0.paragraphs[k].statements),
        decreases program.paragraphs.len() - i,
    {
        proof {
            assert(folds_fit(p0.paragraphs[i as int].statements));
        }
        bodies.push(fold_block(&program.paragraphs[i].statements));
        i = i + 1;
    }
    let paragraphs = replace_bodies(&program.paragraphs, bodies);
    let statements = fold_block(&program.statements);
    program.paragraphs = paragraphs;
    program.statements = statements;
    assert(program@.paragraphs =~= fold_program(p0).paragraphs);
}

fn constant_propagation(program: &mut Program)
    ensures
        final(program)@ == prop_program(old(program)@),
{
    let ghost p0 = program@;
    let mut constants: NameMap<Literal> = NameMap::new();
    let mut bodies: Vec<Vec<Statement>> = Vec::new();
    let ghost ps = p0.paragraphs;
    assert(consts_view(&constants) =~= Seq::<(Seq<char>, LiteralV)>::empty());
    let mut i: usize = 0;
    assert(ps.take(0) =~= Seq::<ParagraphV>::empty());
    while i < program.paragraphs.len()
        invariant
            i <= program.paragraphs@.len(),
            program@ == p0,
            ps == p0.paragraphs,
            bodies@.len() == i,
            consts_view(&constants) == prop_paras(ps.take(i as int), Seq::empty()).1,
            forall|k: int| 0 <= k < i ==> #[trigger] with_body(ps[k], stmts_view(bodies@[k]@)) == prop_paras(ps.take(i as int), Seq::empty()).0[k],
            prop_paras(ps.take(i as int), Seq::empty()).0.len() == i,
        decreases program.paragraphs.len() - i,
    {
        proof {
            assert(ps.take(i + 1).drop_last() =~= ps.take(i as int));
            assert(ps.take(i + 1).last() == ps[i as int]);
            assert(ps[i as int] == program.paragraphs@[i as int]@);
        }
        let b = propagate_block(&program.paragraphs[i].statements, &mut constants);
        bodies.push(b);
        i = i + 1;
    }
    assert(ps.take(i as int) =~= ps);
    let ghost pr = prop_paras(ps, Seq::empty());
    let ghost bs = bodies@;
    let paragraphs = replace_bodies(&program.paragraphs, bodies);
    assert forall|k: int| 0 <= k < ps.len() implies paras_view(paragraphs@)[k] == pr.0[k] by {
        assert(paragraphs@[k]@ == with_body(program.paragraphs@[k]@, stmts_view(bs[k]@)));
        assert(ps[k] == program.paragraphs@[k]@);
        assert(with_body(ps[k], stmts_view(bs[k]@)) == pr.0[k]);
    }
    let statements = propagate_block(&program.statements, &mut constants);
    program.paragraphs = paragraphs;
    program.statements = statements;
    assert(program@.paragraphs =~= prop_program(p0).paragraphs);
}

fn copy_propagation(program: &mut Program)
    ensures
        final(program)@ == copy_program(old(program)@),
{
    let ghost p0 = program@;
    let mut aliases: NameMap<String> = NameMap::new();
    let mut bodies: Vec<Vec<Statement>> = Vec::new();
    let ghost ps = p0.paragraphs;
    assert(aliases_view(&aliases) =~= Seq::<(Seq<char>, Seq<char>)>::empty());
    let mut i: usize = 0;
    assert(ps.take(0) =~= Seq::<ParagraphV>::empty());
    while i < program.paragraphs.len()
        invariant
            i <= program.paragraphs@.len(),
            program@ == p0,
            ps == p0.paragraphs,
            bodies@.len() == i,
            aliases_view(&aliases) == copy_paras(ps.take(i as int), Seq::empty()).1,
            forall|k: int| 0 <= k < i ==> #[trigger] with_body(ps[k], stmts_view(bodies@[k]@)) == copy_paras(ps.take(i as int), Seq::empty()).0[k],
            copy_paras(ps.take(i as int), Seq::empty()).0.len() == i,
        decreases program.paragraphs.len() - i,
    {
        proof {
            assert(ps.take(i + 1).drop_last() =~= ps.take(i as int));
            assert(ps.take(i + 1).last() == ps[i as int]);
            assert(ps[i as int] == program.paragraphs@[i as int]@);
        }
        let b = propagate_copies(&program.paragraphs[i].statements, &mut aliases);
        bodies.push(b);
        i = i + 1;
    }
    assert(ps.take(i as int) =~= ps);
    let ghost pr = copy_paras(ps, Seq::empty());
    let ghost bs = bodies@;
    let paragraphs = replace_bodies(&program.paragraphs, bodies);
    assert forall|k: int| 0 <= k < ps.len() implies paras_view(paragraphs@)[k] == pr.0[k] by {
        assert(paragraphs@[k]@ == with_body(program.paragraphs@[k]@, stmts_view(bs[k]@)));
        assert(ps[k] == program.paragraphs@[k]@);
        assert(with_body(ps[k], stmts_view(bs[k]@)) == pr.0[k]);
    }
    let statements = propagate_copies(&program.statements, &mut aliases);
    program.paragraphs = paragraphs;
    program.statements = statements;
    assert(program@.paragraphs =~= copy_program(p0).paragraphs);
}

fn dead_code(program: &mut Program)
    ensures
        final(program)@ == dead_program(old(program)@),
{
    let ghost p0 = program@;
    let mut bodies: Vec<Vec<Statement>> = Vec::new();
    let mut i: usize = 0;
    while i < program.paragraphs.len()
        invariant
            i <= program.paragraphs@.len(),
            program@ == p0,
            bodies@.len() == i,
            forall|k: int| 0 <= k < i ==> #[trigger] stmts_view(bodies@[k]@) == live_seq(p0.paragraphs[k].statements),
        decreases program.paragraphs.len() - i,
    {
        bodies.push(remove_noops(&program.paragraphs[i].statements));
        i = i + 1;
    }
    let paragraphs = replace_bodies(&program.paragraphs, bodies);
    let statements = remove_noops(&program.statements);
    program.paragraphs = paragraphs;
    program.statements = statements;
    assert(program@.paragraphs =~= dead_program(p0).paragraphs);
}

/// Folds constant computations, propagates constants and copies through
/// moves, and removes `NoOp` statements, in that order.
pub fn optimize(program: &mut Program)
    requires
        program_folds_fit(old(program)@),
    ensures
        final(program)@ == dead_program(copy_program(prop_program(fold_program(old(program)@)))),
{
    constant_folding(program);
    constant_propagation(program);
    copy_propagation(program);
    dead_code(program);
}

// ---------------------------------------------------------------------
// Laws
// ---------------------------------------------------------------------

proof fn lemma_live_seq(ss: Seq<StatementV>)
    ensures
        forall|i: int| 0 <= i < live_seq(ss).len() ==> !(#[trigger] live_seq(ss)[i] is NoOp),
    decreases ss.len(),
{
    if ss.len() > 0 {
        lemma_live_seq(ss.drop_last());
    }
}

proof fn lemma_prop_paras(ps: Seq<ParagraphV>, c: Seq<(Seq<char>, LiteralV)>)
    ensures
        prop_paras(ps, c).0.len() == ps.len(),
        forall|k: int| 0 <= k < ps.len() ==> (#[trigger] prop_paras(ps, c).0[k]).name == ps[k].name,
    decreases ps.len(),
{
    if ps.len() > 0 {
        lemma_prop_paras(ps.drop_last(), c);
    }
}

proof fn lemma_copy_paras(ps: Seq<ParagraphV>, a: Seq<(Seq<char>, Seq<char>)>)
    ensures
        copy_paras(ps, a).0.len() == ps.len(),
        forall|k: int| 0 <= k < ps.len() ==> (#[trigger] copy_paras(ps, a).0[k]).name == ps[k].name,
    decreases ps.len(),
{
    if ps.len() > 0 {
        lemma_copy_paras(ps.drop_last(), a);
    }
}

/// After `optimize`, no `NoOp` statement is left, at the top level or in
/// any paragraph; the variables stay, and the paragraphs keep their
/// number, order and names.
pub proof fn law_optimize_leaves_no_noop(p: ProgramV)
    ensures
        ({
            let q = dead_program(copy_program(prop_program(fold_program(p))));
            &&& forall|i: int| 0 <= i < q.statements.len() ==> !(#[trigger] q.statements[i] is NoOp)
            &&& forall|k: int, i: int|
                0 <= k < q.paragraphs.len() && 0 <= i < q.paragraphs[k].statements.len()
                    ==> !(#[trigger] q.paragraphs[k].statements[i] is NoOp)
            &&& q.variables == p.variables
            &&& q.paragraphs.len() == p.paragraphs.len()
            &&& forall|k: int| 0 <= k < p.paragraphs.len() ==> (#[trigger] q.paragraphs[k]).name == p.paragraphs[k].name
        }),
{
    let f = fold_program(p);
    let c = prop_program(f);
    let d = copy_program(c);
    let q = dead_program(d);
    lemma_prop_paras(f.paragraphs, Seq::empty());
    lemma_copy_paras(c.paragraphs, Seq::empty());
    lemma_live_seq(d.statements);
    assert forall|k: int, i: int|
        0 <= k < q.paragraphs.len() && 0 <= i < q.paragraphs[k].statements.len()
            implies !(#[trigger] q.paragraphs[k].statements[i] is NoOp) by {
        lemma_live_seq(d.paragraphs[k].statements);
    }
    assert forall|k: int| 0 <= k < p.paragraphs.len() implies (#[trigger] q.paragraphs[k]).name == p.paragraphs[k].name by {
        assert(c.paragraphs[k].name == f.paragraphs[k].name);
        assert(d.paragraphs[k].name == c.paragraphs[k].name);
    }
}

/// A folded statement runs as the statement it replaces: same state, same
/// steps left.
proof fn lemma_fold_stmt_runs_alike(
    s: StatementV,
    m: Machine,
    fuel: nat,
    funcs: Seq<(Seq<char>, Seq<StatementV>)>,
)
    ensures
        run_stmt(fold_stmt(s), m, fuel, funcs) == run_stmt(s, m, fuel, funcs),
{
    reveal_with_fuel(crate::interpreter::eval, 2);
}

proof fn lemma_fold_block_runs_alike(
    ss: Seq<StatementV>,
    i: int,
    m: Machine,
    fuel: nat,
    funcs: Seq<(Seq<char>, Seq<StatementV>)>,
)
    requires
        0 <= i,
    ensures
        run_block(fold_seq(ss), i, m, fuel, funcs) == run_block(ss, i, m, fuel, funcs),
    decreases ss.len() - i,
{
    if i < ss.len() {
        lemma_fold_stmt_runs_alike(ss[i], m, fuel, funcs);
        let r = run_stmt(ss[i], m, fuel, funcs);
        lemma_fold_block_runs_alike(ss, i + 1, r.0, crate::interpreter::min_nat(r.1, fuel), funcs);
    }
}

/// Constant folding keeps what the interpreter computes: for every start
/// state and budget of steps, the folded statements of a program end in
/// the same state, with the same steps left, as the statements themselves.
pub proof fn law_folding_keeps_meaning(
    p: ProgramV,
    m: Machine,
    fuel: nat,
    funcs: Seq<(Seq<char>, Seq<StatementV>)>,
)
    ensures
        run_block(fold_program(p).statements, 0, m, fuel, funcs) == run_block(p.statements, 0, m, fuel, funcs),
        forall|k: int| 0 <= k < p.paragraphs.len() ==>
            run_block(#[trigger] fold_program(p).paragraphs[k].statements, 0, m, fuel, funcs)
                == run_block(p.paragraphs[k].statements, 0, m, fuel, funcs),
{
    lemma_fold_block_runs_alike(p.statements, 0, m, fuel, funcs);
    assert forall|k: int| 0 <= k < p.paragraphs.len() implies
        run_block(#[trigger] fold_program(p).paragraphs[k].statements, 0, m, fuel, funcs)
            == run_block(p.paragraphs[k].statements, 0, m, fuel, funcs) by {
        lemma_fold_block_runs_alike(p.paragraphs[k].statements, 0, m, fuel, funcs);
    }
}

/// The value the interpreter reads for a recorded constant: a number, or
/// 0 for text.
pub open spec fn const_value(l: LiteralV) -> i64 {
    match l {
        LiteralV::Int(i) => i,
        LiteralV::Str(_) => 0,
    }
}

/// The recorded constants are true of `vars`: no name is recorded twice,
/// and every name recorded holds the value of its constant.
pub open spec fn consts_hold(c: Seq<(Seq<char>, LiteralV)>, vars: Seq<(Seq<char>, i64)>) -> bool {
    &&& forall|i: int, j: int| 0 <= i < j < c.len() ==> #[trigger] c[i].0 != #[trigger] c[j].0
    &&& forall|i: int| 0 <= i < c.len() ==> crate::interpreter::get_var(vars, #[trigger] c[i].0) == const_value(c[i].1)
}

/// A statement that changes variables, if at all, only as a `MOVE` does:
/// none of `ADD`, `COMPUTE`, or a statement that runs nested statements.
pub open spec fn writes_only_by_move(s: StatementV) -> bool {
    !(s is Add || s is Compute || s is If || s is Perform || s is PerformUntil || s is PerformVarying || s is For)
}

proof fn lemma_index_of_key_none<V>(s: Seq<(Seq<char>, V)>, k: Seq<char>)
    ensures
        index_of_key(s, k) is None ==> forall|i: int| 0 <= i < s.len() ==> #[trigger] s[i].0 != k,
    decreases s.len(),
{
    if s.len() > 0 && s.last().0 != k {
        lemma_index_of_key_none(s.drop_last(), k);
        if index_of_key(s, k) is None {
            assert forall|i: int| 0 <= i < s.len() implies #[trigger] s[i].0 != k by {
                if i < s.len() - 1 {
                    assert(s.drop_last()[i] == s[i]);
                }
            }
        }
    }
}

proof fn lemma_set_var_other(vars: Seq<(Seq<char>, i64)>, k: Seq<char>, x: i64, other: Seq<char>)
    ensures
        crate::interpreter::get_var(crate::interpreter::set_var(vars, k, x), k) == x,
        other != k ==> crate::interpreter::get_var(crate::interpreter::set_var(vars, k, x), other)
            == crate::interpreter::get_var(vars, other),
{
    crate::names::lemma_put_value_of(vars, k, x, other);
}

proof fn lemma_consts_put(c: Seq<(Seq<char>, LiteralV)>, vars: Seq<(Seq<char>, i64)>, k: Seq<char>, val: LiteralV)
    requires
        consts_hold(c, vars),
    ensures
        consts_hold(put_value(c, k, val), crate::interpreter::set_var(vars, k, const_value(val))),
{
    let v2 = crate::interpreter::set_var(vars, k, const_value(val));
    crate::names::lemma_index_of_key(c, k);
    lemma_index_of_key_none(c, k);
    let c2 = put_value(c, k, val);
    lemma_set_var_other(vars, k, const_value(val), k);
    match index_of_key(c, k) {
        Some(i) => {
            assert forall|j: int| 0 <= j < c2.len() implies crate::interpreter::get_var(v2, #[trigger] c2[j].0)
                == const_value(c2[j].1) by {
                if j != i {
                    assert(c[j].0 != k);
                    lemma_set_var_other(vars, k, const_value(val), c[j].0);
                }
            }
        },
        None => {
            assert forall|j: int| 0 <= j < c2.len() implies crate::interpreter::get_var(v2, #[trigger] c2[j].0)
                == const_value(c2[j].1) by {
                if j < c.len() {
                    lemma_set_var_other(vars, k, const_value(val), c[j].0);
                }
            }
        },
    }
}

proof fn lemma_consts_del(c: Seq<(Seq<char>, LiteralV)>, vars: Seq<(Seq<char>, i64)>, k: Seq<char>, x: i64)
    requires
        consts_hold(c, vars),
    ensures
        consts_hold(del_value(c, k), crate::interpreter::set_var(vars, k, x)),
{
    let v2 = crate::interpreter::set_var(vars, k, x);
    crate::names::lemma_index_of_key(c, k);
    lemma_index_of_key_none(c, k);
    let c2 = del_value(c, k);
    match index_of_key(c, k) {
        Some(i) => {
            assert forall|j: int| 0 <= j < c2.len() implies crate::interpreter::get_var(v2, #[trigger] c2[j].0)
                == const_value(c2[j].1) by {
                let jj = if j < i { j } else { j + 1 };
                assert(c2[j] == c[jj]);
                assert(c[jj].0 != k);
                lemma_set_var_other(vars, k, x, c[jj].0);
            }
            assert forall|a: int, b: int| 0 <= a < b < c2.len() implies #[trigger] c2[a].0 != #[trigger] c2[b].0 by {
                let aa = if a < i { a } else { a + 1 };
                let bb = if b < i { b } else { b + 1 };
                assert(c2[a] == c[aa]);
                assert(c2[b] == c[bb]);
            }
        },
        None => {
            assert forall|j: int| 0 <= j < c2.len() implies crate::interpreter::get_var(v2, #[trigger] c2[j].0)
                == const_value(c2[j].1) by {
                lemma_set_var_other(vars, k, x, c[j].0);
            }
        },
    }
}

/// Reading a recorded constant's name gives the constant's value.
proof fn lemma_consts_read(c: Seq<(Seq<char>, LiteralV)>, vars: Seq<(Seq<char>, i64)>, v: Seq<char>)
    requires
        consts_hold(c, vars),
    ensures
        value_of(c, v) matches Some(val) ==> crate::interpreter::get_var(vars, v) == const_value(val),
{
    crate::names::lemma_index_of_key(c, v);
}

/// One statement: its propagated form runs as it does, and the constants
/// it leaves hold after it.
proof fn lemma_prop_stmt_runs_alike(
    s: StatementV,
    c: Seq<(Seq<char>, LiteralV)>,
    m: Machine,
    fuel: nat,
    funcs: Seq<(Seq<char>, Seq<StatementV>)>,
)
    requires
        writes_only_by_move(s),
        m.status == crate::interpreter::RunStatus::Running ==> consts_hold(c, m.vars),
    ensures
        run_stmt(prop_stmt(s, c).0, m, fuel, funcs) == run_stmt(s, m, fuel, funcs),
        run_stmt(s, m, fuel, funcs).0.status == crate::interpreter::RunStatus::Running ==> consts_hold(
            prop_stmt(s, c).1,
            run_stmt(s, m, fuel, funcs).0.vars,
        ),
{
    if m.status == crate::interpreter::RunStatus::Running && fuel > 0 {
        match s {
            StatementV::Move { source, target } => match source {
                SourceV::Literal(i) => {
                    lemma_consts_put(c, m.vars, target, LiteralV::Int(i));
                },
                SourceV::LiteralString(t) => {
                    lemma_consts_put(c, m.vars, target, LiteralV::Str(t));
                },
                SourceV::Variable(v) => {
                    lemma_consts_read(c, m.vars, v);
                    match value_of(c, v) {
                        Some(val) => {
                            lemma_consts_put(c, m.vars, target, val);
                        },
                        None => {
                            lemma_consts_del(c, m.vars, target, crate::interpreter::get_var(m.vars, v));
                        },
                    }
                },
            },
            _ => {},
        }
    }
}

proof fn lemma_prop_seq_at(ss: Seq<StatementV>, c: Seq<(Seq<char>, LiteralV)>, i: int)
    requires
        0 <= i < ss.len(),
    ensures
        prop_seq(ss, c).0.len() == ss.len(),
        prop_seq(ss, c).0[i] == prop_stmt(ss[i], prop_seq(ss.take(i), c).1).0,
        prop_seq(ss.take(i + 1), c).1 == prop_stmt(ss[i], prop_seq(ss.take(i), c).1).1,
    decreases ss.len(),
{
    assert(ss.take(i + 1).drop_last() =~= ss.take(i));
    if i < ss.len() - 1 {
        lemma_prop_seq_at(ss.drop_last(), c, i);
        assert(ss.drop_last().take(i) =~= ss.take(i));
        assert(ss.drop_last().take(i + 1) =~= ss.take(i + 1));
    } else {
        assert(ss.drop_last() =~= ss.take(i));
        lemma_prop_seq_len(ss.drop_last(), c);
    }
}

proof fn lemma_prop_seq_len(ss: Seq<StatementV>, c: Seq<(Seq<char>, LiteralV)>)
    ensures
        prop_seq(ss, c).0.len() == ss.len(),
    decreases ss.len(),
{
    if ss.len() > 0 {
        lemma_prop_seq_len(ss.drop_last(), c);
    }
}

proof fn lemma_prop_block_runs_alike(
    ss: Seq<StatementV>,
    c: Seq<(Seq<char>, LiteralV)>,
    i: int,
    m: Machine,
    fuel: nat,
    funcs: Seq<(Seq<char>, Seq<StatementV>)>,
)
    requires
        0 <= i <= ss.len(),
        forall|k: int| 0 <= k < ss.len() ==> writes_only_by_move(#[trigger] ss[k]),
        m.status == crate::interpreter::RunStatus::Running ==> consts_hold(prop_seq(ss.take(i), c).1, m.vars),
    ensures
        run_block(prop_seq(ss, c).0, i, m, fuel, funcs) == run_block(ss, i, m, fuel, funcs),
    decreases ss.len() - i,
{
    lemma_prop_seq_len(ss, c);
    if i < ss.len() {
        lemma_prop_seq_at(ss, c, i);
        let ci = prop_seq(ss.take(i), c).1;
        lemma_prop_stmt_runs_alike(ss[i], ci, m, fuel, funcs);
        let r = run_stmt(ss[i], m, fuel, funcs);
        lemma_prop_block_runs_alike(ss, c, i + 1, r.0, crate::interpreter::min_nat(r.1, fuel), funcs);
    }
}

/// Constant propagation keeps what the interpreter computes: for every
/// start state whose variables hold the recorded constants, every budget
/// of steps and every statement list whose statements change variables
/// only as a `MOVE` does, the propagated statements end in the same state,
/// with the same steps left, as the statements themselves. (In particular
/// a `MOVE` from a variable with no known constant makes its target
/// unknown.) Statements that change variables otherwise are left out: the
/// pass keeps a name's constant across an `ADD` or `COMPUTE` of it, as
/// the original pass does.
pub proof fn law_propagation_keeps_meaning(
    ss: Seq<StatementV>,
    c: Seq<(Seq<char>, LiteralV)>,
    m: Machine,
    fuel: nat,
    funcs: Seq<(Seq<char>, Seq<StatementV>)>,
)
    requires
        forall|k: int| 0 <= k < ss.len() ==> writes_only_by_move(#[trigger] ss[k]),
        consts_hold(c, m.vars),
    ensures
        run_block(prop_seq(ss, c).0, 0, m, fuel, funcs) == run_block(ss, 0, m, fuel, funcs),
{
    assert(ss.take(0) =~= Seq::<StatementV>::empty());
    lemma_prop_block_runs_alike(ss, c, 0, m, fuel, funcs);
}

/// For a program without paragraphs, whose statements change variables
/// only as a `MOVE` does, the statements after constant propagation run
/// from every state and budget exactly as the statements before it.
pub proof fn law_program_propagation_keeps_meaning(
    p: ProgramV,
    m: Machine,
    fuel: nat,
    funcs: Seq<(Seq<char>, Seq<StatementV>)>,
)
    requires
        p.paragraphs.len() == 0,
        forall|k: int| 0 <= k < p.statements.len() ==> writes_only_by_move(#[trigger] p.statements[k]),
    ensures
        run_block(prop_program(p).statements, 0, m, fuel, funcs) == run_block(p.statements, 0, m, fuel, funcs),
{
    let e = Seq::<(Seq<char>, LiteralV)>::empty();
    assert(prop_paras(p.paragraphs, e).1 == e);
    law_propagation_keeps_meaning(p.statements, e, m, fuel, funcs);
}

} // verus!
