//! Semantic analysis: declared and used variables.
pub mod builder;
pub mod pipeline;
pub mod resolver;
pub mod symbol_table;
pub mod type_checker;

use crate::ir::{stmts_view, Program, Statement, StatementV};
use crate::names::{key_index, keys_of, names_view, NameMap};
use crate::types::LoomType;
use vstd::prelude::*;

verus! {

broadcast use vstd::std_specs::vec::group_vec_axioms, crate::ir::lemma_stmts_view;

/// Checks a program's declarations and the targets of its assignments.
#[derive(Debug)]
pub struct SemanticAnalyzer {
    pub symbols: NameMap<String>,
    pub variable_types: NameMap<LoomType>,
    pub errors: Vec<String>,
}

/// The names known after declaring `vars` in order on top of `k0`.
pub open spec fn decl_known(k0: Seq<Seq<char>>, vars: Seq<Seq<char>>) -> Seq<Seq<char>>
    decreases vars.len(),
{
    if vars.len() == 0 {
        k0
    } else {
        let k = decl_known(k0, vars.drop_last());
        if k.contains(vars.last()) {
            k
        } else {
            k.push(vars.last())
        }
    }
}

/// A message for every declaration of a name already known.
pub open spec fn decl_errors(k0: Seq<Seq<char>>, vars: Seq<Seq<char>>) -> Seq<Seq<char>>
    decreases vars.len(),
{
    if vars.len() == 0 {
        Seq::empty()
    } else {
        decl_errors(k0, vars.drop_last()) + if decl_known(k0, vars.drop_last()).contains(vars.last()) {
            seq!["Duplicate variable: "@ + vars.last()]
        } else {
            Seq::empty()
        }
    }
}

pub open spec fn undefined_target(target: Seq<char>, known: Seq<Seq<char>>) -> Seq<Seq<char>> {
    if known.contains(target) {
        Seq::empty()
    } else {
        seq!["Undefined variable: "@ + target]
    }
}

/// A message for every move, addition or computation, nested ones in
/// conditionals and loops included, whose target is not known.
pub open spec fn undefined_in(s: StatementV, known: Seq<Seq<char>>) -> Seq<Seq<char>>
    decreases s, 1nat,
{
    match s {
        StatementV::Move { target, .. } => undefined_target(target, known),
        StatementV::Add { target, .. } => undefined_target(target, known),
        StatementV::Compute { target, .. } => undefined_target(target, known),
        StatementV::If { then_branch, else_branch, .. } => undefined_list(then_branch, known)
            + match else_branch {
            Some(b) => undefined_list(b, known),
            None => Seq::empty(),
        },
        StatementV::PerformUntil { body, .. } => undefined_list(body, known),
        _ => Seq::empty(),
    }
}

pub open spec fn undefined_list(ss: Seq<StatementV>, known: Seq<Seq<char>>) -> Seq<Seq<char>>
    decreases ss, 0nat,
{
    if ss.len() == 0 {
        Seq::empty()
    } else {
        undefined_in(ss[0], known) + undefined_list(ss.drop_first(), known)
    }
}

pub open spec fn var_names(vs: Seq<crate::ir::VariableDefinition>) -> Seq<Seq<char>> {
    Seq::new(vs.len(), |i: int| vs[i].name@)
}

impl SemanticAnalyzer {
    /// An analyzer that knows no names and has found nothing.
    pub fn new() -> (r: Self)
        ensures
            keys_of(r.symbols.entries()) == Seq::<Seq<char>>::empty(),
            r.symbols.entries() == Seq::<(String, String)>::empty(),
            r.variable_types.entries() == Seq::<(String, LoomType)>::empty(),
            r.errors@ == Seq::<String>::empty(),
    {
        let r = SemanticAnalyzer { symbols: NameMap::new(), variable_types: NameMap::new(), errors: Vec::new() };
        assert(keys_of(r.symbols.entries()) =~= Seq::<Seq<char>>::empty());
        r
    }

    /// Declares the program's variables, reporting duplicates, then reports
    /// every assignment to a name that is not declared.
    pub fn analyze_program(&mut self, program: &Program)
        ensures
            keys_of(final(self).symbols.entries()) == decl_known(
                keys_of(old(self).symbols.entries()),
                var_names(program.variables@),
            ),
            names_view(final(self).errors@) == names_view(old(self).errors@) + decl_errors(
                keys_of(old(self).symbols.entries()),
                var_names(program.variables@),
            ) + undefined_list(
                stmts_view(program.statements@),
                decl_known(keys_of(old(self).symbols.entries()), var_names(program.variables@)),
            ),
            final(self).variable_types == old(self).variable_types,
            final(self).symbols.entries().len() >= old(self).symbols.entries().len(),
            final(self).symbols.entries().take(old(self).symbols.entries().len() as int) == old(self).symbols.entries(),
            forall|i: int|
                old(self).symbols.entries().len() <= i < final(self).symbols.entries().len()
                    ==> (#[trigger] final(self).symbols.entries()[i]).1@ == "variable"@,
    {
        let ghost s0 = self.symbols.entries();
        let ghost k0 = keys_of(self.symbols.entries());
        let ghost e0 = names_view(self.errors@);
        let ghost vn = var_names(program.variables@);
        let mut i: usize = 0;
        assert(vn.take(0) =~= Seq::<Seq<char>>::empty());
        assert(e0 + Seq::<Seq<char>>::empty() =~= e0);
        while i < program.variables.len()
            invariant
                i <= program.variables@.len(),
                vn == var_names(program.variables@),
                keys_of(self.symbols.entries()) == decl_known(k0, vn.take(i as int)),
                names_view(self.errors@) == e0 + decl_errors(k0, vn.take(i as int)),
                self.variable_types == old(self).variable_types,
                s0 == old(self).symbols.entries(),
                self.symbols.entries().len() >= s0.len(),
                self.symbols.entries().take(s0.len() as int) == s0,
                forall|k: int| s0.len() <= k < self.symbols.entries().len() ==> (#[trigger] self.symbols.entries()[k]).1@ == "variable"@,
            decreases program.variables.len() - i,
        {
            let name = &program.variables[i].name;
            let ghost ent = self.symbols.entries();
            let ghost er = self.errors@;
            proof {
                crate::names::lemma_key_index_contains(ent, name@);
                assert(vn.take(i + 1).drop_last() =~= vn.take(i as int));
                assert(vn.take(i + 1).last() == name@);
            }
            if self.symbols.contains_key(name) {
                let mut msg = crate::text::owned("Duplicate variable: ");
                crate::text::append_string(&mut msg, name);
                self.errors.push(msg);
                assert(names_view(self.errors@) =~= names_view(er).push(msg@));
                assert(names_view(self.errors@) =~= e0 + decl_errors(k0, vn.take(i + 1)));
            } else {
                let v = crate::text::owned("variable");
                self.symbols.insert(name.clone(), v);
                proof {
                    crate::names::lemma_key_index(ent, name@);
                    assert(self.symbols.entries() == ent.push((*name, v)));
                    assert(self.symbols.entries().take(s0.len() as int) =~= ent.take(s0.len() as int));
                    assert(keys_of(self.symbols.entries()) =~= keys_of(ent).push(name@));
                    assert(decl_errors(k0, vn.take(i + 1)) =~= decl_errors(k0, vn.take(i as int)));
                }
            }
            i = i + 1;
        }
        assert(vn.take(i as int) =~= vn);
        let ghost known = keys_of(self.symbols.entries());
        let ghost e1 = names_view(self.errors@);
        let ghost sv = stmts_view(program.statements@);
        let mut j: usize = 0;
        assert(sv.take(0) =~= Seq::<StatementV>::empty());
        assert(e1 + Seq::<Seq<char>>::empty() =~= e1);
        while j < program.statements.len()
            invariant
                j <= program.statements@.len(),
                sv == stmts_view(program.statements@),
                known == keys_of(self.symbols.entries()),
                names_view(self.errors@) == e1 + undefined_list(sv.take(j as int), known),
                self.variable_types == old(self).variable_types,
                s0 == old(self).symbols.entries(),
                self.symbols.entries().len() >= s0.len(),
                self.symbols.entries().take(s0.len() as int) == s0,
                forall|k: int| s0.len() <= k < self.symbols.entries().len() ==> (#[trigger] self.symbols.entries()[k]).1@ == "variable"@,
            decreases program.statements.len() - j,
        {
            let ghost er = names_view(self.errors@);
            self.analyze_statement(&program.statements[j]);
            proof {
                assert(sv.take(j + 1) =~= sv.take(j as int) + seq![sv[j as int]]);
                lemma_undefined_append(sv.take(j as int), seq![sv[j as int]], known);
                assert(seq![sv[j as int]].drop_first() =~= Seq::<StatementV>::empty());
                assert(undefined_list(Seq::<StatementV>::empty(), known) == Seq::<Seq<char>>::empty());
                assert(undefined_list(seq![sv[j as int]], known) =~= undefined_in(sv[j as int], known));
                crate::ir::lemma_stmts_view(program.statements@);
                assert(stmts_view(program.statements@)[j as int] == crate::ir::stmt_view(program.statements@[j as int]));
                assert(names_view(self.errors@) == er + undefined_in(sv[j as int], known));
                assert(names_view(self.errors@) =~= e1 + undefined_list(sv.take(j + 1), known));
            }
            j = j + 1;
        }
        assert(sv.take(j as int) =~= sv);
    }

    fn analyze_list(&mut self, ss: &Vec<Statement>)
        ensures
            final(self).symbols == old(self).symbols,
            final(self).variable_types == old(self).variable_types,
            names_view(final(self).errors@) == names_view(old(self).errors@) + undefined_list(
                stmts_view(ss@),
                keys_of(old(self).symbols.entries()),
            ),
        decreases ss, 0nat,
    {
        let ghost sv = stmts_view(ss@);
        let ghost known = keys_of(self.symbols.entries());
        let ghost e0 = names_view(self.errors@);
        let mut i: usize = 0;
        assert(sv.take(0) =~= Seq::<StatementV>::empty());
        assert(e0 + Seq::<Seq<char>>::empty() =~= e0);
        while i < ss.len()
            invariant
                i <= ss@.len(),
                sv == stmts_view(ss@),
                known == keys_of(self.symbols.entries()),
                self.symbols == old(self).symbols,
                self.variable_types == old(self).variable_types,
                names_view(self.errors@) == e0 + undefined_list(sv.take(i as int), known),
            decreases ss.len() - i,
        {
            proof {
                assert(decreases_to!(*ss => ss@));
            }
            let ghost er = names_view(self.errors@);
            self.analyze_statement(&ss[i]);
            proof {
                crate::ir::lemma_stmts_view(ss@);
                assert(stmts_view(ss@)[i as int] == crate::ir::stmt_view(ss@[i as int]));
                assert(names_view(self.errors@) == er + undefined_in(sv[i as int], known));
                assert(sv.take(i + 1) =~= sv.take(i as int) + seq![sv[i as int]]);
                lemma_undefined_append(sv.take(i as int), seq![sv[i as int]], known);
                assert(seq![sv[i as int]].drop_first() =~= Seq::<StatementV>::empty());
                assert(undefined_list(Seq::<StatementV>::empty(), known) == Seq::<Seq<char>>::empty());
                assert(undefined_list(seq![sv[i as int]], known) =~= undefined_in(sv[i as int], known));
                assert(names_view(self.errors@) =~= e0 + undefined_list(sv.take(i + 1), known));
            }
            i = i + 1;
        }
        assert(sv.take(i as int) =~= sv);
    }

    fn analyze_statement(&mut self, stmt: &Statement)
        ensures
            final(self).symbols == old(self).symbols,
            final(self).variable_types == old(self).variable_types,
            names_view(final(self).errors@) == names_view(old(self).errors@) + undefined_in(
                stmt@,
                keys_of(old(self).symbols.entries()),
            ),
        decreases stmt, 1nat,
    {
        let ghost e0 = names_view(self.errors@);
        match stmt {
            Statement::Move { target, .. } | Statement::Add { target, .. } | Statement::Compute { target, .. } => {
                self.ensure_exists(target);
            },
            Statement::If { then_branch, else_branch, .. } => {
                self.analyze_list(then_branch);
                match else_branch {
                    Some(b) => {
                        proof {
                            assert(decreases_to!(*stmt => *else_branch));
                        }
                        self.analyze_list(b);
                    },
                    None => {},
                }
                assert(names_view(self.errors@) =~= e0 + undefined_in(stmt@, keys_of(self.symbols.entries())));
            },
            Statement::PerformUntil { body, .. } => {
                self.analyze_list(body);
            },
            _ => {
                assert(names_view(self.errors@) =~= e0 + Seq::<Seq<char>>::empty());
            },
        }
    }

    fn ensure_exists(&mut self, name: &String)
        ensures
            final(self).symbols == old(self).symbols,
            final(self).variable_types == old(self).variable_types,
            names_view(final(self).errors@) == names_view(old(self).errors@) + undefined_target(
                name@,
                keys_of(old(self).symbols.entries()),
            ),
    {
        let ghost e0 = names_view(self.errors@);
        proof {
            crate::names::lemma_key_index_contains(self.symbols.entries(), name@);
        }
        if !self.symbols.contains_key(name) {
            let mut msg = crate::text::owned("Undefined variable: ");
            crate::text::append_string(&mut msg, name);
            let ghost er = self.errors@;
            self.errors.push(msg);
            assert(names_view(self.errors@) =~= names_view(er).push(msg@));
            assert(names_view(self.errors@) =~= e0 + seq!["Undefined variable: "@ + name@]);
        } else {
            assert(names_view(self.errors@) =~= e0 + Seq::<Seq<char>>::empty());
        }
    }
}

pub proof fn lemma_undefined_append(a: Seq<StatementV>, b: Seq<StatementV>, known: Seq<Seq<char>>)
    ensures
        undefined_list(a + b, known) == undefined_list(a, known) + undefined_list(b, known),
    decreases a.len(),
{
    if a.len() == 0 {
        assert(a + b =~= b);
        assert(undefined_list(a, known) + undefined_list(b, known) =~= undefined_list(b, known));
    } else {
        assert((a + b).drop_first() =~= a.drop_first() + b);
        lemma_undefined_append(a.drop_first(), b, known);
        assert(undefined_list(a + b, known) =~= undefined_list(a, known) + undefined_list(b, known));
    }
}

} // verus!
