//! Collection of the declarations of a program into a symbol table.
use super::symbol_table::{symbol_of, SymbolTable, SymbolV};
use crate::ir::{branches_view, stmts_view, Statement, StatementV, VariableDefinitionV};
use vstd::prelude::*;

verus! {

broadcast use vstd::std_specs::vec::group_vec_axioms, crate::ir::lemma_stmts_view, crate::ir::lemma_branches_view;

/// The declarations in a statement and in the statements nested in it, in
/// order.
pub open spec fn decls_of(s: StatementV) -> Seq<VariableDefinitionV>
    decreases s, 2nat,
{
    match s {
        StatementV::VariableDefinition(v) => seq![v],
        StatementV::If { then_branch, else_branch, .. } => decls_in(then_branch) + match else_branch {
            Some(e) => decls_in(e),
            None => Seq::empty(),
        },
        StatementV::Perform { body, .. } => decls_in(body),
        StatementV::PerformUntil { body, .. } => decls_in(body),
        StatementV::PerformVarying { body, .. } => decls_in(body),
        StatementV::Evaluate { branches, .. } => decls_in_branches(branches),
        _ => Seq::empty(),
    }
}

pub open spec fn decls_in_branches(bs: Seq<(Seq<char>, Seq<StatementV>)>) -> Seq<VariableDefinitionV>
    decreases bs, 1nat,
{
    if bs.len() == 0 {
        Seq::empty()
    } else {
        decls_in(bs[0].1) + decls_in_branches(bs.drop_first())
    }
}

pub open spec fn decls_in(ss: Seq<StatementV>) -> Seq<VariableDefinitionV>
    decreases ss, 0nat,
{
    if ss.len() == 0 {
        Seq::empty()
    } else {
        decls_of(ss[0]) + decls_in(ss.drop_first())
    }
}

/// The table after declaring `vs` in order.
pub open spec fn declare_all(m: Map<Seq<char>, SymbolV>, vs: Seq<VariableDefinitionV>) -> Map<Seq<char>, SymbolV>
    decreases vs.len(),
{
    if vs.len() == 0 {
        m
    } else {
        declare_all(m, vs.drop_last()).insert(vs.last().name, symbol_of(vs.last()))
    }
}

pub proof fn lemma_declare_append(m: Map<Seq<char>, SymbolV>, a: Seq<VariableDefinitionV>, b: Seq<VariableDefinitionV>)
    ensures
        declare_all(m, a + b) == declare_all(declare_all(m, a), b),
    decreases b.len(),
{
    if b.len() == 0 {
        assert(a + b =~= a);
    } else {
        assert((a + b).drop_last() =~= a + b.drop_last());
        lemma_declare_append(m, a, b.drop_last());
    }
}

fn collect_list(ss: &Vec<Statement>, table: &mut SymbolTable)
    ensures
        final(table)@ == declare_all(old(table)@, decls_in(stmts_view(ss@))),
    decreases ss, 0nat,
{
    let ghost sv = stmts_view(ss@);
    let ghost m0 = table@;
    let mut i: usize = 0;
    assert(sv.skip(0) =~= sv);
    while i < ss.len()
        invariant
            i <= ss@.len(),
            sv == stmts_view(ss@),
            declare_all(table@, decls_in(sv.skip(i as int))) == declare_all(m0, decls_in(sv)),
        decreases ss.len() - i,
    {
        proof {
            assert(sv.skip(i as int)[0] == sv[i as int]);
            assert(sv.skip(i as int).drop_first() =~= sv.skip(i + 1));
            assert(decreases_to!(*ss => ss@));
        }
        let ghost before = table@;
        collect_symbols(&ss[i], table);
        proof {
            lemma_declare_append(before, decls_of(sv[i as int]), decls_in(sv.skip(i + 1)));
        }
        i = i + 1;
    }
    assert(sv.skip(i as int).len() == 0);
}

fn collect_symbols(stmt: &Statement, table: &mut SymbolTable)
    ensures
        final(table)@ == declare_all(old(table)@, decls_of(stmt@)),
    decreases stmt, 2nat,
{
    let ghost m0 = table@;
    match stmt {
        Statement::VariableDefinition(var) => {
            table.insert(var);
            assert(seq![var@].drop_last() =~= Seq::<VariableDefinitionV>::empty());
            assert(declare_all(m0, Seq::<VariableDefinitionV>::empty()) == m0);
            assert(seq![var@].last() == var@);
        },
        Statement::If { then_branch, else_branch, .. } => {
            collect_list(then_branch, table);
            let ghost m1 = table@;
            match else_branch {
                Some(b) => {
                    proof {
                        assert(decreases_to!(*stmt => *else_branch));
                    }
                    collect_list(b, table);
                    proof {
                        lemma_declare_append(m0, decls_in(stmts_view(then_branch@)), decls_in(stmts_view(b@)));
                    }
                },
                None => {
                    assert(decls_in(stmts_view(then_branch@)) + Seq::<VariableDefinitionV>::empty() =~= decls_in(stmts_view(then_branch@)));
                },
            }
        },
        Statement::Perform { body, .. } | Statement::PerformUntil { body, .. }
        | Statement::PerformVarying { body, .. } => {
            collect_list(body, table);
        },
        Statement::Evaluate { branches, .. } => {
            let ghost bv = branches_view(branches@);
            let mut k: usize = 0;
            assert(bv.skip(0) =~= bv);
            while k < branches.len()
                invariant
                    k <= branches@.len(),
                    *stmt is Evaluate,
                    stmt->branches == *branches,
                    bv == branches_view(branches@),
                    declare_all(table@, decls_in_branches(bv.skip(k as int))) == declare_all(m0, decls_in_branches(bv)),
                decreases branches.len() - k,
            {
                proof {
                    assert(bv.skip(k as int)[0] == bv[k as int]);
                    assert(bv.skip(k as int).drop_first() =~= bv.skip(k + 1));
                    assert(decreases_to!(*stmt => *branches));
                    assert(decreases_to!(*branches => branches@));
                    assert(decreases_to!(branches@ => branches@[k as int]));
                    assert(decreases_to!(branches@[k as int] => branches@[k as int].1));
                }
                let ghost before = table@;
                collect_list(&branches[k].1, table);
                proof {
                    lemma_declare_append(before, decls_in(bv[k as int].1), decls_in_branches(bv.skip(k + 1)));
                }
                k = k + 1;
            }
            assert(bv.skip(k as int).len() == 0);
        },
        _ => {},
    }
}

/// The symbol table of a program: every declaration, nested ones
/// included, in order; a later declaration of a name replaces an earlier
/// one.
pub fn build_symbol_table(program: &[Statement]) -> (r: SymbolTable)
    ensures
        r@ == declare_all(Map::empty(), decls_in(stmts_view(program@))),
{
    let mut table = SymbolTable::new();
    let ghost sv = stmts_view(program@);
    let mut i: usize = 0;
    assert(sv.skip(0) =~= sv);
    while i < program.len()
        invariant
            i <= program@.len(),
            sv == stmts_view(program@),
            declare_all(table@, decls_in(sv.skip(i as int))) == declare_all(Map::empty(), decls_in(sv)),
        decreases program.len() - i,
    {
        proof {
            assert(sv.skip(i as int)[0] == sv[i as int]);
            assert(sv.skip(i as int).drop_first() =~= sv.skip(i + 1));
        }
        let ghost before = table@;
        collect_symbols(&program[i], &mut table);
        proof {
            lemma_declare_append(before, decls_of(sv[i as int]), decls_in(sv.skip(i + 1)));
        }
        i = i + 1;
    }
    assert(sv.skip(i as int).len() == 0);
    table
}

} // verus!
