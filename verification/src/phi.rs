//! Where phi nodes go: the block of every statement, the iterated
//! dominance frontiers of the blocks that define a variable, the insertion
//! of phi nodes, and renaming along the dominator tree.
use crate::cfg::{ends_block, ControlFlowGraph};
use crate::ir::{stmts_view, Condition, ConditionV, Expression, Source, ExpressionV, Program, SourceV, Statement, StatementV};
use crate::names::{key_index, NameMap};
use crate::ssa::{versioned, VersionCounter, build_use_def_chains, chain_view, record_events, seq_events, size, sizes};
use crate::text::{all_digits, digit_char, is_digit, nat_text};
use vstd::prelude::*;

verus! {

broadcast use vstd::std_specs::vec::group_vec_axioms, crate::ir::lemma_stmts_view;

// ---------------------------------------------------------------------
// The block of every statement
// ---------------------------------------------------------------------

/// The block of each statement, in the pre-order numbering of the
/// statements, following the way statements are cut into blocks: `nb` is
/// the number of blocks already closed and `open` says whether a block is
/// being filled. Returns the blocks of the statements from `i` on and the
/// number of blocks once they are all cut.
pub open spec fn bmap_go(stmts: Seq<StatementV>, i: int, nb: nat, open: bool) -> (Seq<nat>, nat)
    decreases stmts, stmts.len() - i,
{
    if i < 0 || i >= stmts.len() {
        (Seq::empty(), if open { nb + 1 } else { nb })
    } else {
        let s = stmts[i];
        let c: nat = if open { nb + 1 } else { nb };
        match s {
            StatementV::For { body, .. } => {
                let rest = bmap_go(stmts, i + 1, c + 3, false);
                (seq![c] + Seq::new(sizes(body), |k: int| (c + 1) as nat) + rest.0, rest.1)
            },
            StatementV::If { then_branch, else_branch, .. } => {
                let t = bmap_go(then_branch, 0, c + 1, false);
                let e = match else_branch {
                    Some(eb) => bmap_go(eb, 0, t.1, false),
                    None => (Seq::empty(), t.1),
                };
                let rest = bmap_go(stmts, i + 1, e.1, false);
                (seq![c] + t.0 + e.0 + rest.0, rest.1)
            },
            _ => if ends_block(s) {
                let rest = bmap_go(stmts, i + 1, nb + 1, false);
                (Seq::new(size(s), |k: int| nb) + rest.0, rest.1)
            } else {
                let rest = bmap_go(stmts, i + 1, nb, true);
                (seq![nb] + rest.0, rest.1)
            },
        }
    }
}

/// The block of every statement of a sequence, in pre-order.
pub open spec fn block_map(stmts: Seq<StatementV>) -> Seq<nat> {
    bmap_go(stmts, 0, 0, false).0
}

pub proof fn lemma_bmap(stmts: Seq<StatementV>, i: int, nb: nat, open: bool)
    requires
        0 <= i <= stmts.len(),
    ensures
        bmap_go(stmts, i, nb, open).0.len() == sizes(stmts.skip(i)),
        bmap_go(stmts, i, nb, open).1 >= if open { nb + 1 } else { nb },
        bmap_go(stmts, i, nb, open).1 <= nb + 1 + 4 * sizes(stmts.skip(i)),
        forall|k: int|
            0 <= k < bmap_go(stmts, i, nb, open).0.len() ==> #[trigger] bmap_go(
                stmts,
                i,
                nb,
                open,
            ).0[k] < bmap_go(stmts, i, nb, open).1,
    decreases stmts, stmts.len() - i,
{
    if i == stmts.len() {
        assert(stmts.skip(i).len() == 0);
    } else {
        let s = stmts[i];
        assert(stmts.skip(i)[0] == s);
        assert(stmts.skip(i).drop_first() =~= stmts.skip(i + 1));
        assert(sizes(stmts.skip(i)) == size(s) + sizes(stmts.skip(i + 1)));
        let c: nat = if open { nb + 1 } else { nb };
        match s {
            StatementV::For { body, .. } => {
                lemma_bmap(stmts, i + 1, c + 3, false);
            },
            StatementV::If { then_branch, else_branch, .. } => {
                lemma_bmap(then_branch, 0, c + 1, false);
                assert(then_branch.skip(0) =~= then_branch);
                let t = bmap_go(then_branch, 0, c + 1, false);
                match else_branch {
                    Some(eb) => {
                        lemma_bmap(eb, 0, t.1, false);
                        assert(eb.skip(0) =~= eb);
                    },
                    None => {},
                }
                let e = match else_branch {
                    Some(eb) => bmap_go(eb, 0, t.1, false),
                    None => (Seq::empty(), t.1),
                };
                lemma_bmap(stmts, i + 1, e.1, false);
                let rest = bmap_go(stmts, i + 1, e.1, false);
                let m = seq![c] + t.0 + e.0 + rest.0;
                assert forall|k: int| 0 <= k < m.len() implies m[k] < rest.1 by {
                    if k == 0 {
                    } else if k < 1 + t.0.len() {
                        assert(m[k] == t.0[k - 1]);
                    } else if k < 1 + t.0.len() + e.0.len() {
                        assert(m[k] == e.0[k - 1 - t.0.len()]);
                    } else {
                        assert(m[k] == rest.0[k - 1 - t.0.len() - e.0.len()]);
                    }
                }
            },
            _ => if ends_block(s) {
                lemma_bmap(stmts, i + 1, nb + 1, false);
            } else {
                lemma_bmap(stmts, i + 1, nb, true);
            },
        }
    }
}

pub open spec fn nat_view(s: Seq<usize>) -> Seq<nat> {
    Seq::new(s.len(), |k: int| s[k] as nat)
}

proof fn lemma_nat_view_push(s: Seq<usize>, x: usize)
    ensures
        nat_view(s.push(x)) == nat_view(s) + seq![x as nat],
{
    assert(nat_view(s.push(x)) =~= nat_view(s) + seq![x as nat]);
}

/// The number of statements a statement stands for in the pre-order
/// numbering.
pub fn statement_size(s: &Statement) -> (r: usize)
    requires
        size(s@) <= usize::MAX,
    ensures
        r == size(s@),
    decreases s, 1nat,
{
    match s {
        Statement::If { then_branch, else_branch, .. } => {
            let t = statements_size(then_branch);
            match else_branch {
                Some(e) => {
                    proof {
                        assert(decreases_to!(*s => *else_branch));
                    }
                    let k = statements_size(e);
                    1 + t + k
                },
                None => 1 + t,
            }
        },
        Statement::Perform { body, .. } | Statement::PerformUntil { body, .. }
        | Statement::PerformVarying { body, .. } | Statement::For { body, .. } => {
            1 + statements_size(body)
        },
        _ => 1,
    }
}

pub fn statements_size(v: &Vec<Statement>) -> (r: usize)
    requires
        sizes(stmts_view(v@)) <= usize::MAX,
    ensures
        r == sizes(stmts_view(v@)),
    decreases v, 0nat,
{
    let ghost sv = stmts_view(v@);
    let mut total: usize = 0;
    let mut i: usize = 0;
    assert(sv.skip(0) == sv);
    while i < v.len()
        invariant
            i <= v@.len(),
            sv == stmts_view(v@),
            sizes(sv) <= usize::MAX,
            total + sizes(sv.skip(i as int)) == sizes(sv),
        decreases v.len() - i,
    {
        proof {
            assert(sv.skip(i as int)[0] == sv[i as int]);
            assert(sv.skip(i as int).drop_first() =~= sv.skip(i + 1));
            assert(decreases_to!(*v => v@));
        }
        let k = statement_size(&v[i]);
        total = total + k;
        i = i + 1;
    }
    assert(sv.skip(i as int).len() == 0);
    total
}

fn push_repeat(out: &mut Vec<usize>, x: usize, count: usize)
    ensures
        nat_view(final(out)@) == nat_view(old(out)@) + Seq::new(count as nat, |k: int| x as nat),
{
    let ghost o0 = nat_view(out@);
    let mut j: usize = 0;
    while j < count
        invariant
            j <= count,
            nat_view(out@) == o0 + Seq::new(j as nat, |k: int| x as nat),
        decreases count - j,
    {
        let ghost before = out@;
        out.push(x);
        proof {
            lemma_nat_view_push(before, x);
            assert(o0 + Seq::new((j + 1) as nat, |k: int| x as nat) =~= o0 + Seq::new(
                j as nat,
                |k: int| x as nat,
            ) + seq![x as nat]);
        }
        j = j + 1;
    }
}

/// Appends the blocks of a statement sequence, whose first statement
/// falls into block `nb0` or later; returns the number of blocks after it.
#[verifier::rlimit(40)]
fn block_map_go(stmts: &Vec<Statement>, nb0: usize, out: &mut Vec<usize>) -> (end: usize)
    requires
        nb0 + 1 + 4 * sizes(stmts_view(stmts@)) <= usize::MAX,
    ensures
        nat_view(final(out)@) == nat_view(old(out)@) + bmap_go(stmts_view(stmts@), 0, nb0 as nat, false).0,
        end == bmap_go(stmts_view(stmts@), 0, nb0 as nat, false).1,
    decreases stmts, 0nat,
{
    let ghost sv = stmts_view(stmts@);
    let ghost o0 = nat_view(out@);
    let ghost total = bmap_go(sv, 0, nb0 as nat, false);
    let mut nb: usize = nb0;
    let mut open = false;
    let mut i: usize = 0;
    proof {
        assert(sv.skip(0) == sv);
        assert(o0 + Seq::<nat>::empty() =~= o0);
    }
    while i < stmts.len()
        invariant
            i <= stmts@.len(),
            sv == stmts_view(stmts@),
            total == bmap_go(sv, 0, nb0 as nat, false),
            nat_view(out@) + bmap_go(sv, i as int, nb as nat, open).0 == o0 + total.0,
            bmap_go(sv, i as int, nb as nat, open).1 == total.1,
            nb + (if open { 1int } else { 0int }) + 1 + 4 * sizes(sv.skip(i as int)) <= nb0 + 1 + 4 * sizes(sv),
            nb0 + 1 + 4 * sizes(sv) <= usize::MAX,
        decreases stmts.len() - i,
    {
        let s = &stmts[i];
        let ghost o1 = nat_view(out@);
        proof {
            assert(sv.skip(i as int)[0] == sv[i as int]);
            assert(sv.skip(i as int).drop_first() =~= sv.skip(i + 1));
            assert(decreases_to!(*stmts => stmts@));
            assert(decreases_to!(stmts@ => stmts@[i as int]));
            assert(sizes(sv.skip(i as int)) == size(sv[i as int]) + sizes(sv.skip(i + 1)));
        }
        let c: usize = if open { nb + 1 } else { nb };
        match s {
            Statement::For { body, .. } => {
                let k = statements_size(body);
                let ghost before = out@;
                out.push(c);
                proof {
                    lemma_nat_view_push(before, c);
                }
                push_repeat(out, c + 1, k);
                proof {
                    let rest = bmap_go(sv, i + 1, (c + 3) as nat, false);
                    assert(Seq::new(k as nat, |j: int| (c + 1) as nat) =~= Seq::new(
                        sizes(stmts_view(body@)),
                        |j: int| (c + 1) as nat,
                    ));
                    assert(nat_view(out@) + rest.0 =~= o1 + (seq![c as nat] + Seq::new(
                        sizes(stmts_view(body@)),
                        |j: int| (c + 1) as nat,
                    ) + rest.0));
                }
                nb = c + 3;
                open = false;
            },
            Statement::If { then_branch, else_branch, .. } => {
                let ghost before = out@;
                out.push(c);
                proof {
                    lemma_nat_view_push(before, c);
                    lemma_bmap(stmts_view(then_branch@), 0, (c + 1) as nat, false);
                    assert(stmts_view(then_branch@).skip(0) =~= stmts_view(then_branch@));
                }
                let ghost o2 = nat_view(out@);
                let t_end = block_map_go(then_branch, c + 1, out);
                let ghost o3 = nat_view(out@);
                let mut e_end = t_end;
                match else_branch {
                    Some(e) => {
                        proof {
                            lemma_bmap(stmts_view(e@), 0, t_end as nat, false);
                            assert(stmts_view(e@).skip(0) =~= stmts_view(e@));
                        }
                        e_end = block_map_go(e, t_end, out);
                    },
                    None => {
                        assert(o3 + Seq::<nat>::empty() =~= o3);
                    },
                }
                proof {
                    let t = bmap_go(stmts_view(then_branch@), 0, (c + 1) as nat, false);
                    let e = match stmt_else(sv[i as int]) {
                        Some(eb) => bmap_go(eb, 0, t.1, false),
                        None => (Seq::<nat>::empty(), t.1),
                    };
                    let rest = bmap_go(sv, i + 1, e.1, false);
                    assert(nat_view(out@) + rest.0 =~= o1 + (seq![c as nat] + t.0 + e.0 + rest.0));
                }
                nb = e_end;
                open = false;
            },
            Statement::Perform { .. } | Statement::PerformUntil { .. } | Statement::PerformVarying {
                ..
            } | Statement::Call { .. } | Statement::StopRun => {
                let k = statement_size(s);
                push_repeat(out, nb, k);
                proof {
                    let rest = bmap_go(sv, i + 1, (nb + 1) as nat, false);
                    assert(nat_view(out@) + rest.0 =~= o1 + (Seq::new(size(sv[i as int]), |j: int| nb as nat) + rest.0));
                }
                nb = nb + 1;
                open = false;
            },
            _ => {
                let ghost before = out@;
                out.push(nb);
                proof {
                    lemma_nat_view_push(before, nb);
                    let rest = bmap_go(sv, i + 1, nb as nat, true);
                    assert(nat_view(out@) + rest.0 =~= o1 + (seq![nb as nat] + rest.0));
                }
                open = true;
            },
        }
        i = i + 1;
    }
    proof {
        assert(nat_view(out@) + Seq::<nat>::empty() =~= nat_view(out@));
    }
    if open {
        nb + 1
    } else {
        nb
    }
}

pub open spec fn stmt_else(s: StatementV) -> Option<Seq<StatementV>> {
    match s {
        StatementV::If { else_branch, .. } => else_branch,
        _ => None,
    }
}

/// The block of every statement of a program, in the pre-order numbering
/// of its statements.
pub fn statement_blocks(program: &Program) -> (r: Vec<usize>)
    requires
        1 + 4 * sizes(stmts_view(program.statements@)) <= usize::MAX,
    ensures
        nat_view(r@) == block_map(stmts_view(program.statements@)),
{
    let mut out: Vec<usize> = Vec::new();
    let _ = block_map_go(&program.statements, 0, &mut out);
    assert(nat_view(Seq::<usize>::empty()) =~= Seq::<nat>::empty());
    assert(Seq::<nat>::empty() + block_map(stmts_view(program.statements@)) =~= block_map(stmts_view(program.statements@)));
    out
}


// ---------------------------------------------------------------------
// Iterated dominance frontiers
// ---------------------------------------------------------------------

/// Block `x` holds one of the definitions `ds` (statement numbers, mapped
/// to blocks by `bm`) and is a block of the graph.
pub open spec fn start_block(bm: Seq<nat>, ds: Seq<usize>, n: nat, x: int) -> bool {
    0 <= x < n && exists|j: int|
        0 <= j < ds.len() && ds[j] < bm.len() && #[trigger] bm[ds[j] as int] == x
}

/// Block `x` is reached from the definition blocks in at most `k` steps
/// along dominance-frontier edges.
pub open spec fn df_reach(df: Seq<Seq<usize>>, bm: Seq<nat>, ds: Seq<usize>, x: int, k: nat) -> bool
    decreases k,
{
    if k == 0 {
        start_block(bm, ds, df.len(), x)
    } else {
        df_reach(df, bm, ds, x, (k - 1) as nat) || (0 <= x < df.len() && exists|z: int|
            0 <= z < df.len() && df_reach(df, bm, ds, z, (k - 1) as nat) && #[trigger] df[z].contains(
                x as usize,
            ))
    }
}

/// The iterated dominance frontier closure of the definition blocks.
pub open spec fn df_reaches(df: Seq<Seq<usize>>, bm: Seq<nat>, ds: Seq<usize>, x: int) -> bool {
    exists|k: nat| #[trigger] df_reach(df, bm, ds, x, k)
}

/// Block `y` needs a phi node for a variable defined at the statements
/// `ds`: the variable is defined more than once and `y` is in the
/// dominance frontier of a block of the closure.
pub open spec fn phi_block(df: Seq<Seq<usize>>, bm: Seq<nat>, ds: Seq<usize>, y: int) -> bool {
    &&& ds.len() >= 2
    &&& 0 <= y < df.len()
    &&& exists|z: int|
        0 <= z < df.len() && df_reaches(df, bm, ds, z) && #[trigger] df[z].contains(y as usize)
}

pub open spec fn count_false(v: Seq<bool>) -> nat
    decreases v.len(),
{
    if v.len() == 0 {
        0
    } else {
        count_false(v.drop_last()) + if v.last() { 0nat } else { 1nat }
    }
}

proof fn lemma_count_false_set(v: Seq<bool>, j: int)
    requires
        0 <= j < v.len(),
        !v[j],
    ensures
        count_false(v.update(j, true)) + 1 == count_false(v),
    decreases v.len(),
{
    if j < v.len() - 1 {
        assert(v.update(j, true).drop_last() =~= v.drop_last().update(j, true));
        lemma_count_false_set(v.drop_last(), j);
    } else {
        assert(v.update(j, true).drop_last() =~= v.drop_last());
    }
}

proof fn lemma_reach_in_range(df: Seq<Seq<usize>>, bm: Seq<nat>, ds: Seq<usize>, x: int, k: nat)
    requires
        df_reach(df, bm, ds, x, k),
    ensures
        0 <= x < df.len(),
    decreases k,
{
    if k > 0 && df_reach(df, bm, ds, x, (k - 1) as nat) {
        lemma_reach_in_range(df, bm, ds, x, (k - 1) as nat);
    }
}

proof fn lemma_reach_mono(df: Seq<Seq<usize>>, bm: Seq<nat>, ds: Seq<usize>, x: int, k: nat, k2: nat)
    requires
        df_reach(df, bm, ds, x, k),
        k <= k2,
    ensures
        df_reach(df, bm, ds, x, k2),
    decreases k2,
{
    if k < k2 {
        lemma_reach_mono(df, bm, ds, x, k, (k2 - 1) as nat);
    }
}

/// A set of blocks that holds the definition blocks and is closed under
/// dominance-frontier edges holds the whole closure.
proof fn lemma_closed_holds_reach(
    df: Seq<Seq<usize>>,
    bm: Seq<nat>,
    ds: Seq<usize>,
    vis: Seq<bool>,
    x: int,
    k: nat,
)
    requires
        vis.len() == df.len(),
        df.len() <= usize::MAX,
        forall|y: int| start_block(bm, ds, df.len(), y) ==> #[trigger] vis[y],
        forall|z: int, m: int|
            0 <= z < df.len() && vis[z] && 0 <= m < df[z].len() && df[z][m] < df.len()
                ==> #[trigger] vis[df[z][m] as int],
        df_reach(df, bm, ds, x, k),
    ensures
        0 <= x < df.len() && vis[x],
    decreases k,
{
    if k == 0 {
        assert(start_block(bm, ds, df.len(), x));
        assert(vis[x]);
    } else if df_reach(df, bm, ds, x, (k - 1) as nat) {
        lemma_closed_holds_reach(df, bm, ds, vis, x, (k - 1) as nat);
    } else {
        let z = choose|z: int|
            0 <= z < df.len() && df_reach(df, bm, ds, z, (k - 1) as nat) && #[trigger] df[z].contains(
                x as usize,
            );
        lemma_closed_holds_reach(df, bm, ds, vis, z, (k - 1) as nat);
        assert(0 <= x < df.len());
        let m = choose|m: int| 0 <= m < df[z].len() && df[z][m] == x as usize;
        assert(df[z][m] as int == x);
        assert(vis[df[z][m] as int]);
    }
}

fn falses(n: usize) -> (r: Vec<bool>)
    ensures
        r@ == Seq::new(n as nat, |i: int| false),
{
    let mut v: Vec<bool> = Vec::new();
    let mut i: usize = 0;
    while i < n
        invariant
            i <= n,
            v@ == Seq::new(i as nat, |k: int| false),
        decreases n - i,
    {
        v.push(false);
        i = i + 1;
    }
    v
}

pub open spec fn frontiers(cfg: &ControlFlowGraph) -> Seq<Seq<usize>> {
    crate::cfg::frontier_model(cfg)
}

/// The blocks of the graph that need a phi node for a variable defined at
/// the statements `ds`, where statement `j` lies in block `bm[j]`: the
/// dominance frontiers of the closure of the definition blocks under
/// dominance-frontier edges.
fn iterated_frontier(cfg: &ControlFlowGraph, bm: &Vec<usize>, ds: &Vec<usize>) -> (r: Vec<bool>)
    ensures
        r@.len() == cfg.blocks@.len(),
        forall|y: int|
            0 <= y < r@.len() ==> (#[trigger] r@[y] <==> exists|z: int|
                0 <= z < cfg.blocks@.len() && df_reaches(frontiers(cfg), nat_view(bm@), ds@, z)
                    && #[trigger] frontiers(cfg)[z].contains(y as usize)),
{
    let n = cfg.blocks.len();
    let ghost df = frontiers(cfg);
    let ghost bmv = nat_view(bm@);
    let mut vis = falses(n);
    // the definition blocks
    let mut j: usize = 0;
    while j < ds.len()
        invariant
            n == cfg.blocks@.len(),
            df == frontiers(cfg),
            df.len() == n,
            bmv == nat_view(bm@),
            j <= ds@.len(),
            vis@.len() == n,
            forall|x: int| 0 <= x < n && #[trigger] vis@[x] ==> start_block(bmv, ds@, n as nat, x),
            forall|jj: int|
                0 <= jj < j && ds@[jj] < bm@.len() && bm@[ds@[jj] as int] < n ==> #[trigger] vis@[bm@[ds@[jj] as int] as int],
        decreases ds.len() - j,
    {
        let d = ds[j];
        if d < bm.len() && bm[d] < n {
            let b = bm[d];
            proof {
                assert(bmv[ds@[j as int] as int] == b);
                assert(start_block(bmv, ds@, n as nat, b as int));
            }
            vis.set(b, true);
        }
        j = j + 1;
    }
    proof {
        assert forall|y: int| start_block(bmv, ds@, df.len(), y) implies #[trigger] vis@[y] by {
            let jj = choose|jj: int| 0 <= jj < ds@.len() && ds@[jj] < bmv.len() && #[trigger] bmv[ds@[jj] as int] == y;
            assert(vis@[bm@[ds@[jj] as int] as int]);
        }
        assert forall|x: int| 0 <= x < n && #[trigger] vis@[x] implies df_reaches(df, bmv, ds@, x) by {
            assert(df_reach(df, bmv, ds@, x, 0));
        }
    }
    // the closure under frontier edges: every visited block is eventually
    // done, that is, its frontier is visited too
    let mut done = falses(n);
    let mut searching = true;
    while searching
        invariant
            n == cfg.blocks@.len(),
            df == frontiers(cfg),
            df.len() == n,
            vis@.len() == n,
            done@.len() == n,
            forall|y: int| start_block(bmv, ds@, df.len(), y) ==> #[trigger] vis@[y],
            forall|x: int| 0 <= x < n && #[trigger] vis@[x] ==> df_reaches(df, bmv, ds@, x),
            forall|x: int| 0 <= x < n && #[trigger] done@[x] ==> vis@[x],
            forall|z: int, m: int|
                0 <= z < n && done@[z] && 0 <= m < df[z].len() && df[z][m] < n
                    ==> #[trigger] vis@[df[z][m] as int],
            !searching ==> forall|x: int| 0 <= x < n && #[trigger] vis@[x] ==> done@[x],
        decreases count_false(done@) + if searching { 1nat } else { 0nat },
    {
        let mut z: usize = 0;
        while z < n && !(vis[z] && !done[z])
            invariant
                z <= n,
                vis@.len() == n,
                done@.len() == n,
                forall|x: int| 0 <= x < z ==> !(#[trigger] vis@[x] && !done@[x]),
            decreases n - z,
        {
            z = z + 1;
        }
        if z == n {
            searching = false;
        } else {
            proof {
                lemma_count_false_set(done@, z as int);
            }
            done.set(z, true);
            let ghost measure = count_false(done@);
            let frontier = &cfg.blocks[z].dominance_frontier;
            assert(frontier@ == df[z as int]);
            let mut m: usize = 0;
            while m < frontier.len()
                invariant
                    n == cfg.blocks@.len(),
                    df == frontiers(cfg),
                    df.len() == n,
                    z < n,
                    vis@[z as int],
                    done@[z as int],
                    frontier@ == df[z as int],
                    m <= frontier@.len(),
                    vis@.len() == n,
                    done@.len() == n,
                    count_false(done@) == measure,
                    forall|y: int| start_block(bmv, ds@, df.len(), y) ==> #[trigger] vis@[y],
                    forall|x: int| 0 <= x < n && #[trigger] vis@[x] ==> df_reaches(df, bmv, ds@, x),
                    forall|x: int| 0 <= x < n && #[trigger] done@[x] ==> vis@[x],
                    forall|zz: int, mm: int|
                        0 <= zz < n && zz != z && done@[zz] && 0 <= mm < df[zz].len() && df[zz][mm] < n
                            ==> #[trigger] vis@[df[zz][mm] as int],
                    forall|mm: int| 0 <= mm < m && df[z as int][mm] < n ==> #[trigger] vis@[df[z as int][mm] as int],
                decreases frontier.len() - m,
            {
                let y = frontier[m];
                if y < n {
                    proof {
                        let k = choose|k: nat| #[trigger] df_reach(df, bmv, ds@, z as int, k);
                        assert(df[z as int][m as int] == y);
                        assert(df[z as int].contains((y as int) as usize));
                        assert(0 <= z < df.len() && df_reach(df, bmv, ds@, z as int, k));
                        assert(df_reach(df, bmv, ds@, y as int, k + 1));
                    }
                    vis.set(y, true);
                }
                m = m + 1;
            }
        }
    }
    proof {
        assert forall|z: int, m: int|
            0 <= z < df.len() && vis@[z] && 0 <= m < df[z].len() && df[z][m] < df.len()
                implies #[trigger] vis@[df[z][m] as int] by {
            assert(done@[z]);
        }
    }
    // the frontiers of the closure
    let mut cand = falses(n);
    let mut x: usize = 0;
    while x < n
        invariant
            n == cfg.blocks@.len(),
            df == frontiers(cfg),
            df.len() == n,
            x <= n,
            vis@.len() == n,
            cand@.len() == n,
            forall|y: int|
                0 <= y < n ==> (#[trigger] cand@[y] <==> exists|zz: int|
                    0 <= zz < x && vis@[zz] && #[trigger] df[zz].contains(y as usize)),
        decreases n - x,
    {
        if vis[x] {
            let frontier = &cfg.blocks[x].dominance_frontier;
            assert(frontier@ == df[x as int]);
            let mut m: usize = 0;
            while m < frontier.len()
                invariant
                    n == cfg.blocks@.len(),
                    df == frontiers(cfg),
                    df.len() == n,
                    x < n,
                    vis@[x as int],
                    frontier@ == df[x as int],
                    m <= frontier@.len(),
                    cand@.len() == n,
                    forall|y: int|
                        0 <= y < n ==> (#[trigger] cand@[y] <==> (exists|zz: int|
                            0 <= zz < x && vis@[zz] && #[trigger] df[zz].contains(y as usize))
                            || exists|mm: int| 0 <= mm < m && df[x as int][mm] == y),
                decreases frontier.len() - m,
            {
                let y = frontier[m];
                if y < n {
                    cand.set(y, true);
                }
                m = m + 1;
            }
            proof {
                assert forall|y: int| 0 <= y < n implies (#[trigger] cand@[y] <==> exists|zz: int|
                    0 <= zz < x + 1 && vis@[zz] && #[trigger] df[zz].contains(y as usize)) by {
                    if exists|mm: int| 0 <= mm < frontier@.len() && df[x as int][mm] == y {
                        let mm = choose|mm: int| 0 <= mm < frontier@.len() && df[x as int][mm] == y;
                        assert(df[x as int].contains(y as usize));
                    }
                    if df[x as int].contains(y as usize) {
                        let mm = choose|mm: int| 0 <= mm < df[x as int].len() && df[x as int][mm] == y as usize;
                        assert(df[x as int][mm] == y);
                    }
                }
            }
        } else {
            proof {
                assert forall|y: int| 0 <= y < n implies (#[trigger] cand@[y] <==> exists|zz: int|
                    0 <= zz < x + 1 && vis@[zz] && #[trigger] df[zz].contains(y as usize)) by {
                    if exists|zz: int| 0 <= zz < x + 1 && vis@[zz] && #[trigger] df[zz].contains(y as usize) {
                        let zz = choose|zz: int| 0 <= zz < x + 1 && vis@[zz] && #[trigger] df[zz].contains(y as usize);
                        assert(zz != x);
                    }
                }
            }
        }
        x = x + 1;
    }
    proof {
        assert forall|y: int| 0 <= y < n implies (#[trigger] cand@[y] <==> exists|z: int|
            0 <= z < n && df_reaches(df, bmv, ds@, z) && #[trigger] df[z].contains(y as usize)) by {
            if exists|z: int| 0 <= z < n && df_reaches(df, bmv, ds@, z) && #[trigger] df[z].contains(y as usize) {
                let z = choose|z: int| 0 <= z < n && df_reaches(df, bmv, ds@, z) && #[trigger] df[z].contains(y as usize);
                let k = choose|k: nat| #[trigger] df_reach(df, bmv, ds@, z, k);
                lemma_closed_holds_reach(df, bmv, ds@, vis@, z, k);
            }
        }
    }
    cand
}


// ---------------------------------------------------------------------
// Phi candidates
// ---------------------------------------------------------------------

/// Lexicographic order of names, by character code.
pub open spec fn lex_lt(a: Seq<char>, b: Seq<char>) -> bool
    decreases a.len(),
{
    if a.len() == 0 {
        b.len() > 0
    } else if b.len() == 0 {
        false
    } else if a[0] < b[0] {
        true
    } else if a[0] == b[0] {
        lex_lt(a.drop_first(), b.drop_first())
    } else {
        false
    }
}

pub proof fn lemma_lex_irreflexive(a: Seq<char>)
    ensures
        !lex_lt(a, a),
    decreases a.len(),
{
    if a.len() > 0 {
        lemma_lex_irreflexive(a.drop_first());
    }
}

pub proof fn lemma_lex_transitive(a: Seq<char>, b: Seq<char>, c: Seq<char>)
    requires
        lex_lt(a, b),
        lex_lt(b, c),
    ensures
        lex_lt(a, c),
    decreases a.len(),
{
    if a.len() > 0 && b.len() > 0 && c.len() > 0 && a[0] == b[0] && b[0] == c[0] {
        lemma_lex_transitive(a.drop_first(), b.drop_first(), c.drop_first());
    }
}

pub proof fn lemma_lex_total(a: Seq<char>, b: Seq<char>)
    requires
        a != b,
    ensures
        lex_lt(a, b) || lex_lt(b, a),
    decreases a.len(),
{
    if a.len() > 0 && b.len() > 0 && a[0] == b[0] {
        if a.drop_first() == b.drop_first() {
            assert(a =~= seq![a[0]] + a.drop_first());
            assert(b =~= seq![b[0]] + b.drop_first());
        }
        lemma_lex_total(a.drop_first(), b.drop_first());
    } else if a.len() > 0 && b.len() > 0 {
    } else if a.len() == 0 && b.len() == 0 {
        assert(a =~= b);
    }
}

/// Compares two names lexicographically.
pub fn chars_less(a: &Vec<char>, b: &Vec<char>) -> (r: bool)
    ensures
        r == lex_lt(a@, b@),
{
    let mut i: usize = 0;
    assert(a@.skip(0) =~= a@ && b@.skip(0) =~= b@);
    while i < a.len() && i < b.len() && a[i] == b[i]
        invariant
            i <= a@.len(),
            i <= b@.len(),
            lex_lt(a@, b@) == lex_lt(a@.skip(i as int), b@.skip(i as int)),
        decreases a.len() - i,
    {
        proof {
            assert(a@.skip(i as int).drop_first() =~= a@.skip(i + 1));
            assert(b@.skip(i as int).drop_first() =~= b@.skip(i + 1));
        }
        i = i + 1;
    }
    if i == a.len() {
        i < b.len()
    } else if i == b.len() {
        false
    } else {
        a[i] < b[i]
    }
}

/// A variable that needs a phi node at the start of a block.
#[derive(Debug, Clone)]
pub struct PhiCandidate {
    pub variable: String,
    pub block: usize,
}

pub open spec fn cand_view(c: PhiCandidate) -> (Seq<char>, usize) {
    (c.variable@, c.block)
}

pub open spec fn cands_view(s: Seq<PhiCandidate>) -> Seq<(Seq<char>, usize)> {
    Seq::new(s.len(), |i: int| cand_view(s[i]))
}

/// Candidates are ordered by variable name, then by block.
pub open spec fn cand_lt(a: (Seq<char>, usize), b: (Seq<char>, usize)) -> bool {
    lex_lt(a.0, b.0) || (a.0 == b.0 && a.1 < b.1)
}

pub open spec fn cands_sorted(s: Seq<(Seq<char>, usize)>) -> bool {
    forall|i: int, j: int| 0 <= i < j < s.len() ==> cand_lt(#[trigger] s[i], #[trigger] s[j])
}

proof fn lemma_cand_transitive(a: (Seq<char>, usize), b: (Seq<char>, usize), c: (Seq<char>, usize))
    requires
        cand_lt(a, b),
        cand_lt(b, c),
    ensures
        cand_lt(a, c),
{
    if lex_lt(a.0, b.0) && lex_lt(b.0, c.0) {
        lemma_lex_transitive(a.0, b.0, c.0);
    }
}

proof fn lemma_cand_total(a: (Seq<char>, usize), b: (Seq<char>, usize))
    requires
        a != b,
    ensures
        cand_lt(a, b) || cand_lt(b, a),
{
    if a.0 != b.0 {
        lemma_lex_total(a.0, b.0);
    }
}

fn cand_less(a: &PhiCandidate, b: &PhiCandidate) -> (r: bool)
    ensures
        r == cand_lt(cand_view(*a), cand_view(*b)),
{
    let ac = crate::text::chars_of_string(&a.variable);
    let bc = crate::text::chars_of_string(&b.variable);
    if chars_less(&ac, &bc) {
        true
    } else if crate::text::chars_eq(ac.as_slice(), bc.as_slice()) {
        proof {
            if a.variable@ == b.variable@ {
                lemma_lex_irreflexive(a.variable@);
            }
        }
        a.block < b.block
    } else {
        false
    }
}

/// Adds a candidate to a sorted list, keeping it sorted; a candidate that
/// is already there is not added twice.
fn insert_sorted(r: &mut Vec<PhiCandidate>, c: PhiCandidate)
    requires
        cands_sorted(cands_view(old(r)@)),
    ensures
        cands_sorted(cands_view(final(r)@)),
        forall|x: (Seq<char>, usize)|
            cands_view(final(r)@).contains(x) <==> (cands_view(old(r)@).contains(x) || x == cand_view(c)),
{
    let ghost cv = cand_view(c);
    let ghost old_v = cands_view(r@);
    let mut p: usize = 0;
    let mut stop = false;
    while !stop && p < r.len()
        invariant
            p <= r@.len(),
            old_v == cands_view(r@),
            cv == cand_view(c),
            forall|q: int| 0 <= q < p ==> cand_lt(#[trigger] old_v[q], cv),
            stop ==> p < r@.len() && !cand_lt(old_v[p as int], cv),
        decreases r.len() - p + if stop { 0int } else { 1int },
    {
        assert(old_v[p as int] == cand_view(r@[p as int]));
        let less = cand_less(&r[p], &c);
        assert(less == cand_lt(cand_view(r@[p as int]), cand_view(c)));
        if less {
            p = p + 1;
        } else {
            stop = true;
        }
    }
    if p < r.len() && !cand_less(&c, &r[p]) {
        proof {
            assert(!cand_lt(old_v[p as int], cv) && !cand_lt(cv, old_v[p as int]));
            if old_v[p as int] != cv {
                lemma_cand_total(old_v[p as int], cv);
            }
            assert(old_v[p as int] == cv);
            assert forall|x: (Seq<char>, usize)|
                cands_view(r@).contains(x) <==> (old_v.contains(x) || x == cv) by {
                if x == cv {
                    assert(cands_view(r@)[p as int] == x);
                }
            }
        }
        return;
    }
    proof {
        if p < r@.len() {
            assert forall|q: int| p <= q < old_v.len() implies cand_lt(cv, #[trigger] old_v[q]) by {
                if q > p {
                    assert(cand_lt(old_v[p as int], old_v[q]));
                    lemma_cand_transitive(cv, old_v[p as int], old_v[q]);
                }
            }
        }
    }
    r.insert(p, c);
    proof {
        let nv = cands_view(r@);
        assert(nv =~= old_v.insert(p as int, cv));
        assert forall|i: int, j: int| 0 <= i < j < nv.len() implies cand_lt(#[trigger] nv[i], #[trigger] nv[j]) by {
            if j < p {
                assert(cand_lt(old_v[i], old_v[j]));
            } else if j == p {
            } else if i < p {
                assert(nv[j] == old_v[j - 1]);
                assert(cand_lt(cv, old_v[j - 1]));
                lemma_cand_transitive(old_v[i], cv, old_v[j - 1]);
            } else if i == p {
                assert(nv[j] == old_v[j - 1]);
            } else {
                assert(cand_lt(old_v[i - 1], old_v[j - 1]));
            }
        }
        assert forall|x: (Seq<char>, usize)| nv.contains(x) <==> (old_v.contains(x) || x == cv) by {
            if nv.contains(x) {
                let i = choose|i: int| 0 <= i < nv.len() && nv[i] == x;
                if i < p {
                    assert(old_v[i] == x);
                } else if i > p {
                    assert(old_v[i - 1] == x);
                }
            }
            if old_v.contains(x) {
                let i = choose|i: int| 0 <= i < old_v.len() && old_v[i] == x;
                if i < p {
                    assert(nv[i] == x);
                } else {
                    assert(nv[i + 1] == x);
                }
            }
            if x == cv {
                assert(nv[p as int] == x);
            }
        }
    }
}


/// For every name, the numbers of the statements that define it, in the
/// order `build_use_def_chains` records them.
pub open spec fn def_chains(sv: Seq<StatementV>) -> Seq<(Seq<char>, Seq<usize>)> {
    record_events(Seq::empty(), seq_events(sv, 0, true))
}

/// `x` names a variable of the chains `dc` and a block where it needs a
/// phi node.
pub open spec fn is_phi_cand(
    df: Seq<Seq<usize>>,
    bm: Seq<nat>,
    dc: Seq<(Seq<char>, Seq<usize>)>,
    x: (Seq<char>, usize),
) -> bool {
    exists|q: int| 0 <= q < dc.len() && #[trigger] dc[q].0 == x.0 && phi_block(df, bm, dc[q].1, x.1 as int)
}

spec fn cand_done(
    df: Seq<Seq<usize>>,
    bm: Seq<nat>,
    dc: Seq<(Seq<char>, Seq<usize>)>,
    x: (Seq<char>, usize),
    q: int,
    y: int,
) -> bool {
    exists|qq: int|
        0 <= qq < dc.len() && #[trigger] dc[qq].0 == x.0 && phi_block(df, bm, dc[qq].1, x.1 as int) && (qq
            < q || (qq == q && x.1 < y))
}

/// The variables that need phi nodes and the blocks where they need them:
/// for every variable defined more than once, the dominance frontiers of
/// the closure of its definition blocks under dominance-frontier edges.
/// Sorted by variable name, then by block.
pub fn find_phi_candidates(program: &Program, cfg: &ControlFlowGraph) -> (r: Vec<PhiCandidate>)
    requires
        1 + 4 * sizes(stmts_view(program.statements@)) <= usize::MAX,
    ensures
        cands_sorted(cands_view(r@)),
        forall|x: (Seq<char>, usize)|
            #[trigger] cands_view(r@).contains(x) <==> is_phi_cand(
                frontiers(cfg),
                block_map(stmts_view(program.statements@)),
                def_chains(stmts_view(program.statements@)),
                x,
            ),
{
    let ghost sv = stmts_view(program.statements@);
    let ghost df = frontiers(cfg);
    let ghost bmv = block_map(sv);
    let ghost dc = def_chains(sv);
    let chains = build_use_def_chains(program);
    let bm = statement_blocks(program);
    let n = cfg.blocks.len();
    let mut r: Vec<PhiCandidate> = Vec::new();
    let mut q: usize = 0;
    assert(chain_view(chains.defs.entries()) == dc);
    while q < chains.defs.len()
        invariant
            q <= dc.len(),
            n == cfg.blocks@.len(),
            df == frontiers(cfg),
            df.len() == n,
            nat_view(bm@) == bmv,
            chain_view(chains.defs.entries()) == dc,
            dc.len() == chains.defs.entries().len(),
            cands_sorted(cands_view(r@)),
            forall|x: (Seq<char>, usize)|
                #[trigger] cands_view(r@).contains(x) <==> cand_done(df, bmv, dc, x, q as int, 0),
        decreases dc.len() - q,
    {
        let (name, ds) = chains.defs.entry_at(q);
        assert(dc[q as int] == (name@, ds@));
        if ds.len() >= 2 {
            let fr = iterated_frontier(cfg, &bm, ds);
            let mut y: usize = 0;
            while y < n
                invariant
                    q < dc.len(),
                    y <= n,
                    n == cfg.blocks@.len(),
                    df == frontiers(cfg),
                    df.len() == n,
                    nat_view(bm@) == bmv,
                    dc[q as int] == (name@, ds@),
                    ds@.len() >= 2,
                    fr@.len() == n,
                    forall|yy: int|
                        0 <= yy < n ==> (#[trigger] fr@[yy] <==> exists|z: int|
                            0 <= z < n && df_reaches(df, bmv, ds@, z) && #[trigger] df[z].contains(
                                yy as usize,
                            )),
                    cands_sorted(cands_view(r@)),
                    forall|x: (Seq<char>, usize)|
                        #[trigger] cands_view(r@).contains(x) <==> cand_done(df, bmv, dc, x, q as int, y as int),
                decreases n - y,
            {
                let ghost before = cands_view(r@);
                if fr[y] {
                    let c = PhiCandidate { variable: name.clone(), block: y };
                    insert_sorted(&mut r, c);
                    proof {
                        assert forall|x: (Seq<char>, usize)|
                            #[trigger] cands_view(r@).contains(x) <==> cand_done(df, bmv, dc, x, q as int, y + 1) by {
                            if x == (name@, y) {
                                assert(phi_block(df, bmv, dc[q as int].1, y as int));
                                assert(dc[q as int].0 == x.0);
                            }
                            if cand_done(df, bmv, dc, x, q as int, y + 1) && !before.contains(x) {
                                let qq = choose|qq: int|
                                    0 <= qq < dc.len() && #[trigger] dc[qq].0 == x.0 && phi_block(df, bmv, dc[qq].1, x.1 as int) && (qq
                                        < q || (qq == q && x.1 < y + 1));
                                assert(!cand_done(df, bmv, dc, x, q as int, y as int));
                                assert(qq == q && x.1 == y);
                            }
                        }
                    }
                } else {
                    proof {
                        assert forall|x: (Seq<char>, usize)|
                            #[trigger] cands_view(r@).contains(x) <==> cand_done(df, bmv, dc, x, q as int, y + 1) by {
                            if cand_done(df, bmv, dc, x, q as int, y + 1) {
                                let qq = choose|qq: int|
                                    0 <= qq < dc.len() && #[trigger] dc[qq].0 == x.0 && phi_block(df, bmv, dc[qq].1, x.1 as int) && (qq
                                        < q || (qq == q && x.1 < y + 1));
                                if qq == q && x.1 == y {
                                    assert(!fr@[y as int]);
                                    assert(!phi_block(df, bmv, dc[q as int].1, y as int));
                                }
                                assert(cand_done(df, bmv, dc, x, q as int, y as int));
                            }
                        }
                    }
                }
                y = y + 1;
            }
            proof {
                assert forall|x: (Seq<char>, usize)|
                    #[trigger] cands_view(r@).contains(x) <==> cand_done(df, bmv, dc, x, q + 1, 0) by {
                    if cand_done(df, bmv, dc, x, q + 1, 0) {
                        let qq = choose|qq: int|
                            0 <= qq < dc.len() && #[trigger] dc[qq].0 == x.0 && phi_block(df, bmv, dc[qq].1, x.1 as int) && (qq
                                < q + 1);
                        assert(x.1 < n);
                        assert(cand_done(df, bmv, dc, x, q as int, n as int));
                    }
                    if cand_done(df, bmv, dc, x, q as int, n as int) {
                        let qq = choose|qq: int|
                            0 <= qq < dc.len() && #[trigger] dc[qq].0 == x.0 && phi_block(df, bmv, dc[qq].1, x.1 as int) && (qq
                                < q || (qq == q && x.1 < n));
                        assert(cand_done(df, bmv, dc, x, q + 1, 0));
                    }
                }
            }
        } else {
            proof {
                assert forall|x: (Seq<char>, usize)|
                    #[trigger] cands_view(r@).contains(x) <==> cand_done(df, bmv, dc, x, q + 1, 0) by {
                    if cand_done(df, bmv, dc, x, q + 1, 0) {
                        let qq = choose|qq: int|
                            0 <= qq < dc.len() && #[trigger] dc[qq].0 == x.0 && phi_block(df, bmv, dc[qq].1, x.1 as int) && (qq
                                < q + 1);
                        assert(qq != q);
                        assert(cand_done(df, bmv, dc, x, q as int, 0));
                    }
                    if cand_done(df, bmv, dc, x, q as int, 0) {
                        let qq = choose|qq: int|
                            0 <= qq < dc.len() && #[trigger] dc[qq].0 == x.0 && phi_block(df, bmv, dc[qq].1, x.1 as int) && (qq
                                < q || (qq == q && x.1 < 0));
                        assert(cand_done(df, bmv, dc, x, q + 1, 0));
                    }
                }
            }
        }
        q = q + 1;
    }
    proof {
        assert forall|x: (Seq<char>, usize)|
            #[trigger] cands_view(r@).contains(x) <==> is_phi_cand(df, bmv, dc, x) by {
            if is_phi_cand(df, bmv, dc, x) {
                let qq = choose|qq: int| 0 <= qq < dc.len() && #[trigger] dc[qq].0 == x.0 && phi_block(df, bmv, dc[qq].1, x.1 as int);
                assert(cand_done(df, bmv, dc, x, q as int, 0));
            }
        }
    }
    r
}


// ---------------------------------------------------------------------
// Phi insertion
// ---------------------------------------------------------------------

pub proof fn lemma_sizes_append(a: Seq<StatementV>, b: Seq<StatementV>)
    ensures
        sizes(a + b) == sizes(a) + sizes(b),
    decreases a.len(),
{
    if a.len() == 0 {
        assert(a + b =~= b);
    } else {
        assert((a + b).drop_first() =~= a.drop_first() + b);
        lemma_sizes_append(a.drop_first(), b);
    }
}

pub(crate) proof fn lemma_sizes_take(sv: Seq<StatementV>, i: int)
    requires
        0 <= i < sv.len(),
    ensures
        sizes(sv.take(i + 1)) == sizes(sv.take(i)) + size(sv[i]),
        sizes(sv.take(i)) + size(sv[i]) <= sizes(sv),
        size(sv[i]) >= 1,
{
    assert(sv.take(i + 1) =~= sv.take(i) + seq![sv[i]]);
    lemma_sizes_append(sv.take(i), seq![sv[i]]);
    assert(seq![sv[i]].drop_first() =~= Seq::<StatementV>::empty());
    assert(sizes(Seq::<StatementV>::empty()) == 0);
    assert(sizes(seq![sv[i]]) == size(sv[i]));
    assert(sv =~= sv.take(i + 1) + sv.skip(i + 1));
    lemma_sizes_append(sv.take(i + 1), sv.skip(i + 1));
}

/// The block of the `i`-th top-level statement.
pub open spec fn top_block(sv: Seq<StatementV>, i: int) -> nat {
    block_map(sv)[sizes(sv.take(i)) as int]
}

/// The `i`-th top-level statement is the first top-level statement of its
/// block.
pub open spec fn first_of_block(sv: Seq<StatementV>, i: int) -> bool {
    forall|k: int| 0 <= k < i ==> #[trigger] top_block(sv, k) != top_block(sv, i)
}

/// The number of blocks with an edge to block `b`.
pub open spec fn pred_count(succ: Seq<Seq<usize>>, b: nat) -> nat
    decreases succ.len(),
{
    if succ.len() == 0 {
        0
    } else {
        pred_count(succ.drop_last(), b) + if succ.last().contains(b as usize) {
            1nat
        } else {
            0nat
        }
    }
}

/// Variable `v` gets a phi node before the `i`-th top-level statement: that
/// statement opens a block with at least two predecessors and `v` needs a
/// phi node there.
pub open spec fn wants_phi(program: Program, cfg: &ControlFlowGraph, i: int, v: Seq<char>) -> bool {
    let sv = stmts_view(program.statements@);
    let b = top_block(sv, i);
    &&& first_of_block(sv, i)
    &&& pred_count(crate::cfg::succ_model(cfg), b) >= 2
    &&& b <= usize::MAX
    &&& is_phi_cand(frontiers(cfg), block_map(sv), def_chains(sv), (v, b as usize))
}

pub open spec fn names_sorted(g: Seq<Seq<char>>) -> bool {
    forall|a: int, b: int| 0 <= a < b < g.len() ==> lex_lt(#[trigger] g[a], #[trigger] g[b])
}

pub open spec fn phi_stmts(g: Seq<Seq<char>>) -> Seq<StatementV> {
    Seq::new(g.len(), |k: int| StatementV::Phi { variable: g[k], incoming: Seq::empty() })
}

/// Two sorted name lists with the same members are the same list.
proof fn lemma_sorted_unique(a: Seq<Seq<char>>, b: Seq<Seq<char>>)
    requires
        names_sorted(a),
        names_sorted(b),
        forall|v: Seq<char>| #![trigger a.contains(v)] #![trigger b.contains(v)] a.contains(v) <==> b.contains(v),
    ensures
        a == b,
    decreases a.len() + b.len(),
{
    if a.len() == 0 {
        if b.len() > 0 {
            assert(b.contains(b[0]));
        }
        assert(a =~= b);
    } else if b.len() == 0 {
        assert(a.contains(a[0]));
    } else {
        assert(a.contains(a[0]));
        assert(b.contains(b[0]));
        if a[0] != b[0] {
            let k = choose|k: int| 0 <= k < b.len() && b[k] == a[0];
            let j = choose|j: int| 0 <= j < a.len() && a[j] == b[0];
            assert(lex_lt(b[0], b[k]));
            assert(lex_lt(a[0], a[j]));
            lemma_lex_transitive(a[0], b[0], a[0]);
            lemma_lex_irreflexive(a[0]);
        }
        let a1 = a.drop_first();
        let b1 = b.drop_first();
        assert forall|v: Seq<char>| #![trigger a1.contains(v)] #![trigger b1.contains(v)] a1.contains(v) <==> b1.contains(v) by {
            if a1.contains(v) {
                let j = choose|j: int| 0 <= j < a1.len() && a1[j] == v;
                assert(a[j + 1] == v);
                assert(lex_lt(a[0], v));
                lemma_lex_irreflexive(v);
                assert(b.contains(v));
                let k = choose|k: int| 0 <= k < b.len() && b[k] == v;
                assert(k != 0);
                assert(b1[k - 1] == v);
            }
            if b1.contains(v) {
                let j = choose|j: int| 0 <= j < b1.len() && b1[j] == v;
                assert(b[j + 1] == v);
                assert(lex_lt(b[0], v));
                lemma_lex_irreflexive(v);
                assert(a.contains(v));
                let k = choose|k: int| 0 <= k < a.len() && a[k] == v;
                assert(k != 0);
                assert(a1[k - 1] == v);
            }
        }
        lemma_sorted_unique(a1, b1);
        assert(a =~= seq![a[0]] + a1);
        assert(b =~= seq![b[0]] + b1);
    }
}

/// Phi placement is deterministic: the program and its CFG fix the sorted
/// group of phi nodes before every statement, so `insert_phi_nodes` has
/// one possible result.
pub proof fn law_phi_placement_unique(
    program: Program,
    cfg: &ControlFlowGraph,
    g1: Seq<Seq<Seq<char>>>,
    g2: Seq<Seq<Seq<char>>>,
)
    requires
        phi_placement(program, cfg, g1),
        phi_placement(program, cfg, g2),
    ensures
        g1 == g2,
{
    assert forall|i: int| 0 <= i < g1.len() implies g1[i] == g2[i] by {
        assert forall|v: Seq<char>| #![trigger g1[i].contains(v)] #![trigger g2[i].contains(v)] g1[i].contains(v) <==> g2[i].contains(v) by {
            assert(g1[i].contains(v) <==> wants_phi(program, cfg, i, v));
            assert(g2[i].contains(v) <==> wants_phi(program, cfg, i, v));
        }
        lemma_sorted_unique(g1[i], g2[i]);
    }
    assert(g1 =~= g2);
}

/// The statements with the phi nodes of `groups[i]` placed before the
/// `i`-th one.
pub open spec fn with_phis(sv: Seq<StatementV>, groups: Seq<Seq<Seq<char>>>) -> Seq<StatementV>
    decreases sv.len(),
{
    if sv.len() == 0 || groups.len() == 0 {
        Seq::empty()
    } else {
        with_phis(sv.drop_last(), groups.drop_last()) + phi_stmts(groups.last()) + seq![sv.last()]
    }
}

/// For each top-level position of `with_phis(sv.take(n), groups)`, the
/// block it lies in: the phi nodes placed before a statement lie in that
/// statement's block.
pub open spec fn phi_blocks(sv: Seq<StatementV>, groups: Seq<Seq<Seq<char>>>, n: int) -> Seq<nat>
    decreases n,
{
    if n <= 0 {
        Seq::empty()
    } else {
        phi_blocks(sv, groups, n - 1) + Seq::new(groups[n - 1].len() + 1, |k: int| top_block(sv, n - 1))
    }
}

/// The block of every pre-order position of `with_phis(sv.take(n),
/// groups)`: the phi nodes placed before a statement lie in that
/// statement's block, and each statement, with the statements nested in
/// it, lies where `block_map` puts it.
pub open spec fn phi_slots(sv: Seq<StatementV>, groups: Seq<Seq<Seq<char>>>, n: int) -> Seq<nat>
    decreases n,
{
    if n <= 0 {
        Seq::empty()
    } else {
        phi_slots(sv, groups, n - 1) + Seq::new(groups[n - 1].len(), |k: int| top_block(sv, n - 1))
            + block_map(sv).subrange(sizes(sv.take(n - 1)) as int, sizes(sv.take(n)) as int)
    }
}

proof fn lemma_phi_slots_prefix(sv: Seq<StatementV>, groups: Seq<Seq<Seq<char>>>, g: Seq<Seq<char>>, n: int)
    requires
        0 <= n <= groups.len(),
    ensures
        phi_slots(sv, groups.push(g), n) == phi_slots(sv, groups, n),
    decreases n,
{
    if n > 0 {
        lemma_phi_slots_prefix(sv, groups, g, n - 1);
        assert(groups.push(g)[n - 1] == groups[n - 1]);
    }
}

/// `slots` gives, at the pre-order position of each top-level statement
/// of `out`, the block that `blocks` gives that statement.
pub open spec fn slots_match(slots: Seq<nat>, out: Seq<StatementV>, blocks: Seq<nat>) -> bool {
    &&& slots.len() == sizes(out)
    &&& blocks.len() == out.len()
    &&& forall|m: int| 0 <= m < out.len() ==> slots[sizes(#[trigger] out.take(m)) as int] == blocks[m]
}

proof fn lemma_phi_blocks_prefix(sv: Seq<StatementV>, groups: Seq<Seq<Seq<char>>>, g: Seq<Seq<char>>, n: int)
    requires
        0 <= n <= groups.len(),
    ensures
        phi_blocks(sv, groups.push(g), n) == phi_blocks(sv, groups, n),
    decreases n,
{
    if n > 0 {
        lemma_phi_blocks_prefix(sv, groups, g, n - 1);
        assert(groups.push(g)[n - 1] == groups[n - 1]);
    }
}

proof fn lemma_size_pos(x: StatementV)
    ensures
        size(x) >= 1,
{
}

proof fn lemma_sizes_single(x: StatementV)
    ensures
        sizes(seq![x]) == size(x),
{
    assert(seq![x].drop_first() =~= Seq::<StatementV>::empty());
    assert(sizes(Seq::<StatementV>::empty()) == 0);
}

proof fn lemma_sizes_phis(g: Seq<Seq<char>>)
    ensures
        sizes(phi_stmts(g)) == g.len(),
    decreases g.len(),
{
    if g.len() > 0 {
        lemma_sizes_phis(g.drop_last());
        assert(phi_stmts(g) =~= phi_stmts(g.drop_last()) + seq![phi_stmts(g).last()]);
        lemma_sizes_append(phi_stmts(g.drop_last()), seq![phi_stmts(g).last()]);
        lemma_sizes_single(phi_stmts(g).last());
    }
}

/// Placing a group of phi nodes and then a statement keeps the slots in
/// step with the blocks.
proof fn lemma_slots_step(
    out0: Seq<StatementV>,
    slots0: Seq<nat>,
    blocks0: Seq<nat>,
    g: Seq<Seq<char>>,
    c: StatementV,
    b: nat,
    chunk: Seq<nat>,
)
    requires
        slots_match(slots0, out0, blocks0),
        chunk.len() == size(c),
        chunk[0] == b,
    ensures
        slots_match(
            slots0 + Seq::new(g.len(), |k: int| b) + chunk,
            out0 + phi_stmts(g) + seq![c],
            blocks0 + Seq::new(g.len() + 1, |k: int| b),
        ),
{
    let out1 = out0 + phi_stmts(g);
    let out2 = out1 + seq![c];
    let slots2 = slots0 + Seq::new(g.len(), |k: int| b) + chunk;
    let blocks2 = blocks0 + Seq::new(g.len() + 1, |k: int| b);
    lemma_sizes_phis(g);
    lemma_sizes_append(out0, phi_stmts(g));
    lemma_sizes_append(out1, seq![c]);
    lemma_sizes_single(c);
    lemma_size_pos(c);
    assert forall|m: int| 0 <= m < out2.len() implies slots2[sizes(#[trigger] out2.take(m)) as int] == blocks2[m] by {
        if m < out0.len() {
            assert(out2.take(m) =~= out0.take(m));
            lemma_sizes_take(out0, m);
            assert(out0.take(m) + out0.skip(m) =~= out0);
            lemma_sizes_append(out0.take(m), out0.skip(m));
            assert(out0.skip(m)[0] == out0[m]);
            assert(out0.skip(m) =~= seq![out0[m]] + out0.skip(m + 1));
            lemma_sizes_append(seq![out0[m]], out0.skip(m + 1));
            lemma_sizes_single(out0[m]);
            lemma_size_pos(out0[m]);
            assert(slots0[sizes(out0.take(m)) as int] == blocks0[m]);
        } else {
            let t = m - out0.len();
            assert(out2.take(m) =~= out0 + phi_stmts(g.take(t))) by {
                assert forall|q: int| 0 <= q < m implies out2.take(m)[q] == (out0 + phi_stmts(g.take(t)))[q] by {
                    if q >= out0.len() {
                        assert(phi_stmts(g)[q - out0.len()] == phi_stmts(g.take(t))[q - out0.len()]);
                    }
                }
            }
            lemma_sizes_phis(g.take(t));
            lemma_sizes_append(out0, phi_stmts(g.take(t)));
        }
    }
}

fn pred_count_exec(cfg: &ControlFlowGraph, b: usize) -> (r: usize)
    ensures
        r == pred_count(crate::cfg::succ_model(cfg), b as nat),
{
    let ghost succ = crate::cfg::succ_model(cfg);
    let mut count: usize = 0;
    let mut p: usize = 0;
    while p < cfg.blocks.len()
        invariant
            p <= cfg.blocks@.len(),
            succ == crate::cfg::succ_model(cfg),
            count == pred_count(succ.take(p as int), b as nat),
            count <= p,
        decreases cfg.blocks.len() - p,
    {
        assert(succ.take(p + 1).drop_last() =~= succ.take(p as int));
        assert(succ.take(p + 1).last() == cfg.blocks@[p as int].successors@);
        if crate::cfg::contains_usize(&cfg.blocks[p].successors, b) {
            count = count + 1;
        }
        p = p + 1;
    }
    assert(succ.take(p as int) =~= succ);
    count
}

/// The names of the candidates at block `b`, in the candidates' order.
fn names_at(cands: &Vec<PhiCandidate>, b: usize) -> (g: Vec<String>)
    requires
        cands_sorted(cands_view(cands@)),
    ensures
        names_sorted(crate::names::names_view(g@)),
        forall|v: Seq<char>|
            crate::names::names_view(g@).contains(v) <==> cands_view(cands@).contains((v, b)),
{
    let ghost cv = cands_view(cands@);
    let mut g: Vec<String> = Vec::new();
    let ghost mut idx: Seq<int> = Seq::empty();
    let mut k: usize = 0;
    while k < cands.len()
        invariant
            k <= cands@.len(),
            cv == cands_view(cands@),
            cands_sorted(cv),
            idx.len() == g@.len(),
            forall|a: int| 0 <= a < idx.len() ==> 0 <= #[trigger] idx[a] < k,
            forall|a: int, c: int| 0 <= a < c < idx.len() ==> #[trigger] idx[a] < #[trigger] idx[c],
            forall|a: int| 0 <= a < idx.len() ==> #[trigger] cv[idx[a]] == (g@[a]@, b),
            forall|j: int| 0 <= j < k && cv[j].1 == b ==> exists|a: int| 0 <= a < idx.len() && #[trigger] idx[a] == j,
        decreases cands.len() - k,
    {
        if cands[k].block == b {
            let name = cands[k].variable.clone();
            let ghost idx0 = idx;
            proof {
                idx = idx.push(k as int);
            }
            g.push(name);
            proof {
                assert forall|j: int| 0 <= j < k + 1 && cv[j].1 == b implies exists|a: int| 0 <= a < idx.len() && #[trigger] idx[a] == j by {
                    if j == k {
                        assert(idx[idx.len() - 1] == j);
                    } else {
                        let a = choose|a: int| 0 <= a < idx0.len() && #[trigger] idx0[a] == j;
                        assert(idx[a] == j);
                    }
                }
            }
        } else {
            proof {
                assert forall|j: int| 0 <= j < k + 1 && cv[j].1 == b implies exists|a: int| 0 <= a < idx.len() && #[trigger] idx[a] == j by {
                    assert(j != k);
                }
            }
        }
        k = k + 1;
    }
    proof {
        let gv = crate::names::names_view(g@);
        assert forall|a: int, c: int| 0 <= a < c < gv.len() implies lex_lt(#[trigger] gv[a], #[trigger] gv[c]) by {
            assert(cand_lt(cv[idx[a]], cv[idx[c]]));
            lemma_lex_irreflexive(gv[a]);
        }
        assert forall|v: Seq<char>| gv.contains(v) <==> cv.contains((v, b)) by {
            if gv.contains(v) {
                let a = choose|a: int| 0 <= a < gv.len() && gv[a] == v;
                assert(cv[idx[a]] == (v, b));
            }
            if cv.contains((v, b)) {
                let j = choose|j: int| 0 <= j < cv.len() && cv[j] == (v, b);
                let a = choose|a: int| 0 <= a < idx.len() && #[trigger] idx[a] == j;
                assert(gv[a] == v);
            }
        }
    }
    g
}

fn push_phis(out: &mut Vec<Statement>, g: &Vec<String>)
    ensures
        stmts_view(final(out)@) == stmts_view(old(out)@) + phi_stmts(crate::names::names_view(g@)),
{
    let ghost o0 = stmts_view(out@);
    let mut k: usize = 0;
    while k < g.len()
        invariant
            k <= g@.len(),
            stmts_view(out@) == o0 + phi_stmts(crate::names::names_view(g@).take(k as int)),
        decreases g.len() - k,
    {
        let ghost before = out@;
        out.push(Statement::Phi { variable: g[k].clone(), incoming: Vec::new() });
        proof {
            crate::ir::lemma_stmts_view_push(before, out@.last());
            incoming_view_empty();
            assert(phi_stmts(crate::names::names_view(g@).take(k + 1)) =~= phi_stmts(
                crate::names::names_view(g@).take(k as int),
            ).push(StatementV::Phi { variable: g@[k as int]@, incoming: Seq::empty() }));
        }
        k = k + 1;
    }
    assert(crate::names::names_view(g@).take(k as int) =~= crate::names::names_view(g@));
}

proof fn incoming_view_empty()
    ensures
        crate::ir::incoming_view(Seq::<(usize, String)>::empty()) == Seq::<(usize, Seq<char>)>::empty(),
{
    assert(crate::ir::incoming_view(Seq::<(usize, String)>::empty()) =~= Seq::<(usize, Seq<char>)>::empty());
}

/// `groups[i]` lists, sorted by name, the variables that get a phi node
/// before the `i`-th top-level statement.
pub open spec fn phi_placement(program: Program, cfg: &ControlFlowGraph, groups: Seq<Seq<Seq<char>>>) -> bool {
    &&& groups.len() == program.statements@.len()
    &&& forall|i: int| 0 <= i < groups.len() ==> #[trigger] names_sorted(groups[i])
    &&& forall|i: int, v: Seq<char>|
        0 <= i < groups.len() ==> (#[trigger] groups[i].contains(v) <==> wants_phi(program, cfg, i, v))
}

/// The program with phi nodes: before each top-level statement that opens
/// a block with two or more predecessors come, sorted by name, the phi
/// nodes of the variables that need one there; nothing else changes.
pub fn insert_phi_nodes(program: &Program, cfg: &ControlFlowGraph) -> (r: Program)
    requires
        1 + 4 * sizes(stmts_view(program.statements@)) <= usize::MAX,
    ensures
        r@.variables == program@.variables,
        r@.paragraphs == program@.paragraphs,
        exists|groups: Seq<Seq<Seq<char>>>|
            #[trigger] phi_placement(*program, cfg, groups) && r@.statements == with_phis(
                program@.statements,
                groups,
            ),
{
    let (r, _) = place_phis(program, cfg);
    r
}

/// Places the phi nodes and gives the block of every statement of the
/// result, in pre-order: a phi node lies in the block it opens.
pub(crate) fn place_phis(program: &Program, cfg: &ControlFlowGraph) -> (r: (Program, Vec<usize>))
    requires
        1 + 4 * sizes(stmts_view(program.statements@)) <= usize::MAX,
    ensures
        r.0@.variables == program@.variables,
        r.0@.paragraphs == program@.paragraphs,
        exists|groups: Seq<Seq<Seq<char>>>|
            #[trigger] phi_placement(*program, cfg, groups) && r.0@.statements == with_phis(
                program@.statements,
                groups,
            ) && slots_match(
                nat_view(r.1@),
                r.0@.statements,
                phi_blocks(program@.statements, groups, program@.statements.len() as int),
            ) && nat_view(r.1@) == phi_slots(program@.statements, groups, program@.statements.len() as int),
{
    let ghost sv = stmts_view(program.statements@);
    let cands = find_phi_candidates(program, cfg);
    let bm = statement_blocks(program);
    let mut out: Vec<Statement> = Vec::new();
    let mut slots: Vec<usize> = Vec::new();
    let mut tops: Vec<usize> = Vec::new();
    let ghost mut groups: Seq<Seq<Seq<char>>> = Seq::empty();
    let mut pre: usize = 0;
    let mut i: usize = 0;
    proof {
        lemma_bmap(sv, 0, 0, false);
        assert(sv.skip(0) =~= sv);
        assert(sv.take(0) =~= Seq::<StatementV>::empty());
        assert(stmts_view(out@) =~= with_phis(sv.take(0), groups));
        assert(nat_view(slots@) =~= Seq::<nat>::empty());
        assert(sizes(Seq::<StatementV>::empty()) == 0);
        assert(phi_slots(sv, groups, 0) == Seq::<nat>::empty());
    }
    while i < program.statements.len()
        invariant
            i <= sv.len(),
            sv == stmts_view(program.statements@),
            1 + 4 * sizes(sv) <= usize::MAX,
            nat_view(bm@) == block_map(sv),
            block_map(sv).len() == sizes(sv),
            cands_sorted(cands_view(cands@)),
            forall|x: (Seq<char>, usize)|
                #[trigger] cands_view(cands@).contains(x) <==> is_phi_cand(
                    frontiers(cfg),
                    block_map(sv),
                    def_chains(sv),
                    x,
                ),
            pre == sizes(sv.take(i as int)),
            tops@.len() == i,
            forall|k: int| 0 <= k < i ==> #[trigger] tops@[k] == top_block(sv, k),
            groups.len() == i,
            stmts_view(out@) == with_phis(sv.take(i as int), groups),
            forall|k: int| 0 <= k < i ==> #[trigger] names_sorted(groups[k]),
            forall|k: int, v: Seq<char>|
                0 <= k < i ==> (#[trigger] groups[k].contains(v) <==> wants_phi(*program, cfg, k, v)),
            slots_match(nat_view(slots@), stmts_view(out@), phi_blocks(sv, groups, i as int)),
            nat_view(slots@) == phi_slots(sv, groups, i as int),
        decreases program.statements.len() - i,
    {
        proof {
            lemma_sizes_take(sv, i as int);
        }
        let b = bm[pre];
        let mut first = true;
        let mut k: usize = 0;
        while k < tops.len()
            invariant
                k <= tops@.len(),
                first <==> forall|kk: int| 0 <= kk < k ==> #[trigger] tops@[kk] != b,
            decreases tops.len() - k,
        {
            if tops[k] == b {
                first = false;
            }
            k = k + 1;
        }
        proof {
                assert(nat_view(bm@)[pre as int] == bm@[pre as int] as nat);
            assert(b as nat == top_block(sv, i as int));
            assert(first_of_block(sv, i as int) == first) by {
                if !first {
                    let kk = choose|kk: int| 0 <= kk < i && #[trigger] tops@[kk] == b;
                    assert(top_block(sv, kk) == top_block(sv, i as int));
                }
                if !first_of_block(sv, i as int) {
                    let kk = choose|kk: int| 0 <= kk < i && #[trigger] top_block(sv, kk) == top_block(sv, i as int);
                    assert(tops@[kk] == b);
                }
            }
        }
        let ghost g_view: Seq<Seq<char>>;
        let ghost o1 = out@;
        let ghost s1 = nat_view(slots@);
        if first && pred_count_exec(cfg, b) >= 2 {
            let g = names_at(&cands, b);
            push_phis(&mut out, &g);
            push_repeat(&mut slots, b, g.len());
            proof {
                g_view = crate::names::names_view(g@);
                assert(g_view.len() == g.len());
            }
        } else {
            proof {
                g_view = Seq::empty();
                assert(stmts_view(out@) =~= stmts_view(o1) + phi_stmts(g_view));
                assert(nat_view(slots@) =~= s1 + Seq::new(g_view.len(), |k: int| b as nat));
            }
        }
        let ghost s2 = nat_view(slots@);
        let c = crate::ir::clone_statement(&program.statements[i]);
        let ghost o2 = out@;
        out.push(c);
        tops.push(b);
        proof {
            crate::ir::lemma_stmts_view_push(o2, c);
            let ng = groups.push(g_view);
            assert(sv.take(i + 1).drop_last() =~= sv.take(i as int));
            assert(ng.drop_last() =~= groups);
            assert(stmts_view(out@) =~= with_phis(sv.take(i + 1), ng));
            assert forall|v: Seq<char>| #[trigger] g_view.contains(v) <==> wants_phi(*program, cfg, i as int, v) by {
                if wants_phi(*program, cfg, i as int, v) {
                    assert(cands_view(cands@).contains((v, b)));
                }
            }
            groups = ng;
        }
        let sz = statement_size(&program.statements[i]);
        let bl = bm.len();
        let mut j: usize = 0;
        while j < sz
            invariant
                j <= sz,
                bl == bm@.len(),
                pre + sz <= bl,
                nat_view(slots@) == s2 + nat_view(bm@).subrange(pre as int, pre + j),
            decreases sz - j,
        {
            let ghost before = slots@;
            slots.push(bm[pre + j]);
            proof {
                lemma_nat_view_push(before, bm@[pre + j]);
                assert(nat_view(bm@).subrange(pre as int, pre + j + 1) =~= nat_view(bm@).subrange(pre as int, pre + j).push(bm@[pre + j] as nat));
            }
            j = j + 1;
        }
        proof {
            let chunk = nat_view(bm@).subrange(pre as int, pre + sz);
            lemma_sizes_take(sv, i as int);
            assert(c@ == sv[i as int]);
            assert(chunk[0] == block_map(sv)[pre as int]);
            lemma_slots_step(stmts_view(o1), s1, phi_blocks(sv, groups.drop_last(), i as int), g_view, sv[i as int], b as nat, chunk);
            lemma_phi_blocks_prefix(sv, groups.drop_last(), g_view, i as int);
            assert(groups.drop_last().push(g_view) =~= groups);
            assert(phi_blocks(sv, groups, i + 1) =~= phi_blocks(sv, groups, i as int) + Seq::new(g_view.len() + 1, |k: int| b as nat));
            assert(stmts_view(out@) =~= stmts_view(o1) + phi_stmts(g_view) + seq![sv[i as int]]);
            lemma_phi_slots_prefix(sv, groups.drop_last(), g_view, i as int);
            assert(chunk =~= block_map(sv).subrange(sizes(sv.take(i as int)) as int, sizes(sv.take(i + 1)) as int));
            assert(nat_view(slots@) =~= phi_slots(sv, groups, i + 1));
        }
        pre = pre + sz;
        i = i + 1;
    }
    let mut result = program.clone();
    result.statements = out;
    proof {
        assert(sv.take(i as int) =~= sv);
        assert(result@.statements == with_phis(program@.statements, groups));
        assert(phi_placement(*program, cfg, groups));
    }
    (result, slots)
}


// ---------------------------------------------------------------------
// Version names
// ---------------------------------------------------------------------

proof fn lemma_digit_char(d: int)
    requires
        0 <= d < 10,
    ensures
        is_digit(digit_char(d)),
        digit_char(d) as int == d + 48,
{
}

pub proof fn lemma_nat_text_digits(n: nat)
    ensures
        all_digits(nat_text(n)),
        nat_text(n).len() >= 1,
    decreases n,
{
    if n < 10 {
        lemma_digit_char(n as int);
    } else {
        lemma_nat_text_digits(n / 10);
        lemma_digit_char((n % 10) as int);
        let t = nat_text(n);
        assert forall|i: int| 0 <= i < t.len() implies #[trigger] is_digit(t[i]) by {
            if i < t.len() - 1 {
                assert(t[i] == nat_text(n / 10)[i]);
            }
        }
    }
}

pub proof fn lemma_nat_text_injective(a: nat, b: nat)
    requires
        nat_text(a) == nat_text(b),
    ensures
        a == b,
    decreases a,
{
    let t = nat_text(a);
    if a < 10 {
        lemma_digit_char(a as int);
        if b >= 10 {
            lemma_nat_text_digits(b / 10);
            assert(nat_text(b).len() >= 2);
        } else {
            lemma_digit_char(b as int);
            assert(nat_text(a)[0] == nat_text(b)[0]);
        }
    } else {
        lemma_nat_text_digits(a / 10);
        lemma_digit_char((a % 10) as int);
        if b < 10 {
            assert(nat_text(a).len() >= 2);
        } else {
            lemma_digit_char((b % 10) as int);
            assert(nat_text(a).last() == digit_char((a % 10) as int));
            assert(nat_text(b).last() == digit_char((b % 10) as int));
            assert(nat_text(a).drop_last() =~= nat_text(a / 10));
            assert(nat_text(b).drop_last() =~= nat_text(b / 10));
            lemma_nat_text_injective(a / 10, b / 10);
            assert(a % 10 == b % 10);
            assert(a == (a / 10) * 10 + a % 10);
            assert(b == (b / 10) * 10 + b % 10);
        }
    }
}

/// Distinct names or versions give distinct version names.
pub proof fn lemma_versioned_injective(a: Seq<char>, k1: nat, b: Seq<char>, k2: nat)
    requires
        versioned(a, k1) == versioned(b, k2),
    ensures
        a == b,
        k1 == k2,
{
    let s = versioned(a, k1);
    let t1 = nat_text(k1);
    let t2 = nat_text(k2);
    lemma_nat_text_digits(k1);
    lemma_nat_text_digits(k2);
    let len = s.len() as int;
    if t1.len() < t2.len() {
        let j = len - 1 - t1.len();
        assert(s[j] == '_');
        assert(versioned(b, k2)[j] == t2[j - (len - t2.len())]);
        assert(is_digit(t2[j - (len - t2.len())]));
    } else if t2.len() < t1.len() {
        let j = len - 1 - t2.len();
        assert(versioned(b, k2)[j] == '_');
        assert(s[j] == t1[j - (len - t1.len())]);
        assert(is_digit(t1[j - (len - t1.len())]));
    } else {
        assert(a =~= s.take(a.len() as int));
        assert(b =~= versioned(b, k2).take(b.len() as int));
        assert(t1 =~= s.skip(a.len() as int + 1));
        assert(t2 =~= versioned(b, k2).skip(b.len() as int + 1));
        lemma_nat_text_injective(k1, k2);
    }
}

/// Position of the last occurrence of `c`.
pub open spec fn last_index(s: Seq<char>, c: char) -> Option<int>
    decreases s.len(),
{
    if s.len() == 0 {
        None
    } else if s.last() == c {
        Some(s.len() - 1)
    } else {
        last_index(s.drop_last(), c)
    }
}

/// The name without a version suffix: what precedes the last underscore
/// when one or more digits, and nothing else, follow it.
pub open spec fn base_name(name: Seq<char>) -> Seq<char> {
    match last_index(name, '_') {
        Some(p) => if p + 1 < name.len() && all_digits(name.skip(p + 1)) {
            name.take(p)
        } else {
            name
        },
        None => name,
    }
}

proof fn lemma_last_index(s: Seq<char>, c: char, i: int)
    requires
        0 <= i <= s.len(),
        forall|k: int| i <= k < s.len() ==> s[k] != c,
    ensures
        last_index(s, c) == last_index(s.take(i), c),
    decreases s.len() - i,
{
    if i < s.len() {
        assert(s.take(i + 1).drop_last() =~= s.take(i));
        assert(s.take(i + 1).last() == s[i]);
        lemma_last_index(s, c, i + 1);
    } else {
        assert(s.take(i) =~= s);
    }
}

fn base_name_exec(name: &String) -> (r: String)
    ensures
        r@ == base_name(name@),
{
    let cs = crate::text::chars_of_string(name);
    let mut i: usize = cs.len();
    proof {
        lemma_last_index(cs@, '_', cs@.len() as int);
    }
    while i > 0 && cs[i - 1] != '_'
        invariant
            i <= cs@.len(),
            cs@ == name@,
            last_index(cs@, '_') == last_index(cs@.take(i as int), '_'),
        decreases i,
    {
        proof {
            assert(cs@.take(i as int).drop_last() =~= cs@.take(i - 1));
        }
        i = i - 1;
    }
    if i == 0 {
        assert(cs@.take(0) =~= Seq::<char>::empty());
        return name.clone();
    }
    let p = i - 1;
    proof {
        assert(cs@.take(i as int).last() == '_');
        assert(last_index(cs@, '_') == Some(p as int));
    }
    if p + 1 >= cs.len() {
        return name.clone();
    }
    let mut j: usize = p + 1;
    while j < cs.len()
        invariant
            p + 1 <= j <= cs@.len(),
            cs@ == name@,
            last_index(cs@, '_') == Some(p as int),
            forall|k: int| p + 1 <= k < j ==> #[trigger] is_digit(cs@[k]),
        decreases cs.len() - j,
    {
        if !crate::text::char_is_digit(cs[j]) {
            proof {
                assert(!is_digit(cs@.skip(p + 1)[j - (p + 1)]));
            }
            return name.clone();
        }
        j = j + 1;
    }
    proof {
        assert forall|k: int| 0 <= k < cs@.skip(p + 1).len() implies #[trigger] is_digit(cs@.skip(p + 1)[k]) by {
            assert(cs@.skip(p + 1)[k] == cs@[k + p + 1]);
        }
    }
    let head = crate::text::slice_of(cs.as_slice(), 0, p);
    assert(head@ =~= cs@.take(p as int));
    crate::text::string_of(head.as_slice())
}


// ---------------------------------------------------------------------
// Renaming along the dominator tree
// ---------------------------------------------------------------------

/// The expression with every variable name cut to its base name.
pub open spec fn erase_expr(e: ExpressionV) -> ExpressionV
    decreases e,
{
    match e {
        ExpressionV::Variable(n) => ExpressionV::Variable(base_name(n)),
        ExpressionV::Binary { left, operator, right } => ExpressionV::Binary {
            left: Box::new(erase_expr(*left)),
            operator,
            right: Box::new(erase_expr(*right)),
        },
        _ => e,
    }
}

pub open spec fn erase_cond(c: ConditionV) -> ConditionV {
    ConditionV { left: base_name(c.left), operator: c.operator, right: base_name(c.right) }
}

pub open spec fn erase_source(s: SourceV) -> SourceV {
    match s {
        SourceV::Variable(n) => SourceV::Variable(base_name(n)),
        _ => s,
    }
}

/// The statement with the names that renaming may change cut to their
/// base names (the variables read and defined by the statements that
/// renaming visits), and the incoming values of phi nodes left out.
pub open spec fn erase(s: StatementV) -> StatementV
    decreases s, 1nat,
{
    match s {
        StatementV::Move { source, target } => StatementV::Move {
            source: erase_source(source),
            target: base_name(target),
        },
        StatementV::Compute { target, expr } => StatementV::Compute {
            target: base_name(target),
            expr: erase_expr(expr),
        },
        StatementV::Add { value, target } => StatementV::Add { value, target: base_name(target) },
        StatementV::Subtract { value, target } => StatementV::Subtract { value, target: base_name(target) },
        StatementV::Multiply { value, target } => StatementV::Multiply { value, target: base_name(target) },
        StatementV::Divide { value, target } => StatementV::Divide { value, target: base_name(target) },
        StatementV::Phi { variable, .. } => StatementV::Phi { variable: base_name(variable), incoming: Seq::empty() },
        StatementV::If { condition, then_branch, else_branch } => StatementV::If {
            condition: erase_cond(condition),
            then_branch: erase_all(then_branch),
            else_branch: match else_branch {
                Some(e) => Some(erase_all(e)),
                None => None,
            },
        },
        StatementV::Perform { name, body } => StatementV::Perform { name, body: erase_all(body) },
        StatementV::PerformUntil { condition, body } => StatementV::PerformUntil {
            condition: erase_cond(condition),
            body: erase_all(body),
        },
        StatementV::PerformVarying { variable, from, by, until, body } => StatementV::PerformVarying {
            variable,
            from,
            by,
            until: erase_cond(until),
            body: erase_all(body),
        },
        StatementV::For { variable, start, step, until, body } => StatementV::For {
            variable: base_name(variable),
            start: erase_expr(start),
            step: erase_expr(step),
            until: erase_cond(until),
            body: erase_all(body),
        },
        _ => s,
    }
}

pub open spec fn erase_all(s: Seq<StatementV>) -> Seq<StatementV>
    decreases s, 0nat,
{
    if s.len() == 0 {
        Seq::empty()
    } else {
        seq![erase(s[0])] + erase_all(s.drop_first())
    }
}

/// The name a statement itself defines, if renaming versions it.
pub open spec fn own_ssa_def(s: StatementV) -> Seq<Seq<char>> {
    match s {
        StatementV::Phi { variable, .. } => seq![variable],
        StatementV::Move { target, .. } => seq![target],
        StatementV::Compute { target, .. } => seq![target],
        StatementV::Add { target, .. } => seq![target],
        StatementV::Subtract { target, .. } => seq![target],
        StatementV::Multiply { target, .. } => seq![target],
        StatementV::Divide { target, .. } => seq![target],
        StatementV::For { variable, .. } => seq![variable],
        _ => Seq::empty(),
    }
}

/// The names defined by a statement and the statements nested in it, in
/// pre-order.
pub open spec fn stmt_ssa_defs(s: StatementV) -> Seq<Seq<char>>
    decreases s, 1nat,
{
    own_ssa_def(s) + match s {
        StatementV::If { then_branch, else_branch, .. } => ssa_defs(then_branch) + match else_branch {
            Some(e) => ssa_defs(e),
            None => Seq::empty(),
        },
        StatementV::Perform { body, .. } => ssa_defs(body),
        StatementV::PerformUntil { body, .. } => ssa_defs(body),
        StatementV::PerformVarying { body, .. } => ssa_defs(body),
        StatementV::For { body, .. } => ssa_defs(body),
        _ => Seq::empty(),
    }
}

pub open spec fn ssa_defs(s: Seq<StatementV>) -> Seq<Seq<char>>
    decreases s, 0nat,
{
    if s.len() == 0 {
        Seq::empty()
    } else {
        stmt_ssa_defs(s[0]) + ssa_defs(s.drop_first())
    }
}

pub proof fn lemma_ssa_defs_append(a: Seq<StatementV>, b: Seq<StatementV>)
    ensures
        ssa_defs(a + b) == ssa_defs(a) + ssa_defs(b),
        erase_all(a + b) == erase_all(a) + erase_all(b),
    decreases a.len(),
{
    if a.len() == 0 {
        assert(a + b =~= b);
        assert(ssa_defs(a) + ssa_defs(b) =~= ssa_defs(b));
        assert(erase_all(a) + erase_all(b) =~= erase_all(b));
    } else {
        assert((a + b).drop_first() =~= a.drop_first() + b);
        lemma_ssa_defs_append(a.drop_first(), b);
        assert(ssa_defs(a + b) =~= ssa_defs(a) + ssa_defs(b));
        assert(erase_all(a + b) =~= erase_all(a) + erase_all(b));
    }
}

proof fn lemma_single(x: StatementV)
    ensures
        ssa_defs(seq![x]) == stmt_ssa_defs(x),
        erase_all(seq![x]) == seq![erase(x)],
        sizes(seq![x]) == size(x),
{
    assert(seq![x].drop_first() =~= Seq::<StatementV>::empty());
    assert(ssa_defs(Seq::<StatementV>::empty()) == Seq::<Seq<char>>::empty());
    assert(erase_all(Seq::<StatementV>::empty()) == Seq::<StatementV>::empty());
    assert(sizes(Seq::<StatementV>::empty()) == 0);
    assert(stmt_ssa_defs(x) + Seq::<Seq<char>>::empty() =~= stmt_ssa_defs(x));
    assert(seq![erase(x)] + Seq::<StatementV>::empty() =~= seq![erase(x)]);
}

/// The names an expression reads, left to right.
pub open spec fn expr_uses(e: ExpressionV) -> Seq<Seq<char>>
    decreases e,
{
    match e {
        ExpressionV::Variable(n) => seq![n],
        ExpressionV::Binary { left, right, .. } => expr_uses(*left) + expr_uses(*right),
        _ => Seq::empty(),
    }
}

pub open spec fn cond_uses(c: ConditionV) -> Seq<Seq<char>> {
    seq![c.left, c.right]
}

pub open spec fn source_uses(s: SourceV) -> Seq<Seq<char>> {
    match s {
        SourceV::Variable(n) => seq![n],
        _ => Seq::empty(),
    }
}

/// The names a statement and the statements nested in it read where
/// renaming rewrites them, in pre-order.
pub open spec fn stmt_uses(s: StatementV) -> Seq<Seq<char>>
    decreases s, 1nat,
{
    match s {
        StatementV::Move { source, .. } => source_uses(source),
        StatementV::Compute { expr, .. } => expr_uses(expr),
        StatementV::If { condition, then_branch, else_branch } => cond_uses(condition) + uses_all(then_branch)
            + match else_branch {
            Some(e) => uses_all(e),
            None => Seq::empty(),
        },
        StatementV::Perform { body, .. } => uses_all(body),
        StatementV::PerformUntil { condition, body } => cond_uses(condition) + uses_all(body),
        StatementV::PerformVarying { until, body, .. } => cond_uses(until) + uses_all(body),
        StatementV::For { start, step, until, body, .. } => expr_uses(start) + expr_uses(step) + cond_uses(until)
            + uses_all(body),
        _ => Seq::empty(),
    }
}

pub open spec fn uses_all(s: Seq<StatementV>) -> Seq<Seq<char>>
    decreases s, 0nat,
{
    if s.len() == 0 {
        Seq::empty()
    } else {
        stmt_uses(s[0]) + uses_all(s.drop_first())
    }
}

/// Each name read in `out` is the one read at the same place in `src`,
/// or one of the names `defs`.
pub open spec fn uses_resolved(src: Seq<Seq<char>>, out: Seq<Seq<char>>, defs: Seq<Seq<char>>) -> bool {
    &&& out.len() == src.len()
    &&& forall|k: int| 0 <= k < out.len() ==> #[trigger] out[k] == src[k] || defs.contains(out[k])
}

proof fn lemma_resolved_concat(
    a1: Seq<Seq<char>>,
    b1: Seq<Seq<char>>,
    a2: Seq<Seq<char>>,
    b2: Seq<Seq<char>>,
    d: Seq<Seq<char>>,
)
    requires
        uses_resolved(a1, b1, d),
        uses_resolved(a2, b2, d),
    ensures
        uses_resolved(a1 + a2, b1 + b2, d),
{
    assert forall|k: int| 0 <= k < (b1 + b2).len() implies #[trigger] (b1 + b2)[k] == (a1 + a2)[k] || d.contains((b1 + b2)[k]) by {
        if k < b1.len() {
            assert(b1[k] == a1[k] || d.contains(b1[k]));
        } else {
            assert(b2[k - b1.len()] == a2[k - b1.len()] || d.contains(b2[k - b1.len()]));
        }
    }
}

proof fn lemma_resolved_grow(a: Seq<Seq<char>>, b: Seq<Seq<char>>, d1: Seq<Seq<char>>, d2: Seq<Seq<char>>)
    requires
        uses_resolved(a, b, d1),
        forall|x: Seq<char>| d1.contains(x) ==> #[trigger] d2.contains(x),
    ensures
        uses_resolved(a, b, d2),
{
    assert forall|k: int| 0 <= k < b.len() implies #[trigger] b[k] == a[k] || d2.contains(b[k]) by {
        if b[k] != a[k] {
            assert(d1.contains(b[k]));
        }
    }
}

proof fn lemma_uses_append(a: Seq<StatementV>, b: Seq<StatementV>)
    ensures
        uses_all(a + b) == uses_all(a) + uses_all(b),
    decreases a.len(),
{
    if a.len() == 0 {
        assert(a + b =~= b);
        assert(uses_all(a) + uses_all(b) =~= uses_all(b));
    } else {
        assert((a + b).drop_first() =~= a.drop_first() + b);
        lemma_uses_append(a.drop_first(), b);
        assert(uses_all(a + b) =~= uses_all(a) + uses_all(b));
    }
}

proof fn lemma_uses_single(x: StatementV)
    ensures
        uses_all(seq![x]) == stmt_uses(x),
{
    assert(seq![x].drop_first() =~= Seq::<StatementV>::empty());
    assert(uses_all(Seq::<StatementV>::empty()) == Seq::<Seq<char>>::empty());
    assert(stmt_uses(x) + Seq::<Seq<char>>::empty() =~= stmt_uses(x));
}

pub proof fn lemma_defs_le_size(s: StatementV)
    ensures
        stmt_ssa_defs(s).len() <= size(s),
    decreases s, 1nat,
{
    match s {
        StatementV::If { then_branch, else_branch, .. } => {
            lemma_defs_le_sizes(then_branch);
            match else_branch {
                Some(e) => lemma_defs_le_sizes(e),
                None => {},
            }
        },
        StatementV::Perform { body, .. } => lemma_defs_le_sizes(body),
        StatementV::PerformUntil { body, .. } => lemma_defs_le_sizes(body),
        StatementV::PerformVarying { body, .. } => lemma_defs_le_sizes(body),
        StatementV::For { body, .. } => lemma_defs_le_sizes(body),
        _ => {},
    }
}

pub proof fn lemma_defs_le_sizes(s: Seq<StatementV>)
    ensures
        ssa_defs(s).len() <= sizes(s),
    decreases s, 0nat,
{
    if s.len() > 0 {
        lemma_defs_le_size(s[0]);
        lemma_defs_le_sizes(s.drop_first());
    }
}

/// The version names handed out, one per (base name, version) pair.
/// The counter gives every base name the number of its versions handed
/// out, and every version is the number handed out before it.
#[verifier::opaque]
spec fn counts_ok(counter: VersionCounter, ps: Seq<(Seq<char>, nat)>) -> bool {
    &&& forall|b: Seq<char>| #[trigger] counter.issued(b) == count_base(ps, b)
    &&& forall|t: int| 0 <= t < ps.len() ==> (#[trigger] ps[t]).1 == count_base(ps.take(t), ps[t].0)
}

/// How many of the pairs are for base name `b`.
pub open spec fn count_base(ps: Seq<(Seq<char>, nat)>, b: Seq<char>) -> nat
    decreases ps.len(),
{
    if ps.len() == 0 {
        0
    } else {
        count_base(ps.drop_last(), b) + if ps.last().0 == b { 1nat } else { 0nat }
    }
}

/// How many of the names have base name `b`.
pub open spec fn count_bases(ds: Seq<Seq<char>>, b: Seq<char>) -> nat
    decreases ds.len(),
{
    if ds.len() == 0 {
        0
    } else {
        count_bases(ds.drop_last(), b) + if base_name(ds.last()) == b { 1nat } else { 0nat }
    }
}

/// The version the `k`-th definition gets: how many definitions of the
/// same base name come before it.
pub open spec fn def_version(ds: Seq<Seq<char>>, k: int) -> nat {
    count_bases(ds.take(k), base_name(ds[k]))
}

proof fn lemma_count_pairs(ps: Seq<(Seq<char>, nat)>, ds: Seq<Seq<char>>, n: int, b: Seq<char>)
    requires
        0 <= n <= ps.len(),
        n <= ds.len(),
        forall|i: int| 0 <= i < n ==> #[trigger] ps[i].0 == base_name(ds[i]),
    ensures
        count_base(ps.take(n), b) == count_bases(ds.take(n), b),
    decreases n,
{
    if n > 0 {
        lemma_count_pairs(ps, ds, n - 1, b);
        assert(ps.take(n).drop_last() =~= ps.take(n - 1));
        assert(ds.take(n).drop_last() =~= ds.take(n - 1));
    }
}

pub open spec fn pair_names(ps: Seq<(Seq<char>, nat)>) -> Seq<Seq<char>> {
    Seq::new(ps.len(), |k: int| versioned(ps[k].0, ps[k].1))
}

/// The state of renaming: a version counter per base name, the names
/// current in the block being renamed, the names current at the end of
/// every block already renamed, and the versions handed out.
/// Every name a scope holds is a version of the base name it is kept under.
spec fn scope_ok(e: Seq<(String, String)>) -> bool {
    forall|i: int| 0 <= i < e.len() ==> base_name(#[trigger] e[i].1@) == e[i].0@
}

/// Every name a scope holds is one of the names `defs`.
spec fn scope_in(e: Seq<(String, String)>, defs: Seq<Seq<char>>) -> bool {
    forall|i: int| 0 <= i < e.len() ==> defs.contains(#[trigger] e[i].1@)
}

/// The base name of a version of `b` is `b`.
proof fn lemma_base_versioned(b: Seq<char>, n: nat)
    ensures
        base_name(versioned(b, n)) == b,
{
    let s = versioned(b, n);
    let l: int = b.len() as int;
    lemma_nat_text_digits(n);
    let t = nat_text(n);
    assert(s =~= b + seq!['_'] + t);
    assert forall|k: int| l + 1 <= k < s.len() implies s[k] != '_' by {
        assert(s[k] == t[k - l - 1]);
        assert(crate::text::is_digit(t[k - l - 1]));
    }
    lemma_last_index(s, '_', l + 1);
    assert(s.take(l + 1).drop_last() =~= b);
    assert(s.take(l + 1).last() == '_');
    assert(last_index(s.take(l + 1), '_') == Some(l));
    assert(s.skip(l + 1) =~= t);
    assert(s.take(l) =~= b);
}

/// A scope whose names are among `d1` has them among any `d2` that holds
/// `d1`.
proof fn lemma_scope_in_grow(e: Seq<(String, String)>, d1: Seq<Seq<char>>, d2: Seq<Seq<char>>)
    requires
        scope_in(e, d1),
        forall|x: Seq<char>| d1.contains(x) ==> #[trigger] d2.contains(x),
    ensures
        scope_in(e, d2),
{
    assert forall|i: int| 0 <= i < e.len() implies d2.contains(#[trigger] e[i].1@) by {
        assert(d1.contains(e[i].1@));
    }
}

/// Recording one of the names `d` keeps a scope's names among `d`.
proof fn lemma_scope_in_insert(
    e0: Seq<(String, String)>,
    e1: Seq<(String, String)>,
    k: String,
    v: String,
    d: Seq<Seq<char>>,
)
    requires
        scope_in(e0, d),
        d.contains(v@),
        match key_index(e0, k@) {
            Some(i) => e1 == e0.update(i, (k, v)),
            None => e1 == e0.push((k, v)),
        },
    ensures
        scope_in(e1, d),
{
    crate::names::lemma_key_index(e0, k@);
    assert forall|i: int| 0 <= i < e1.len() implies d.contains(#[trigger] e1[i].1@) by {
        if i < e0.len() && e1[i] == e0[i] {
            assert(d.contains(e0[i].1@));
        }
    }
}

/// Recording a version under its base name keeps a scope sound.
proof fn lemma_scope_insert(e0: Seq<(String, String)>, e1: Seq<(String, String)>, k: String, v: String)
    requires
        scope_ok(e0),
        base_name(v@) == k@,
        match key_index(e0, k@) {
            Some(i) => e1 == e0.update(i, (k, v)),
            None => e1 == e0.push((k, v)),
        },
    ensures
        scope_ok(e1),
{
    crate::names::lemma_key_index(e0, k@);
    assert forall|i: int| 0 <= i < e1.len() implies base_name(#[trigger] e1[i].1@) == e1[i].0@ by {
        if i < e0.len() && e1[i] == e0[i] {
            assert(base_name(e0[i].1@) == e0[i].0@);
        }
    }
}

/// The state of the renaming walk over the statements in pre-order: the
/// scope of the block being renamed (each base name with its current
/// version), that block, which blocks were entered, the scope saved at the
/// end of each block, the pre-order position, the versions handed out, and
/// the fixed immediate dominators and blocks of the positions.
pub ghost struct Walk {
    pub cur: Seq<(Seq<char>, Seq<char>)>,
    pub block: int,
    pub entered: Seq<bool>,
    pub scopes: Seq<Seq<(Seq<char>, Seq<char>)>>,
    pub slot: int,
    pub pairs: Seq<(Seq<char>, nat)>,
    pub idoms: Seq<Option<usize>>,
    pub slots: Seq<nat>,
}

/// The walk before the first statement: in the entry block, every scope
/// empty, over the blocks of `cfg` (at least one).
pub open spec fn start_walk(cfg: &ControlFlowGraph, slots: Seq<nat>) -> Walk {
    let n0 = cfg.blocks@.len();
    let n = if n0 == 0 { 1 } else { n0 };
    Walk {
        cur: Seq::empty(),
        block: 0,
        entered: Seq::new(n, |i: int| i == 0),
        scopes: Seq::new(n, |i: int| Seq::<(Seq<char>, Seq<char>)>::empty()),
        slot: 0,
        pairs: Seq::empty(),
        idoms: Seq::new(n, |i: int| if i < n0 { cfg.blocks@[i].idom } else { None }),
        slots,
    }
}

/// Moving to the block of the next position: leaving a block saves its
/// scope; a block entered again resumes its saved scope; a block entered
/// for the first time starts from the scope saved at the end of its
/// immediate dominator, when that was entered, else from nothing.
pub open spec fn walk_enter(w: Walk) -> Walk {
    let n = w.scopes.len();
    let b: int = if 0 <= w.slot < w.slots.len() && w.slots[w.slot] < n {
        w.slots[w.slot] as int
    } else {
        w.block
    };
    let slot = if w.slot < usize::MAX { w.slot + 1 } else { w.slot };
    if b == w.block {
        Walk { slot, ..w }
    } else {
        let sc = w.scopes.update(w.block, w.cur);
        let cur = if w.entered[b] {
            sc[b]
        } else {
            match w.idoms[b] {
                Some(p) => if p < n && w.entered[p as int] {
                    sc[p as int]
                } else {
                    Seq::empty()
                },
                None => Seq::empty(),
            }
        };
        Walk { cur, block: b, entered: w.entered.update(b, true), scopes: sc, slot, ..w }
    }
}

/// A definition of `name`: the next version of its base name, which
/// becomes current.
pub open spec fn walk_define(w: Walk, name: Seq<char>) -> (Walk, Seq<char>) {
    let b = base_name(name);
    let k = count_base(w.pairs, b);
    let v = versioned(b, k);
    (Walk { cur: crate::names::put_value(w.cur, b, v), pairs: w.pairs.push((b, k)), ..w }, v)
}

/// A statement renamed in the block the walk is in: the names it reads
/// become the versions current before it defines anything, and each name
/// it defines a new version.
pub open spec fn walk_body(w: Walk, s: StatementV) -> (Walk, StatementV)
    decreases s, 1nat,
{
    match s {
        StatementV::Move { source, target } => {
            let (w1, t) = walk_define(w, target);
            (w1, StatementV::Move { source: renamed_source(source, w.cur), target: t })
        },
        StatementV::Compute { target, expr } => {
            let (w1, t) = walk_define(w, target);
            (w1, StatementV::Compute { target: t, expr: renamed_expr(expr, w.cur) })
        },
        StatementV::Add { value, target } => {
            let (w1, t) = walk_define(w, target);
            (w1, StatementV::Add { value, target: t })
        },
        StatementV::Subtract { value, target } => {
            let (w1, t) = walk_define(w, target);
            (w1, StatementV::Subtract { value, target: t })
        },
        StatementV::Multiply { value, target } => {
            let (w1, t) = walk_define(w, target);
            (w1, StatementV::Multiply { value, target: t })
        },
        StatementV::Divide { value, target } => {
            let (w1, t) = walk_define(w, target);
            (w1, StatementV::Divide { value, target: t })
        },
        StatementV::Phi { variable, incoming } => {
            let (w1, t) = walk_define(w, variable);
            (w1, StatementV::Phi { variable: t, incoming })
        },
        StatementV::If { condition, then_branch, else_branch } => {
            let (w1, t) = walk_block(w, then_branch);
            match else_branch {
                Some(e) => {
                    let (w2, e2) = walk_block(w1, e);
                    (w2, StatementV::If { condition: renamed_cond(condition, w.cur), then_branch: t, else_branch: Some(e2) })
                },
                None => (w1, StatementV::If { condition: renamed_cond(condition, w.cur), then_branch: t, else_branch: None }),
            }
        },
        StatementV::Perform { name, body } => {
            let (w1, b) = walk_block(w, body);
            (w1, StatementV::Perform { name, body: b })
        },
        StatementV::PerformUntil { condition, body } => {
            let (w1, b) = walk_block(w, body);
            (w1, StatementV::PerformUntil { condition: renamed_cond(condition, w.cur), body: b })
        },
        StatementV::PerformVarying { variable, from, by, until, body } => {
            let (w1, b) = walk_block(w, body);
            (w1, StatementV::PerformVarying { variable, from, by, until: renamed_cond(until, w.cur), body: b })
        },
        StatementV::For { variable, start, step, until, body } => {
            let (w1, v) = walk_define(w, variable);
            let (w2, b) = walk_block(w1, body);
            (
                w2,
                StatementV::For {
                    variable: v,
                    start: renamed_expr(start, w.cur),
                    step: renamed_expr(step, w.cur),
                    until: renamed_cond(until, w.cur),
                    body: b,
                },
            )
        },
        _ => (w, s),
    }
}

/// A statement renamed at the walk's next position.
pub open spec fn walk_stmt(w: Walk, s: StatementV) -> (Walk, StatementV)
    decreases s, 2nat,
{
    walk_body(walk_enter(w), s)
}

/// Statements renamed one after another.
pub open spec fn walk_block(w: Walk, ss: Seq<StatementV>) -> (Walk, Seq<StatementV>)
    decreases ss, 0nat,
{
    if ss.len() == 0 {
        (w, Seq::empty())
    } else {
        let (w1, x) = walk_stmt(w, ss[0]);
        let (w2, xs) = walk_block(w1, ss.drop_first());
        (w2, seq![x] + xs)
    }
}

proof fn lemma_count_base_take(ps: Seq<(Seq<char>, nat)>, n: int, b: Seq<char>)
    requires
        0 <= n <= ps.len(),
    ensures
        count_base(ps.take(n), b) <= count_base(ps, b),
    decreases ps.len(),
{
    if n < ps.len() {
        assert(ps.drop_last().take(n) =~= ps.take(n));
        lemma_count_base_take(ps.drop_last(), n, b);
    } else {
        assert(ps.take(n) =~= ps);
    }
}

/// The versions handed out before `w` are still there after `w2`.
pub open spec fn keeps_versions(w: Walk, w2: Walk) -> bool {
    &&& w2.pairs.len() >= w.pairs.len()
    &&& w2.pairs.take(w.pairs.len() as int) == w.pairs
}

proof fn lemma_keeps_trans(a: Walk, b: Walk, c: Walk)
    requires
        keeps_versions(a, b),
        keeps_versions(b, c),
    ensures
        keeps_versions(a, c),
{
    assert(c.pairs.take(a.pairs.len() as int) =~= b.pairs.take(a.pairs.len() as int));
}

proof fn lemma_keeps_define(w: Walk, name: Seq<char>)
    ensures
        keeps_versions(w, walk_define(w, name).0),
{
    let w2 = walk_define(w, name).0;
    assert(w2.pairs.take(w.pairs.len() as int) =~= w.pairs);
}

proof fn lemma_keeps_body(w: Walk, s: StatementV)
    ensures
        keeps_versions(w, walk_body(w, s).0),
    decreases s, 1nat,
{
    assert(w.pairs.take(w.pairs.len() as int) =~= w.pairs);
    match s {
        StatementV::Move { target, .. } => lemma_keeps_define(w, target),
        StatementV::Compute { target, .. } => lemma_keeps_define(w, target),
        StatementV::Add { target, .. } => lemma_keeps_define(w, target),
        StatementV::Subtract { target, .. } => lemma_keeps_define(w, target),
        StatementV::Multiply { target, .. } => lemma_keeps_define(w, target),
        StatementV::Divide { target, .. } => lemma_keeps_define(w, target),
        StatementV::Phi { variable, .. } => lemma_keeps_define(w, variable),
        StatementV::If { then_branch, else_branch, .. } => {
            lemma_keeps_block(w, then_branch);
            let w1 = walk_block(w, then_branch).0;
            match else_branch {
                Some(e) => {
                    lemma_keeps_block(w1, e);
                    lemma_keeps_trans(w, w1, walk_block(w1, e).0);
                },
                None => {},
            }
        },
        StatementV::Perform { body, .. } => lemma_keeps_block(w, body),
        StatementV::PerformUntil { body, .. } => lemma_keeps_block(w, body),
        StatementV::PerformVarying { body, .. } => lemma_keeps_block(w, body),
        StatementV::For { variable, body, .. } => {
            lemma_keeps_define(w, variable);
            let w1 = walk_define(w, variable).0;
            lemma_keeps_block(w1, body);
            lemma_keeps_trans(w, w1, walk_block(w1, body).0);
        },
        _ => {},
    }
}

proof fn lemma_keeps_block(w: Walk, ss: Seq<StatementV>)
    ensures
        keeps_versions(w, walk_block(w, ss).0),
    decreases ss, 0nat,
{
    assert(w.pairs.take(w.pairs.len() as int) =~= w.pairs);
    if ss.len() > 0 {
        let we = walk_enter(w);
        assert(we.pairs == w.pairs);
        assert(we.pairs.take(w.pairs.len() as int) =~= w.pairs);
        lemma_keeps_body(we, ss[0]);
        lemma_keeps_trans(w, we, walk_body(we, ss[0]).0);
        let w1 = walk_stmt(w, ss[0]).0;
        lemma_keeps_block(w1, ss.drop_first());
        lemma_keeps_trans(w, w1, walk_block(w1, ss.drop_first()).0);
    }
}

/// Renaming only hands out new versions: every version handed out before a
/// run of statements is still handed out after it, and the number of
/// versions of every base name only grows.
pub proof fn law_versions_only_grow(w: Walk, ss: Seq<StatementV>)
    ensures
        walk_block(w, ss).0.pairs.take(w.pairs.len() as int) == w.pairs,
        forall|b: Seq<char>| count_base(w.pairs, b) <= #[trigger] count_base(walk_block(w, ss).0.pairs, b),
{
    lemma_keeps_block(w, ss);
    let p2 = walk_block(w, ss).0.pairs;
    assert forall|b: Seq<char>| count_base(w.pairs, b) <= #[trigger] count_base(p2, b) by {
        lemma_count_base_take(p2, w.pairs.len() as int, b);
    }
}

struct SsaRenameState {
    counter: VersionCounter,
    current: NameMap<String>,
    block: usize,
    entered: Vec<bool>,
    saved: Vec<NameMap<String>>,
    idoms: Vec<Option<usize>>,
    slot_blocks: Vec<usize>,
    slot: usize,
    pairs: Ghost<Seq<(Seq<char>, nat)>>,
}

impl SsaRenameState {
    spec fn wf(&self) -> bool {
        let ps = self.pairs@;
        &&& self.entered@.len() == self.saved@.len()
        &&& self.idoms@.len() == self.saved@.len()
        &&& self.block < self.saved@.len()
        &&& forall|b: Seq<char>| #[trigger] self.counter.issued(b) <= ps.len()
        &&& forall|t: int| 0 <= t < ps.len() ==> (#[trigger] ps[t]).1 < self.counter.issued(ps[t].0)
        &&& counts_ok(self.counter, self.pairs@)
        &&& forall|t1: int, t2: int| 0 <= t1 < t2 < ps.len() ==> #[trigger] ps[t1] != #[trigger] ps[t2]
        &&& scope_ok(self.current.entries())
        &&& forall|b: int| 0 <= b < self.saved@.len() ==> scope_ok(#[trigger] self.saved@[b].entries())
        &&& scope_in(self.current.entries(), pair_names(ps))
        &&& forall|b: int| 0 <= b < self.saved@.len() ==> scope_in(#[trigger] self.saved@[b].entries(), pair_names(ps))
    }

    /// The state as the walk sees it.
    spec fn walk(&self) -> Walk {
        Walk {
            cur: scope_view(self.current.entries()),
            block: self.block as int,
            entered: self.entered@,
            scopes: Seq::new(self.saved@.len(), |b: int| scope_view(self.saved@[b].entries())),
            slot: self.slot as int,
            pairs: self.pairs@,
            idoms: self.idoms@,
            slots: nat_view(self.slot_blocks@),
        }
    }

    /// The names saved at the end of each block.
    spec fn scopes(&self) -> Seq<Seq<(String, String)>> {
        Seq::new(self.saved@.len(), |b: int| self.saved@[b].entries())
    }

    /// The block of the statement at the current slot, when the slots give
    /// a block in range; else the block being renamed.
    spec fn next_block(&self) -> usize {
        if self.slot < self.slot_blocks@.len() && self.slot_blocks@[self.slot as int] < self.saved@.len() {
            self.slot_blocks@[self.slot as int]
        } else {
            self.block
        }
    }

    /// Moves to the block of the next statement in pre-order: leaving a
    /// block saves its names; entering a block for the first time starts
    /// from the names at the end of its immediate dominator.
    fn enter(&mut self)
        requires
            old(self).wf(),
        ensures
            final(self).wf(),
            final(self).pairs@ == old(self).pairs@,
            final(self).counter == old(self).counter,
            final(self).slot_blocks == old(self).slot_blocks,
            final(self).idoms == old(self).idoms,
            final(self).slot == (if old(self).slot < usize::MAX { (old(self).slot + 1) as usize } else { old(self).slot }),
            final(self).walk() == walk_enter(old(self).walk()),
            old(self).next_block() == old(self).block ==> {
                &&& final(self).block == old(self).block
                &&& final(self).current == old(self).current
                &&& final(self).saved == old(self).saved
                &&& final(self).entered == old(self).entered
            },
            old(self).next_block() != old(self).block ==> ({
                let b = old(self).next_block();
                let sc = old(self).scopes().update(old(self).block as int, old(self).current.entries());
                &&& final(self).block == b
                &&& final(self).scopes() == sc
                &&& final(self).entered@ == old(self).entered@.update(b as int, true)
                &&& final(self).current.entries() == if old(self).entered@[b as int] {
                    sc[b as int]
                } else {
                    match old(self).idoms@[b as int] {
                        Some(p) => if p < sc.len() && old(self).entered@[p as int] {
                            sc[p as int]
                        } else {
                            Seq::<(String, String)>::empty()
                        },
                        None => Seq::<(String, String)>::empty(),
                    }
                }
            }),
    {
        let ghost s0 = *self;
        let n = self.saved.len();
        let b = if self.slot < self.slot_blocks.len() && self.slot_blocks[self.slot] < n {
            self.slot_blocks[self.slot]
        } else {
            self.block
        };
        if self.slot < usize::MAX {
            self.slot = self.slot + 1;
        }
        if b != self.block {
            let keep = copy_scope(&self.current);
            self.saved.set(self.block, keep);
            assert(self.scopes() =~= s0.scopes().update(s0.block as int, s0.current.entries()));
            if self.entered[b] {
                self.current = copy_scope(&self.saved[b]);
                assert(self.entered@ =~= s0.entered@.update(b as int, true));
            } else {
                let start = match self.idoms[b] {
                    Some(p) => if p < n && self.entered[p] {
                        copy_scope(&self.saved[p])
                    } else {
                        NameMap::new()
                    },
                    None => NameMap::new(),
                };
                self.current = start;
                self.entered.set(b, true);
            }
            self.block = b;
        }
        proof {
            let w0 = s0.walk();
            let w1 = walk_enter(w0);
            let w = self.walk();
            assert(w.scopes =~= w1.scopes) by {
                if w1.block != w0.block {
                    assert forall|i: int| 0 <= i < w.scopes.len() implies w.scopes[i] == w1.scopes[i] by {
                        assert(self.scopes()[i] == self.saved@[i].entries());
                        assert(s0.scopes()[i] == s0.saved@[i].entries());
                    }
                }
            }
            assert(w.entered =~= w1.entered);
            assert(w.cur =~= w1.cur) by {
                if w1.block != w0.block {
                    let n = s0.saved@.len();
                    let bb = w1.block;
                    if !s0.entered@[bb] {
                        match s0.idoms@[bb] {
                            Some(p) => {
                                if p < n && s0.entered@[p as int] {
                                    assert(self.scopes()[p as int] == self.saved@[p as int].entries());
                                    assert(w1.scopes[p as int] == w.scopes[p as int]);
                                }
                            },
                            None => {},
                        }
                    } else {
                        assert(w1.scopes[bb] == w.scopes[bb]);
                    }
                }
            }
            assert(w == w1);
        }
    }

    /// A fresh state over the blocks of `cfg`, in the entry block, with the
    /// block of every statement in `slot_blocks`.
    fn new(cfg: &ControlFlowGraph, slot_blocks: Vec<usize>) -> (r: Self)
        ensures
            r.wf(),
            r.pairs@ == Seq::<(Seq<char>, nat)>::empty(),
            r.walk() == start_walk(cfg, nat_view(slot_blocks@)),
    {
        let n0 = cfg.blocks.len();
        let n = if n0 == 0 { 1 } else { n0 };
        let mut entered = falses(n);
        entered.set(0, true);
        let mut saved: Vec<NameMap<String>> = Vec::new();
        let mut idoms: Vec<Option<usize>> = Vec::new();
        let mut i: usize = 0;
        while i < n
            invariant
                i <= n,
                n0 == cfg.blocks@.len(),
                saved@.len() == i,
                idoms@.len() == i,
                forall|k: int| 0 <= k < saved@.len() ==> scope_ok(#[trigger] saved@[k].entries()),
                forall|k: int| 0 <= k < saved@.len() ==> scope_in(#[trigger] saved@[k].entries(), pair_names(Seq::empty())),
                forall|k: int| 0 <= k < saved@.len() ==> #[trigger] saved@[k].entries() == Seq::<(String, String)>::empty(),
                forall|k: int|
                    0 <= k < idoms@.len() ==> #[trigger] idoms@[k] == if k < n0 {
                        cfg.blocks@[k].idom
                    } else {
                        None
                    },
            decreases n - i,
        {
            let fresh: NameMap<String> = NameMap::new();
            assert(scope_ok(fresh.entries()));
            assert(scope_in(fresh.entries(), pair_names(Seq::empty())));
            saved.push(fresh);
            if i < n0 {
                idoms.push(cfg.blocks[i].idom);
            } else {
                idoms.push(None);
            }
            i = i + 1;
        }
        let current: NameMap<String> = NameMap::new();
        assert(scope_ok(current.entries()));
        assert(scope_in(current.entries(), pair_names(Seq::empty())));
        let r = SsaRenameState {
            counter: VersionCounter::new(),
            current,
            block: 0,
            entered,
            saved,
            idoms,
            slot_blocks,
            slot: 0,
            pairs: Ghost(Seq::empty()),
        };
        proof {
            reveal(counts_ok);
            let w = r.walk();
            let w1 = start_walk(cfg, nat_view(r.slot_blocks@));
            assert(w.cur =~= w1.cur);
            assert(w.entered =~= w1.entered);
            assert(w.idoms =~= w1.idoms);
            assert forall|b: int| 0 <= b < w.scopes.len() implies w.scopes[b] == w1.scopes[b] by {
                assert(scope_view(r.saved@[b].entries()) =~= Seq::<(Seq<char>, Seq<char>)>::empty());
            }
            assert(w.scopes =~= w1.scopes);
            assert(w == w1);
        }
        r
    }

    /// Saves the names of the block being renamed.
    fn finish(&mut self)
        requires
            old(self).wf(),
        ensures
            final(self).wf(),
            final(self).pairs@ == old(self).pairs@,
            final(self).scopes() == old(self).scopes().update(old(self).block as int, old(self).current.entries()),
            final(self).current == old(self).current,
            final(self).block == old(self).block,
            final(self).entered == old(self).entered,
            final(self).idoms == old(self).idoms,
            final(self).slot == old(self).slot,
            final(self).slot_blocks == old(self).slot_blocks,
            final(self).counter == old(self).counter,
            final(self).walk() == walk_finish(old(self).walk()),
    {
        let ghost s0 = *self;
        let keep = copy_scope(&self.current);
        self.saved.set(self.block, keep);
        assert(self.scopes() =~= s0.scopes().update(s0.block as int, s0.current.entries()));
        assert(self.walk().scopes =~= walk_finish(s0.walk()).scopes);
    }

    /// The name current for the base name of `name`, if any.
    fn current_name(&self, name: &String) -> (r: Option<String>)
        requires
            self.wf(),
        ensures
            r == crate::names::lookup(self.current.entries(), base_name(name@)),
            r matches Some(v) ==> current_of(scope_view(self.current.entries()), name@) == v@,
            r is None ==> current_of(scope_view(self.current.entries()), name@) == name@,
            r matches Some(v) ==> base_name(v@) == base_name(name@),
            r matches Some(v) ==> pair_names(self.pairs@).contains(v@),
    {
        let base = base_name_exec(name);
        proof {
            crate::names::lemma_key_index(self.current.entries(), base@);
            lemma_scope_view_index(self.current.entries(), base@);
        }
        match self.current.get_name(&base) {
            Some(v) => {
                proof {
                    let i = key_index(self.current.entries(), base@)->Some_0;
                    assert(base_name(self.current.entries()[i].1@) == self.current.entries()[i].0@);
                    assert(pair_names(self.pairs@).contains(self.current.entries()[i].1@));
                }
                Some(v.clone())
            },
            None => None,
        }
    }

    /// Hands out the next version of the base name of `name` and makes it
    /// current.
    fn define(&mut self, name: &String) -> (r: String)
        requires
            old(self).wf(),
            old(self).pairs@.len() < usize::MAX,
        ensures
            final(self).wf(),
            final(self).pairs@ == old(self).pairs@.push(
                (base_name(name@), old(self).counter.issued(base_name(name@))),
            ),
            r@ == versioned(base_name(name@), old(self).counter.issued(base_name(name@))),
            final(self).saved == old(self).saved,
            final(self).block == old(self).block,
            final(self).entered == old(self).entered,
            final(self).slot == old(self).slot,
            final(self).idoms == old(self).idoms,
            final(self).slot_blocks == old(self).slot_blocks,
            scope_view(final(self).current.entries()) == crate::names::put_value(
                scope_view(old(self).current.entries()),
                base_name(name@),
                r@,
            ),
    {
        let base = base_name_exec(name);
        let ghost ps = self.pairs@;
        let ghost k = self.counter.issued(base@);
        let v = self.counter.next_version(base.as_str());
        let r = crate::ssa::rename_variable(base.as_str(), v - 1);
        let ghost e0 = self.current.entries();
        let rc = r.clone();
        proof {
            lemma_base_versioned(base@, (v - 1) as nat);
        }
        self.current.insert(base, rc);
        proof {
            lemma_scope_insert(e0, self.current.entries(), base, rc);
            let np = ps.push((base@, k));
            assert forall|x: Seq<char>| pair_names(ps).contains(x) implies #[trigger] pair_names(np).contains(x) by {
                let j = choose|j: int| 0 <= j < pair_names(ps).len() && pair_names(ps)[j] == x;
                assert(pair_names(np)[j] == x);
            }
            assert(pair_names(np)[ps.len() as int] == rc@);
            lemma_scope_in_grow(e0, pair_names(ps), pair_names(np));
            lemma_scope_in_insert(e0, self.current.entries(), base, rc, pair_names(np));
            assert forall|b: int| 0 <= b < self.saved@.len() implies scope_in(#[trigger] self.saved@[b].entries(), pair_names(np)) by {
                lemma_scope_in_grow(self.saved@[b].entries(), pair_names(ps), pair_names(np));
            }
            self.pairs = Ghost(np);
            assert forall|t1: int, t2: int| 0 <= t1 < t2 < np.len() implies #[trigger] np[t1] != #[trigger] np[t2] by {
                if t2 == np.len() - 1 {
                    assert(np[t1] == ps[t1]);
                    assert(ps[t1].1 < k || ps[t1].0 != base@);
                }
            }
            assert forall|b: Seq<char>| #[trigger] self.counter.issued(b) <= np.len() by {
                if b != base@ {
                    assert(self.counter.issued(b) <= ps.len());
                }
            }
            assert forall|t: int| 0 <= t < np.len() implies (#[trigger] np[t]).1 < self.counter.issued(np[t].0) by {
                if t < ps.len() {
                    assert(np[t] == ps[t]);
                    assert(ps[t].1 < old(self).counter.issued(ps[t].0));
                }
            }
            reveal(counts_ok);
            assert(counts_ok(old(self).counter, ps));
            assert(np.drop_last() =~= ps);
            assert forall|b: Seq<char>| #[trigger] self.counter.issued(b) == count_base(np, b) by {
                assert(old(self).counter.issued(b) == count_base(ps, b));
            }
            assert forall|t: int| 0 <= t < np.len() implies (#[trigger] np[t]).1 == count_base(np.take(t), np[t].0) by {
                if t < ps.len() {
                    assert(np[t] == ps[t]);
                    assert(np.take(t) =~= ps.take(t));
                    assert(ps[t].1 == count_base(ps.take(t), ps[t].0));
                } else {
                    assert(np.take(t) =~= ps);
                }
            }
            assert(counts_ok(self.counter, np));
            lemma_put_view(e0, self.current.entries(), base, rc);
        }
        r
    }
}

proof fn lemma_put_view(e0: Seq<(String, String)>, e1: Seq<(String, String)>, k: String, v: String)
    requires
        e1 == match key_index(e0, k@) {
            Some(i) => e0.update(i, (k, v)),
            None => e0.push((k, v)),
        },
    ensures
        scope_view(e1) == crate::names::put_value(scope_view(e0), k@, v@),
{
    lemma_scope_view_index(e0, k@);
    match key_index(e0, k@) {
        Some(i) => {
            crate::names::lemma_key_index(e0, k@);
            assert(scope_view(e1) =~= scope_view(e0).update(i, (k@, v@)));
        },
        None => {
            assert(scope_view(e1) =~= scope_view(e0).push((k@, v@)));
        },
    }
}

fn copy_scope(m: &NameMap<String>) -> (r: NameMap<String>)
    ensures
        r.entries() == m.entries(),
{
    m.note_distinct();
    let mut r: NameMap<String> = NameMap::new();
    let mut i: usize = 0;
    assert(m.entries().take(0) =~= r.entries());
    while i < m.len()
        invariant
            i <= m.entries().len(),
            crate::names::distinct_keys(m.entries()),
            r.entries() == m.entries().take(i as int),
        decreases m.entries().len() - i,
    {
        let (k, v) = m.entry_at(i);
        let kk = k.clone();
        let vv = v.clone();
        proof {
            crate::names::lemma_key_index(r.entries(), kk@);
            if key_index(r.entries(), kk@) is Some {
                let j = key_index(r.entries(), kk@)->Some_0;
                assert(m.entries()[j].0@ == m.entries()[i as int].0@);
            }
        }
        r.insert(kk, vv);
        assert(r.entries() =~= m.entries().take(i + 1));
        i = i + 1;
    }
    assert(m.entries().take(i as int) =~= m.entries());
    r
}

/// `new_ps` extends `old_ps` by one pair per name of `src`, each with the
/// base name of that name, and `out` lists the version names of the new
/// pairs.
pub open spec fn extends(
    old_ps: Seq<(Seq<char>, nat)>,
    new_ps: Seq<(Seq<char>, nat)>,
    src: Seq<Seq<char>>,
    out: Seq<Seq<char>>,
) -> bool {
    &&& new_ps.len() == old_ps.len() + src.len()
    &&& new_ps.take(old_ps.len() as int) == old_ps
    &&& forall|k: int| 0 <= k < src.len() ==> #[trigger] new_ps[old_ps.len() + k].0 == base_name(src[k])
    &&& out == pair_names(new_ps.skip(old_ps.len() as int))
}

proof fn lemma_extends_chain(
    p0: Seq<(Seq<char>, nat)>,
    p1: Seq<(Seq<char>, nat)>,
    p2: Seq<(Seq<char>, nat)>,
    a: Seq<Seq<char>>,
    x: Seq<Seq<char>>,
    b: Seq<Seq<char>>,
    y: Seq<Seq<char>>,
)
    requires
        extends(p0, p1, a, x),
        extends(p1, p2, b, y),
    ensures
        extends(p0, p2, a + b, x + y),
{
    assert(p2.take(p0.len() as int) =~= p1.take(p0.len() as int));
    assert forall|k: int| 0 <= k < (a + b).len() implies #[trigger] p2[p0.len() + k].0 == base_name((a + b)[k]) by {
        if k < a.len() {
            assert(p2[p0.len() + k] == p2.take(p1.len() as int)[p0.len() + k]);
            assert(p1[p0.len() + k].0 == base_name(a[k]));
        } else {
            assert(p2[p1.len() + (k - a.len())].0 == base_name(b[k - a.len()]));
        }
    }
    assert(pair_names(p2.skip(p0.len() as int)) =~= x + y) by {
        assert forall|k: int| 0 <= k < x.len() implies pair_names(p2.skip(p0.len() as int))[k] == x[k] by {
            assert(p2[p0.len() + k] == p2.take(p1.len() as int)[p0.len() + k]);
        }
    }
}

/// The names of the pairs only grow.
proof fn lemma_extends_grow(
    p0: Seq<(Seq<char>, nat)>,
    p1: Seq<(Seq<char>, nat)>,
    a: Seq<Seq<char>>,
    b: Seq<Seq<char>>,
)
    requires
        extends(p0, p1, a, b),
    ensures
        forall|x: Seq<char>| pair_names(p0).contains(x) ==> #[trigger] pair_names(p1).contains(x),
{
    assert forall|x: Seq<char>| pair_names(p0).contains(x) implies #[trigger] pair_names(p1).contains(x) by {
        let j = choose|j: int| 0 <= j < pair_names(p0).len() && pair_names(p0)[j] == x;
        assert(p1[j] == p1.take(p0.len() as int)[j]);
        assert(pair_names(p1)[j] == x);
    }
}

proof fn lemma_extends_none(p: Seq<(Seq<char>, nat)>)
    ensures
        extends(p, p, Seq::empty(), Seq::empty()),
{
    assert(p.take(p.len() as int) =~= p);
    assert(pair_names(p.skip(p.len() as int)) =~= Seq::<Seq<char>>::empty());
}

proof fn lemma_extends_one(p: Seq<(Seq<char>, nat)>, name: Seq<char>, k: nat)
    ensures
        extends(p, p.push((base_name(name), k)), seq![name], seq![versioned(base_name(name), k)]),
{
    let q = p.push((base_name(name), k));
    assert(q.take(p.len() as int) =~= p);
    assert(q[p.len() as int] == (base_name(name), k));
    assert(pair_names(q.skip(p.len() as int)) =~= seq![versioned(base_name(name), k)]);
}

/// A scope as names: each base name with the version current for it.
pub open spec fn scope_view(e: Seq<(String, String)>) -> Seq<(Seq<char>, Seq<char>)> {
    Seq::new(e.len(), |i: int| (e[i].0@, e[i].1@))
}

proof fn lemma_scope_view_index(e: Seq<(String, String)>, k: Seq<char>)
    ensures
        key_index(e, k) == crate::names::index_of_key(scope_view(e), k),
    decreases e.len(),
{
    if e.len() > 0 {
        assert(scope_view(e).drop_last() =~= scope_view(e.drop_last()));
        lemma_scope_view_index(e.drop_last(), k);
    }
}

/// The name a read of `n` is renamed to: the version current for its base
/// name in `cur`, or `n` itself when there is none.
pub open spec fn current_of(cur: Seq<(Seq<char>, Seq<char>)>, n: Seq<char>) -> Seq<char> {
    match crate::names::value_of(cur, base_name(n)) {
        Some(v) => v,
        None => n,
    }
}

/// An expression with every variable renamed by `current_of`.
pub open spec fn renamed_expr(e: ExpressionV, cur: Seq<(Seq<char>, Seq<char>)>) -> ExpressionV
    decreases e,
{
    match e {
        ExpressionV::Variable(n) => ExpressionV::Variable(current_of(cur, n)),
        ExpressionV::Binary { left, operator, right } => ExpressionV::Binary {
            left: Box::new(renamed_expr(*left, cur)),
            operator,
            right: Box::new(renamed_expr(*right, cur)),
        },
        _ => e,
    }
}

pub open spec fn renamed_cond(c: ConditionV, cur: Seq<(Seq<char>, Seq<char>)>) -> ConditionV {
    ConditionV { left: current_of(cur, c.left), operator: c.operator, right: current_of(cur, c.right) }
}

pub open spec fn renamed_source(s: SourceV, cur: Seq<(Seq<char>, Seq<char>)>) -> SourceV {
    match s {
        SourceV::Variable(n) => SourceV::Variable(current_of(cur, n)),
        _ => s,
    }
}

fn rename_expr(e: Expression, st: &SsaRenameState) -> (r: Expression)
    requires
        st.wf(),
    ensures
        r@ == renamed_expr(e@, scope_view(st.current.entries())),
        erase_expr(r@) == erase_expr(e@),
        uses_resolved(expr_uses(e@), expr_uses(r@), pair_names(st.pairs@)),
    decreases e,
{
    match e {
        Expression::Variable(name) => match st.current_name(&name) {
            Some(c) => Expression::Variable(c),
            None => Expression::Variable(name),
        },
        Expression::Binary { left, operator, right } => {
            let ghost lv = left@;
            let ghost rv = right@;
            let l = rename_expr(*left, st);
            let r = rename_expr(*right, st);
            proof {
                lemma_resolved_concat(expr_uses(lv), expr_uses(l@), expr_uses(rv), expr_uses(r@), pair_names(st.pairs@));
            }
            Expression::Binary { left: Box::new(l), operator, right: Box::new(r) }
        },
        Expression::Literal(l) => Expression::Literal(l),
    }
}

fn rename_cond(c: Condition, st: &SsaRenameState) -> (r: Condition)
    requires
        st.wf(),
    ensures
        r@ == renamed_cond(c@, scope_view(st.current.entries())),
        erase_cond(r@) == erase_cond(c@),
        uses_resolved(cond_uses(c@), cond_uses(r@), pair_names(st.pairs@)),
{
    let left = match st.current_name(&c.left) {
        Some(v) => v,
        None => c.left,
    };
    let right = match st.current_name(&c.right) {
        Some(v) => v,
        None => c.right,
    };
    Condition { left, operator: c.operator, right }
}

fn rename_source(s: Source, st: &SsaRenameState) -> (r: Source)
    requires
        st.wf(),
    ensures
        r@ == renamed_source(s@, scope_view(st.current.entries())),
        erase_source(r@) == erase_source(s@),
        uses_resolved(source_uses(s@), source_uses(r@), pair_names(st.pairs@)),
{
    match s {
        Source::Variable(name) => match st.current_name(&name) {
            Some(c) => Source::Variable(c),
            None => Source::Variable(name),
        },
        other => other,
    }
}

/// Renames the definition `name` and records the step.
fn define_name(st: &mut SsaRenameState, name: &String) -> (r: String)
    requires
        old(st).wf(),
        old(st).pairs@.len() < usize::MAX,
    ensures
        final(st).wf(),
        extends(old(st).pairs@, final(st).pairs@, seq![name@], seq![r@]),
        base_name(r@) == base_name(name@),
        final(st).walk() == walk_define(old(st).walk(), name@).0,
        r@ == walk_define(old(st).walk(), name@).1,
{
    let ghost p = st.pairs@;
    let ghost k = st.counter.issued(base_name(name@));
    proof {
        reveal(counts_ok);
    }
    let r = st.define(name);
    proof {
        let w1 = walk_define(old(st).walk(), name@).0;
        assert(st.walk().scopes =~= w1.scopes);
        assert(st.walk() == w1);
        lemma_extends_one(p, name@, k);
        lemma_base_versioned(base_name(name@), k);
    }
    r
}

fn rename_assign(s: Statement, st: &mut SsaRenameState) -> (r: Statement)
    requires
        old(st).wf(),
        old(st).pairs@.len() + size(s@) < usize::MAX,
        s is Move || s is Compute,
    ensures
        final(st).wf(),
        erase(r@) == erase(s@),
        extends(old(st).pairs@, final(st).pairs@, stmt_ssa_defs(s@), stmt_ssa_defs(r@)),
        uses_resolved(stmt_uses(s@), stmt_uses(r@), pair_names(final(st).pairs@)),
        final(st).walk() == walk_body(old(st).walk(), s@).0,
        r@ == walk_body(old(st).walk(), s@).1,
    decreases s, 1nat,
{
    let ghost p0 = st.pairs@;
    let ghost sv = s@;
    proof {
        lemma_extends_none(p0);
        lemma_defs_le_size(sv);
    }
    match s {
        Statement::Move { source, target } => {
            let ghost sov = source@;
            let source = rename_source(source, st);
            let ghost p1 = st.pairs@;
            let ghost tv = target@;
            let target = define_name(st, &target);
            proof {
                lemma_extends_grow(p1, st.pairs@, seq![tv], seq![target@]);
                lemma_resolved_grow(source_uses(sov), source_uses(source@), pair_names(p1), pair_names(st.pairs@));
            }
            let r = Statement::Move { source, target };
            assert(stmt_ssa_defs(r@) =~= seq![target@]);
            r
        },
        Statement::Compute { target, expr } => {
            let ghost ev = expr@;
            let expr = rename_expr(expr, st);
            let ghost p1 = st.pairs@;
            let ghost tv = target@;
            let target = define_name(st, &target);
            proof {
                lemma_extends_grow(p1, st.pairs@, seq![tv], seq![target@]);
                lemma_resolved_grow(expr_uses(ev), expr_uses(expr@), pair_names(p1), pair_names(st.pairs@));
            }
            let r = Statement::Compute { target, expr };
            assert(stmt_ssa_defs(r@) =~= seq![target@]);
            r
        },
        other => other,
    }
}

fn rename_simple(s: Statement, st: &mut SsaRenameState) -> (r: Statement)
    requires
        old(st).wf(),
        old(st).pairs@.len() + size(s@) < usize::MAX,
        !(s is Move || s is Compute || s is If || s is Perform || s is PerformUntil || s is PerformVarying || s is For),
    ensures
        final(st).wf(),
        erase(r@) == erase(s@),
        extends(old(st).pairs@, final(st).pairs@, stmt_ssa_defs(s@), stmt_ssa_defs(r@)),
        uses_resolved(stmt_uses(s@), stmt_uses(r@), pair_names(final(st).pairs@)),
        final(st).walk() == walk_body(old(st).walk(), s@).0,
        r@ == walk_body(old(st).walk(), s@).1,
    decreases s, 1nat,
{
    let ghost p0 = st.pairs@;
    let ghost sv = s@;
    proof {
        lemma_extends_none(p0);
        lemma_defs_le_size(sv);
    }
    match s {
        Statement::Add { value, target } => {
            let target = define_name(st, &target);
            let r = Statement::Add { value, target };
            assert(stmt_ssa_defs(r@) =~= seq![target@]);
            r
        },
        Statement::Subtract { value, target } => {
            let target = define_name(st, &target);
            let r = Statement::Subtract { value, target };
            assert(stmt_ssa_defs(r@) =~= seq![target@]);
            r
        },
        Statement::Multiply { value, target } => {
            let target = define_name(st, &target);
            let r = Statement::Multiply { value, target };
            assert(stmt_ssa_defs(r@) =~= seq![target@]);
            r
        },
        Statement::Divide { value, target } => {
            let target = define_name(st, &target);
            let r = Statement::Divide { value, target };
            assert(stmt_ssa_defs(r@) =~= seq![target@]);
            r
        },
        Statement::Phi { variable, incoming } => {
            let variable = define_name(st, &variable);
            let r = Statement::Phi { variable, incoming };
            assert(stmt_ssa_defs(r@) =~= seq![variable@]);
            r
        },
        other => {
            proof {
                assert(stmt_ssa_defs(sv) =~= Seq::<Seq<char>>::empty());
            }
            other
        },
    }
}

#[verifier::rlimit(30)]
fn rename_if(s: Statement, st: &mut SsaRenameState) -> (r: Statement)
    requires
        old(st).wf(),
        old(st).pairs@.len() + size(s@) < usize::MAX,
        s is If,
    ensures
        final(st).wf(),
        erase(r@) == erase(s@),
        extends(old(st).pairs@, final(st).pairs@, stmt_ssa_defs(s@), stmt_ssa_defs(r@)),
        uses_resolved(stmt_uses(s@), stmt_uses(r@), pair_names(final(st).pairs@)),
        final(st).walk() == walk_body(old(st).walk(), s@).0,
        r@ == walk_body(old(st).walk(), s@).1,
    decreases s, 1nat,
{
    let ghost p0 = st.pairs@;
    let ghost sv = s@;
    proof {
        lemma_extends_none(p0);
        lemma_defs_le_size(sv);
    }
    match s {
        Statement::If { condition, then_branch, else_branch } => {
            let ghost cv = condition@;
            let condition = rename_cond(condition, st);
            let ghost p1 = st.pairs@;
            let ghost tv = stmts_view(then_branch@);
            let then_branch = rename_statements(then_branch, st);
            let ghost p2 = st.pairs@;
            proof {
                lemma_defs_le_sizes(tv);
            }
            let else_branch = match else_branch {
                Some(e) => {
                    let ghost ev = stmts_view(e@);
                    let e2 = rename_statements(e, st);
                    proof {
                        lemma_extends_chain(p0, p2, st.pairs@, ssa_defs(tv), ssa_defs(stmts_view(then_branch@)), ssa_defs(ev), ssa_defs(stmts_view(e2@)));
                        lemma_extends_grow(p2, st.pairs@, ssa_defs(ev), ssa_defs(stmts_view(e2@)));
                        lemma_resolved_grow(uses_all(tv), uses_all(stmts_view(then_branch@)), pair_names(p2), pair_names(st.pairs@));
                        lemma_resolved_concat(uses_all(tv), uses_all(stmts_view(then_branch@)), uses_all(ev), uses_all(stmts_view(e2@)), pair_names(st.pairs@));
                    }
                    Some(e2)
                },
                None => {
                    proof {
                        lemma_extends_none(p2);
                        lemma_extends_grow(p2, p2, Seq::empty(), Seq::empty());
                        lemma_extends_chain(p0, p2, p2, ssa_defs(tv), ssa_defs(stmts_view(then_branch@)), Seq::empty(), Seq::empty());
                        lemma_resolved_concat(uses_all(tv), uses_all(stmts_view(then_branch@)), Seq::empty(), Seq::empty(), pair_names(st.pairs@));
                    }
                    None
                },
            };
            let r = Statement::If { condition, then_branch, else_branch };
            proof {
                lemma_extends_grow(p1, p2, ssa_defs(tv), ssa_defs(stmts_view(then_branch@)));
                lemma_resolved_grow(cond_uses(cv), cond_uses(condition@), pair_names(p1), pair_names(p2));
                lemma_resolved_grow(cond_uses(cv), cond_uses(condition@), pair_names(p2), pair_names(st.pairs@));
                let eu = match sv->else_branch {
                    Some(e) => uses_all(e),
                    None => Seq::empty(),
                };
                let eu2 = match r@->else_branch {
                    Some(e) => uses_all(e),
                    None => Seq::empty(),
                };
                lemma_resolved_concat(cond_uses(cv), cond_uses(condition@), uses_all(tv) + eu, uses_all(stmts_view(then_branch@)) + eu2, pair_names(st.pairs@));
                assert(stmt_uses(sv) =~= cond_uses(cv) + (uses_all(tv) + eu));
                assert(stmt_uses(r@) =~= cond_uses(condition@) + (uses_all(stmts_view(then_branch@)) + eu2));
                assert(stmt_ssa_defs(sv) =~= ssa_defs(tv) + match sv->else_branch {
                    Some(e) => ssa_defs(e),
                    None => Seq::empty(),
                });
                assert(stmt_ssa_defs(r@) =~= ssa_defs(stmts_view(then_branch@)) + match r@->else_branch {
                    Some(e) => ssa_defs(e),
                    None => Seq::empty(),
                });
            }
            r
        },
        other => other,
    }
}

fn rename_loop(s: Statement, st: &mut SsaRenameState) -> (r: Statement)
    requires
        old(st).wf(),
        old(st).pairs@.len() + size(s@) < usize::MAX,
        s is Perform || s is PerformUntil || s is PerformVarying,
    ensures
        final(st).wf(),
        erase(r@) == erase(s@),
        extends(old(st).pairs@, final(st).pairs@, stmt_ssa_defs(s@), stmt_ssa_defs(r@)),
        uses_resolved(stmt_uses(s@), stmt_uses(r@), pair_names(final(st).pairs@)),
        final(st).walk() == walk_body(old(st).walk(), s@).0,
        r@ == walk_body(old(st).walk(), s@).1,
    decreases s, 1nat,
{
    let ghost p0 = st.pairs@;
    let ghost sv = s@;
    proof {
        lemma_extends_none(p0);
        lemma_defs_le_size(sv);
    }
    match s {
        Statement::Perform { name, body } => {
            let body = rename_statements(body, st);
            let r = Statement::Perform { name, body };
            proof {
                assert(stmt_uses(r@) == uses_all(stmts_view(body@)));
                assert(stmt_ssa_defs(r@) =~= ssa_defs(stmts_view(body@)));
                assert(stmt_ssa_defs(sv) =~= ssa_defs(sv->Perform_body));
            }
            r
        },
        Statement::PerformUntil { condition, body } => {
            let ghost cv = condition@;
            let condition = rename_cond(condition, st);
            let ghost p1 = st.pairs@;
            let ghost bv = stmts_view(body@);
            let body = rename_statements(body, st);
            let r = Statement::PerformUntil { condition, body };
            proof {
                lemma_extends_grow(p1, st.pairs@, ssa_defs(bv), ssa_defs(stmts_view(body@)));
                lemma_resolved_grow(cond_uses(cv), cond_uses(condition@), pair_names(p1), pair_names(st.pairs@));
                lemma_resolved_concat(cond_uses(cv), cond_uses(condition@), uses_all(bv), uses_all(stmts_view(body@)), pair_names(st.pairs@));
                assert(stmt_ssa_defs(r@) =~= ssa_defs(stmts_view(body@)));
                assert(stmt_ssa_defs(sv) =~= ssa_defs(sv->PerformUntil_body));
            }
            r
        },
        Statement::PerformVarying { variable, from, by, until, body } => {
            let ghost cv = until@;
            let until = rename_cond(until, st);
            let ghost p1 = st.pairs@;
            let ghost bv = stmts_view(body@);
            let body = rename_statements(body, st);
            let r = Statement::PerformVarying { variable, from, by, until, body };
            proof {
                lemma_extends_grow(p1, st.pairs@, ssa_defs(bv), ssa_defs(stmts_view(body@)));
                lemma_resolved_grow(cond_uses(cv), cond_uses(until@), pair_names(p1), pair_names(st.pairs@));
                lemma_resolved_concat(cond_uses(cv), cond_uses(until@), uses_all(bv), uses_all(stmts_view(body@)), pair_names(st.pairs@));
                assert(stmt_ssa_defs(r@) =~= ssa_defs(stmts_view(body@)));
                assert(stmt_ssa_defs(sv) =~= ssa_defs(sv->PerformVarying_body));
            }
            r
        },
        other => other,
    }
}

fn rename_for(s: Statement, st: &mut SsaRenameState) -> (r: Statement)
    requires
        old(st).wf(),
        old(st).pairs@.len() + size(s@) < usize::MAX,
        s is For,
    ensures
        final(st).wf(),
        erase(r@) == erase(s@),
        extends(old(st).pairs@, final(st).pairs@, stmt_ssa_defs(s@), stmt_ssa_defs(r@)),
        uses_resolved(stmt_uses(s@), stmt_uses(r@), pair_names(final(st).pairs@)),
        final(st).walk() == walk_body(old(st).walk(), s@).0,
        r@ == walk_body(old(st).walk(), s@).1,
    decreases s, 1nat,
{
    let ghost p0 = st.pairs@;
    let ghost sv = s@;
    proof {
        lemma_extends_none(p0);
        lemma_defs_le_size(sv);
    }
    match s {
        Statement::For { variable, start, step, until, body } => {
            let ghost sv1 = start@;
            let ghost sv2 = step@;
            let ghost sv3 = until@;
            let start = rename_expr(start, st);
            let step = rename_expr(step, st);
            let until = rename_cond(until, st);
            let ghost p1 = st.pairs@;
            let ghost vv0 = variable@;
            let variable = define_name(st, &variable);
            let ghost p2 = st.pairs@;
            let ghost bv = stmts_view(body@);
            proof {
                lemma_defs_le_sizes(bv);
            }
            let body = rename_statements(body, st);
            proof {
                lemma_extends_chain(p0, p2, st.pairs@, seq![sv->For_variable], seq![variable@], ssa_defs(bv), ssa_defs(stmts_view(body@)));
                lemma_extends_grow(p1, p2, seq![vv0], seq![variable@]);
                lemma_extends_grow(p2, st.pairs@, ssa_defs(bv), ssa_defs(stmts_view(body@)));
                let d = pair_names(st.pairs@);
                lemma_resolved_grow(expr_uses(sv1), expr_uses(start@), pair_names(p1), pair_names(p2));
                lemma_resolved_grow(expr_uses(sv1), expr_uses(start@), pair_names(p2), d);
                lemma_resolved_grow(expr_uses(sv2), expr_uses(step@), pair_names(p1), pair_names(p2));
                lemma_resolved_grow(expr_uses(sv2), expr_uses(step@), pair_names(p2), d);
                lemma_resolved_grow(cond_uses(sv3), cond_uses(until@), pair_names(p1), pair_names(p2));
                lemma_resolved_grow(cond_uses(sv3), cond_uses(until@), pair_names(p2), d);
                lemma_resolved_concat(expr_uses(sv1), expr_uses(start@), expr_uses(sv2), expr_uses(step@), d);
                lemma_resolved_concat(expr_uses(sv1) + expr_uses(sv2), expr_uses(start@) + expr_uses(step@), cond_uses(sv3), cond_uses(until@), d);
                lemma_resolved_concat(expr_uses(sv1) + expr_uses(sv2) + cond_uses(sv3), expr_uses(start@) + expr_uses(step@) + cond_uses(until@), uses_all(bv), uses_all(stmts_view(body@)), d);
            }
            let r = Statement::For { variable, start, step, until, body };
            proof {
                assert(stmt_ssa_defs(r@) =~= seq![variable@] + ssa_defs(stmts_view(body@)));
                assert(stmt_ssa_defs(sv) =~= seq![sv->For_variable] + ssa_defs(bv));
            }
            r
        },
        other => other,
    }
}

fn rename_statement(s: Statement, st: &mut SsaRenameState) -> (r: Statement)
    requires
        old(st).wf(),
        old(st).pairs@.len() + size(s@) < usize::MAX,
    ensures
        final(st).wf(),
        erase(r@) == erase(s@),
        extends(old(st).pairs@, final(st).pairs@, stmt_ssa_defs(s@), stmt_ssa_defs(r@)),
        uses_resolved(stmt_uses(s@), stmt_uses(r@), pair_names(final(st).pairs@)),
        final(st).walk() == walk_stmt(old(st).walk(), s@).0,
        r@ == walk_stmt(old(st).walk(), s@).1,
    decreases s, 2nat,
{
    st.enter();
    let kind: u8 = match &s {
        Statement::Move { .. } | Statement::Compute { .. } => 0,
        Statement::If { .. } => 1,
        Statement::Perform { .. } | Statement::PerformUntil { .. } | Statement::PerformVarying { .. } => 2,
        Statement::For { .. } => 3,
        _ => 4,
    };
    if kind == 0 {
        rename_assign(s, st)
    } else if kind == 1 {
        rename_if(s, st)
    } else if kind == 2 {
        rename_loop(s, st)
    } else if kind == 3 {
        rename_for(s, st)
    } else {
        rename_simple(s, st)
    }
}

fn rename_statements(v: Vec<Statement>, st: &mut SsaRenameState) -> (r: Vec<Statement>)
    requires
        old(st).wf(),
        old(st).pairs@.len() + sizes(stmts_view(v@)) < usize::MAX,
    ensures
        final(st).wf(),
        erase_all(stmts_view(r@)) == erase_all(stmts_view(v@)),
        extends(old(st).pairs@, final(st).pairs@, ssa_defs(stmts_view(v@)), ssa_defs(stmts_view(r@))),
        uses_resolved(uses_all(stmts_view(v@)), uses_all(stmts_view(r@)), pair_names(final(st).pairs@)),
        final(st).walk() == walk_block(old(st).walk(), stmts_view(v@)).0,
        stmts_view(r@) == walk_block(old(st).walk(), stmts_view(v@)).1,
    decreases v, 0nat,
{
    let ghost vv = stmts_view(v@);
    let ghost p0 = st.pairs@;
    let ghost v0 = v@;
    let ghost w0 = st.walk();
    let mut rest = v;
    let mut out: Vec<Statement> = Vec::new();
    let ghost mut i: int = 0;
    proof {
        lemma_extends_none(p0);
        assert(vv.take(0) =~= Seq::<StatementV>::empty());
        assert(stmts_view(out@) =~= Seq::<StatementV>::empty());
        assert(uses_all(Seq::<StatementV>::empty()) == Seq::<Seq<char>>::empty());
        assert(rest@ =~= v0.skip(0));
        assert(vv.skip(0) =~= vv);
        assert(Seq::<StatementV>::empty() + walk_block(w0, vv).1 =~= walk_block(w0, vv).1);
    }
    while rest.len() > 0
        invariant
            0 <= i <= v0.len(),
            v0 == v@,
            vv == stmts_view(v0),
            rest@ == v0.skip(i),
            st.wf(),
            p0.len() + sizes(vv) < usize::MAX,
            st.pairs@.len() + sizes(vv.skip(i)) <= p0.len() + sizes(vv),
            erase_all(stmts_view(out@)) == erase_all(vv.take(i)),
            extends(p0, st.pairs@, ssa_defs(vv.take(i)), ssa_defs(stmts_view(out@))),
            uses_resolved(uses_all(vv.take(i)), uses_all(stmts_view(out@)), pair_names(st.pairs@)),
            walk_block(w0, vv).0 == walk_block(st.walk(), vv.skip(i)).0,
            walk_block(w0, vv).1 == stmts_view(out@) + walk_block(st.walk(), vv.skip(i)).1,
        decreases rest.len(),
    {
        let s = rest.remove(0);
        proof {
            assert(s == v0[i]);
            assert(decreases_to!(v => v@));
            assert(decreases_to!(v@ => v@[i]));
            assert(vv.skip(i)[0] == vv[i]);
            assert(vv.skip(i).drop_first() =~= vv.skip(i + 1));
            assert(sizes(vv.skip(i)) == size(vv[i]) + sizes(vv.skip(i + 1)));
        }
        let ghost p1 = st.pairs@;
        let ghost wi = st.walk();
        let r = rename_statement(s, st);
        let ghost o = out@;
        out.push(r);
        proof {
            let tail = walk_block(st.walk(), vv.skip(i + 1));
            assert(walk_block(wi, vv.skip(i)) == (tail.0, seq![r@] + tail.1));
            assert(stmts_view(out@) + tail.1 =~= stmts_view(o) + (seq![r@] + tail.1)) by {
                crate::ir::lemma_stmts_view_push(o, r);
            }
            assert(vv.take(i + 1) =~= vv.take(i) + seq![vv[i]]);
            crate::ir::lemma_stmts_view_push(o, r);
            assert(stmts_view(out@) =~= stmts_view(o) + seq![r@]);
            lemma_ssa_defs_append(vv.take(i), seq![vv[i]]);
            lemma_ssa_defs_append(stmts_view(o), seq![r@]);
            lemma_single(vv[i]);
            lemma_single(r@);
            lemma_extends_chain(p0, p1, st.pairs@, ssa_defs(vv.take(i)), ssa_defs(stmts_view(o)), stmt_ssa_defs(vv[i]), stmt_ssa_defs(r@));
            lemma_extends_grow(p1, st.pairs@, stmt_ssa_defs(vv[i]), stmt_ssa_defs(r@));
            lemma_resolved_grow(uses_all(vv.take(i)), uses_all(stmts_view(o)), pair_names(p1), pair_names(st.pairs@));
            lemma_uses_append(vv.take(i), seq![vv[i]]);
            lemma_uses_append(stmts_view(o), seq![r@]);
            lemma_uses_single(vv[i]);
            lemma_uses_single(r@);
            lemma_resolved_concat(uses_all(vv.take(i)), uses_all(stmts_view(o)), stmt_uses(vv[i]), stmt_uses(r@), pair_names(st.pairs@));
            lemma_defs_le_size(vv[i]);
            i = i + 1;
            assert(rest@ =~= v0.skip(i));
        }
    }
    proof {
        assert(vv.take(i) =~= vv);
        assert(vv.skip(i) =~= Seq::<StatementV>::empty());
        assert(stmts_view(out@) + Seq::<StatementV>::empty() =~= stmts_view(out@));
    }
    out
}


/// Whether each incoming value of a phi node comes from a CFG predecessor
/// of block `b`, is one of the names `defs`, and is a version of the base
/// name of `variable`.
pub open spec fn incoming_from(
    incoming: Seq<(usize, Seq<char>)>,
    b: nat,
    variable: Seq<char>,
    succ: Seq<Seq<usize>>,
    defs: Seq<Seq<char>>,
) -> bool {
    forall|j: int| #![trigger incoming[j]]
        0 <= j < incoming.len() ==> {
            &&& crate::cfg::is_pred(succ, incoming[j].0 as int, b as int)
            &&& defs.contains(incoming[j].1)
            &&& base_name(incoming[j].1) == base_name(variable)
        }
}

/// Whether every top-level phi node of `out` has incoming values as
/// `incoming_from` says, for the block `blocks` gives its position.
pub open spec fn phis_fed(out: Seq<StatementV>, blocks: Seq<nat>, succ: Seq<Seq<usize>>, defs: Seq<Seq<char>>) -> bool {
    forall|m: int| #![trigger out[m]]
        0 <= m < out.len() && out[m] is Phi ==> incoming_from(
            out[m]->Phi_incoming,
            blocks[m],
            out[m]->Phi_variable,
            succ,
            defs,
        )
}

/// The walk after the last statement: the scope of the block it ends in is
/// saved.
pub open spec fn walk_finish(w: Walk) -> Walk {
    Walk { scopes: w.scopes.update(w.block, w.cur), ..w }
}

/// The `(predecessor, version)` pairs of a phi node of base name `base` in
/// block `b`, among the first `n` blocks, in block order: each block `p`
/// that the walk entered, that has an edge to `b` in `succ`, and whose
/// scope saved at its end has a version of `base`, with that version.
pub open spec fn phi_inputs(w: Walk, succ: Seq<Seq<usize>>, b: nat, base: Seq<char>, n: int) -> Seq<(usize, Seq<char>)>
    decreases n,
{
    if n <= 0 {
        Seq::empty()
    } else {
        let prev = phi_inputs(w, succ, b, base, n - 1);
        let p = n - 1;
        if p < w.entered.len() && p < w.scopes.len() && w.entered[p] && p < succ.len() && succ[p].contains(b as usize) {
            match crate::names::value_of(w.scopes[p], base) {
                Some(v) => prev.push((p as usize, v)),
                None => prev,
            }
        } else {
            prev
        }
    }
}

/// Every top-level phi node of `out` has as incoming values the
/// `phi_inputs` of its block, which `blocks` gives, over all blocks.
pub open spec fn phis_exact(out: Seq<StatementV>, blocks: Seq<nat>, w: Walk, succ: Seq<Seq<usize>>) -> bool {
    forall|m: int| #![trigger out[m]]
        0 <= m < out.len() && out[m] is Phi ==> out[m]->Phi_incoming == phi_inputs(
            w,
            succ,
            blocks[m],
            base_name(out[m]->Phi_variable),
            succ.len() as int,
        )
}

proof fn lemma_inputs_upto(st: &SsaRenameState, cfg: &ControlFlowGraph, b: usize, base: Seq<char>, n: int)
    requires
        st.wf(),
        n <= cfg.blocks@.len(),
    ensures
        incoming_upto(st, cfg, b, base, n) == phi_inputs(st.walk(), crate::cfg::succ_model(cfg), b as nat, base, n),
    decreases n,
{
    if n > 0 {
        lemma_inputs_upto(st, cfg, b, base, n - 1);
        let p = n - 1;
        let w = st.walk();
        let succ = crate::cfg::succ_model(cfg);
        assert(succ[p] == cfg.blocks@[p].successors@);
        assert((b as nat) as usize == b);
        if p < st.saved@.len() {
            let e = st.saved@[p].entries();
            lemma_scope_view_index(e, base);
            crate::names::lemma_key_index(e, base);
            assert(w.scopes[p] == scope_view(e));
            match key_index(e, base) {
                Some(i) => {
                    assert(crate::names::lookup(e, base) == Some(e[i].1));
                    assert(crate::names::value_of(w.scopes[p], base) == Some(e[i].1@));
                },
                None => {
                    assert(crate::names::value_of(w.scopes[p], base) is None);
                },
            }
        }
    }
}

/// The `(predecessor, name)` pairs among the first `n` blocks: each block
/// `p` that was renamed, has an edge to `b`, and has a version of `base`
/// current at its end, with that version.
spec fn incoming_upto(st: &SsaRenameState, cfg: &ControlFlowGraph, b: usize, base: Seq<char>, n: int) -> Seq<(usize, Seq<char>)>
    decreases n,
{
    if n <= 0 {
        Seq::empty()
    } else {
        let prev = incoming_upto(st, cfg, b, base, n - 1);
        let p = n - 1;
        if p < st.entered@.len() && p < st.saved@.len() && st.entered@[p] && cfg.blocks@[p].successors@.contains(b) {
            match crate::names::lookup(st.saved@[p].entries(), base) {
                Some(v) => prev.push((p as usize, v@)),
                None => prev,
            }
        } else {
            prev
        }
    }
}

/// The `(predecessor, name)` pairs of a phi node at block `b` for
/// `variable`: every renamed predecessor of `b` at whose end a version of
/// the variable is current.
fn phi_incoming(st: &SsaRenameState, cfg: &ControlFlowGraph, b: usize, variable: &String) -> (r: Vec<(usize, String)>)
    requires
        st.wf(),
    ensures
        crate::ir::incoming_view(r@) == incoming_upto(st, cfg, b, base_name(variable@), cfg.blocks@.len() as int),
        crate::ir::incoming_view(r@) == phi_inputs(
            st.walk(),
            crate::cfg::succ_model(cfg),
            b as nat,
            base_name(variable@),
            cfg.blocks@.len() as int,
        ),
        incoming_from(
            crate::ir::incoming_view(r@),
            b as nat,
            variable@,
            crate::cfg::succ_model(cfg),
            pair_names(st.pairs@),
        ),
{
    let base = base_name_exec(variable);
    let mut r: Vec<(usize, String)> = Vec::new();
    let mut p: usize = 0;
    assert(crate::ir::incoming_view(r@) =~= incoming_upto(st, cfg, b, base@, 0));
    while p < cfg.blocks.len()
        invariant
            p <= cfg.blocks@.len(),
            st.wf(),
            base@ == base_name(variable@),
            crate::ir::incoming_view(r@) == incoming_upto(st, cfg, b, base@, p as int),
            incoming_from(
                crate::ir::incoming_view(r@),
                b as nat,
                variable@,
                crate::cfg::succ_model(cfg),
                pair_names(st.pairs@),
            ),
        decreases cfg.blocks@.len() - p,
    {
        if p < st.entered.len() && p < st.saved.len() && st.entered[p] && crate::cfg::contains_usize(
            &cfg.blocks[p].successors,
            b,
        ) {
            proof {
                crate::names::lemma_key_index(st.saved@[p as int].entries(), base@);
            }
            match st.saved[p].get_name(&base) {
                Some(v) => {
                    proof {
                        let e = st.saved@[p as int].entries();
                        let k = key_index(e, base@)->Some_0;
                        assert(scope_ok(e));
                        assert(scope_in(e, pair_names(st.pairs@)));
                        assert(base_name(e[k].1@) == e[k].0@);
                        assert(pair_names(st.pairs@).contains(e[k].1@));
                        assert(crate::cfg::succ_model(cfg)[p as int] == cfg.blocks@[p as int].successors@);
                    }
                    let ghost r0 = r@;
                    r.push((p, v.clone()));
                    proof {
                        assert(crate::ir::incoming_view(r@) =~= crate::ir::incoming_view(r0).push((p, v@)));
                    }
                },
                None => {},
            }
        }
        p = p + 1;
    }
    proof {
        lemma_inputs_upto(st, cfg, b, base@, cfg.blocks@.len() as int);
    }
    r
}

/// The statements with the incoming values of their top-level phi nodes
/// filled in, from the block `slots` gives each pre-order position.
fn fill_incoming(v: Vec<Statement>, st: &SsaRenameState, cfg: &ControlFlowGraph, slots: &Vec<usize>) -> (r: Vec<Statement>)
    requires
        st.wf(),
        slots@.len() == sizes(stmts_view(v@)),
        sizes(stmts_view(v@)) < usize::MAX,
    ensures
        erase_all(stmts_view(r@)) == erase_all(stmts_view(v@)),
        ssa_defs(stmts_view(r@)) == ssa_defs(stmts_view(v@)),
        uses_all(stmts_view(r@)) == uses_all(stmts_view(v@)),
        phis_fed(
            stmts_view(r@),
            Seq::new(v@.len(), |m: int| slots@[sizes(stmts_view(v@).take(m)) as int] as nat),
            crate::cfg::succ_model(cfg),
            pair_names(st.pairs@),
        ),
        phis_exact(
            stmts_view(r@),
            Seq::new(v@.len(), |m: int| slots@[sizes(stmts_view(v@).take(m)) as int] as nat),
            st.walk(),
            crate::cfg::succ_model(cfg),
        ),
{
    let ghost vv = stmts_view(v@);
    let ghost v0 = v@;
    let ghost blocks = Seq::new(v@.len(), |m: int| slots@[sizes(stmts_view(v@).take(m)) as int] as nat);
    let ghost succ = crate::cfg::succ_model(cfg);
    let ghost defs = pair_names(st.pairs@);
    let mut rest = v;
    let mut out: Vec<Statement> = Vec::new();
    let mut slot: usize = 0;
    let ghost mut i: int = 0;
    proof {
        assert(vv.take(0) =~= Seq::<StatementV>::empty());
        assert(stmts_view(out@) =~= Seq::<StatementV>::empty());
        assert(uses_all(Seq::<StatementV>::empty()) == Seq::<Seq<char>>::empty());
        assert(sizes(Seq::<StatementV>::empty()) == 0);
        assert(rest@ =~= v0.skip(0));
    }
    while rest.len() > 0
        invariant
            0 <= i <= v0.len(),
            vv == stmts_view(v0),
            rest@ == v0.skip(i),
            st.wf(),
            slots@.len() == sizes(vv),
            sizes(vv) < usize::MAX,
            blocks == Seq::new(v0.len(), |m: int| slots@[sizes(vv.take(m)) as int] as nat),
            succ == crate::cfg::succ_model(cfg),
            defs == pair_names(st.pairs@),
            slot == sizes(vv.take(i)),
            erase_all(stmts_view(out@)) == erase_all(vv.take(i)),
            ssa_defs(stmts_view(out@)) == ssa_defs(vv.take(i)),
            uses_all(stmts_view(out@)) == uses_all(vv.take(i)),
            stmts_view(out@).len() == i,
            phis_fed(stmts_view(out@), blocks, succ, defs),
            phis_exact(stmts_view(out@), blocks, st.walk(), succ),
        decreases rest.len(),
    {
        assert(rest@.len() == v0.len() - i);
        let s = rest.remove(0);
        let ghost s_view = s@;
        proof {
            assert(s == v0[i]);
            crate::ir::lemma_stmts_view(v0);
            assert(stmts_view(v0)[i] == crate::ir::stmt_view(v0[i]));
            assert(s_view == vv[i]);
            lemma_sizes_take(vv, i);
        }
        let size = statement_size(&s);
        let here = slot;
        slot = slot + size;
        let r = match s {
            Statement::Phi { variable, incoming } => {
                let incoming = phi_incoming(st, cfg, slots[here], &variable);
                let r = Statement::Phi { variable, incoming };
                assert(erase(r@) == erase(s_view));
                assert(stmt_ssa_defs(r@) =~= stmt_ssa_defs(s_view));
                assert(blocks[i] == slots@[here as int] as nat);
                r
            },
            other => other,
        };
        let ghost o = out@;
        out.push(r);
        proof {
            assert(erase(r@) == erase(vv[i]));
            assert(stmt_ssa_defs(r@) =~= stmt_ssa_defs(vv[i]));
            assert(vv.take(i + 1) =~= vv.take(i) + seq![vv[i]]);
            crate::ir::lemma_stmts_view_push(o, r);
            assert(stmts_view(out@) =~= stmts_view(o) + seq![r@]);
            lemma_ssa_defs_append(vv.take(i), seq![vv[i]]);
            lemma_ssa_defs_append(stmts_view(o), seq![r@]);
            lemma_single(vv[i]);
            lemma_single(r@);
            assert(stmt_uses(r@) == stmt_uses(vv[i]));
            lemma_uses_append(vv.take(i), seq![vv[i]]);
            lemma_uses_append(stmts_view(o), seq![r@]);
            lemma_uses_single(vv[i]);
            lemma_uses_single(r@);
            assert forall|m: int| #![trigger stmts_view(out@)[m]]
                0 <= m < stmts_view(out@).len() && stmts_view(out@)[m] is Phi implies incoming_from(
                    stmts_view(out@)[m]->Phi_incoming,
                    blocks[m],
                    stmts_view(out@)[m]->Phi_variable,
                    succ,
                    defs,
                ) by {
                if m < i {
                    assert(stmts_view(out@)[m] == stmts_view(o)[m]);
                }
            }
            assert forall|m: int| #![trigger stmts_view(out@)[m]]
                0 <= m < stmts_view(out@).len() && stmts_view(out@)[m] is Phi implies stmts_view(out@)[m]->Phi_incoming
                    == phi_inputs(
                    st.walk(),
                    succ,
                    blocks[m],
                    base_name(stmts_view(out@)[m]->Phi_variable),
                    succ.len() as int,
                ) by {
                if m < i {
                    assert(stmts_view(out@)[m] == stmts_view(o)[m]);
                }
            }
            i = i + 1;
            assert(rest@ =~= v0.skip(i));
        }
    }
    proof {
        assert(vv.take(i) =~= vv);
    }
    out
}

/// The size of a statement, if it fits in a `usize`.
pub fn checked_size(s: &Statement) -> (r: Option<usize>)
    ensures
        r matches Some(n) ==> n == size(s@),
        r is None ==> size(s@) > usize::MAX,
    decreases s, 1nat,
{
    match s {
        Statement::If { then_branch, else_branch, .. } => {
            let t = checked_sizes(then_branch);
            match (t, else_branch) {
                (Some(t), Some(e)) => {
                    proof {
                        assert(decreases_to!(*s => *else_branch));
                    }
                    match checked_sizes(e) {
                        Some(k) => if t < usize::MAX && k <= usize::MAX - 1 - t {
                            Some(1 + t + k)
                        } else {
                            None
                        },
                        None => None,
                    }
                },
                (Some(t), None) => if t < usize::MAX {
                    Some(1 + t)
                } else {
                    None
                },
                (None, _) => None,
            }
        },
        Statement::Perform { body, .. } | Statement::PerformUntil { body, .. }
        | Statement::PerformVarying { body, .. } | Statement::For { body, .. } => {
            match checked_sizes(body) {
                Some(t) => if t < usize::MAX {
                    Some(1 + t)
                } else {
                    None
                },
                None => None,
            }
        },
        _ => Some(1),
    }
}

/// The total size of a statement sequence, if it fits in a `usize`.
pub fn checked_sizes(v: &Vec<Statement>) -> (r: Option<usize>)
    ensures
        r matches Some(n) ==> n == sizes(stmts_view(v@)),
        r is None ==> sizes(stmts_view(v@)) > usize::MAX,
    decreases v, 0nat,
{
    let ghost sv = stmts_view(v@);
    let mut total: usize = 0;
    let mut i: usize = 0;
    assert(sv.skip(0) == sv);
    while i < v.len()
        invariant
            i <= v@.len(),
            sv == stmts_view(v@),
            total + sizes(sv.skip(i as int)) == sizes(sv),
        decreases v.len() - i,
    {
        proof {
            assert(sv.skip(i as int)[0] == sv[i as int]);
            assert(sv.skip(i as int).drop_first() =~= sv.skip(i + 1));
            assert(decreases_to!(*v => v@));
        }
        match checked_size(&v[i]) {
            Some(k) => if total <= usize::MAX - k {
                total = total + k;
            } else {
                return None;
            },
            None => {
                return None;
            },
        }
        i = i + 1;
    }
    assert(sv.skip(i as int).len() == 0);
    Some(total)
}

/// `name` is a version of `base`: `base_n` for some number `n`.
pub open spec fn is_version_of(name: Seq<char>, base: Seq<char>) -> bool {
    exists|n: nat| name == #[trigger] versioned(base, n)
}

/// `out` renames the definitions of `src` one for one: each keeps its base
/// name and gets a version, no two definitions of `out` share a name, and
/// the `k`-th definition in pre-order gets as its version the number of
/// definitions of the same base name before it.
pub open spec fn renamed_defs(src: Seq<StatementV>, out: Seq<StatementV>) -> bool {
    &&& ssa_defs(out).len() == ssa_defs(src).len()
    &&& forall|k: int|
        0 <= k < ssa_defs(src).len() ==> is_version_of(#[trigger] ssa_defs(out)[k], base_name(ssa_defs(src)[k]))
    &&& forall|k1: int, k2: int|
        0 <= k1 < k2 < ssa_defs(out).len() ==> #[trigger] ssa_defs(out)[k1] != #[trigger] ssa_defs(out)[k2]
    &&& forall|k: int|
        0 <= k < ssa_defs(src).len() ==> #[trigger] ssa_defs(out)[k] == versioned(
            base_name(ssa_defs(src)[k]),
            def_version(ssa_defs(src), k),
        )
}

/// Renames the definitions and uses of a program with phi nodes along the
/// dominator tree of `cfg`; `slot_blocks` gives the block of every
/// statement in pre-order.
proof fn lemma_erase_len(s: Seq<StatementV>)
    ensures
        erase_all(s).len() == s.len(),
        forall|k: int| 0 <= k < s.len() ==> #[trigger] erase_all(s)[k] == erase(s[k]),
    decreases s.len(),
{
    if s.len() > 0 {
        lemma_erase_len(s.drop_first());
        assert forall|k: int| 0 <= k < s.len() implies #[trigger] erase_all(s)[k] == erase(s[k]) by {
            if k > 0 {
                assert(erase_all(s)[k] == erase_all(s.drop_first())[k - 1]);
            }
        }
    }
}

proof fn lemma_size_erase(x: StatementV)
    ensures
        size(erase(x)) == size(x),
    decreases x, 1nat,
{
    match x {
        StatementV::If { then_branch, else_branch, .. } => {
            lemma_sizes_erase(then_branch);
            match else_branch {
                Some(e) => lemma_sizes_erase(e),
                None => {},
            }
        },
        StatementV::Perform { body, .. } => lemma_sizes_erase(body),
        StatementV::PerformUntil { body, .. } => lemma_sizes_erase(body),
        StatementV::PerformVarying { body, .. } => lemma_sizes_erase(body),
        StatementV::For { body, .. } => lemma_sizes_erase(body),
        _ => {},
    }
}

proof fn lemma_sizes_erase(s: Seq<StatementV>)
    ensures
        sizes(erase_all(s)) == sizes(s),
    decreases s, 0nat,
{
    if s.len() > 0 {
        lemma_size_erase(s[0]);
        lemma_sizes_erase(s.drop_first());
        let e = erase_all(s);
        assert(e[0] == erase(s[0]));
        assert(e.drop_first() =~= erase_all(s.drop_first()));
    }
}

/// Programs that differ only in names have the same pre-order sizes at
/// every top-level prefix.
proof fn lemma_erase_sizes_prefix(a: Seq<StatementV>, b: Seq<StatementV>, m: int)
    requires
        erase_all(a) == erase_all(b),
        0 <= m <= a.len(),
    ensures
        a.len() == b.len(),
        sizes(a.take(m)) == sizes(b.take(m)),
{
    lemma_erase_len(a);
    lemma_erase_len(b);
    lemma_erase_len(a.take(m));
    lemma_erase_len(b.take(m));
    assert(erase_all(a.take(m)) =~= erase_all(b.take(m))) by {
        assert forall|k: int| 0 <= k < m implies erase_all(a.take(m))[k] == erase_all(b.take(m))[k] by {
            assert(a.take(m)[k] == a[k]);
            assert(b.take(m)[k] == b[k]);
            assert(erase_all(a.take(m))[k] == erase(a[k]));
            assert(erase_all(b.take(m))[k] == erase(b[k]));
            assert(erase_all(a)[k] == erase(a[k]));
            assert(erase_all(b)[k] == erase(b[k]));
            assert(erase_all(a)[k] == erase_all(b)[k]);
        }
    }
    lemma_sizes_erase(a.take(m));
    lemma_sizes_erase(b.take(m));
}

fn copy_usizes(v: &Vec<usize>) -> (r: Vec<usize>)
    ensures
        r@ == v@,
{
    let mut r: Vec<usize> = Vec::new();
    let mut i: usize = 0;
    while i < v.len()
        invariant
            i <= v@.len(),
            r@ == v@.take(i as int),
        decreases v.len() - i,
    {
        r.push(v[i]);
        assert(r@ =~= v@.take(i + 1));
        i = i + 1;
    }
    assert(v@.take(i as int) =~= v@);
    r
}

pub(crate) fn rename_program(ins: Program, slot_blocks: Vec<usize>, cfg: &ControlFlowGraph) -> (r: Program)
    requires
        sizes(stmts_view(ins.statements@)) < usize::MAX,
        slot_blocks@.len() == sizes(stmts_view(ins.statements@)),
    ensures
        phis_fed(
            r@.statements,
            Seq::new(ins@.statements.len(), |m: int| slot_blocks@[sizes(ins@.statements.take(m)) as int] as nat),
            crate::cfg::succ_model(cfg),
            ssa_defs(r@.statements),
        ),
        r@.variables == ins@.variables,
        r@.paragraphs == ins@.paragraphs,
        erase_all(r@.statements) == erase_all(ins@.statements),
        renamed_defs(ins@.statements, r@.statements),
        uses_resolved(uses_all(ins@.statements), uses_all(r@.statements), ssa_defs(r@.statements)),
        uses_all(r@.statements) == uses_all(walk_block(start_walk(cfg, nat_view(slot_blocks@)), ins@.statements).1),
        phis_exact(
            r@.statements,
            Seq::new(ins@.statements.len(), |m: int| slot_blocks@[sizes(ins@.statements.take(m)) as int] as nat),
            walk_finish(walk_block(start_walk(cfg, nat_view(slot_blocks@)), ins@.statements).0),
            crate::cfg::succ_model(cfg),
        ),
{
    let ghost src = stmts_view(ins.statements@);
    let slots = copy_usizes(&slot_blocks);
    let mut st = SsaRenameState::new(cfg, slot_blocks);
    let Program { variables, paragraphs, statements } = ins;
    let ghost walked = walk_block(st.walk(), stmts_view(statements@)).1;
    let renamed = rename_statements(statements, &mut st);
    st.finish();
    proof {
        lemma_sizes_erase(stmts_view(renamed@));
        lemma_sizes_erase(src);
    }
    let filled = fill_incoming(renamed, &st, cfg, &slots);
    let r = Program { variables, paragraphs, statements: filled };
    proof {
        let ps = st.pairs@;
        let out = stmts_view(filled@);
        assert(ps.skip(0) =~= ps);
        assert(ssa_defs(out) == pair_names(ps));
        assert(ps.len() == ssa_defs(src).len());
        assert(ssa_defs(out).len() == ssa_defs(src).len());
        assert forall|k: int| 0 <= k < ssa_defs(src).len() implies is_version_of(#[trigger] ssa_defs(out)[k], base_name(ssa_defs(src)[k])) by {
            assert(ps[0 + k].0 == base_name(ssa_defs(src)[k]));
            assert(ssa_defs(out)[k] == versioned(ps[k].0, ps[k].1));
        }
        assert forall|k1: int, k2: int| 0 <= k1 < k2 < ssa_defs(out).len() implies #[trigger] ssa_defs(out)[k1] != #[trigger] ssa_defs(out)[k2] by {
            if ssa_defs(out)[k1] == ssa_defs(out)[k2] {
                lemma_versioned_injective(ps[k1].0, ps[k1].1, ps[k2].0, ps[k2].1);
                assert(ps[k1] == ps[k2]);
            }
        }
        assert forall|k: int| 0 <= k < ssa_defs(src).len() implies #[trigger] ssa_defs(out)[k] == versioned(
            base_name(ssa_defs(src)[k]),
            def_version(ssa_defs(src), k),
        ) by {
            reveal(counts_ok);
            assert(ps[0 + k].0 == base_name(ssa_defs(src)[k]));
            assert forall|i: int| 0 <= i < k implies #[trigger] ps[i].0 == base_name(ssa_defs(src)[i]) by {
                assert(ps[0 + i].0 == base_name(ssa_defs(src)[i]));
            }
            lemma_count_pairs(ps, ssa_defs(src), k, ps[k].0);
            assert(ps[k].1 == count_base(ps.take(k), ps[k].0));
        }
        assert(renamed_defs(src, out));
        assert(uses_all(stmts_view(renamed@)) == uses_all(out));
        assert(stmts_view(renamed@) == walked);
        assert(uses_resolved(uses_all(src), uses_all(out), pair_names(ps)));
        let rv = stmts_view(renamed@);
        lemma_sizes_erase(rv);
        lemma_sizes_erase(src);
        assert(sizes(rv) == sizes(src));
        let b1 = Seq::new(rv.len(), |m: int| slots@[sizes(rv.take(m)) as int] as nat);
        let b2 = Seq::new(src.len(), |m: int| slot_blocks@[sizes(src.take(m)) as int] as nat);
        lemma_erase_len(rv);
        lemma_erase_len(src);
        assert forall|m: int| 0 <= m < b1.len() implies b1[m] == b2[m] by {
            lemma_erase_sizes_prefix(rv, src, m);
        }
        assert(b1 =~= b2);
        assert(r@.statements == out);
        assert(ins@.statements == src);
    }
    r
}

/// `cfg` is the control-flow graph of `program` as `ControlFlowGraph::build`
/// describes it.
pub open spec fn built_from(cfg: &ControlFlowGraph, program: Program) -> bool {
    &&& crate::cfg::well_formed(cfg)
    &&& crate::cfg::cfg_blocks_view(cfg) == crate::cfg::split_blocks(stmts_view(program.statements@))
    &&& crate::cfg::succ_model(cfg) == crate::cfg::block_successors(crate::cfg::cfg_blocks_view(cfg))
    &&& exists|d: Seq<Seq<bool>>| #[trigger]
        crate::cfg::is_greatest_dom(crate::cfg::succ_model(cfg), d) && forall|b: int|
            0 <= b < cfg.blocks@.len() ==> crate::cfg::picks_idom(d, b, #[trigger] cfg.blocks@[b].idom)
    &&& forall|p: int|
        0 <= p < cfg.blocks@.len() ==> #[trigger] cfg.blocks@[p].dom_children@ == crate::cfg::children_of(
            crate::cfg::idom_model(cfg),
            p,
        )
    &&& crate::cfg::is_frontier(crate::cfg::succ_model(cfg), crate::cfg::idom_model(cfg), crate::cfg::frontier_model(cfg))
}

/// What SSA conversion makes of `old`: `cfg` is its control-flow graph,
/// `groups` its phi nodes; the result differs from the program with those
/// phi nodes only in the incoming values of phi nodes and in the names it
/// reads and defines, each of which keeps its base name; and when its size
/// fits, every definition is renamed to a distinct version of its base
/// name (the `k`-th definition of a base name gets version `k`), every
/// name read is the version current for its base name where the walk over
/// the dominator tree reads it (`walk_block`), which is either the name as
/// it was or the name of one of those definitions, and every incoming value
/// of a top-level phi node
/// comes from a CFG predecessor of the phi node's block and is one of
/// those definitions, a version of the phi variable's base name; the
/// incoming values are exactly, in block order, the versions current at
/// the end of each predecessor that was renamed and has one (`phi_inputs`).
pub open spec fn ssa_result(old: Program, cfg: ControlFlowGraph, groups: Seq<Seq<Seq<char>>>, new: Program) -> bool {
    let ins = with_phis(old@.statements, groups);
    let walked = walk_block(start_walk(&cfg, phi_slots(old@.statements, groups, old@.statements.len() as int)), ins);
    &&& built_from(&cfg, old)
    &&& phi_placement(old, &cfg, groups)
    &&& new@.variables == old@.variables
    &&& new@.paragraphs == old@.paragraphs
    &&& erase_all(new@.statements) == erase_all(ins)
    &&& sizes(ins) < usize::MAX ==> renamed_defs(ins, new@.statements)
    &&& sizes(ins) < usize::MAX ==> uses_resolved(uses_all(ins), uses_all(new@.statements), ssa_defs(new@.statements))
    &&& sizes(ins) < usize::MAX ==> uses_all(new@.statements) == uses_all(walked.1)
    &&& sizes(ins) < usize::MAX ==> phis_exact(
        new@.statements,
        phi_blocks(old@.statements, groups, old@.statements.len() as int),
        walk_finish(walked.0),
        crate::cfg::succ_model(&cfg),
    )
    &&& sizes(ins) < usize::MAX ==> phis_fed(
        new@.statements,
        phi_blocks(old@.statements, groups, old@.statements.len() as int),
        crate::cfg::succ_model(&cfg),
        ssa_defs(new@.statements),
    )
}

} // verus!
