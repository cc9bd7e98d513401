//! Per-block data flow: the variables a block reads before writing them,
//! and the variables it writes.
use crate::cfg::{BasicBlock, ControlFlowGraph};
use crate::ir::{stmts_view, Source, SourceV, Statement, StatementV};
use crate::names::NameSet;
use vstd::prelude::*;

verus! {

broadcast use vstd::std_specs::vec::group_vec_axioms, crate::ir::lemma_stmts_view;

/// For every block, the names it reads before writing them (`live_in`)
/// and the names it writes (`live_out`).
#[derive(Debug)]
pub struct DataFlowResult {
    pub live_in: Vec<NameSet>,
    pub live_out: Vec<NameSet>,
}

pub open spec fn sets_view(v: Seq<NameSet>) -> Seq<Seq<Seq<char>>> {
    Seq::new(v.len(), |i: int| v[i].members())
}

/// Adds a name unless it is there already.
pub open spec fn set_add(x: Seq<Seq<char>>, v: Seq<char>) -> Seq<Seq<char>> {
    if x.contains(v) {
        x
    } else {
        x.push(v)
    }
}

/// The reads and writes after one more statement: a move from a variable
/// not yet written reads it; moves, computations and arithmetic write
/// their target.
pub open spec fn ud_step(ud: (Seq<Seq<char>>, Seq<Seq<char>>), s: StatementV) -> (Seq<Seq<char>>, Seq<Seq<char>>) {
    match s {
        StatementV::Move { source, target } => {
            let u = match source {
                SourceV::Variable(v) => if ud.1.contains(v) {
                    ud.0
                } else {
                    set_add(ud.0, v)
                },
                _ => ud.0,
            };
            (u, set_add(ud.1, target))
        },
        StatementV::Compute { target, .. } => (ud.0, set_add(ud.1, target)),
        StatementV::Add { target, .. } => (ud.0, set_add(ud.1, target)),
        StatementV::Subtract { target, .. } => (ud.0, set_add(ud.1, target)),
        StatementV::Multiply { target, .. } => (ud.0, set_add(ud.1, target)),
        StatementV::Divide { target, .. } => (ud.0, set_add(ud.1, target)),
        _ => ud,
    }
}

/// The reads and writes of a statement sequence.
pub open spec fn use_def(ss: Seq<StatementV>) -> (Seq<Seq<char>>, Seq<Seq<char>>)
    decreases ss.len(),
{
    if ss.len() == 0 {
        (Seq::empty(), Seq::empty())
    } else {
        ud_step(use_def(ss.drop_last()), ss.last())
    }
}

/// The first block, among the first `j`, whose id is `k`.
pub open spec fn first_with_id(ids: Seq<usize>, k: int, j: int) -> Option<int>
    decreases j,
{
    if j <= 0 {
        None
    } else {
        match first_with_id(ids, k, j - 1) {
            Some(x) => Some(x),
            None => if 0 <= j - 1 < ids.len() && ids[j - 1] == k {
                Some(j - 1)
            } else {
                None
            },
        }
    }
}

pub open spec fn ids_of(cfg: &ControlFlowGraph) -> Seq<usize> {
    Seq::new(cfg.blocks@.len(), |i: int| cfg.blocks@[i].id)
}

pub open spec fn block_ud(cfg: &ControlFlowGraph, j: int) -> (Seq<Seq<char>>, Seq<Seq<char>>) {
    use_def(stmts_view(cfg.blocks@[j].statements@))
}

impl DataFlowResult {
    /// Empty sets for `blocks` blocks.
    pub fn new(blocks: usize) -> (r: Self)
        ensures
            r.live_in@.len() == blocks,
            r.live_out@.len() == blocks,
            forall|k: int| 0 <= k < blocks ==> #[trigger] r.live_in@[k].members().len() == 0,
            forall|k: int| 0 <= k < blocks ==> #[trigger] r.live_out@[k].members().len() == 0,
    {
        let mut live_in: Vec<NameSet> = Vec::new();
        let mut live_out: Vec<NameSet> = Vec::new();
        let mut i: usize = 0;
        while i < blocks
            invariant
                i <= blocks,
                live_in@.len() == i,
                live_out@.len() == i,
                forall|k: int| 0 <= k < i ==> #[trigger] live_in@[k].members().len() == 0,
                forall|k: int| 0 <= k < i ==> #[trigger] live_out@[k].members().len() == 0,
            decreases blocks - i,
        {
            live_in.push(NameSet::new());
            live_out.push(NameSet::new());
            i = i + 1;
        }
        DataFlowResult { live_in, live_out }
    }
}

fn add_name(set: &mut NameSet, name: &String)
    ensures
        final(set).members() == set_add(old(set).members(), name@),
{
    let _ = set.insert(name.clone());
}

fn compute_use_def(block: &BasicBlock) -> (r: (NameSet, NameSet))
    ensures
        (r.0.members(), r.1.members()) == use_def(stmts_view(block.statements@)),
{
    let ghost sv = stmts_view(block.statements@);
    let mut uses = NameSet::new();
    let mut defs = NameSet::new();
    let mut i: usize = 0;
    assert(sv.take(0) =~= Seq::<StatementV>::empty());
    while i < block.statements.len()
        invariant
            i <= block.statements@.len(),
            sv == stmts_view(block.statements@),
            (uses.members(), defs.members()) == use_def(sv.take(i as int)),
        decreases block.statements.len() - i,
    {
        proof {
            assert(sv.take(i + 1).drop_last() =~= sv.take(i as int));
            assert(sv.take(i + 1).last() == sv[i as int]);
            crate::ir::lemma_stmts_view(block.statements@);
            assert(stmts_view(block.statements@)[i as int] == crate::ir::stmt_view(block.statements@[i as int]));
        }
        let ghost prev = (uses.members(), defs.members());
        match &block.statements[i] {
            Statement::Move { source, target } => {
                match source {
                    Source::Variable(v) => {
                        if !defs.contains(v) {
                            add_name(&mut uses, v);
                        }
                    },
                    _ => {},
                }
                add_name(&mut defs, target);
                assert((uses.members(), defs.members()) == ud_step(prev, sv[i as int]));
            },
            Statement::Compute { target, .. } | Statement::Add { target, .. } | Statement::Subtract {
                target,
                ..
            } | Statement::Multiply { target, .. } | Statement::Divide { target, .. } => {
                add_name(&mut defs, target);
            },
            _ => {},
        }
        i = i + 1;
    }
    assert(sv.take(i as int) =~= sv);
    (uses, defs)
}

/// Whether every block's id names a block of the graph.
pub open spec fn ids_in_range(cfg: &ControlFlowGraph) -> bool {
    forall|j: int| 0 <= j < cfg.blocks@.len() ==> #[trigger] cfg.blocks@[j].id < cfg.blocks@.len()
}

/// The reads and writes of every block, stored at the block's id; when
/// two blocks share an id, the first of them counts, and an id that no
/// block has keeps empty sets.
pub fn analyze(cfg: &ControlFlowGraph) -> (r: DataFlowResult)
    requires
        ids_in_range(cfg),
    ensures
        r.live_in@.len() == cfg.blocks@.len(),
        r.live_out@.len() == cfg.blocks@.len(),
        forall|k: int|
            0 <= k < cfg.blocks@.len() ==> (#[trigger] r.live_in@[k].members(), r.live_out@[k].members()) == match first_with_id(
                ids_of(cfg),
                k,
                cfg.blocks@.len() as int,
            ) {
                Some(j) => block_ud(cfg, j),
                None => (Seq::empty(), Seq::empty()),
            },
{
    let n = cfg.blocks.len();
    let mut result = DataFlowResult::new(n);
    let mut written: Vec<bool> = Vec::new();
    let mut t: usize = 0;
    while t < n
        invariant
            t <= n,
            written@.len() == t,
            forall|k: int| 0 <= k < t ==> !#[trigger] written@[k],
        decreases n - t,
    {
        written.push(false);
        t = t + 1;
    }
    let ghost ids = ids_of(cfg);
    let mut j: usize = 0;
    while j < n
        invariant
            j <= n,
            n == cfg.blocks@.len(),
            ids == ids_of(cfg),
            ids_in_range(cfg),
            written@.len() == n,
            result.live_in@.len() == n,
            result.live_out@.len() == n,
            forall|k: int| 0 <= k < n ==> (#[trigger] written@[k] <==> first_with_id(ids, k, j as int) is Some),
            forall|k: int|
                0 <= k < n ==> (#[trigger] result.live_in@[k].members(), result.live_out@[k].members()) == match first_with_id(
                    ids,
                    k,
                    j as int,
                ) {
                    Some(jj) => block_ud(cfg, jj),
                    None => (Seq::<Seq<char>>::empty(), Seq::<Seq<char>>::empty()),
                },
        decreases n - j,
    {
        let block = &cfg.blocks[j];
        let k = block.id;
        proof {
            assert(ids[j as int] == k);
            assert forall|kk: int| 0 <= kk < n implies #[trigger] first_with_id(ids, kk, j + 1) == match first_with_id(ids, kk, j as int) {
                Some(x) => Some(x),
                None => if ids[j as int] == kk { Some(j as int) } else { None },
            } by {}
        }
        if !written[k] {
            let (uses, defs) = compute_use_def(block);
            let ghost li = result.live_in@;
            let ghost lo = result.live_out@;
            let ghost before_in = sets_view(result.live_in@);
            result.live_in.set(k, uses);
            result.live_out.set(k, defs);
            written.set(k, true);
            proof {
                assert forall|kk: int| 0 <= kk < n && kk != k implies #[trigger] result.live_in@[kk] == li[kk] && result.live_out@[kk] == lo[kk] by {}
            }
        }
        j = j + 1;
    }
    result
}

} // verus!
