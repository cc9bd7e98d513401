//! Control-flow graph of a program: basic blocks, successors, dominators,
//! the dominator tree and dominance frontiers.
use crate::ir::{Statement, StatementV, stmts_view};
use vstd::prelude::*;

verus! {

broadcast use vstd::std_specs::vec::group_vec_axioms;

#[derive(Debug)]
pub struct BasicBlock {
    pub id: usize,
    pub statements: Vec<Statement>,
    pub successors: Vec<usize>,
    pub idom: Option<usize>,
    pub dom_children: Vec<usize>,
    pub dominance_frontier: Vec<usize>,
}

#[derive(Debug)]
pub struct ControlFlowGraph {
    pub blocks: Vec<BasicBlock>,
}

// ---------------------------------------------------------------------
// Graph model
// ---------------------------------------------------------------------

/// Successor lists, indexed by block.
pub open spec fn succ_model(cfg: &ControlFlowGraph) -> Seq<Seq<usize>> {
    Seq::new(cfg.blocks@.len(), |i: int| cfg.blocks@[i].successors@)
}

/// Immediate dominators, indexed by block.
pub open spec fn idom_model(cfg: &ControlFlowGraph) -> Seq<Option<usize>> {
    Seq::new(cfg.blocks@.len(), |i: int| cfg.blocks@[i].idom)
}

/// Every block carries its own index as id and every successor names a
/// block of the graph.
pub open spec fn well_formed(cfg: &ControlFlowGraph) -> bool {
    &&& forall|i: int| 0 <= i < cfg.blocks@.len() ==> #[trigger] cfg.blocks@[i].id == i
    &&& forall|i: int, k: int|
        0 <= i < cfg.blocks@.len() && 0 <= k < cfg.blocks@[i].successors@.len()
            ==> #[trigger] cfg.blocks@[i].successors@[k] < cfg.blocks@.len()
}

/// Block `p` has an edge to block `b`.
pub open spec fn is_pred(succ: Seq<Seq<usize>>, p: int, b: int) -> bool {
    0 <= p < succ.len() && succ[p].contains(b as usize)
}

pub open spec fn has_preds(succ: Seq<Seq<usize>>, b: int) -> bool {
    exists|p: int| is_pred(succ, p, b)
}

/// The dominator equation at block `b`, evaluated on candidate sets `d`:
/// `b` itself together with what every predecessor's set holds.
pub open spec fn dom_step(succ: Seq<Seq<usize>>, d: Seq<Seq<bool>>, b: int, x: int) -> bool {
    x == b || forall|p: int| is_pred(succ, p, b) ==> #[trigger] d[p][x]
}

pub open spec fn square(d: Seq<Seq<bool>>, n: int) -> bool {
    d.len() == n && forall|b: int| 0 <= b < n ==> #[trigger] d[b].len() == n
}

/// `d` solves the dominator equations: the entry is dominated by itself
/// alone, and every other block with a predecessor is dominated by itself
/// and by what dominates all of its predecessors.
pub open spec fn is_dom_solution(succ: Seq<Seq<usize>>, d: Seq<Seq<bool>>) -> bool {
    let n = succ.len() as int;
    &&& square(d, n)
    &&& n > 0 ==> forall|x: int| 0 <= x < n ==> d[0][x] == (x == 0)
    &&& forall|b: int, x: int|
        1 <= b < n && 0 <= x < n && has_preds(succ, b) ==> #[trigger] d[b][x] == dom_step(
            succ,
            d,
            b,
            x,
        )
}

/// `d` holds every solution of the dominator equations.
pub open spec fn is_greatest_dom(succ: Seq<Seq<usize>>, d: Seq<Seq<bool>>) -> bool {
    &&& is_dom_solution(succ, d)
    &&& forall|s: Seq<Seq<bool>>| #[trigger]
        is_dom_solution(succ, s) ==> forall|b: int, x: int|
            0 <= b < succ.len() && 0 <= x < succ.len() && s[b][x] ==> #[trigger] d[b][x]
}

// ---------------------------------------------------------------------
// Construction
// ---------------------------------------------------------------------

impl ControlFlowGraph {
    /// A graph with no blocks.
    pub fn new() -> (r: Self)
        ensures
            r.blocks@.len() == 0,
    {
        Self { blocks: Vec::new() }
    }
}

/// The blocks that have an edge to `block`, in block order.
pub fn predecessors(cfg: &ControlFlowGraph, block: usize) -> (r: Vec<usize>)
    requires
        well_formed(cfg),
    ensures
        forall|k: int| 0 <= k < r@.len() ==> is_pred(succ_model(cfg), #[trigger] r@[k] as int, block as int),
        forall|p: int| is_pred(succ_model(cfg), p, block as int) ==> #[trigger] r@.contains(p as usize),
        forall|k: int, j: int| 0 <= k < j < r@.len() ==> r@[k] < r@[j],
{
    let mut preds: Vec<usize> = Vec::new();
    let mut i: usize = 0;
    while i < cfg.blocks.len()
        invariant
            i <= cfg.blocks@.len(),
            well_formed(cfg),
            forall|k: int| 0 <= k < preds@.len() ==> is_pred(succ_model(cfg), #[trigger] preds@[k] as int, block as int),
            forall|k: int| 0 <= k < preds@.len() ==> #[trigger] preds@[k] < i,
            forall|p: int| 0 <= p < i && is_pred(succ_model(cfg), p, block as int) ==> #[trigger] preds@.contains(p as usize),
            forall|k: int, j: int| 0 <= k < j < preds@.len() ==> preds@[k] < preds@[j],
        decreases cfg.blocks.len() - i,
    {
        let b = &cfg.blocks[i];
        let mut found = false;
        let mut k: usize = 0;
        while k < b.successors.len()
            invariant
                k <= b.successors@.len(),
                found == b.successors@.take(k as int).contains(block),
            decreases b.successors.len() - k,
        {
            let ghost before = b.successors@.take(k as int);
            assert(b.successors@.take(k + 1) == before.push(b.successors@[k as int]));
            if b.successors[k] == block {
                found = true;
                assert(b.successors@.take(k + 1)[k as int] == block);
            } else {
                proof {
                    if b.successors@.take(k + 1).contains(block) {
                        let w = choose|w: int| 0 <= w < k + 1 && #[trigger] b.successors@.take(k + 1)[w] == block;
                        assert(before[w] == block);
                    }
                }
            }
            k = k + 1;
        }
        assert(b.successors@.take(b.successors@.len() as int) == b.successors@);
        assert(succ_model(cfg)[i as int] == b.successors@);
        if found {
            let ghost old_preds = preds@;
            preds.push(b.id);
            proof {
                assert(b.id == i);
                assert forall|p: int| 0 <= p < i + 1 && is_pred(succ_model(cfg), p, block as int) implies #[trigger] preds@.contains(p as usize) by {
                    if p < i {
                        assert(old_preds.contains(p as usize));
                        let w = choose|w: int| 0 <= w < old_preds.len() && old_preds[w] == p as usize;
                        assert(preds@[w] == p as usize);
                    } else {
                        assert(preds@[old_preds.len() as int] == p as usize);
                    }
                }
            }
        }
        i = i + 1;
    }
    preds
}

// ---------------------------------------------------------------------
// Dominators
// ---------------------------------------------------------------------

pub open spec fn count_row(r: Seq<bool>) -> nat
    decreases r.len(),
{
    if r.len() == 0 {
        0
    } else {
        count_row(r.drop_last()) + if r.last() { 1nat } else { 0nat }
    }
}

pub open spec fn count_rows(d: Seq<Seq<bool>>) -> nat
    decreases d.len(),
{
    if d.len() == 0 {
        0
    } else {
        count_rows(d.drop_last()) + count_row(d.last())
    }
}

proof fn lemma_count_row_sub(a: Seq<bool>, b: Seq<bool>)
    requires
        a.len() == b.len(),
        forall|i: int| 0 <= i < a.len() && a[i] ==> b[i],
    ensures
        count_row(a) <= count_row(b),
        a != b ==> count_row(a) < count_row(b),
    decreases a.len(),
{
    if a.len() > 0 {
        lemma_count_row_sub(a.drop_last(), b.drop_last());
        if a != b && a.drop_last() == b.drop_last() {
            assert(a.last() != b.last()) by {
                if a.last() == b.last() {
                    assert forall|i: int| 0 <= i < a.len() implies a[i] == b[i] by {
                        if i < a.len() - 1 {
                            assert(a[i] == a.drop_last()[i]);
                            assert(b[i] == b.drop_last()[i]);
                        }
                    }
                    assert(a =~= b);
                }
            }
        }
    } else {
        assert(a =~= b);
    }
}

proof fn lemma_count_rows_update(d: Seq<Seq<bool>>, b: int, r: Seq<bool>)
    requires
        0 <= b < d.len(),
    ensures
        count_rows(d.update(b, r)) + count_row(d[b]) == count_rows(d) + count_row(r),
    decreases d.len(),
{
    if b < d.len() - 1 {
        assert(d.update(b, r).drop_last() == d.drop_last().update(b, r));
        lemma_count_rows_update(d.drop_last(), b, r);
    } else {
        assert(d.update(b, r).drop_last() == d.drop_last());
    }
}

/// The intersection of the dominator sets of `preds`, with `b` added.
fn meet(dom: &Vec<Vec<bool>>, preds: &Vec<usize>, b: usize, n: usize) -> (r: Vec<bool>)
    requires
        preds@.len() > 0,
        dom@.len() == n,
        forall|i: int| 0 <= i < n ==> #[trigger] dom@[i]@.len() == n,
        forall|k: int| 0 <= k < preds@.len() ==> #[trigger] preds@[k] < n,
        b < n,
    ensures
        r@.len() == n,
        forall|x: int|
            0 <= x < n ==> #[trigger] r@[x] == (x == b || forall|k: int|
                0 <= k < preds@.len() ==> #[trigger] dom@[preds@[k] as int]@[x]),
{
    let mut r: Vec<bool> = dom[preds[0]].clone();
    let mut k: usize = 1;
    while k < preds.len()
        invariant
            1 <= k <= preds@.len(),
            dom@.len() == n,
            forall|i: int| 0 <= i < n ==> #[trigger] dom@[i]@.len() == n,
            forall|q: int| 0 <= q < preds@.len() ==> #[trigger] preds@[q] < n,
            r@.len() == n,
            forall|x: int|
                0 <= x < n ==> #[trigger] r@[x] == forall|q: int|
                    0 <= q < k ==> #[trigger] dom@[preds@[q] as int]@[x],
        decreases preds.len() - k,
    {
        let row = &dom[preds[k]];
        let mut x: usize = 0;
        let ghost before = r@;
        while x < n
            invariant
                x <= n,
                r@.len() == n,
                row@.len() == n,
                row@ == dom@[preds@[k as int] as int]@,
                forall|y: int| 0 <= y < x ==> #[trigger] r@[y] == (before[y] && row@[y]),
                forall|y: int| x <= y < n ==> #[trigger] r@[y] == before[y],
            decreases n - x,
        {
            let v = r[x] && row[x];
            r.set(x, v);
            x = x + 1;
        }
        proof {
            assert forall|y: int| 0 <= y < n implies #[trigger] r@[y] == forall|q: int|
                0 <= q < k + 1 ==> #[trigger] dom@[preds@[q] as int]@[y] by {
                assert(r@[y] == (before[y] && row@[y]));
                if r@[y] {
                    assert forall|q: int| 0 <= q < k + 1 implies #[trigger] dom@[preds@[q] as int]@[y] by {
                        if q < k {
                        }
                    }
                }
            }
        }
        k = k + 1;
    }
    r.set(b, true);
    r
}

pub open spec fn rows_view(dom: Seq<Vec<bool>>) -> Seq<Seq<bool>> {
    Seq::new(dom.len(), |i: int| dom[i]@)
}

/// Dominator sets: `r[b][d]` holds when block `d` dominates block `b`.
/// They are computed by iteration from the full sets and are the greatest
/// solution of the dominator equations.
pub fn compute_dominators(cfg: &ControlFlowGraph) -> (r: Vec<Vec<bool>>)
    requires
        well_formed(cfg),
    ensures
        is_greatest_dom(succ_model(cfg), rows_view(r@)),
{
    let n = cfg.blocks.len();
    let ghost succ = succ_model(cfg);
    let mut dom: Vec<Vec<bool>> = Vec::new();
    let mut i: usize = 0;
    while i < n
        invariant
            i <= n,
            n == cfg.blocks@.len(),
            dom@.len() == i,
            forall|b: int| 0 <= b < i ==> #[trigger] dom@[b]@.len() == n,
            forall|b: int, x: int| 0 <= b < i && 0 <= x < n ==> #[trigger] dom@[b]@[x] == (b != 0 || x == 0),
        decreases n - i,
    {
        let mut row: Vec<bool> = Vec::new();
        let mut j: usize = 0;
        while j < n
            invariant
                j <= n,
                row@.len() == j,
                forall|x: int| 0 <= x < j ==> #[trigger] row@[x] == (i != 0 || x == 0),
            decreases n - j,
        {
            row.push(i != 0 || j == 0);
            j = j + 1;
        }
        dom.push(row);
        i = i + 1;
    }
    proof {
        assert forall|s: Seq<Seq<bool>>| #[trigger] is_dom_solution(succ, s) implies forall|b: int, x: int|
            0 <= b < n && 0 <= x < n && s[b][x] ==> #[trigger] rows_view(dom@)[b][x] by {
        }
    }
    loop
        invariant
            n == cfg.blocks@.len(),
            succ == succ_model(cfg),
            well_formed(cfg),
            square(rows_view(dom@), n as int),
            n > 0 ==> forall|x: int| 0 <= x < n ==> #[trigger] dom@[0]@[x] == (x == 0),
            forall|b: int, x: int|
                1 <= b < n && 0 <= x < n && has_preds(succ, b) && dom_step(succ, rows_view(dom@), b, x) ==> #[trigger] dom@[b]@[x],
            forall|s: Seq<Seq<bool>>| #[trigger] is_dom_solution(succ, s) ==> forall|b: int, x: int|
                0 <= b < n && 0 <= x < n && s[b][x] ==> #[trigger] rows_view(dom@)[b][x],
        decreases count_rows(rows_view(dom@)),
    {
        let ghost start = count_rows(rows_view(dom@));
        let mut changed = false;
        let mut b: usize = 1;
        while b < n
            invariant
                1 <= b <= n || n == 0,
                n == cfg.blocks@.len(),
                succ == succ_model(cfg),
                well_formed(cfg),
                square(rows_view(dom@), n as int),
                n > 0 ==> forall|x: int| 0 <= x < n ==> #[trigger] dom@[0]@[x] == (x == 0),
                forall|c: int, x: int|
                    1 <= c < n && 0 <= x < n && has_preds(succ, c) && dom_step(succ, rows_view(dom@), c, x) ==> #[trigger] dom@[c]@[x],
                forall|s: Seq<Seq<bool>>| #[trigger] is_dom_solution(succ, s) ==> forall|c: int, x: int|
                    0 <= c < n && 0 <= x < n && s[c][x] ==> #[trigger] rows_view(dom@)[c][x],
                count_rows(rows_view(dom@)) <= start,
                changed ==> count_rows(rows_view(dom@)) < start,
                !changed ==> forall|c: int, x: int|
                    1 <= c < b && 0 <= x < n && has_preds(succ, c) ==> #[trigger] dom@[c]@[x] == dom_step(succ, rows_view(dom@), c, x),
            decreases n - b,
        {
            let preds = predecessors(cfg, b);
            if preds.len() == 0 {
                proof {
                    if has_preds(succ, b as int) {
                        let p = choose|p: int| is_pred(succ, p, b as int);
                        assert(preds@.contains(p as usize));
                    }
                }
                b = b + 1;
                continue;
            }
            proof {
                assert(is_pred(succ, preds@[0] as int, b as int));
                assert(has_preds(succ, b as int));
            }
            proof {
                assert forall|i: int| 0 <= i < n implies #[trigger] dom@[i]@.len() == n by {
                    assert(rows_view(dom@)[i].len() == n);
                }
            }
            let new_dom = meet(&dom, &preds, b, n);
            let ghost dv = rows_view(dom@);
            proof {
                assert forall|x: int| 0 <= x < n implies #[trigger] new_dom@[x] == dom_step(succ, dv, b as int, x) by {
                    if x != b {
                        if new_dom@[x] {
                            assert forall|p: int| is_pred(succ, p, b as int) implies #[trigger] dv[p][x] by {
                                assert(preds@.contains(p as usize));
                                let k = choose|k: int| 0 <= k < preds@.len() && preds@[k] == p as usize;
                                assert(dom@[preds@[k] as int]@[x]);
                            }
                        } else {
                            let k = choose|k: int| 0 <= k < preds@.len() && !dom@[preds@[k] as int]@[x];
                            assert(is_pred(succ, preds@[k] as int, b as int));
                            assert(!dv[preds@[k] as int][x]);
                        }
                    }
                }
            }
            let same = vec_bool_eq(&new_dom, &dom[b]);
            if !same {
                let ghost old_dom = dv;
                proof {
                    assert forall|x: int| 0 <= x < n && new_dom@[x] implies old_dom[b as int][x] by {}
                    lemma_count_row_sub(new_dom@, old_dom[b as int]);
                    lemma_count_rows_update(old_dom, b as int, new_dom@);
                }
                dom.set(b, new_dom);
                proof {
                    let nd = rows_view(dom@);
                    assert(nd == old_dom.update(b as int, new_dom@));
                    // rows only shrink, so every step function shrinks too
                    assert forall|c: int, x: int|
                        1 <= c < n && 0 <= x < n && has_preds(succ, c) && dom_step(succ, nd, c, x) implies #[trigger] dom@[c]@[x] by {
                        if x != c {
                            assert forall|p: int| is_pred(succ, p, c) implies #[trigger] old_dom[p][x] by {
                                assert(nd[p][x]);
                                if p == b {
                                    assert(dom_step(succ, old_dom, b as int, x));
                                }
                            }
                            assert(dom_step(succ, old_dom, c, x));
                        }
                    }
                    assert forall|s: Seq<Seq<bool>>| #[trigger] is_dom_solution(succ, s) implies forall|c: int, x: int|
                        0 <= c < n && 0 <= x < n && s[c][x] ==> #[trigger] rows_view(dom@)[c][x] by {
                        assert forall|c: int, x: int| 0 <= c < n && 0 <= x < n && s[c][x] implies #[trigger] rows_view(dom@)[c][x] by {
                            if c == b && x != b {
                                assert(s[c][x] == dom_step(succ, s, c, x));
                                assert forall|p: int| is_pred(succ, p, b as int) implies #[trigger] old_dom[p][x] by {
                                    assert(s[p][x]);
                                }
                            }
                        }
                    }
                    assert(square(nd, n as int));
                }
                changed = true;
            } else {
                proof {
                    assert(new_dom@ =~= dom@[b as int]@);
                }
            }
            b = b + 1;
        }
        if !changed {
            proof {
                let d = rows_view(dom@);
                assert(is_dom_solution(succ, d)) by {
                    assert forall|c: int, x: int|
                        1 <= c < n && 0 <= x < n && has_preds(succ, c) implies #[trigger] d[c][x] == dom_step(succ, d, c, x) by {
                        assert(dom@[c]@[x] == dom_step(succ, d, c, x));
                    }
                }
            }
            return dom;
        }
    }
}

fn vec_bool_eq(a: &Vec<bool>, b: &Vec<bool>) -> (r: bool)
    ensures
        r == (a@ == b@),
{
    if a.len() != b.len() {
        return false;
    }
    let mut i: usize = 0;
    while i < a.len()
        invariant
            i <= a@.len(),
            a@.len() == b@.len(),
            forall|k: int| 0 <= k < i ==> a@[k] == b@[k],
        decreases a.len() - i,
    {
        if a[i] != b[i] {
            return false;
        }
        i = i + 1;
    }
    assert(a@ =~= b@);
    true
}


// ---------------------------------------------------------------------
// Immediate dominators
// ---------------------------------------------------------------------

/// `c` strictly dominates `b` and dominates no other strict dominator of
/// `b`: it is the closest strict dominator.
pub open spec fn idom_candidate(d: Seq<Seq<bool>>, b: int, c: int) -> bool {
    &&& 0 <= c < d.len()
    &&& c != b
    &&& d[b][c]
    &&& forall|o: int| 0 <= o < d.len() && o != b && o != c && #[trigger] d[b][o] ==> !d[o][c]
}

/// The immediate dominator that `compute_immediate_dominators` picks for
/// block `b`: none for the entry, else the least closest strict dominator.
pub open spec fn picks_idom(d: Seq<Seq<bool>>, b: int, r: Option<usize>) -> bool {
    if b == 0 {
        r is None
    } else {
        match r {
            Some(c) => idom_candidate(d, b, c as int) && forall|c2: int|
                0 <= c2 < c ==> !#[trigger] idom_candidate(d, b, c2),
            None => forall|c2: int| 0 <= c2 < d.len() ==> !#[trigger] idom_candidate(d, b, c2),
        }
    }
}

/// The least closest strict dominator of `b`, if there is one.
fn closest_dominator(dom: &Vec<Vec<bool>>, b: usize, n: usize) -> (r: Option<usize>)
    requires
        1 <= b < n,
        square(rows_view(dom@), n as int),
    ensures
        picks_idom(rows_view(dom@), b as int, r),
{
    let ghost d = rows_view(dom@);
    let row = &dom[b];
    assert(row@ == d[b as int]);
    let mut c: usize = 0;
    while c < n
        invariant
            c <= n,
            1 <= b < n,
            d == rows_view(dom@),
            square(d, n as int),
            row@ == d[b as int],
            forall|c2: int| 0 <= c2 < c ==> !#[trigger] idom_candidate(d, b as int, c2),
        decreases n - c,
    {
        if c != b && row[c] {
            let mut dominated = false;
            let mut o: usize = 0;
            while o < n
                invariant
                    o <= n,
                    c < n,
                    1 <= b < n,
                    d == rows_view(dom@),
                    square(d, n as int),
                    row@ == d[b as int],
                    dominated == exists|o2: int|
                        0 <= o2 < o && o2 != b && o2 != c && #[trigger] d[b as int][o2] && d[o2][c as int],
                decreases n - o,
            {
                if o != b && o != c && row[o] {
                    let orow = &dom[o];
                    assert(orow@ == d[o as int]);
                    if orow[c] {
                        dominated = true;
                    }
                }
                o = o + 1;
            }
            if !dominated {
                proof {
                    assert(idom_candidate(d, b as int, c as int));
                }
                return Some(c);
            }
            proof {
                let o2 = choose|o2: int| 0 <= o2 < n && o2 != b && o2 != c && #[trigger] d[b as int][o2] && d[o2][c as int];
                assert(!idom_candidate(d, b as int, c as int));
            }
        }
        c = c + 1;
    }
    None
}

/// Immediate dominators from dominator sets (`dom[b][d]`: `d` dominates `b`).
pub fn compute_immediate_dominators(cfg: &ControlFlowGraph, dom: &Vec<Vec<bool>>) -> (r: Vec<
    Option<usize>,
>)
    requires
        square(rows_view(dom@), cfg.blocks@.len() as int),
    ensures
        r@.len() == cfg.blocks@.len(),
        forall|b: int| 0 <= b < r@.len() ==> picks_idom(rows_view(dom@), b, #[trigger] r@[b]),
{
    let n = cfg.blocks.len();
    let ghost d = rows_view(dom@);
    let mut idom: Vec<Option<usize>> = Vec::new();
    if n == 0 {
        return idom;
    }
    idom.push(None);
    let mut b: usize = 1;
    while b < n
        invariant
            1 <= b <= n,
            n == cfg.blocks@.len(),
            d == rows_view(dom@),
            square(d, n as int),
            idom@.len() == b,
            forall|k: int| 0 <= k < b ==> picks_idom(d, k, #[trigger] idom@[k]),
        decreases n - b,
    {
        let immediate = closest_dominator(dom, b, n);
        idom.push(immediate);
        b = b + 1;
    }
    idom
}

// ---------------------------------------------------------------------
// Dominator tree
// ---------------------------------------------------------------------

/// Blocks `1..k` whose immediate dominator is `p`, in block order.
pub open spec fn children_upto(idoms: Seq<Option<usize>>, p: int, k: int) -> Seq<usize>
    decreases k,
{
    if k <= 1 {
        Seq::empty()
    } else if idoms[k - 1] == Some(p as usize) {
        children_upto(idoms, p, k - 1).push((k - 1) as usize)
    } else {
        children_upto(idoms, p, k - 1)
    }
}

/// The children of `p` in the dominator tree, in block order.
pub open spec fn children_of(idoms: Seq<Option<usize>>, p: int) -> Seq<usize> {
    children_upto(idoms, p, idoms.len() as int)
}

/// Every immediate dominator names a block of the graph.
pub open spec fn idoms_in_range(cfg: &ControlFlowGraph) -> bool {
    forall|i: int| 0 <= i < cfg.blocks@.len() ==> match #[trigger] cfg.blocks@[i].idom {
        Some(p) => p < cfg.blocks@.len(),
        None => true,
    }
}

/// The blocks keep their id, statements, successors and immediate dominator.
pub open spec fn same_blocks(a: &ControlFlowGraph, b: &ControlFlowGraph) -> bool {
    &&& a.blocks@.len() == b.blocks@.len()
    &&& forall|i: int| 0 <= i < a.blocks@.len() ==> #[trigger] a.blocks@[i].id == b.blocks@[i].id
    &&& forall|i: int|
        0 <= i < a.blocks@.len() ==> #[trigger] a.blocks@[i].statements == b.blocks@[i].statements
    &&& forall|i: int|
        0 <= i < a.blocks@.len() ==> #[trigger] a.blocks@[i].successors == b.blocks@[i].successors
    &&& forall|i: int| 0 <= i < a.blocks@.len() ==> #[trigger] a.blocks@[i].idom == b.blocks@[i].idom
}

/// Sets every block's `dom_children` to the blocks it immediately
/// dominates.
pub fn build_dominator_tree(cfg: &mut ControlFlowGraph)
    requires
        idoms_in_range(old(cfg)),
    ensures
        same_blocks(old(cfg), final(cfg)),
        forall|i: int| 0 <= i < final(cfg).blocks@.len() ==> #[trigger] final(cfg).blocks@[i].dominance_frontier == old(cfg).blocks@[i].dominance_frontier,
        forall|p: int| 0 <= p < final(cfg).blocks@.len() ==> #[trigger] final(cfg).blocks@[p].dom_children@ == children_of(idom_model(old(cfg)), p),
{
    let n = cfg.blocks.len();
    let ghost idoms = idom_model(cfg);
    let ghost orig = cfg.blocks@;
    let mut i: usize = 0;
    while i < n
        invariant
            i <= n,
            n == cfg.blocks@.len(),
            orig.len() == n,
            forall|j: int| 0 <= j < n ==> #[trigger] cfg.blocks@[j].id == orig[j].id,
            forall|j: int| 0 <= j < n ==> #[trigger] cfg.blocks@[j].statements == orig[j].statements,
            forall|j: int| 0 <= j < n ==> #[trigger] cfg.blocks@[j].successors == orig[j].successors,
            forall|j: int| 0 <= j < n ==> #[trigger] cfg.blocks@[j].idom == orig[j].idom,
            forall|j: int| 0 <= j < n ==> #[trigger] cfg.blocks@[j].dominance_frontier == orig[j].dominance_frontier,
            forall|j: int| 0 <= j < i ==> #[trigger] cfg.blocks@[j].dom_children@.len() == 0,
        decreases n - i,
    {
        let ghost before = cfg.blocks@;
        let mut blk = cfg.blocks.remove(i);
        blk.dom_children = Vec::new();
        cfg.blocks.insert(i, blk);
        assert(cfg.blocks@ =~= before.update(i as int, blk));
        i = i + 1;
    }
    assert forall|j: int| 0 <= j < n implies #[trigger] idoms[j] == orig[j].idom by {}
    let mut child: usize = 1;
    while child < n
        invariant
            1 <= child <= n || n == 0,
            n == cfg.blocks@.len(),
            orig.len() == n,
            idoms.len() == n,
            forall|j: int| 0 <= j < n ==> #[trigger] idoms[j] == orig[j].idom,
            forall|j: int| 0 <= j < n ==> match #[trigger] orig[j].idom {
                Some(p) => p < n,
                None => true,
            },
            forall|j: int| 0 <= j < n ==> #[trigger] cfg.blocks@[j].id == orig[j].id,
            forall|j: int| 0 <= j < n ==> #[trigger] cfg.blocks@[j].statements == orig[j].statements,
            forall|j: int| 0 <= j < n ==> #[trigger] cfg.blocks@[j].successors == orig[j].successors,
            forall|j: int| 0 <= j < n ==> #[trigger] cfg.blocks@[j].idom == orig[j].idom,
            forall|j: int| 0 <= j < n ==> #[trigger] cfg.blocks@[j].dominance_frontier == orig[j].dominance_frontier,
            forall|p: int| 0 <= p < n ==> #[trigger] cfg.blocks@[p].dom_children@ == children_upto(idoms, p, child as int),
        decreases n - child,
    {
        let ghost before = cfg.blocks@;
        if let Some(parent) = cfg.blocks[child].idom {
            assert(idoms[child as int] == Some(parent));
            let mut blk = cfg.blocks.remove(parent);
            blk.dom_children.push(child);
            cfg.blocks.insert(parent, blk);
            assert(cfg.blocks@ =~= before.update(parent as int, blk));
        } else {
            assert(idoms[child as int] is None);
        }
        child = child + 1;
    }
    proof {
        if n == 0 {
            assert forall|p: int| 0 <= p < cfg.blocks@.len() implies #[trigger] cfg.blocks@[p].dom_children@ == children_of(idoms, p) by {}
        }
    }
}


// ---------------------------------------------------------------------
// Dominance frontiers
// ---------------------------------------------------------------------

/// Depth of `x` below the entry in the dominator tree, following at most
/// `k` immediate-dominator links upwards.
pub open spec fn reach_depth(idoms: Seq<Option<usize>>, x: int, k: nat) -> Option<nat>
    decreases k,
{
    if x == 0 {
        Some(0)
    } else if k == 0 {
        None
    } else {
        match idoms[x] {
            Some(p) => if p < idoms.len() {
                match reach_depth(idoms, p as int, (k - 1) as nat) {
                    Some(d) => Some(d + 1),
                    None => None,
                }
            } else {
                None
            },
            None => None,
        }
    }
}

/// Depth of `x` in the dominator tree rooted at the entry; `None` for
/// blocks the tree does not reach.
pub open spec fn tree_depth(idoms: Seq<Option<usize>>, x: int) -> Option<nat> {
    reach_depth(idoms, x, idoms.len() as nat)
}

/// `c` is a child of `x` in the dominator tree rooted at the entry.
pub open spec fn tree_child(idoms: Seq<Option<usize>>, x: int, c: int) -> bool {
    &&& 1 <= c < idoms.len()
    &&& idoms[c] == Some(x as usize)
    &&& tree_depth(idoms, c) is Some
}

/// `y` belongs to the dominance frontier of `x`, given the frontiers `r`
/// of the other blocks: `y` is not immediately dominated by `x`, and it is
/// a successor of `x` or lies in the frontier of a dominator-tree child.
pub open spec fn df_member(
    succ: Seq<Seq<usize>>,
    idoms: Seq<Option<usize>>,
    r: Seq<Seq<usize>>,
    x: int,
    y: int,
) -> bool {
    &&& idoms[y] != Some(x as usize)
    &&& (succ[x].contains(y as usize) || exists|c: int| #[trigger]
        tree_child(idoms, x, c) && r[c].contains(y as usize))
}

pub open spec fn strictly_increasing(s: Seq<usize>) -> bool {
    forall|i: int, j: int| 0 <= i < j < s.len() ==> s[i] < s[j]
}

/// `r` holds the dominance frontiers: sorted without repetition, empty for
/// blocks outside the dominator tree, and for every block in the tree the
/// union of its local frontier and of its children's frontiers minus the
/// blocks it immediately dominates.
pub open spec fn is_frontier(
    succ: Seq<Seq<usize>>,
    idoms: Seq<Option<usize>>,
    r: Seq<Seq<usize>>,
) -> bool {
    let n = succ.len();
    &&& r.len() == n
    &&& idoms.len() == n
    &&& forall|x: int| 0 <= x < n ==> #[trigger] strictly_increasing(r[x])
    &&& forall|x: int, k: int| 0 <= x < n && 0 <= k < r[x].len() ==> #[trigger] r[x][k] < n
    &&& forall|x: int| 0 <= x < n && tree_depth(idoms, x) is None ==> #[trigger] r[x].len() == 0
    &&& forall|x: int, y: int|
        0 <= x < n && 0 <= y < n && tree_depth(idoms, x) is Some ==> (#[trigger] r[x].contains(
            y as usize,
        ) <==> df_member(succ, idoms, r, x, y))
}

pub open spec fn frontier_model(cfg: &ControlFlowGraph) -> Seq<Seq<usize>> {
    Seq::new(cfg.blocks@.len(), |i: int| cfg.blocks@[i].dominance_frontier@)
}

proof fn lemma_reach_more_fuel(idoms: Seq<Option<usize>>, x: int, k: nat)
    requires
        reach_depth(idoms, x, k) is Some,
    ensures
        reach_depth(idoms, x, k + 1) == reach_depth(idoms, x, k),
    decreases k,
{
    if x != 0 && k > 0 {
        let p = idoms[x]->Some_0;
        lemma_reach_more_fuel(idoms, p as int, (k - 1) as nat);
    }
}

proof fn lemma_tree_child_depth(idoms: Seq<Option<usize>>, x: int, c: int)
    requires
        tree_child(idoms, x, c),
        0 <= x < idoms.len(),
        idoms.len() <= usize::MAX,
    ensures
        tree_depth(idoms, x) is Some,
        tree_depth(idoms, c) == Some(tree_depth(idoms, x)->Some_0 + 1),
{
    let n = idoms.len() as nat;
    let k = (n - 1) as nat;
    assert(n == k + 1);
    assert(idoms[c] == Some(x as usize));
    assert((x as usize) as int == x);
    assert(reach_depth(idoms, c, n) == match reach_depth(idoms, x, k) {
        Some(d) => Some(d + 1),
        None => None::<nat>,
    });
    assert(reach_depth(idoms, x, k) is Some);
    lemma_reach_more_fuel(idoms, x, k);
}

fn reach_depth_exec(idoms: &Vec<Option<usize>>, x: usize, k: usize) -> (r: Option<usize>)
    requires
        x < idoms@.len(),
    ensures
        match reach_depth(idoms@, x as int, k as nat) {
            Some(d) => r == Some(d as usize) && d <= k,
            None => r is None,
        },
    decreases k,
{
    if x == 0 {
        Some(0)
    } else if k == 0 {
        None
    } else {
        match idoms[x] {
            Some(p) => if p < idoms.len() {
                match reach_depth_exec(idoms, p, k - 1) {
                    Some(d) => Some(d + 1),
                    None => None,
                }
            } else {
                None
            },
            None => None,
        }
    }
}

pub(crate) fn contains_usize(v: &Vec<usize>, x: usize) -> (r: bool)
    ensures
        r == v@.contains(x),
{
    let mut i: usize = 0;
    while i < v.len()
        invariant
            i <= v@.len(),
            forall|k: int| 0 <= k < i ==> v@[k] != x,
        decreases v.len() - i,
    {
        if v[i] == x {
            assert(v@[i as int] == x);
            return true;
        }
        i = i + 1;
    }
    false
}

/// The positions that hold `true`, in increasing order.
fn marked(mark: &Vec<bool>) -> (r: Vec<usize>)
    ensures
        strictly_increasing(r@),
        forall|k: int| 0 <= k < r@.len() ==> #[trigger] r@[k] < mark@.len(),
        forall|y: int| 0 <= y < mark@.len() ==> (#[trigger] r@.contains(y as usize) <==> mark@[y]),
{
    let mut r: Vec<usize> = Vec::new();
    let mut y: usize = 0;
    while y < mark.len()
        invariant
            y <= mark@.len(),
            strictly_increasing(r@),
            forall|k: int| 0 <= k < r@.len() ==> #[trigger] r@[k] < y,
            forall|z: int| 0 <= z < y ==> (#[trigger] r@.contains(z as usize) <==> mark@[z]),
        decreases mark.len() - y,
    {
        if mark[y] {
            let ghost before = r@;
            r.push(y);
            proof {
                assert(r@[before.len() as int] == y);
                assert forall|z: int| 0 <= z < y + 1 implies (#[trigger] r@.contains(z as usize) <==> mark@[z]) by {
                    if z < y {
                        if before.contains(z as usize) {
                            let w = choose|w: int| 0 <= w < before.len() && #[trigger] before[w] == z as usize;
                            assert(r@[w] == z as usize);
                        }
                        if r@.contains(z as usize) {
                            let w = choose|w: int| 0 <= w < r@.len() && #[trigger] r@[w] == z as usize;
                            if w < before.len() {
                                assert(before[w] == z as usize);
                            }
                        }
                    }
                }
            }
        } else {
            proof {
                assert(!r@.contains(y as usize));
            }
        }
        y = y + 1;
    }
    r
}

/// Sets every block's dominator-tree children and dominance frontier from
/// the immediate dominators already stored in the graph.
pub fn compute_dominance_frontier(cfg: &mut ControlFlowGraph)
    requires
        well_formed(old(cfg)),
        idoms_in_range(old(cfg)),
    ensures
        same_blocks(old(cfg), final(cfg)),
        forall|p: int| 0 <= p < final(cfg).blocks@.len() ==> #[trigger] final(cfg).blocks@[p].dom_children@ == children_of(idom_model(old(cfg)), p),
        is_frontier(succ_model(old(cfg)), idom_model(old(cfg)), frontier_model(final(cfg))),
{
    let n = cfg.blocks.len();
    let ghost succ = succ_model(cfg);
    let ghost idoms = idom_model(cfg);
    build_dominator_tree(cfg);
    assert forall|j: int| 0 <= j < n implies #[trigger] succ_model(cfg)[j] == succ[j] by {
        assert(cfg.blocks@[j].successors == old(cfg).blocks@[j].successors);
    }
    assert forall|j: int| 0 <= j < n implies #[trigger] idom_model(cfg)[j] == idoms[j] by {
        assert(cfg.blocks@[j].idom == old(cfg).blocks@[j].idom);
    }
    assert(succ_model(cfg) =~= succ);
    assert(idom_model(cfg) =~= idoms);
    assert(well_formed(cfg)) by {
        assert forall|i: int| 0 <= i < n implies #[trigger] cfg.blocks@[i].id == i by {
            assert(cfg.blocks@[i].id == old(cfg).blocks@[i].id);
        }
        assert forall|i: int, k: int|
            0 <= i < n && 0 <= k < cfg.blocks@[i].successors@.len() implies #[trigger] cfg.blocks@[i].successors@[k] < n by {
            assert(cfg.blocks@[i].successors == old(cfg).blocks@[i].successors);
        }
    }
    let mut idv: Vec<Option<usize>> = Vec::new();
    let mut i: usize = 0;
    while i < n
        invariant
            i <= n,
            n == cfg.blocks@.len(),
            idoms == idom_model(cfg),
            idv@ == idoms.take(i as int),
        decreases n - i,
    {
        idv.push(cfg.blocks[i].idom);
        assert(idoms.take(i + 1) == idoms.take(i as int).push(idoms[i as int]));
        i = i + 1;
    }
    assert(idoms.take(n as int) == idoms);
    let mut depth: Vec<Option<usize>> = Vec::new();
    let mut x: usize = 0;
    while x < n
        invariant
            x <= n,
            idv@ == idoms,
            idoms.len() == n,
            depth@.len() == x,
            forall|z: int| 0 <= z < x ==> match #[trigger] tree_depth(idoms, z) {
                Some(d) => depth@[z] == Some(d as usize) && d <= n,
                None => depth@[z] is None,
            },
        decreases n - x,
    {
        depth.push(reach_depth_exec(&idv, x, n));
        x = x + 1;
    }
    let mut df: Vec<Vec<usize>> = Vec::new();
    let mut x: usize = 0;
    while x < n
        invariant
            x <= n,
            df@.len() == x,
            forall|z: int| 0 <= z < x ==> #[trigger] df@[z]@.len() == 0,
        decreases n - x,
    {
        df.push(Vec::new());
        x = x + 1;
    }
    let ghost orig = cfg.blocks@;
    let mut lv: usize = n;
    loop
        invariant_except_break
            lv <= n,
            n == cfg.blocks@.len(),
            cfg.blocks@ == orig,
            succ == succ_model(cfg),
            well_formed(cfg),
            idv@ == idoms,
            idoms.len() == n,
            depth@.len() == n,
            forall|z: int| 0 <= z < n ==> match #[trigger] tree_depth(idoms, z) {
                Some(d) => depth@[z] == Some(d as usize) && d <= n,
                None => depth@[z] is None,
            },
            df@.len() == n,
            forall|z: int| 0 <= z < n ==> #[trigger] strictly_increasing(df@[z]@),
            forall|z: int, k: int| 0 <= z < n && 0 <= k < df@[z]@.len() ==> #[trigger] df@[z]@[k] < n,
            forall|z: int| 0 <= z < n && !(tree_depth(idoms, z) matches Some(d) && d > lv) ==> #[trigger] df@[z]@.len() == 0,
            forall|z: int, y: int|
                0 <= z < n && 0 <= y < n && (tree_depth(idoms, z) matches Some(d) && d > lv) ==> (#[trigger] df@[z]@.contains(
                    y as usize,
                ) <==> df_member(succ, idoms, rows_usize(df@), z, y)),
        ensures
            n == cfg.blocks@.len(),
            cfg.blocks@ == orig,
            df@.len() == n,
            forall|z: int| 0 <= z < n ==> #[trigger] strictly_increasing(df@[z]@),
            forall|z: int, k: int| 0 <= z < n && 0 <= k < df@[z]@.len() ==> #[trigger] df@[z]@[k] < n,
            forall|z: int| 0 <= z < n && tree_depth(idoms, z) is None ==> #[trigger] df@[z]@.len() == 0,
            forall|z: int, y: int|
                0 <= z < n && 0 <= y < n && tree_depth(idoms, z) is Some ==> (#[trigger] df@[z]@.contains(
                    y as usize,
                ) <==> df_member(succ, idoms, rows_usize(df@), z, y)),
        decreases lv,
    {
        let mut x: usize = 0;
        while x < n
            invariant
                x <= n,
                lv <= n,
                n == cfg.blocks@.len(),
                cfg.blocks@ == orig,
                succ == succ_model(cfg),
                well_formed(cfg),
                idv@ == idoms,
                idoms.len() == n,
                depth@.len() == n,
                forall|z: int| 0 <= z < n ==> match #[trigger] tree_depth(idoms, z) {
                    Some(d) => depth@[z] == Some(d as usize) && d <= n,
                    None => depth@[z] is None,
                },
                df@.len() == n,
                forall|z: int| 0 <= z < n ==> #[trigger] strictly_increasing(df@[z]@),
                forall|z: int, k: int| 0 <= z < n && 0 <= k < df@[z]@.len() ==> #[trigger] df@[z]@[k] < n,
                forall|z: int| 0 <= z < n && !(tree_depth(idoms, z) matches Some(d) && (d > lv || (d == lv && z < x))) ==> #[trigger] df@[z]@.len() == 0,
                forall|z: int, y: int|
                    0 <= z < n && 0 <= y < n && (tree_depth(idoms, z) matches Some(d) && (d > lv || (d == lv && z < x))) ==> (#[trigger] df@[z]@.contains(
                        y as usize,
                    ) <==> df_member(succ, idoms, rows_usize(df@), z, y)),
            decreases n - x,
        {
            if depth[x] == Some(lv) {
                let mut mark: Vec<bool> = Vec::new();
                let mut y: usize = 0;
                while y < n
                    invariant
                        y <= n,
                        mark@.len() == y,
                        forall|z: int| 0 <= z < y ==> !#[trigger] mark@[z],
                    decreases n - y,
                {
                    mark.push(false);
                    y = y + 1;
                }
                let succs = &cfg.blocks[x].successors;
                assert(succs@ == succ[x as int]);
                let mut k: usize = 0;
                while k < succs.len()
                    invariant
                        k <= succs@.len(),
                        x < n,
                        succs@ == succ[x as int],
                        well_formed(cfg),
                        n == cfg.blocks@.len(),
                        cfg.blocks@ == orig,
                        succ == succ_model(cfg),
                        idv@ == idoms,
                        idoms.len() == n,
                        mark@.len() == n,
                        forall|z: int| 0 <= z < n ==> (#[trigger] mark@[z] <==> (idoms[z] != Some(x) && succs@.take(k as int).contains(z as usize))),
                    decreases succs.len() - k,
                {
                    let sv = succs[k];
                    assert(cfg.blocks@[x as int].successors@[k as int] < n);
                    let ghost before = mark@;
                    if idv[sv] != Some(x) {
                        mark.set(sv, true);
                    }
                    proof {
                        assert(succs@.take(k + 1) == succs@.take(k as int).push(sv));
                        assert forall|z: int| 0 <= z < n implies (#[trigger] mark@[z] <==> (idoms[z] != Some(x) && succs@.take(k + 1).contains(z as usize))) by {
                            if succs@.take(k + 1).contains(z as usize) && z != sv {
                                let w = choose|w: int| 0 <= w < k + 1 && #[trigger] succs@.take(k + 1)[w] == z as usize;
                                assert(succs@.take(k as int)[w] == z as usize);
                            }
                            if succs@.take(k as int).contains(z as usize) {
                                let w = choose|w: int| 0 <= w < k && #[trigger] succs@.take(k as int)[w] == z as usize;
                                assert(succs@.take(k + 1)[w] == z as usize);
                            }
                            if z == sv {
                                assert(succs@.take(k + 1)[k as int] == sv);
                            }
                        }
                    }
                    k = k + 1;
                }
                assert(succs@.take(succs@.len() as int) == succs@);
                let mut c: usize = 1;
                while c < n
                    invariant
                        1 <= c <= n,
                        x < n,
                        lv <= n,
                        depth@[x as int] == Some(lv),
                        idv@ == idoms,
                        idoms.len() == n,
                        depth@.len() == n,
                        forall|z: int| 0 <= z < n ==> match #[trigger] tree_depth(idoms, z) {
                            Some(d) => depth@[z] == Some(d as usize) && d <= n,
                            None => depth@[z] is None,
                        },
                        df@.len() == n,
                        forall|z: int, kk: int| 0 <= z < n && 0 <= kk < df@[z]@.len() ==> #[trigger] df@[z]@[kk] < n,
                        mark@.len() == n,
                        forall|z: int| 0 <= z < n ==> (#[trigger] mark@[z] <==> (idoms[z] != Some(x) && (succ[x as int].contains(z as usize)
                            || exists|c2: int| 1 <= c2 < c && #[trigger] tree_child(idoms, x as int, c2) && df@[c2]@.contains(z as usize)))),
                    decreases n - c,
                {
                    let ghost before = mark@;
                    if idv[c] == Some(x) && depth[c].is_some() {
                        let row = &df[c];
                        let mut k: usize = 0;
                        while k < row.len()
                            invariant
                                k <= row@.len(),
                                1 <= c < n,
                                x < n,
                                row@ == df@[c as int]@,
                                forall|kk: int| 0 <= kk < row@.len() ==> #[trigger] row@[kk] < n,
                                idv@ == idoms,
                                idoms.len() == n,
                                mark@.len() == n,
                                forall|z: int| 0 <= z < n ==> (#[trigger] mark@[z] <==> (before[z] || (idoms[z] != Some(x) && row@.take(k as int).contains(z as usize)))),
                            decreases row.len() - k,
                        {
                            let yv = row[k];
                            let ghost b2 = mark@;
                            if idv[yv] != Some(x) {
                                mark.set(yv, true);
                            }
                            proof {
                                assert(row@.take(k + 1) == row@.take(k as int).push(yv));
                                assert forall|z: int| 0 <= z < n implies (#[trigger] mark@[z] <==> (before[z] || (idoms[z] != Some(x) && row@.take(k + 1).contains(z as usize)))) by {
                                    if row@.take(k + 1).contains(z as usize) && z != yv {
                                        let w = choose|w: int| 0 <= w < k + 1 && #[trigger] row@.take(k + 1)[w] == z as usize;
                                        assert(row@.take(k as int)[w] == z as usize);
                                    }
                                    if row@.take(k as int).contains(z as usize) {
                                        let w = choose|w: int| 0 <= w < k && #[trigger] row@.take(k as int)[w] == z as usize;
                                        assert(row@.take(k + 1)[w] == z as usize);
                                    }
                                    if z == yv {
                                        assert(row@.take(k + 1)[k as int] == yv);
                                    }
                                }
                            }
                            k = k + 1;
                        }
                        proof {
                            assert(row@.take(row@.len() as int) == row@);
                            assert(tree_child(idoms, x as int, c as int));
                            assert forall|z: int| 0 <= z < n implies (#[trigger] mark@[z] <==> (idoms[z] != Some(x) && (succ[x as int].contains(z as usize)
                                || exists|c2: int| 1 <= c2 < c + 1 && #[trigger] tree_child(idoms, x as int, c2) && df@[c2]@.contains(z as usize)))) by {
                                if exists|c2: int| 1 <= c2 < c + 1 && #[trigger] tree_child(idoms, x as int, c2) && df@[c2]@.contains(z as usize) {
                                    let c2 = choose|c2: int| 1 <= c2 < c + 1 && #[trigger] tree_child(idoms, x as int, c2) && df@[c2]@.contains(z as usize);
                                    if c2 < c {
                                        assert(exists|c3: int| 1 <= c3 < c && #[trigger] tree_child(idoms, x as int, c3) && df@[c3]@.contains(z as usize));
                                    }
                                }
                                if exists|c2: int| 1 <= c2 < c && #[trigger] tree_child(idoms, x as int, c2) && df@[c2]@.contains(z as usize) {
                                    let c2 = choose|c2: int| 1 <= c2 < c && #[trigger] tree_child(idoms, x as int, c2) && df@[c2]@.contains(z as usize);
                                    assert(1 <= c2 < c + 1);
                                }
                            }
                        }
                    } else {
                        proof {
                            assert(!tree_child(idoms, x as int, c as int));
                            assert forall|z: int| 0 <= z < n implies (#[trigger] mark@[z] <==> (idoms[z] != Some(x) && (succ[x as int].contains(z as usize)
                                || exists|c2: int| 1 <= c2 < c + 1 && #[trigger] tree_child(idoms, x as int, c2) && df@[c2]@.contains(z as usize)))) by {
                                if exists|c2: int| 1 <= c2 < c + 1 && #[trigger] tree_child(idoms, x as int, c2) && df@[c2]@.contains(z as usize) {
                                    let c2 = choose|c2: int| 1 <= c2 < c + 1 && #[trigger] tree_child(idoms, x as int, c2) && df@[c2]@.contains(z as usize);
                                    assert(c2 != c);
                                    assert(exists|c3: int| 1 <= c3 < c && #[trigger] tree_child(idoms, x as int, c3) && df@[c3]@.contains(z as usize));
                                }
                                if exists|c2: int| 1 <= c2 < c && #[trigger] tree_child(idoms, x as int, c2) && df@[c2]@.contains(z as usize) {
                                    let c2 = choose|c2: int| 1 <= c2 < c && #[trigger] tree_child(idoms, x as int, c2) && df@[c2]@.contains(z as usize);
                                    assert(1 <= c2 < c + 1);
                                }
                            }
                        }
                    }
                    c = c + 1;
                }
                let list = marked(&mark);
                let ghost old_df = df@;
                df.set(x, list);
                proof {
                    let dx = tree_depth(idoms, x as int)->Some_0;
                    assert(dx == lv);
                    // children of x sit one level deeper and are already final
                    assert forall|c2: int| #[trigger] tree_child(idoms, x as int, c2) implies df@[c2] == old_df[c2] by {
                        lemma_tree_child_depth(idoms, x as int, c2);
                    }
                    assert forall|y: int| 0 <= y < n implies (#[trigger] df@[x as int]@.contains(y as usize) <==> df_member(succ, idoms, rows_usize(df@), x as int, y)) by {
                        assert(rows_usize(df@)[x as int] == list@);
                        if n > 1 || n == 1 {
                            assert((exists|c2: int| 1 <= c2 < n && #[trigger] tree_child(idoms, x as int, c2) && old_df[c2]@.contains(y as usize))
                                == (exists|c2: int| #[trigger] tree_child(idoms, x as int, c2) && rows_usize(df@)[c2].contains(y as usize)));
                        }
                    }
                    // the equations of the blocks already done do not mention x
                    assert forall|z: int, y: int|
                        0 <= z < n && 0 <= y < n && z != x && (tree_depth(idoms, z) matches Some(d) && (d > lv || (d == lv && z < x))) implies (#[trigger] df@[z]@.contains(
                            y as usize,
                        ) <==> df_member(succ, idoms, rows_usize(df@), z, y)) by {
                        assert(df@[z] == old_df[z]);
                        assert(old_df[z]@.contains(y as usize) <==> df_member(succ, idoms, rows_usize(old_df), z, y));
                        assert forall|c2: int| #[trigger] tree_child(idoms, z, c2) implies rows_usize(df@)[c2] == rows_usize(old_df)[c2] by {
                            lemma_tree_child_depth(idoms, z, c2);
                            assert(c2 != x);
                        }
                    }
                }
            } else {
                proof {
                    assert(!(tree_depth(idoms, x as int) matches Some(d) && d == lv));
                }
            }
            x = x + 1;
        }
        if lv == 0 {
            break;
        }
        lv = lv - 1;
    }
    let mut x: usize = 0;
    while x < n
        invariant
            x <= n,
            n == cfg.blocks@.len(),
            orig.len() == n,
            df@.len() == n,
            forall|j: int| 0 <= j < n ==> #[trigger] cfg.blocks@[j].id == orig[j].id,
            forall|j: int| 0 <= j < n ==> #[trigger] cfg.blocks@[j].statements == orig[j].statements,
            forall|j: int| 0 <= j < n ==> #[trigger] cfg.blocks@[j].successors == orig[j].successors,
            forall|j: int| 0 <= j < n ==> #[trigger] cfg.blocks@[j].idom == orig[j].idom,
            forall|j: int| 0 <= j < n ==> #[trigger] cfg.blocks@[j].dom_children == orig[j].dom_children,
            forall|j: int| 0 <= j < x ==> #[trigger] cfg.blocks@[j].dominance_frontier@ == df@[j]@,
        decreases n - x,
    {
        let row = clone_usizes(&df[x]);
        let ghost before = cfg.blocks@;
        let mut blk = cfg.blocks.remove(x);
        blk.dominance_frontier = row;
        cfg.blocks.insert(x, blk);
        assert(cfg.blocks@ =~= before.update(x as int, blk));
        x = x + 1;
    }
    proof {
        assert(frontier_model(cfg) =~= rows_usize(df@));
        assert forall|z: int| 0 <= z < n implies #[trigger] strictly_increasing(rows_usize(df@)[z]) by {
            assert(rows_usize(df@)[z] == df@[z]@);
        }
        assert forall|z: int| 0 <= z < n && tree_depth(idoms, z) is None implies #[trigger] rows_usize(df@)[z].len() == 0 by {
            assert(rows_usize(df@)[z] == df@[z]@);
        }
        assert forall|z: int, y: int|
            0 <= z < n && 0 <= y < n && tree_depth(idoms, z) is Some implies (#[trigger] rows_usize(df@)[z].contains(
                y as usize,
            ) <==> df_member(succ, idoms, rows_usize(df@), z, y)) by {
            assert(rows_usize(df@)[z] == df@[z]@);
        }
        assert forall|z: int, k: int| 0 <= z < n && 0 <= k < rows_usize(df@)[z].len() implies #[trigger] rows_usize(df@)[z][k] < n by {
            assert(rows_usize(df@)[z] == df@[z]@);
        }
    }
}

pub open spec fn rows_usize(d: Seq<Vec<usize>>) -> Seq<Seq<usize>> {
    Seq::new(d.len(), |i: int| d[i]@)
}

fn clone_usizes(v: &Vec<usize>) -> (r: Vec<usize>)
    ensures
        r@ == v@,
{
    let mut r: Vec<usize> = Vec::new();
    let mut i: usize = 0;
    while i < v.len()
        invariant
            i <= v@.len(),
            r@ == v@.take(i as int),
        decreases v.len() - i,
    {
        r.push(v[i]);
        assert(v@.take(i + 1) == v@.take(i as int).push(v@[i as int]));
        i = i + 1;
    }
    assert(v@.take(v@.len() as int) == v@);
    r
}


// ---------------------------------------------------------------------
// Basic blocks
// ---------------------------------------------------------------------

/// Statements after which a new block starts.
pub open spec fn ends_block(s: StatementV) -> bool {
    ||| s is Perform
    ||| s is PerformUntil
    ||| s is PerformVarying
    ||| s is Call
    ||| s is StopRun
}

pub open spec fn flush(blocks: Seq<Seq<StatementV>>, cur: Seq<StatementV>) -> Seq<Seq<StatementV>> {
    if cur.len() > 0 {
        blocks.push(cur)
    } else {
        blocks
    }
}

/// How a statement sequence is cut into basic blocks: a loop becomes a
/// header (the loop without its body), a body block (`NoOp` when the body
/// is empty) and an exit `NoOp`; a conditional becomes a header (the test
/// alone) followed by the blocks of its branches; the statements that
/// transfer control close the current block; all others accumulate.
pub open spec fn split_go(
    stmts: Seq<StatementV>,
    i: int,
    blocks: Seq<Seq<StatementV>>,
    cur: Seq<StatementV>,
) -> Seq<Seq<StatementV>>
    decreases stmts, stmts.len() - i,
{
    if i < 0 || i >= stmts.len() {
        flush(blocks, cur)
    } else {
        match stmts[i] {
            StatementV::For { variable, start, step, until, body } => {
                let header = StatementV::For {
                    variable,
                    start,
                    step,
                    until,
                    body: Seq::empty(),
                };
                let body_block = if body.len() == 0 {
                    seq![StatementV::NoOp]
                } else {
                    body
                };
                split_go(
                    stmts,
                    i + 1,
                    flush(blocks, cur).push(seq![header]).push(body_block).push(
                        seq![StatementV::NoOp],
                    ),
                    Seq::empty(),
                )
            },
            StatementV::If { condition, then_branch, else_branch } => {
                let header = StatementV::If {
                    condition,
                    then_branch: Seq::empty(),
                    else_branch: None,
                };
                let b1 = flush(blocks, cur).push(seq![header]) + split_blocks(then_branch);
                let b2 = match else_branch {
                    Some(e) => b1 + split_blocks(e),
                    None => b1,
                };
                split_go(stmts, i + 1, b2, Seq::empty())
            },
            _ => if ends_block(stmts[i]) {
                split_go(stmts, i + 1, blocks.push(cur.push(stmts[i])), Seq::empty())
            } else {
                split_go(stmts, i + 1, blocks, cur.push(stmts[i]))
            },
        }
    }
}

pub open spec fn split_blocks(stmts: Seq<StatementV>) -> Seq<Seq<StatementV>>
    decreases stmts, stmts.len() + 1,
{
    split_go(stmts, 0, Seq::empty(), Seq::empty())
}

pub open spec fn blocks_view(b: Seq<Vec<Statement>>) -> Seq<Seq<StatementV>> {
    Seq::new(b.len(), |i: int| stmts_view(b[i]@))
}

proof fn lemma_blocks_view_push(b: Seq<Vec<Statement>>, x: Vec<Statement>)
    ensures
        blocks_view(b.push(x)) == blocks_view(b).push(stmts_view(x@)),
{
    assert(blocks_view(b.push(x)) =~= blocks_view(b).push(stmts_view(x@)));
}

fn flush_exec(blocks: &mut Vec<Vec<Statement>>, cur: &mut Vec<Statement>)
    ensures
        blocks_view(final(blocks)@) == flush(blocks_view(old(blocks)@), stmts_view(old(cur)@)),
        final(cur)@.len() == 0,
{
    if cur.len() > 0 {
        let mut taken: Vec<Statement> = Vec::new();
        std::mem::swap(&mut taken, cur);
        let ghost b0 = blocks@;
        blocks.push(taken);
        proof {
            lemma_blocks_view_push(b0, taken);
            crate::ir::lemma_stmts_view(taken@);
        }
    } else {
        proof {
            crate::ir::lemma_stmts_view(cur@);
        }
    }
}

fn append_blocks(blocks: &mut Vec<Vec<Statement>>, more: Vec<Vec<Statement>>)
    ensures
        blocks_view(final(blocks)@) == blocks_view(old(blocks)@) + blocks_view(more@),
{
    let mut more = more;
    let ghost b0 = blocks_view(blocks@);
    let ghost m0 = blocks_view(more@);
    let mut rev: Vec<Vec<Statement>> = Vec::new();
    while more.len() > 0
        invariant
            blocks_view(more@) + blocks_view(rev@).reverse() == m0,
        decreases more.len(),
    {
        let last = more.pop().unwrap();
        let ghost mv = more@;
        let ghost rv = rev@;
        rev.push(last);
        proof {
            assert(blocks_view(mv.push(last)) =~= blocks_view(mv).push(stmts_view(last@)));
            assert(blocks_view(rev@) =~= blocks_view(rv).push(stmts_view(last@)));
            assert(blocks_view(rev@).reverse() =~= seq![stmts_view(last@)] + blocks_view(rv).reverse());
            assert(blocks_view(mv) + blocks_view(rev@).reverse() =~= blocks_view(mv.push(last)) + blocks_view(rv).reverse());
        }
    }
    while rev.len() > 0
        invariant
            blocks_view(blocks@) + blocks_view(rev@).reverse() == b0 + m0,
        decreases rev.len(),
    {
        let x = rev.pop().unwrap();
        let ghost bv = blocks@;
        let ghost rv = rev@;
        blocks.push(x);
        proof {
            lemma_blocks_view_push(bv, x);
            assert(blocks_view(rv.push(x)) =~= blocks_view(rv).push(stmts_view(x@)));
            assert(blocks_view(rv.push(x)).reverse() =~= seq![stmts_view(x@)] + blocks_view(rv).reverse());
            assert(blocks_view(blocks@) + blocks_view(rv).reverse() =~= blocks_view(bv) + blocks_view(rv.push(x)).reverse());
        }
    }
    assert(blocks_view(rev@).reverse() =~= Seq::<Seq<StatementV>>::empty());
    assert(blocks_view(blocks@) + Seq::<Seq<StatementV>>::empty() =~= blocks_view(blocks@));
}

fn single_block(s: Statement) -> (r: Vec<Statement>)
    ensures
        stmts_view(r@) == seq![s@],
{
    let mut v: Vec<Statement> = Vec::new();
    v.push(s);
    proof {
        crate::ir::lemma_stmts_view_push(Seq::empty(), s);
        assert(Seq::<Statement>::empty().push(s) == v@);
    }
    v
}

/// Cuts a statement sequence into basic blocks.
pub fn split_into_blocks(statements: &Vec<Statement>) -> (r: Vec<Vec<Statement>>)
    ensures
        blocks_view(r@) == split_blocks(stmts_view(statements@)),
    decreases statements, 1nat,
{
    let ghost sv = stmts_view(statements@);
    let mut blocks: Vec<Vec<Statement>> = Vec::new();
    let mut current: Vec<Statement> = Vec::new();
    let mut i: usize = 0;
    proof {
        crate::ir::lemma_stmts_view(statements@);
        assert(blocks_view(blocks@) =~= Seq::<Seq<StatementV>>::empty());
        assert(stmts_view(current@) =~= Seq::<StatementV>::empty());
    }
    while i < statements.len()
        invariant
            i <= statements@.len(),
            sv == stmts_view(statements@),
            sv.len() == statements@.len(),
            forall|k: int| 0 <= k < statements@.len() ==> #[trigger] sv[k] == crate::ir::stmt_view(statements@[k]),
            split_go(sv, i as int, blocks_view(blocks@), stmts_view(current@)) == split_blocks(sv),
        decreases statements.len() - i,
    {
        let stmt = &statements[i];
        let ghost bv = blocks_view(blocks@);
        let ghost cv = stmts_view(current@);
        proof {
            assert(decreases_to!(*statements => statements@));
        }
        match stmt {
            Statement::For { variable, start, step, until, body } => {
                flush_exec(&mut blocks, &mut current);
                let header = Statement::For {
                    variable: variable.clone(),
                    start: start.copy(),
                    step: step.copy(),
                    until: until.copy(),
                    body: Vec::new(),
                };
                proof {
                    crate::ir::lemma_stmts_view(Seq::<Statement>::empty());
                }
                let hb = single_block(header);
                let bb = if body.len() == 0 {
                    single_block(Statement::NoOp)
                } else {
                    crate::ir::clone_stmts(body)
                };
                let eb = single_block(Statement::NoOp);
                let ghost b0 = blocks@;
                blocks.push(hb);
                let ghost b1 = blocks@;
                blocks.push(bb);
                let ghost b2 = blocks@;
                blocks.push(eb);
                proof {
                    lemma_blocks_view_push(b0, hb);
                    lemma_blocks_view_push(b1, bb);
                    lemma_blocks_view_push(b2, eb);
                    crate::ir::lemma_stmts_view(body@);
                    assert(stmts_view(current@) =~= Seq::<StatementV>::empty());
                }
            },
            Statement::If { condition, then_branch, else_branch } => {
                flush_exec(&mut blocks, &mut current);
                let header = Statement::If {
                    condition: condition.copy(),
                    then_branch: Vec::new(),
                    else_branch: None,
                };
                proof {
                    crate::ir::lemma_stmts_view(Seq::<Statement>::empty());
                }
                let hb = single_block(header);
                let ghost b0 = blocks@;
                blocks.push(hb);
                proof {
                    lemma_blocks_view_push(b0, hb);
                    assert(decreases_to!(statements@ => statements@[i as int]));
                }
                let tb = split_into_blocks(then_branch);
                append_blocks(&mut blocks, tb);
                match else_branch {
                    Some(e) => {
                        let ebs = split_into_blocks(e);
                        append_blocks(&mut blocks, ebs);
                    },
                    None => {},
                }
                proof {
                    assert(stmts_view(current@) =~= Seq::<StatementV>::empty());
                }
            },
            Statement::Perform { .. } | Statement::PerformUntil { .. } | Statement::PerformVarying {
                ..
            } | Statement::Call { .. } | Statement::StopRun => {
                let c = crate::ir::clone_statement(stmt);
                let ghost c0 = current@;
                current.push(c);
                proof {
                    crate::ir::lemma_stmts_view_push(c0, c);
                }
                let mut taken: Vec<Statement> = Vec::new();
                std::mem::swap(&mut taken, &mut current);
                let ghost b0 = blocks@;
                blocks.push(taken);
                proof {
                    lemma_blocks_view_push(b0, taken);
                    assert(stmts_view(current@) =~= Seq::<StatementV>::empty());
                }
            },
            _ => {
                let c = crate::ir::clone_statement(stmt);
                let ghost c0 = current@;
                current.push(c);
                proof {
                    crate::ir::lemma_stmts_view_push(c0, c);
                }
            },
        }
        i = i + 1;
    }
    flush_exec(&mut blocks, &mut current);
    blocks
}

// ---------------------------------------------------------------------
// Successors
// ---------------------------------------------------------------------

/// Shape of the last statement of a block: 1 stop, 2 loop, 3 conditional,
/// 0 anything else (or an empty block).
pub open spec fn last_kind(b: Seq<StatementV>) -> int {
    if b.len() == 0 {
        0
    } else if b.last() is StopRun {
        1
    } else if b.last() is For {
        2
    } else if b.last() is If {
        3
    } else {
        0
    }
}

/// The edges that a walk over the blocks lays down: a stop has none; a
/// loop header leads to its body and exit and the body back to the header;
/// a conditional leads to the next two blocks, which both lead to the
/// third; any other block falls through to the next one.
pub open spec fn succ_walk(lk: Seq<int>, id: int, acc: Seq<Seq<usize>>) -> Seq<Seq<usize>>
    decreases lk.len() - id,
{
    let n = lk.len() as int;
    if id < 0 || id >= n {
        acc
    } else if lk[id] == 1 {
        succ_walk(lk, id + 1, acc)
    } else if lk[id] == 2 && id + 2 < n {
        succ_walk(
            lk,
            id + 2,
            acc.update(id, acc[id].push((id + 1) as usize).push((id + 2) as usize)).update(
                id + 1,
                acc[id + 1].push(id as usize),
            ),
        )
    } else if lk[id] == 3 && id + 3 < n {
        succ_walk(
            lk,
            id + 3,
            acc.update(id, acc[id].push((id + 1) as usize).push((id + 2) as usize)).update(
                id + 1,
                acc[id + 1].push((id + 3) as usize),
            ).update(id + 2, acc[id + 2].push((id + 3) as usize)),
        )
    } else if id + 1 < n {
        succ_walk(lk, id + 1, acc.update(id, acc[id].push((id + 1) as usize)))
    } else {
        succ_walk(lk, id + 1, acc)
    }
}

/// The successor lists of a sequence of blocks.
pub open spec fn block_successors(blocks: Seq<Seq<StatementV>>) -> Seq<Seq<usize>> {
    succ_walk(
        Seq::new(blocks.len(), |i: int| last_kind(blocks[i])),
        0,
        Seq::new(blocks.len(), |i: int| Seq::<usize>::empty()),
    )
}

pub open spec fn cfg_blocks_view(cfg: &ControlFlowGraph) -> Seq<Seq<StatementV>> {
    Seq::new(cfg.blocks@.len(), |i: int| stmts_view(cfg.blocks@[i].statements@))
}

fn last_kind_exec(b: &Vec<Statement>) -> (r: usize)
    ensures
        r == last_kind(stmts_view(b@)),
{
    proof {
        crate::ir::lemma_stmts_view(b@);
    }
    if b.len() == 0 {
        0
    } else {
        match &b[b.len() - 1] {
            Statement::StopRun => 1,
            Statement::For { .. } => 2,
            Statement::If { .. } => 3,
            _ => 0,
        }
    }
}

fn push_edge(acc: &mut Vec<Vec<usize>>, from: usize, to: usize)
    requires
        from < old(acc)@.len(),
    ensures
        final(acc)@.len() == old(acc)@.len(),
        rows_usize(final(acc)@) == rows_usize(old(acc)@).update(
            from as int,
            rows_usize(old(acc)@)[from as int].push(to),
        ),
{
    let ghost a0 = acc@;
    let mut row = acc.remove(from);
    row.push(to);
    acc.insert(from, row);
    assert(rows_usize(acc@) =~= rows_usize(a0).update(from as int, rows_usize(a0)[from as int].push(to)));
}

/// Recomputes every block's successors from the block contents.
fn rebuild_successors(cfg: &mut ControlFlowGraph)
    ensures
        final(cfg).blocks@.len() == old(cfg).blocks@.len(),
        forall|i: int| 0 <= i < final(cfg).blocks@.len() ==> #[trigger] final(cfg).blocks@[i].statements == old(cfg).blocks@[i].statements,
        forall|i: int| 0 <= i < final(cfg).blocks@.len() ==> #[trigger] final(cfg).blocks@[i].id == old(cfg).blocks@[i].id,
        forall|i: int| 0 <= i < final(cfg).blocks@.len() ==> #[trigger] final(cfg).blocks@[i].idom == old(cfg).blocks@[i].idom,
        succ_model(final(cfg)) == block_successors(cfg_blocks_view(old(cfg))),
{
    let n = cfg.blocks.len();
    let ghost bv = cfg_blocks_view(cfg);
    let ghost lk = Seq::new(bv.len(), |i: int| last_kind(bv[i]));
    let mut kinds: Vec<usize> = Vec::new();
    let mut acc: Vec<Vec<usize>> = Vec::new();
    let mut i: usize = 0;
    while i < n
        invariant
            i <= n,
            n == cfg.blocks@.len(),
            bv == cfg_blocks_view(cfg),
            lk == Seq::new(bv.len(), |i: int| last_kind(bv[i])),
            kinds@.len() == i,
            forall|k: int| 0 <= k < i ==> #[trigger] kinds@[k] as int == lk[k],
            acc@.len() == i,
            forall|k: int| 0 <= k < i ==> #[trigger] acc@[k]@.len() == 0,
        decreases n - i,
    {
        kinds.push(last_kind_exec(&cfg.blocks[i].statements));
        acc.push(Vec::new());
        i = i + 1;
    }
    assert forall|k: int| 0 <= k < n implies #[trigger] rows_usize(acc@)[k] == Seq::<usize>::empty() by {
        assert(rows_usize(acc@)[k] =~= Seq::<usize>::empty());
    }
    assert(rows_usize(acc@) =~= Seq::new(bv.len(), |i: int| Seq::<usize>::empty()));
    assert(lk =~= Seq::new(bv.len(), |i: int| last_kind(bv[i])));
    let mut id: usize = 0;
    while id < n
        invariant
            id <= n,
            n == cfg.blocks@.len(),
            lk.len() == n,
            kinds@.len() == n,
            forall|k: int| 0 <= k < n ==> #[trigger] kinds@[k] as int == lk[k],
            acc@.len() == n,
            succ_walk(lk, id as int, rows_usize(acc@)) == block_successors(bv),
            bv == cfg_blocks_view(cfg),
            lk == Seq::new(bv.len(), |i: int| last_kind(bv[i])),
        decreases n - id,
    {
        let k = kinds[id];
        let ghost a0 = rows_usize(acc@);
        if k == 1 {
            id = id + 1;
        } else if k == 2 && n >= 2 && id < n - 2 {
            push_edge(&mut acc, id, id + 1);
            push_edge(&mut acc, id, id + 2);
            push_edge(&mut acc, id + 1, id);
            assert(rows_usize(acc@) =~= a0.update(id as int, a0[id as int].push((id + 1) as usize).push((id + 2) as usize)).update(
                id + 1,
                a0[id + 1].push(id as usize),
            ));
            id = id + 2;
        } else if k == 3 && n >= 3 && id < n - 3 {
            push_edge(&mut acc, id, id + 1);
            push_edge(&mut acc, id, id + 2);
            push_edge(&mut acc, id + 1, id + 3);
            push_edge(&mut acc, id + 2, id + 3);
            assert(rows_usize(acc@) =~= a0.update(id as int, a0[id as int].push((id + 1) as usize).push((id + 2) as usize)).update(
                id + 1,
                a0[id + 1].push((id + 3) as usize),
            ).update(id + 2, a0[id + 2].push((id + 3) as usize)));
            id = id + 3;
        } else if id + 1 < n {
            push_edge(&mut acc, id, id + 1);
            id = id + 1;
        } else {
            id = id + 1;
        }
    }
    let mut j: usize = 0;
    let ghost orig = cfg.blocks@;
    while j < n
        invariant
            j <= n,
            n == cfg.blocks@.len(),
            orig.len() == n,
            acc@.len() == n,
            forall|t: int| 0 <= t < n ==> #[trigger] cfg.blocks@[t].statements == orig[t].statements,
            forall|t: int| 0 <= t < n ==> #[trigger] cfg.blocks@[t].id == orig[t].id,
            forall|t: int| 0 <= t < n ==> #[trigger] cfg.blocks@[t].idom == orig[t].idom,
            forall|t: int| 0 <= t < j ==> #[trigger] cfg.blocks@[t].successors@ == acc@[t]@,
        decreases n - j,
    {
        let row = clone_usizes(&acc[j]);
        let ghost before = cfg.blocks@;
        let mut blk = cfg.blocks.remove(j);
        blk.successors = row;
        cfg.blocks.insert(j, blk);
        assert(cfg.blocks@ =~= before.update(j as int, blk));
        j = j + 1;
    }
    assert(succ_model(cfg) =~= rows_usize(acc@));
}


proof fn lemma_succ_walk_bounds(lk: Seq<int>, id: int, acc: Seq<Seq<usize>>)
    requires
        acc.len() == lk.len(),
        forall|i: int, k: int| 0 <= i < acc.len() && 0 <= k < acc[i].len() ==> #[trigger] acc[i][k] < lk.len(),
    ensures
        succ_walk(lk, id, acc).len() == lk.len(),
        forall|i: int, k: int|
            0 <= i < lk.len() && 0 <= k < succ_walk(lk, id, acc)[i].len() ==> #[trigger] succ_walk(lk, id, acc)[i][k] < lk.len(),
    decreases lk.len() - id,
{
    let n = lk.len() as int;
    if id < 0 || id >= n {
    } else if lk[id] == 1 {
        lemma_succ_walk_bounds(lk, id + 1, acc);
    } else if lk[id] == 2 && id + 2 < n {
        let a2 = acc.update(id, acc[id].push((id + 1) as usize).push((id + 2) as usize)).update(
            id + 1,
            acc[id + 1].push(id as usize),
        );
        assert forall|i: int, k: int| 0 <= i < a2.len() && 0 <= k < a2[i].len() implies #[trigger] a2[i][k] < lk.len() by {
            if i == id {
                if k < acc[id].len() {
                    assert(a2[i][k] == acc[id][k]);
                }
            } else if i == id + 1 {
                if k < acc[id + 1].len() {
                    assert(a2[i][k] == acc[id + 1][k]);
                }
            } else {
                assert(a2[i] == acc[i]);
            }
        }
        lemma_succ_walk_bounds(lk, id + 2, a2);
    } else if lk[id] == 3 && id + 3 < n {
        let a3 = acc.update(id, acc[id].push((id + 1) as usize).push((id + 2) as usize)).update(
            id + 1,
            acc[id + 1].push((id + 3) as usize),
        ).update(id + 2, acc[id + 2].push((id + 3) as usize));
        assert forall|i: int, k: int| 0 <= i < a3.len() && 0 <= k < a3[i].len() implies #[trigger] a3[i][k] < lk.len() by {
            if i == id {
                if k < acc[id].len() {
                    assert(a3[i][k] == acc[id][k]);
                }
            } else if i == id + 1 {
                if k < acc[id + 1].len() {
                    assert(a3[i][k] == acc[id + 1][k]);
                }
            } else if i == id + 2 {
                if k < acc[id + 2].len() {
                    assert(a3[i][k] == acc[id + 2][k]);
                }
            } else {
                assert(a3[i] == acc[i]);
            }
        }
        lemma_succ_walk_bounds(lk, id + 3, a3);
    } else if id + 1 < n {
        let a1 = acc.update(id, acc[id].push((id + 1) as usize));
        assert forall|i: int, k: int| 0 <= i < a1.len() && 0 <= k < a1[i].len() implies #[trigger] a1[i][k] < lk.len() by {
            if i == id {
                if k < acc[id].len() {
                    assert(a1[i][k] == acc[id][k]);
                }
            } else {
                assert(a1[i] == acc[i]);
            }
        }
        lemma_succ_walk_bounds(lk, id + 1, a1);
    } else {
        lemma_succ_walk_bounds(lk, id + 1, acc);
    }
}

impl ControlFlowGraph {
    /// The control-flow graph of a program's statements: its basic blocks,
    /// their successors, immediate dominators, dominator tree and
    /// dominance frontiers.
    pub fn build(program: &crate::ir::Program) -> (r: Self)
        ensures
            well_formed(&r),
            cfg_blocks_view(&r) == split_blocks(stmts_view(program.statements@)),
            succ_model(&r) == block_successors(cfg_blocks_view(&r)),
            exists|d: Seq<Seq<bool>>| #[trigger]
                is_greatest_dom(succ_model(&r), d) && forall|b: int|
                    0 <= b < r.blocks@.len() ==> picks_idom(d, b, #[trigger] r.blocks@[b].idom),
            forall|p: int| 0 <= p < r.blocks@.len() ==> #[trigger] r.blocks@[p].dom_children@ == children_of(idom_model(&r), p),
            is_frontier(succ_model(&r), idom_model(&r), frontier_model(&r)),
    {
        let blocks = split_into_blocks(&program.statements);
        let ghost bview = blocks_view(blocks@);
        let mut cfg = Self::new();
        let mut blocks = blocks;
        let mut rev: Vec<Vec<Statement>> = Vec::new();
        while blocks.len() > 0
            invariant
                blocks_view(blocks@) + blocks_view(rev@).reverse() == bview,
            decreases blocks.len(),
        {
            let last = blocks.pop().unwrap();
            let ghost mv = blocks@;
            let ghost rv = rev@;
            rev.push(last);
            proof {
                assert(blocks_view(mv.push(last)) =~= blocks_view(mv).push(stmts_view(last@)));
                assert(blocks_view(rev@) =~= blocks_view(rv).push(stmts_view(last@)));
                assert(blocks_view(rev@).reverse() =~= seq![stmts_view(last@)] + blocks_view(rv).reverse());
                assert(blocks_view(mv) + blocks_view(rev@).reverse() =~= blocks_view(mv.push(last)) + blocks_view(rv).reverse());
            }
        }
        assert(blocks_view(blocks@) =~= Seq::<Seq<StatementV>>::empty());
        assert(blocks_view(rev@).reverse() =~= bview);
        let mut id: usize = 0;
        while rev.len() > 0
            invariant
                cfg.blocks@.len() == id,
                cfg_blocks_view(&cfg) + blocks_view(rev@).reverse() == bview,
                forall|i: int| 0 <= i < id ==> #[trigger] cfg.blocks@[i].id == i,
                forall|i: int| 0 <= i < id ==> #[trigger] cfg.blocks@[i].successors@.len() == 0,
            decreases rev.len(),
        {
            let st = rev.pop().unwrap();
            let ghost rv = rev@;
            let ghost cv = cfg_blocks_view(&cfg);
            cfg.blocks.push(BasicBlock {
                id,
                statements: st,
                successors: Vec::new(),
                idom: None,
                dom_children: Vec::new(),
                dominance_frontier: Vec::new(),
            });
            proof {
                assert(cfg_blocks_view(&cfg) =~= cv.push(stmts_view(st@)));
                assert(blocks_view(rv.push(st)) =~= blocks_view(rv).push(stmts_view(st@)));
                assert(blocks_view(rv.push(st)).reverse() =~= seq![stmts_view(st@)] + blocks_view(rv).reverse());
                assert(cfg_blocks_view(&cfg) + blocks_view(rv).reverse() =~= cv + blocks_view(rv.push(st)).reverse());
            }
            id = cfg.blocks.len();
        }
        assert(blocks_view(rev@).reverse() =~= Seq::<Seq<StatementV>>::empty());
        assert(cfg_blocks_view(&cfg) + Seq::<Seq<StatementV>>::empty() =~= cfg_blocks_view(&cfg));
        let ghost bv = cfg_blocks_view(&cfg);
        rebuild_successors(&mut cfg);
        let n = cfg.blocks.len();
        assert(cfg_blocks_view(&cfg) =~= bv);
        proof {
            let lk = Seq::new(bv.len(), |i: int| last_kind(bv[i]));
            lemma_succ_walk_bounds(lk, 0, Seq::new(bv.len(), |i: int| Seq::<usize>::empty()));
            assert forall|i: int, k: int|
                0 <= i < n && 0 <= k < cfg.blocks@[i].successors@.len() implies #[trigger] cfg.blocks@[i].successors@[k] < n by {
                assert(succ_model(&cfg)[i] == cfg.blocks@[i].successors@);
            }
        }
        assert(well_formed(&cfg));
        let dom = compute_dominators(&cfg);
        let idom = compute_immediate_dominators(&cfg, &dom);
        let ghost succ = succ_model(&cfg);
        let ghost d = rows_view(dom@);
        let ghost before_idom = cfg.blocks@;
        let mut i: usize = 0;
        while i < n
            invariant
                i <= n,
                n == cfg.blocks@.len(),
                idom@.len() == n,
                before_idom.len() == n,
                forall|t: int| 0 <= t < n ==> #[trigger] cfg.blocks@[t].id == before_idom[t].id,
                forall|t: int| 0 <= t < n ==> #[trigger] cfg.blocks@[t].statements == before_idom[t].statements,
                forall|t: int| 0 <= t < n ==> #[trigger] cfg.blocks@[t].successors == before_idom[t].successors,
                forall|t: int| 0 <= t < i ==> #[trigger] cfg.blocks@[t].idom == idom@[t],
            decreases n - i,
        {
            let ghost b0 = cfg.blocks@;
            let mut blk = cfg.blocks.remove(i);
            blk.idom = idom[i];
            cfg.blocks.insert(i, blk);
            assert(cfg.blocks@ =~= b0.update(i as int, blk));
            i = i + 1;
        }
        assert(succ_model(&cfg) =~= succ);
        assert(cfg_blocks_view(&cfg) =~= bv);
        assert(well_formed(&cfg)) by {
            assert forall|t: int, k: int|
                0 <= t < n && 0 <= k < cfg.blocks@[t].successors@.len() implies #[trigger] cfg.blocks@[t].successors@[k] < n by {
                assert(cfg.blocks@[t].successors == before_idom[t].successors);
                assert(succ[t] == before_idom[t].successors@);
            }
        }
        assert(idoms_in_range(&cfg)) by {
            assert forall|t: int| 0 <= t < n implies match #[trigger] cfg.blocks@[t].idom {
                Some(p) => p < n,
                None => true,
            } by {
                assert(picks_idom(d, t, idom@[t]));
            }
        }
        let ghost pre = cfg.blocks@;
        let ghost idoms = idom_model(&cfg);
        compute_dominance_frontier(&mut cfg);
        proof {
            assert forall|t: int| 0 <= t < n implies #[trigger] succ_model(&cfg)[t] == succ[t] by {
                assert(cfg.blocks@[t].successors == pre[t].successors);
            }
            assert(succ_model(&cfg) =~= succ);
            assert forall|t: int| 0 <= t < n implies #[trigger] idom_model(&cfg)[t] == idoms[t] by {
                assert(cfg.blocks@[t].idom == pre[t].idom);
            }
            assert(idom_model(&cfg) =~= idoms);
            assert forall|t: int| 0 <= t < n implies #[trigger] cfg_blocks_view(&cfg)[t] == bv[t] by {
                assert(cfg.blocks@[t].statements == pre[t].statements);
            }
            assert(cfg_blocks_view(&cfg) =~= bv);
            assert forall|t: int| 0 <= t < n implies #[trigger] cfg.blocks@[t].id == t by {
                assert(cfg.blocks@[t].id == pre[t].id);
            }
            assert forall|t: int, k: int|
                0 <= t < n && 0 <= k < cfg.blocks@[t].successors@.len() implies #[trigger] cfg.blocks@[t].successors@[k] < n by {
                assert(cfg.blocks@[t].successors == pre[t].successors);
            }
            assert forall|b: int| 0 <= b < n implies picks_idom(d, b, #[trigger] cfg.blocks@[b].idom) by {
                assert(cfg.blocks@[b].idom == pre[b].idom);
                assert(picks_idom(d, b, idom@[b]));
            }
            assert(is_greatest_dom(succ_model(&cfg), d));
        }
        cfg
    }
}

} // verus!
