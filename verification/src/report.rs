//! Human-readable reports of analysis results, line by line, in the
//! `Debug` notation of the values they show.
use crate::cfg::{BasicBlock, ControlFlowGraph};
use crate::names::{keys_of, lookup};
use crate::phi::{lex_lt, names_sorted};
use crate::ssa::UseDefChains;
use crate::text::nat_text;
use vstd::prelude::*;

verus! {

broadcast use vstd::std_specs::vec::group_vec_axioms;

// ---------------------------------------------------------------------
// Notation
// ---------------------------------------------------------------------

/// Items joined by `, `.
pub open spec fn comma_list(s: Seq<usize>) -> Seq<char>
    decreases s.len(),
{
    if s.len() == 0 {
        Seq::empty()
    } else if s.len() == 1 {
        nat_text(s[0] as nat)
    } else {
        comma_list(s.drop_last()) + ", "@ + nat_text(s.last() as nat)
    }
}

/// `{:?}` of a list of numbers: `[1, 2]`.
pub open spec fn debug_list(s: Seq<usize>) -> Seq<char> {
    "["@ + comma_list(s) + "]"@
}

/// `{:?}` of an optional number: `Some(3)` or `None`.
pub open spec fn debug_opt(o: Option<usize>) -> Seq<char> {
    match o {
        Some(n) => "Some("@ + nat_text(n as nat) + ")"@,
        None => "None"@,
    }
}

/// `{:?}` of an optional list of numbers.
pub open spec fn debug_opt_list(o: Option<Seq<usize>>) -> Seq<char> {
    match o {
        Some(s) => "Some("@ + debug_list(s) + ")"@,
        None => "None"@,
    }
}

fn list_text(v: &Vec<usize>) -> (r: String)
    ensures
        r@ == debug_list(v@),
{
    let mut r = crate::text::owned("[");
    let ghost r0 = r@;
    let mut i: usize = 0;
    assert(v@.take(0) =~= Seq::<usize>::empty());
    while i < v.len()
        invariant
            i <= v@.len(),
            r0 == "["@,
            r@ == r0 + comma_list(v@.take(i as int)),
        decreases v.len() - i,
    {
        let ghost before = r@;
        if i > 0 {
            crate::text::append_str(&mut r, ", ");
        }
        let d = crate::text::usize_chars(v[i]);
        crate::text::append_chars(&mut r, d.as_slice());
        proof {
            let t = v@.take(i + 1);
            assert(t.drop_last() =~= v@.take(i as int));
            assert(t.last() == v@[i as int]);
            if i == 0 {
                assert(r@ =~= r0 + comma_list(t));
            } else {
                assert(r@ =~= r0 + comma_list(t));
            }
        }
        i = i + 1;
    }
    assert(v@.take(i as int) =~= v@);
    crate::text::append_str(&mut r, "]");
    r
}

fn opt_text(o: Option<usize>) -> (r: String)
    ensures
        r@ == debug_opt(o),
{
    match o {
        Some(n) => {
            let mut r = crate::text::owned("Some(");
            let d = crate::text::usize_chars(n);
            crate::text::append_chars(&mut r, d.as_slice());
            crate::text::append_str(&mut r, ")");
            r
        },
        None => crate::text::owned("None"),
    }
}

// ---------------------------------------------------------------------
// Control flow graphs
// ---------------------------------------------------------------------

/// The lines that describe one block.
pub open spec fn block_lines(b: BasicBlock) -> Seq<Seq<char>> {
    seq![
        "Block "@ + nat_text(b.id as nat) + " ("@ + nat_text(b.statements@.len()) + " statements)"@,
        "Successors: "@ + debug_list(b.successors@),
        "idom("@ + nat_text(b.id as nat) + ") = "@ + debug_opt(b.idom),
        "Dominator Children: "@ + debug_list(b.dom_children@),
        "Dominance Frontier: "@ + debug_list(b.dominance_frontier@),
    ]
}

/// The lines of the blocks, in order.
pub open spec fn blocks_lines(bs: Seq<BasicBlock>) -> Seq<Seq<char>>
    decreases bs.len(),
{
    if bs.len() == 0 {
        Seq::empty()
    } else {
        blocks_lines(bs.drop_last()) + block_lines(bs.last())
    }
}

fn push_line(lines: &mut Vec<String>, prefix: &str, rest: String)
    ensures
        crate::names::names_view(final(lines)@) == crate::names::names_view(old(lines)@).push(prefix@ + rest@),
{
    let mut l = crate::text::owned(prefix);
    crate::text::append_string(&mut l, &rest);
    let ghost v0 = lines@;
    lines.push(l);
    assert(crate::names::names_view(lines@) =~= crate::names::names_view(v0).push(prefix@ + rest@));
}

fn number_text(n: usize) -> (r: String)
    ensures
        r@ == nat_text(n as nat),
{
    let d = crate::text::usize_chars(n);
    crate::text::string_of(d.as_slice())
}

/// The report of a control flow graph: a `CFG` line, then for each block
/// its size, successors, immediate dominator, dominator-tree children and
/// dominance frontier.
pub fn cfg_report(cfg: &ControlFlowGraph) -> (r: Vec<String>)
    ensures
        crate::names::names_view(r@) == seq!["CFG"@] + blocks_lines(cfg.blocks@),
{
    let mut lines: Vec<String> = Vec::new();
    lines.push(crate::text::owned("CFG"));
    assert(crate::names::names_view(lines@) =~= seq!["CFG"@] + blocks_lines(cfg.blocks@.take(0)));
    let mut i: usize = 0;
    while i < cfg.blocks.len()
        invariant
            i <= cfg.blocks@.len(),
            crate::names::names_view(lines@) == seq!["CFG"@] + blocks_lines(cfg.blocks@.take(i as int)),
        decreases cfg.blocks.len() - i,
    {
        let b = &cfg.blocks[i];
        let ghost v0 = crate::names::names_view(lines@);
        let mut head = number_text(b.id);
        crate::text::append_str(&mut head, " (");
        let n = number_text(b.statements.len());
        crate::text::append_string(&mut head, &n);
        crate::text::append_str(&mut head, " statements)");
        push_line(&mut lines, "Block ", head);
        push_line(&mut lines, "Successors: ", list_text(&b.successors));
        let mut id = number_text(b.id);
        crate::text::append_str(&mut id, ") = ");
        let o = opt_text(b.idom);
        crate::text::append_string(&mut id, &o);
        push_line(&mut lines, "idom(", id);
        push_line(&mut lines, "Dominator Children: ", list_text(&b.dom_children));
        push_line(&mut lines, "Dominance Frontier: ", list_text(&b.dominance_frontier));
        proof {
            let t = cfg.blocks@.take(i + 1);
            assert(t.drop_last() =~= cfg.blocks@.take(i as int));
            assert(t.last() == *b);
            assert(crate::names::names_view(lines@) =~~= v0 + block_lines(*b));
        }
        i = i + 1;
    }
    assert(cfg.blocks@.take(i as int) =~= cfg.blocks@);
    lines
}

// ---------------------------------------------------------------------
// Use-def chains
// ---------------------------------------------------------------------

/// The names the chains speak of: those with definitions and those with
/// uses, each once, in increasing order.
pub open spec fn chain_names(chains: &UseDefChains, ns: Seq<Seq<char>>) -> bool {
    &&& names_sorted(ns)
    &&& forall|k: Seq<char>| ns.contains(k) <==> (keys_of(chains.defs.entries()).contains(k) || keys_of(chains.uses.entries()).contains(k))
}

/// The line of one name: its definitions (when it has any) and its uses.
pub open spec fn chain_line(chains: &UseDefChains, name: Seq<char>) -> Seq<char> {
    name + " -> defs: "@ + debug_opt_list(
        match lookup(chains.defs.entries(), name) {
            Some(v) => Some(v@),
            None => None,
        },
    ) + ", uses: "@ + debug_list(
        match lookup(chains.uses.entries(), name) {
            Some(v) => v@,
            None => Seq::empty(),
        },
    )
}

/// The names in increasing order, with `name` added where it is missing.
fn insert_sorted_name(ns: &mut Vec<Vec<char>>, name: Vec<char>)
    requires
        names_sorted(crate::text::seqs_view(old(ns)@)),
    ensures
        names_sorted(crate::text::seqs_view(final(ns)@)),
        forall|k: Seq<char>| #[trigger] crate::text::seqs_view(final(ns)@).contains(k) <==> (crate::text::seqs_view(old(ns)@).contains(k) || k == name@),
{
    let ghost s0 = crate::text::seqs_view(ns@);
    let mut i: usize = 0;
    while i < ns.len() && crate::phi::chars_less(&ns[i], &name)
        invariant
            i <= ns@.len(),
            s0 == crate::text::seqs_view(ns@),
            forall|j: int| 0 <= j < i ==> lex_lt(#[trigger] s0[j], name@),
        decreases ns.len() - i,
    {
        i = i + 1;
    }
    if i < ns.len() && crate::text::chars_eq(ns[i].as_slice(), name.as_slice()) {
        assert(s0[i as int] == name@);
        assert(s0.contains(name@));
        return;
    }
    proof {
        if i < s0.len() {
            crate::phi::lemma_lex_total(s0[i as int], name@);
            assert forall|j: int| i <= j < s0.len() implies lex_lt(name@, #[trigger] s0[j]) by {
                if j > i {
                    crate::phi::lemma_lex_transitive(name@, s0[i as int], s0[j]);
                }
            }
        }
    }
    let ghost nv = name@;
    ns.insert(i, name);
    proof {
        let s1 = crate::text::seqs_view(ns@);
        assert(s1 =~= s0.insert(i as int, nv));
        assert forall|a: int, b: int| 0 <= a < b < s1.len() implies lex_lt(#[trigger] s1[a], #[trigger] s1[b]) by {
            if b < i {
                assert(lex_lt(s0[a], s0[b]));
            } else if b == i {
                assert(lex_lt(s0[a], nv));
            } else if a < i {
                assert(lex_lt(s0[a], s0[b - 1]));
            } else if a == i {
                assert(lex_lt(nv, s0[b - 1]));
            } else {
                assert(lex_lt(s0[a - 1], s0[b - 1]));
            }
        }
        assert forall|k: Seq<char>| s1.contains(k) <==> (s0.contains(k) || k == nv) by {
            if s1.contains(k) {
                let j = choose|j: int| 0 <= j < s1.len() && s1[j] == k;
                if j < i {
                    assert(s0[j] == k);
                } else if j > i {
                    assert(s0[j - 1] == k);
                }
            }
            if s0.contains(k) {
                let j = choose|j: int| 0 <= j < s0.len() && s0[j] == k;
                if j < i {
                    assert(s1[j] == k);
                } else {
                    assert(s1[j + 1] == k);
                }
            }
            if k == nv {
                assert(s1[i as int] == k);
            }
        }
    }
}

fn add_keys(ns: &mut Vec<Vec<char>>, keys: &Vec<String>)
    requires
        names_sorted(crate::text::seqs_view(old(ns)@)),
    ensures
        names_sorted(crate::text::seqs_view(final(ns)@)),
        forall|k: Seq<char>| #[trigger] crate::text::seqs_view(final(ns)@).contains(k) <==> (crate::text::seqs_view(old(ns)@).contains(k) || crate::names::names_view(keys@).contains(k)),
{
    let ghost s0 = crate::text::seqs_view(ns@);
    let ghost kv = crate::names::names_view(keys@);
    let mut i: usize = 0;
    while i < keys.len()
        invariant
            i <= keys@.len(),
            kv == crate::names::names_view(keys@),
            names_sorted(crate::text::seqs_view(ns@)),
            forall|k: Seq<char>| #[trigger] crate::text::seqs_view(ns@).contains(k) <==> (s0.contains(k) || kv.take(i as int).contains(k)),
        decreases keys.len() - i,
    {
        let ghost before = crate::text::seqs_view(ns@);
        assert(forall|k: Seq<char>| #[trigger] before.contains(k) <==> (s0.contains(k) || kv.take(i as int).contains(k)));
        let c = crate::text::chars_of_string(&keys[i]);
        assert(c@ == kv[i as int]);
        insert_sorted_name(ns, c);
        proof {
            assert forall|k: Seq<char>| kv.take(i + 1).contains(k) <==> (kv.take(i as int).contains(k) || k == kv[i as int]) by {
                if kv.take(i + 1).contains(k) {
                    let j = choose|j: int| 0 <= j < i + 1 && #[trigger] kv.take(i + 1)[j] == k;
                    if j < i {
                        assert(kv.take(i as int)[j] == k);
                    }
                }
                if kv.take(i as int).contains(k) {
                    let j = choose|j: int| 0 <= j < i && #[trigger] kv.take(i as int)[j] == k;
                    assert(kv.take(i + 1)[j] == k);
                }
                if k == kv[i as int] {
                    assert(kv.take(i + 1)[i as int] == k);
                }
            }
        }
        assert forall|k: Seq<char>| crate::text::seqs_view(ns@).contains(k) <==> (s0.contains(k) || kv.take(i + 1).contains(k)) by {
            assert(crate::text::seqs_view(ns@).contains(k) <==> (before.contains(k) || k == kv[i as int]));
            assert(before.contains(k) <==> (s0.contains(k) || kv.take(i as int).contains(k)));
            assert(kv.take(i + 1).contains(k) <==> (kv.take(i as int).contains(k) || k == kv[i as int]));
        }
        i = i + 1;
    }
    assert(kv.take(i as int) =~= kv);
}

/// The names that the chains speak of, each once, in increasing order.
pub fn chain_name_list(chains: &UseDefChains) -> (r: Vec<String>)
    ensures
        chain_names(chains, crate::names::names_view(r@)),
{
    let mut ns: Vec<Vec<char>> = Vec::new();
    assert(crate::text::seqs_view(ns@) =~= Seq::<Seq<char>>::empty());
    let dk = chains.defs.keys();
    let uk = chains.uses.keys();
    proof {
        assert(crate::names::names_view(dk@) =~= keys_of(chains.defs.entries()));
        assert(crate::names::names_view(uk@) =~= keys_of(chains.uses.entries()));
    }
    let ghost e0 = crate::text::seqs_view(ns@);
    add_keys(&mut ns, &dk);
    let ghost e1 = crate::text::seqs_view(ns@);
    add_keys(&mut ns, &uk);
    proof {
        assert forall|k: Seq<char>| crate::text::seqs_view(ns@).contains(k) <==> (keys_of(chains.defs.entries()).contains(k) || keys_of(chains.uses.entries()).contains(k)) by {
            assert(!e0.contains(k));
            assert(e1.contains(k) <==> (e0.contains(k) || crate::names::names_view(dk@).contains(k)));
            assert(crate::text::seqs_view(ns@).contains(k) <==> (e1.contains(k) || crate::names::names_view(uk@).contains(k)));
        }
    }
    let mut r: Vec<String> = Vec::new();
    let mut i: usize = 0;
    while i < ns.len()
        invariant
            i <= ns@.len(),
            r@.len() == i,
            forall|j: int| 0 <= j < i ==> #[trigger] r@[j]@ == ns@[j]@,
        decreases ns.len() - i,
    {
        r.push(crate::text::string_of(ns[i].as_slice()));
        i = i + 1;
    }
    assert(crate::names::names_view(r@) =~= crate::text::seqs_view(ns@));
    r
}

/// The report of use-def chains: a blank line, a title, one line per name
/// in increasing order, and a blank line.
pub fn use_def_report(chains: &UseDefChains) -> (r: Vec<String>)
    ensures
        exists|ns: Seq<Seq<char>>| #[trigger] chain_names(chains, ns)
            && crate::names::names_view(r@) == seq![Seq::<char>::empty(), "=== USE-DEF CHAINS ==="@]
                + Seq::new(ns.len(), |i: int| chain_line(chains, ns[i])) + seq![Seq::<char>::empty()],
{
    let names = chain_name_list(chains);
    let ghost ns = crate::names::names_view(names@);
    let mut lines: Vec<String> = Vec::new();
    lines.push(String::new());
    lines.push(crate::text::owned("=== USE-DEF CHAINS ==="));
    let mut i: usize = 0;
    while i < names.len()
        invariant
            i <= names@.len(),
            ns == crate::names::names_view(names@),
            crate::names::names_view(lines@) == seq![Seq::<char>::empty(), "=== USE-DEF CHAINS ==="@]
                + Seq::new(i as nat, |j: int| chain_line(chains, ns[j])),
        decreases names.len() - i,
    {
        let ghost v0 = crate::names::names_view(lines@);
        let mut l = names[i].clone();
        crate::text::append_str(&mut l, " -> defs: ");
        match chains.defs.get_name(&names[i]) {
            Some(v) => {
                crate::text::append_str(&mut l, "Some(");
                let t = list_text(v);
                crate::text::append_string(&mut l, &t);
                crate::text::append_str(&mut l, ")");
            },
            None => crate::text::append_str(&mut l, "None"),
        }
        crate::text::append_str(&mut l, ", uses: ");
        match chains.uses.get_name(&names[i]) {
            Some(v) => {
                let t = list_text(v);
                crate::text::append_string(&mut l, &t);
            },
            None => {
                let empty: Vec<usize> = Vec::new();
                let t = list_text(&empty);
                crate::text::append_string(&mut l, &t);
            },
        }
        assert(l@ =~= chain_line(chains, ns[i as int]));
        let ghost lv = l@;
        lines.push(l);
        assert(crate::names::names_view(lines@) =~= v0.push(lv));
        assert(Seq::new((i + 1) as nat, |j: int| chain_line(chains, ns[j])) =~= Seq::new(i as nat, |j: int| chain_line(chains, ns[j])).push(lv));
        assert(crate::names::names_view(lines@) =~~= seq![Seq::<char>::empty(), "=== USE-DEF CHAINS ==="@]
            + Seq::new((i + 1) as nat, |j: int| chain_line(chains, ns[j])));
        i = i + 1;
    }
    lines.push(String::new());
    assert(crate::names::names_view(lines@) =~~= seq![Seq::<char>::empty(), "=== USE-DEF CHAINS ==="@]
        + Seq::new(ns.len(), |j: int| chain_line(chains, ns[j])) + seq![Seq::<char>::empty()]);
    lines
}

} // verus!
