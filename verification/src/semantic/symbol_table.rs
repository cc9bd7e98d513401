//! The symbol table: declared variables by name.
use crate::ir::{Literal, LiteralV, PicType, VariableDefinition, VariableDefinitionV};
use crate::names::{key_index, lookup, NameMap};
use vstd::prelude::*;

verus! {

/// A declared variable: its picture, occurrence count, the item it
/// redefines, its initial value and its condition names.
#[derive(Debug)]
pub struct Symbol {
    pub name: String,
    pub pic: Option<PicType>,
    pub occurs: Option<usize>,
    pub redefines: Option<String>,
    pub initial_value: Option<Literal>,
    pub condition_values: NameMap<Literal>,
}

pub struct SymbolV {
    pub name: Seq<char>,
    pub pic: Option<PicType>,
    pub occurs: Option<usize>,
    pub redefines: Option<Seq<char>>,
    pub initial_value: Option<LiteralV>,
    pub conditions: Seq<(Seq<char>, LiteralV)>,
}

impl View for Symbol {
    type V = SymbolV;

    open spec fn view(&self) -> SymbolV {
        SymbolV {
            name: self.name@,
            pic: self.pic,
            occurs: self.occurs,
            redefines: crate::ir::opt_name(self.redefines),
            initial_value: match self.initial_value {
                Some(l) => Some(l@),
                None => None,
            },
            conditions: crate::names::map_entries(self.condition_values.entries(), |l: Literal| l@),
        }
    }
}

/// The symbol a declaration makes, with no condition names yet.
pub open spec fn symbol_of(v: VariableDefinitionV) -> SymbolV {
    SymbolV {
        name: v.name,
        pic: v.pic,
        occurs: v.occurs,
        redefines: v.redefines,
        initial_value: v.initial_value,
        conditions: Seq::empty(),
    }
}

/// Declared variables by name.
pub struct SymbolTable {
    pub symbols: NameMap<Symbol>,
}

impl View for SymbolTable {
    type V = Map<Seq<char>, SymbolV>;

    open spec fn view(&self) -> Map<Seq<char>, SymbolV> {
        Map::new(
            |k: Seq<char>| key_index(self.symbols.entries(), k) is Some,
            |k: Seq<char>| lookup(self.symbols.entries(), k)->Some_0@,
        )
    }
}

impl Default for SymbolTable {
    fn default() -> (r: Self)
        ensures
            r@ == Map::<Seq<char>, SymbolV>::empty(),
    {
        SymbolTable::new()
    }
}

impl SymbolTable {
    /// An empty table.
    pub fn new() -> (r: Self)
        ensures
            r@ == Map::<Seq<char>, SymbolV>::empty(),
    {
        let r = SymbolTable { symbols: NameMap::new() };
        assert(r@ =~= Map::<Seq<char>, SymbolV>::empty());
        r
    }

    /// Declares a variable; a declaration of the same name is replaced.
    pub fn insert(&mut self, var: &VariableDefinition)
        ensures
            final(self)@ == old(self)@.insert(var.name@, symbol_of(var@)),
    {
        let ghost e0 = self.symbols.entries();
        self.symbols.note_distinct();
        let initial_value = match &var.initial_value {
            Some(l) => Some(l.copy()),
            None => None,
        };
        let sym = Symbol {
            name: var.name.clone(),
            pic: var.pic,
            occurs: var.occurs,
            redefines: crate::ir::clone_opt_name(&var.redefines),
            initial_value,
            condition_values: NameMap::new(),
        };
        assert(sym@ == symbol_of(var@)) by {
            assert(crate::names::map_entries(sym.condition_values.entries(), |l: Literal| l@) =~= Seq::<(Seq<char>, LiteralV)>::empty());
        }
        let name = var.name.clone();
        self.symbols.insert(name, sym);
        proof {
            crate::names::lemma_insert_lookup(e0, self.symbols.entries(), name, sym);
            assert(self@ =~= old(self)@.insert(var.name@, symbol_of(var@)));
        }
    }

    /// The symbol declared under `name`, if any.
    pub fn lookup(&self, name: &str) -> (r: Option<&Symbol>)
        ensures
            r matches Some(s) ==> self@.contains_key(name@) && s@ == self@[name@],
            r is None ==> !self@.contains_key(name@),
    {
        proof {
            crate::names::lemma_key_index(self.symbols.entries(), name@);
        }
        self.symbols.get(name)
    }
}

/// Looking a name up after declaring it finds the declaration; other names
/// find what they found before.
pub proof fn law_lookup_after_insert(
    before: Map<Seq<char>, SymbolV>,
    after: Map<Seq<char>, SymbolV>,
    var: VariableDefinitionV,
    other: Seq<char>,
)
    requires
        after == before.insert(var.name, symbol_of(var)),
    ensures
        after.contains_key(var.name) && after[var.name] == symbol_of(var),
        other != var.name ==> (after.contains_key(other) == before.contains_key(other)),
        other != var.name && before.contains_key(other) ==> after[other] == before[other],
{
}

} // verus!
