//! Incremental migration in the strangler-fig style: legacy and modern
//! versions of functions side by side, a routing table that says which
//! one serves each name, and wrappers generated from that table.
use crate::ir::{Function, FunctionV};
use crate::names::{map_entries, put_value, value_of, NameMap};
use vstd::prelude::*;

verus! {

/// Which implementation serves a function.
#[derive(Debug, Clone, Copy, PartialEq, Eq, Structural)]
pub enum Routing {
    Legacy,
    Modern,
    Mixed,
}

/// The legacy and modern functions, by name, and the routing of each
/// name, all in the order the names were first recorded.
pub struct StranglerFig {
    legacy_functions: NameMap<Function>,
    modern_functions: NameMap<Function>,
    routing_table: NameMap<Routing>,
}

/// The model of a `StranglerFig`.
pub struct StranglerFigV {
    pub legacy: Seq<(Seq<char>, FunctionV)>,
    pub modern: Seq<(Seq<char>, FunctionV)>,
    pub routing: Seq<(Seq<char>, Routing)>,
}

impl View for StranglerFig {
    type V = StranglerFigV;

    closed spec fn view(&self) -> StranglerFigV {
        StranglerFigV {
            legacy: map_entries(self.legacy_functions.entries(), |f: Function| f@),
            modern: map_entries(self.modern_functions.entries(), |f: Function| f@),
            routing: map_entries(self.routing_table.entries(), |r: Routing| r),
        }
    }
}

/// The Python wrapper of one routed name.
pub open spec fn python_wrapper_for(name: Seq<char>, r: Routing) -> Seq<char> {
    match r {
        Routing::Legacy => "def "@ + name + "(*args):\n    # Call legacy (not implemented)\n    pass\n\n"@,
        Routing::Modern => "def "@ + name + "(*args):\n    return modern_"@ + name + "(*args)\n\n"@,
        Routing::Mixed => "def "@ + name
            + "(*args):\n    # Route based on feature flag\n    if is_feature_enabled('"@ + name
            + "'):\n        return modern_"@ + name
            + "(*args)\n    else:\n        # Call legacy (not implemented)\n        pass\n\n"@,
    }
}

/// The wrappers of every routed name, in the table's order.
pub open spec fn python_wrappers(t: Seq<(Seq<char>, Routing)>) -> Seq<char>
    decreases t.len(),
{
    if t.len() == 0 {
        Seq::empty()
    } else {
        python_wrappers(t.drop_last()) + python_wrapper_for(t.last().0, t.last().1)
    }
}

/// The wrapper code for a target language: Python is the one supported.
pub open spec fn wrapper_code(t: Seq<(Seq<char>, Routing)>, target_lang: Seq<char>) -> Seq<char> {
    if target_lang == "python"@ {
        python_wrappers(t)
    } else {
        "# Unsupported language"@
    }
}

/// The routing table after `add_modern` of `name`: a name that is routed
/// already keeps its routing, a new one is routed to the modern version.
pub open spec fn route_new_modern(t: Seq<(Seq<char>, Routing)>, name: Seq<char>) -> Seq<(Seq<char>, Routing)> {
    if value_of(t, name) is Some {
        t
    } else {
        put_value(t, name, Routing::Modern)
    }
}

/// Reading a routing after setting it gives the routing set, and the
/// other names keep theirs.
pub proof fn law_route_after_set(t: Seq<(Seq<char>, Routing)>, name: Seq<char>, r: Routing, other: Seq<char>)
    ensures
        value_of(put_value(t, name, r), name) == Some(r),
        other != name ==> value_of(put_value(t, name, r), other) == value_of(t, other),
{
    crate::names::lemma_put_value_of(t, name, r, other);
}

/// Adding a modern version never changes the routing of a name that is
/// routed already, and routes a new name to it.
pub proof fn law_modern_keeps_routing(t: Seq<(Seq<char>, Routing)>, name: Seq<char>)
    ensures
        value_of(t, name) is Some ==> value_of(route_new_modern(t, name), name) == value_of(t, name),
        value_of(t, name) is None ==> value_of(route_new_modern(t, name), name) == Some(Routing::Modern),
{
    crate::names::lemma_put_value_of(t, name, Routing::Modern, name);
}

impl StranglerFig {
    /// An empty migration: no functions and no routes.
    pub fn new() -> (r: Self)
        ensures
            r@.legacy.len() == 0,
            r@.modern.len() == 0,
            r@.routing.len() == 0,
    {
        let r = StranglerFig {
            legacy_functions: NameMap::new(),
            modern_functions: NameMap::new(),
            routing_table: NameMap::new(),
        };
        assert(r@.legacy.len() == 0);
        r
    }

    /// Records the legacy version of `name` and routes the name to it.
    pub fn add_legacy(&mut self, name: String, func: Function)
        ensures
            final(self)@.legacy == put_value(old(self)@.legacy, name@, func@),
            final(self)@.modern == old(self)@.modern,
            final(self)@.routing == put_value(old(self)@.routing, name@, Routing::Legacy),
    {
        let ghost l0 = self.legacy_functions.entries();
        let ghost t0 = self.routing_table.entries();
        let ghost fv = func@;
        self.legacy_functions.insert(name.clone(), func);
        proof {
            crate::names::lemma_map_insert(l0, self.legacy_functions.entries(), name, func, |f: Function| f@);
        }
        self.routing_table.insert(name, Routing::Legacy);
        proof {
            crate::names::lemma_map_insert(t0, self.routing_table.entries(), name, Routing::Legacy, |r: Routing| r);
        }
    }

    /// Records the modern version of `name`; a name with no route yet is
    /// routed to it.
    pub fn add_modern(&mut self, name: String, func: Function)
        ensures
            final(self)@.legacy == old(self)@.legacy,
            final(self)@.modern == put_value(old(self)@.modern, name@, func@),
            final(self)@.routing == route_new_modern(old(self)@.routing, name@),
    {
        let ghost m0 = self.modern_functions.entries();
        let ghost t0 = self.routing_table.entries();
        self.modern_functions.insert(name.clone(), func);
        proof {
            crate::names::lemma_map_insert(m0, self.modern_functions.entries(), name, func, |f: Function| f@);
            crate::names::lemma_map_lookup(t0, |r: Routing| r, name@);
            crate::names::lemma_key_index(t0, name@);
        }
        if !self.routing_table.contains_key(&name) {
            self.routing_table.insert(name, Routing::Modern);
            proof {
                crate::names::lemma_map_insert(t0, self.routing_table.entries(), name, Routing::Modern, |r: Routing| r);
            }
        }
    }

    /// Routes `name` as given.
    pub fn set_routing(&mut self, name: &str, routing: Routing)
        ensures
            final(self)@.legacy == old(self)@.legacy,
            final(self)@.modern == old(self)@.modern,
            final(self)@.routing == put_value(old(self)@.routing, name@, routing),
    {
        let ghost t0 = self.routing_table.entries();
        let key = crate::text::owned(name);
        self.routing_table.insert(key, routing);
        proof {
            crate::names::lemma_map_insert(t0, self.routing_table.entries(), key, routing, |r: Routing| r);
        }
    }

    /// The wrapper code that routes each name, for a target language.
    pub fn generate_wrapper_code(&self, target_lang: &str) -> (r: String)
        ensures
            r@ == wrapper_code(self@.routing, target_lang@),
    {
        let lang = crate::text::chars_of(target_lang);
        if crate::text::chars_eq_str(lang.as_slice(), "python") {
            self.generate_python_wrapper()
        } else {
            crate::text::owned("# Unsupported language")
        }
    }

    fn generate_python_wrapper(&self) -> (r: String)
        ensures
            r@ == python_wrappers(self@.routing),
    {
        let ghost t = self@.routing;
        let mut code = String::new();
        let mut i: usize = 0;
        assert(t.take(0) =~= Seq::<(Seq<char>, Routing)>::empty());
        while i < self.routing_table.len()
            invariant
                i <= self.routing_table.entries().len(),
                t == self@.routing,
                t.len() == self.routing_table.entries().len(),
                code@ == python_wrappers(t.take(i as int)),
            decreases self.routing_table.entries().len() - i,
        {
            let (name, routing) = self.routing_table.entry_at(i);
            let ghost before = code@;
            match routing {
                Routing::Legacy => {
                    crate::text::append_str(&mut code, "def ");
                    crate::text::append_string(&mut code, name);
                    crate::text::append_str(&mut code, "(*args):\n    # Call legacy (not implemented)\n    pass\n\n");
                },
                Routing::Modern => {
                    crate::text::append_str(&mut code, "def ");
                    crate::text::append_string(&mut code, name);
                    crate::text::append_str(&mut code, "(*args):\n    return modern_");
                    crate::text::append_string(&mut code, name);
                    crate::text::append_str(&mut code, "(*args)\n\n");
                },
                Routing::Mixed => {
                    crate::text::append_str(&mut code, "def ");
                    crate::text::append_string(&mut code, name);
                    crate::text::append_str(
                        &mut code,
                        "(*args):\n    # Route based on feature flag\n    if is_feature_enabled('",
                    );
                    crate::text::append_string(&mut code, name);
                    crate::text::append_str(&mut code, "'):\n        return modern_");
                    crate::text::append_string(&mut code, name);
                    crate::text::append_str(
                        &mut code,
                        "(*args)\n    else:\n        # Call legacy (not implemented)\n        pass\n\n",
                    );
                },
            }
            proof {
                assert(t.take(i + 1).drop_last() =~= t.take(i as int));
                assert(t.take(i + 1).last() == t[i as int]);
                assert(t[i as int] == (name@, *routing));
                assert(code@ =~= before + python_wrapper_for(name@, *routing));
            }
            i = i + 1;
        }
        assert(t.take(i as int) =~= t);
        code
    }
}

} // verus!
