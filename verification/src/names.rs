//! Maps and sets keyed by variable names, in insertion order.
use crate::text::{owned, same_text};
use vstd::prelude::*;

verus! {

/// Position of the entry whose key is `k`, if any.
pub open spec fn key_index<V>(s: Seq<(String, V)>, k: Seq<char>) -> Option<int>
    decreases s.len(),
{
    if s.len() == 0 {
        None
    } else if s.last().0@ == k {
        Some(s.len() - 1)
    } else {
        key_index(s.drop_last(), k)
    }
}

/// Keys of an entry sequence.
pub open spec fn keys_of<V>(s: Seq<(String, V)>) -> Seq<Seq<char>> {
    Seq::new(s.len(), |i: int| s[i].0@)
}

/// No key occurs twice.
pub open spec fn distinct_keys<V>(s: Seq<(String, V)>) -> bool {
    forall|i: int, j: int| 0 <= i < j < s.len() ==> s[i].0@ != s[j].0@
}

pub proof fn lemma_key_index<V>(s: Seq<(String, V)>, k: Seq<char>)
    ensures
        key_index(s, k) matches Some(i) ==> 0 <= i < s.len() && s[i].0@ == k,
        key_index(s, k) is None ==> forall|i: int| 0 <= i < s.len() ==> s[i].0@ != k,
    decreases s.len(),
{
    if s.len() > 0 {
        lemma_key_index(s.drop_last(), k);
        if s.last().0@ != k {
            if key_index(s, k) is None {
                assert forall|i: int| 0 <= i < s.len() implies s[i].0@ != k by {
                    if i < s.len() - 1 {
                        assert(s[i] == s.drop_last()[i]);
                    }
                }
            }
        }
    }
}

pub proof fn lemma_key_index_at<V>(s: Seq<(String, V)>, k: Seq<char>, i: int)
    requires
        distinct_keys(s),
        0 <= i < s.len(),
        s[i].0@ == k,
    ensures
        key_index(s, k) == Some(i),
    decreases s.len(),
{
    if i < s.len() - 1 {
        assert(s.last().0@ != k);
        assert(s.drop_last()[i] == s[i]);
        lemma_key_index_at(s.drop_last(), k, i);
    }
}

/// The value recorded for `k`.
pub open spec fn lookup<V>(s: Seq<(String, V)>, k: Seq<char>) -> Option<V> {
    match key_index(s, k) {
        Some(i) => Some(s[i].1),
        None => None,
    }
}

/// A map from names to values that keeps its entries in insertion order.
#[derive(Debug)]
pub struct NameMap<V> {
    entries: Vec<(String, V)>,
}

impl<V> NameMap<V> {
    #[verifier::type_invariant]
    spec fn inv(self) -> bool {
        distinct_keys(self.entries@)
    }

    /// The entries in insertion order.
    pub closed spec fn entries(&self) -> Seq<(String, V)> {
        self.entries@
    }

    /// Brings the map's invariant into a caller's proof context.
    pub(crate) fn note_distinct(&self)
        ensures
            distinct_keys(self.entries()),
    {
        proof {
            use_type_invariant(self);
        }
    }

    /// An empty map.
    pub fn new() -> (r: Self)
        ensures
            r.entries() == Seq::<(String, V)>::empty(),
    {
        NameMap { entries: Vec::new() }
    }

    pub fn len(&self) -> (r: usize)
        ensures
            r == self.entries().len(),
    {
        self.entries.len()
    }

    /// Position of `name` among the entries.
    pub fn position(&self, name: &String) -> (r: Option<usize>)
        ensures
            r matches Some(i) ==> key_index(self.entries(), name@) == Some(i as int),
            r matches Some(i) ==> i < self.entries().len() && self.entries()[i as int].0@ == name@,
            r is None ==> key_index(self.entries(), name@) is None,
    {
        proof {
            use_type_invariant(self);
        }
        let mut i: usize = 0;
        while i < self.entries.len()
            invariant
                i <= self.entries@.len(),
                distinct_keys(self.entries@),
                forall|j: int| 0 <= j < i ==> self.entries@[j].0@ != name@,
            decreases self.entries.len() - i,
        {
            if same_text(&self.entries[i].0, name) {
                proof {
                    lemma_key_index_at(self.entries@, name@, i as int);
                }
                return Some(i);
            }
            i = i + 1;
        }
        proof {
            lemma_key_index(self.entries@, name@);
        }
        None
    }

    /// Position of `name` (given as a slice) among the entries.
    pub fn position_str(&self, name: &str) -> (r: Option<usize>)
        ensures
            r matches Some(i) ==> key_index(self.entries(), name@) == Some(i as int),
            r matches Some(i) ==> i < self.entries().len() && self.entries()[i as int].0@ == name@,
            r is None ==> key_index(self.entries(), name@) is None,
    {
        let key = owned(name);
        self.position(&key)
    }

    /// The value stored for `name`.
    pub fn get(&self, name: &str) -> (r: Option<&V>)
        ensures
            r matches Some(v) ==> lookup(self.entries(), name@) == Some(*v),
            r is None ==> lookup(self.entries(), name@) is None,
    {
        match self.position_str(name) {
            Some(i) => Some(&self.entries[i].1),
            None => None,
        }
    }

    /// The value stored for `name`.
    pub fn get_name(&self, name: &String) -> (r: Option<&V>)
        ensures
            r matches Some(v) ==> lookup(self.entries(), name@) == Some(*v),
            r is None ==> lookup(self.entries(), name@) is None,
    {
        match self.position(name) {
            Some(i) => Some(&self.entries[i].1),
            None => None,
        }
    }

    pub fn contains_key(&self, name: &String) -> (r: bool)
        ensures
            r == (key_index(self.entries(), name@) is Some),
    {
        self.position(name).is_some()
    }

    /// The key and value at position `i`.
    pub fn entry_at(&self, i: usize) -> (r: (&String, &V))
        requires
            i < self.entries().len(),
        ensures
            *r.0 == self.entries()[i as int].0,
            *r.1 == self.entries()[i as int].1,
    {
        (&self.entries[i].0, &self.entries[i].1)
    }

    /// Records `v` for `name`: an existing entry keeps its position and
    /// gets the new value; a new name is appended.
    pub fn insert(&mut self, name: String, v: V)
        ensures
            match key_index(old(self).entries(), name@) {
                Some(i) => final(self).entries() == old(self).entries().update(i, (name, v)),
                None => final(self).entries() == old(self).entries().push((name, v)),
            },
    {
        match self.position(&name) {
            Some(i) => {
                proof {
                    use_type_invariant(&*self);
                    lemma_key_index(self.entries@, name@);
                }
                let ghost before = self.entries@;
                let mut e: Vec<(String, V)> = Vec::new();
                std::mem::swap(&mut e, &mut self.entries);
                e.set(i, (name, v));
                assert(e@ == before.update(i as int, (name, v)));
                assert(distinct_keys(e@)) by {
                    assert forall|a: int, b: int|
                        0 <= a < b < e@.len() implies e@[a].0@ != e@[b].0@ by {
                        assert(before[a].0@ != before[b].0@);
                    }
                }
                self.entries = e;
            },
            None => {
                proof {
                    use_type_invariant(&*self);
                    lemma_key_index(self.entries@, name@);
                }
                let ghost before = self.entries@;
                let mut e: Vec<(String, V)> = Vec::new();
                std::mem::swap(&mut e, &mut self.entries);
                e.push((name, v));
                assert(distinct_keys(e@)) by {
                    assert forall|a: int, b: int|
                        0 <= a < b < e@.len() implies e@[a].0@ != e@[b].0@ by {
                        if b < before.len() {
                            assert(before[a].0@ != before[b].0@);
                        }
                    }
                }
                self.entries = e;
            },
        }
    }

    /// Removes the entry for `name`, keeping the order of the others.
    pub fn remove(&mut self, name: &String) -> (r: Option<V>)
        ensures
            match key_index(old(self).entries(), name@) {
                Some(i) => {
                    &&& final(self).entries() == old(self).entries().remove(i)
                    &&& r == Some(old(self).entries()[i].1)
                },
                None => final(self).entries() == old(self).entries() && r is None,
            },
    {
        match self.position(name) {
            Some(i) => {
                proof {
                    use_type_invariant(&*self);
                    lemma_key_index(self.entries@, name@);
                }
                let ghost before = self.entries@;
                let mut e: Vec<(String, V)> = Vec::new();
                std::mem::swap(&mut e, &mut self.entries);
                let (_, v) = e.remove(i);
                assert(distinct_keys(e@)) by {
                    assert forall|a: int, b: int|
                        0 <= a < b < e@.len() implies e@[a].0@ != e@[b].0@ by {
                        if a < i {
                            if b < i {
                                assert(before[a].0@ != before[b].0@);
                            } else {
                                assert(before[a].0@ != before[b + 1].0@);
                            }
                        } else {
                            assert(before[a + 1].0@ != before[b + 1].0@);
                        }
                    }
                }
                self.entries = e;
                Some(v)
            },
            None => None,
        }
    }

    /// The keys in insertion order.
    pub fn keys(&self) -> (r: Vec<String>)
        ensures
            r@.len() == self.entries().len(),
            forall|i: int| 0 <= i < r@.len() ==> #[trigger] r@[i]@ == self.entries()[i].0@,
    {
        let mut r: Vec<String> = Vec::new();
        let mut i: usize = 0;
        while i < self.entries.len()
            invariant
                i <= self.entries@.len(),
                r@.len() == i,
                forall|j: int| 0 <= j < i ==> #[trigger] r@[j]@ == self.entries@[j].0@,
            decreases self.entries.len() - i,
        {
            r.push(self.entries[i].0.clone());
            i = i + 1;
        }
        r
    }
}

impl NameMap<Vec<usize>> {
    /// Appends `index` to the list recorded for `name`, starting an empty
    /// list at the end of the map when `name` is new.
    pub fn push_index(&mut self, name: &String, index: usize)
        ensures
            match key_index(old(self).entries(), name@) {
                Some(i) => {
                    &&& final(self).entries().len() == old(self).entries().len()
                    &&& final(self).entries()[i].0@ == name@
                    &&& final(self).entries()[i].1@ == old(self).entries()[i].1@.push(index)
                    &&& forall|j: int|
                        0 <= j < old(self).entries().len() && j != i ==> #[trigger] final(self).entries()[j] == old(self).entries()[j]
                },
                None => {
                    &&& final(self).entries().len() == old(self).entries().len() + 1
                    &&& final(self).entries().last().0@ == name@
                    &&& final(self).entries().last().1@ == seq![index]
                    &&& forall|j: int|
                        0 <= j < old(self).entries().len() ==> #[trigger] final(self).entries()[j] == old(self).entries()[j]
                },
            },
    {
        match self.position(name) {
            Some(i) => {
                proof {
                    use_type_invariant(&*self);
                    lemma_key_index(self.entries@, name@);
                }
                let ghost before = self.entries@;
                let mut e: Vec<(String, Vec<usize>)> = Vec::new();
                std::mem::swap(&mut e, &mut self.entries);
                let (k, mut v) = e.remove(i);
                v.push(index);
                e.insert(i, (k, v));
                assert forall|j: int| 0 <= j < before.len() && j != i implies e@[j] == before[j] by {
                    if j < i {
                    } else {
                    }
                }
                assert(distinct_keys(e@)) by {
                    assert forall|a: int, b: int|
                        0 <= a < b < e@.len() implies e@[a].0@ != e@[b].0@ by {
                        assert(e@[a].0@ == before[a].0@);
                        assert(e@[b].0@ == before[b].0@);
                        assert(before[a].0@ != before[b].0@);
                    }
                }
                self.entries = e;
            },
            None => {
                proof {
                    use_type_invariant(&*self);
                    lemma_key_index(self.entries@, name@);
                }
                let ghost before = self.entries@;
                let mut v: Vec<usize> = Vec::new();
                v.push(index);
                let mut e: Vec<(String, Vec<usize>)> = Vec::new();
                std::mem::swap(&mut e, &mut self.entries);
                e.push((name.clone(), v));
                assert(distinct_keys(e@)) by {
                    assert forall|a: int, b: int|
                        0 <= a < b < e@.len() implies e@[a].0@ != e@[b].0@ by {
                        if b < before.len() {
                            assert(before[a].0@ != before[b].0@);
                        }
                    }
                }
                self.entries = e;
            },
        }
    }
}

/// A set of names that keeps its members in insertion order.
#[derive(Debug)]
pub struct NameSet {
    items: Vec<String>,
}

pub open spec fn distinct_names(s: Seq<String>) -> bool {
    forall|i: int, j: int| 0 <= i < j < s.len() ==> s[i]@ != s[j]@
}

pub open spec fn names_view(s: Seq<String>) -> Seq<Seq<char>> {
    Seq::new(s.len(), |i: int| s[i]@)
}

impl NameSet {
    #[verifier::type_invariant]
    spec fn inv(self) -> bool {
        distinct_names(self.items@)
    }

    /// The members in insertion order.
    pub closed spec fn members(&self) -> Seq<Seq<char>> {
        names_view(self.items@)
    }

    /// Brings the set's invariant into a caller's proof context.
    pub(crate) fn note_distinct(&self)
        ensures
            self.members().no_duplicates(),
    {
        proof {
            use_type_invariant(self);
        }
    }

    pub fn new() -> (r: Self)
        ensures
            r.members() == Seq::<Seq<char>>::empty(),
    {
        NameSet { items: Vec::new() }
    }

    pub fn len(&self) -> (r: usize)
        ensures
            r == self.members().len(),
    {
        self.items.len()
    }

    pub fn contains(&self, name: &String) -> (r: bool)
        ensures
            r == self.members().contains(name@),
    {
        let mut i: usize = 0;
        while i < self.items.len()
            invariant
                i <= self.items@.len(),
                forall|j: int| 0 <= j < i ==> self.items@[j]@ != name@,
            decreases self.items.len() - i,
        {
            if same_text(&self.items[i], name) {
                assert(self.members()[i as int] == name@);
                return true;
            }
            i = i + 1;
        }
        proof {
            if self.members().contains(name@) {
                let k = choose|k: int| 0 <= k < self.members().len() && self.members()[k] == name@;
                assert(self.items@[k]@ == name@);
            }
        }
        false
    }

    /// Adds `name` at the end unless it is already a member; returns
    /// whether it was added.
    pub fn insert(&mut self, name: String) -> (r: bool)
        ensures
            r == !old(self).members().contains(name@),
            r ==> final(self).members() == old(self).members().push(name@),
            !r ==> final(self).members() == old(self).members(),
    {
        if self.contains(&name) {
            false
        } else {
            proof {
                use_type_invariant(&*self);
            }
            let ghost before = self.items@;
            let ghost nv = name@;
            let mut e: Vec<String> = Vec::new();
            std::mem::swap(&mut e, &mut self.items);
            e.push(name);
            assert(distinct_names(e@)) by {
                assert forall|a: int, b: int|
                    0 <= a < b < e@.len() implies e@[a]@ != e@[b]@ by {
                    if b < before.len() {
                        assert(before[a]@ != before[b]@);
                    } else {
                        assert(names_view(before)[a] == before[a]@);
                    }
                }
            }
            assert(names_view(e@) =~= names_view(before).push(nv));
            self.items = e;
            true
        }
    }

    /// The member at position `i`.
    pub fn item_at(&self, i: usize) -> (r: &String)
        requires
            i < self.members().len(),
        ensures
            r@ == self.members()[i as int],
    {
        &self.items[i]
    }

    /// The members in insertion order.
    pub fn to_vec(&self) -> (r: Vec<String>)
        ensures
            names_view(r@) == self.members(),
    {
        let mut r: Vec<String> = Vec::new();
        let mut i: usize = 0;
        while i < self.items.len()
            invariant
                i <= self.items@.len(),
                r@.len() == i,
                forall|j: int| 0 <= j < i ==> #[trigger] r@[j]@ == self.items@[j]@,
            decreases self.items.len() - i,
        {
            r.push(self.items[i].clone());
            i = i + 1;
        }
        assert(names_view(r@) =~= names_view(self.items@));
        r
    }
}


/// The entries with their keys as character sequences.
pub open spec fn view_entries<V>(s: Seq<(String, V)>) -> Seq<(Seq<char>, V)> {
    Seq::new(s.len(), |i: int| (s[i].0@, s[i].1))
}

/// Position of the last entry whose key is `k`, if any.
pub open spec fn index_of_key<V>(s: Seq<(Seq<char>, V)>, k: Seq<char>) -> Option<int>
    decreases s.len(),
{
    if s.len() == 0 {
        None
    } else if s.last().0 == k {
        Some(s.len() - 1)
    } else {
        index_of_key(s.drop_last(), k)
    }
}

/// The value recorded for `k`.
pub open spec fn value_of<V>(s: Seq<(Seq<char>, V)>, k: Seq<char>) -> Option<V> {
    match index_of_key(s, k) {
        Some(i) => Some(s[i].1),
        None => None,
    }
}

/// Records `v` for `k`: in place when `k` is there, else appended.
pub open spec fn put_value<V>(s: Seq<(Seq<char>, V)>, k: Seq<char>, v: V) -> Seq<(Seq<char>, V)> {
    match index_of_key(s, k) {
        Some(i) => s.update(i, (k, v)),
        None => s.push((k, v)),
    }
}

pub proof fn lemma_view_entries<V>(s: Seq<(String, V)>, k: Seq<char>)
    ensures
        index_of_key(view_entries(s), k) == key_index(s, k),
        value_of(view_entries(s), k) == lookup(s, k),
    decreases s.len(),
{
    lemma_key_index(s, k);
    if s.len() > 0 {
        assert(view_entries(s).drop_last() =~= view_entries(s.drop_last()));
        lemma_view_entries(s.drop_last(), k);
    }
}

/// What `NameMap::insert` does to the entries, seen through their keys.
pub proof fn lemma_view_insert<V>(s: Seq<(String, V)>, t: Seq<(String, V)>, name: String, v: V)
    requires
        match key_index(s, name@) {
            Some(i) => t == s.update(i, (name, v)),
            None => t == s.push((name, v)),
        },
    ensures
        view_entries(t) == put_value(view_entries(s), name@, v),
{
    lemma_view_entries(s, name@);
    lemma_key_index(s, name@);
    assert(view_entries(t) =~= put_value(view_entries(s), name@, v));
}


/// What `NameMap::insert` does to lookups: the inserted key finds the new
/// value and every other key finds what it found before.
pub proof fn lemma_insert_lookup<V>(e0: Seq<(String, V)>, e1: Seq<(String, V)>, name: String, v: V)
    requires
        distinct_keys(e0),
        match key_index(e0, name@) {
            Some(i) => e1 == e0.update(i, (name, v)),
            None => e1 == e0.push((name, v)),
        },
    ensures
        lookup(e1, name@) == Some(v),
        key_index(e1, name@) is Some,
        forall|k: Seq<char>| k != name@ ==> #[trigger] lookup(e1, k) == lookup(e0, k),
        forall|k: Seq<char>| k != name@ ==> (#[trigger] key_index(e1, k) is Some <==> key_index(e0, k) is Some),
{
    lemma_key_index(e0, name@);
    assert(distinct_keys(e1)) by {
        assert forall|a: int, b: int| 0 <= a < b < e1.len() implies e1[a].0@ != e1[b].0@ by {
            match key_index(e0, name@) {
                Some(i) => {
                    if a != i && b != i {
                        assert(e0[a].0@ != e0[b].0@);
                    } else if a == i {
                        assert(e0[b].0@ != name@);
                    } else {
                        assert(e0[a].0@ != name@);
                    }
                },
                None => {
                    if b < e0.len() {
                        assert(e0[a].0@ != e0[b].0@);
                    }
                },
            }
        }
    }
    match key_index(e0, name@) {
        Some(i) => {
            lemma_key_index_at(e1, name@, i);
        },
        None => {
            lemma_key_index_at(e1, name@, e0.len() as int);
        },
    }
    assert forall|k: Seq<char>| k != name@ implies #[trigger] lookup(e1, k) == lookup(e0, k) && (key_index(e1, k) is Some <==> key_index(e0, k) is Some) by {
        lemma_key_index(e0, k);
        lemma_key_index(e1, k);
        match key_index(e0, k) {
            Some(j) => {
                lemma_key_index_at(e1, k, j);
            },
            None => {
                if key_index(e1, k) is Some {
                    let j = key_index(e1, k)->Some_0;
                    if j < e0.len() {
                        assert(e1[j].0@ == e0[j].0@);
                    }
                }
            },
        }
    }
    assert forall|k: Seq<char>| k != name@ implies (#[trigger] key_index(e1, k) is Some <==> key_index(e0, k) is Some) by {
        assert(lookup(e1, k) == lookup(e0, k));
    }
}

/// `key_index` finds a key exactly when the keys contain it.
pub proof fn lemma_key_index_contains<V>(e: Seq<(String, V)>, k: Seq<char>)
    ensures
        (key_index(e, k) is Some) == keys_of(e).contains(k),
{
    lemma_key_index(e, k);
    if keys_of(e).contains(k) {
        let j = choose|j: int| 0 <= j < keys_of(e).len() && keys_of(e)[j] == k;
        assert(e[j].0@ == k);
    }
    if key_index(e, k) is Some {
        let j = key_index(e, k)->Some_0;
        assert(keys_of(e)[j] == k);
    }
}


/// The entries with keys as character sequences and values mapped by `f`.
pub open spec fn map_entries<V, W>(s: Seq<(String, V)>, f: spec_fn(V) -> W) -> Seq<(Seq<char>, W)> {
    Seq::new(s.len(), |i: int| (s[i].0@, f(s[i].1)))
}


/// Removes the entry for `k`, when there is one.
pub open spec fn del_value<V>(s: Seq<(Seq<char>, V)>, k: Seq<char>) -> Seq<(Seq<char>, V)> {
    match index_of_key(s, k) {
        Some(i) => s.remove(i),
        None => s,
    }
}

proof fn lemma_map_entries_index<V, W>(s: Seq<(String, V)>, f: spec_fn(V) -> W, k: Seq<char>)
    ensures
        index_of_key(map_entries(s, f), k) == key_index(s, k),
    decreases s.len(),
{
    if s.len() > 0 {
        assert(map_entries(s, f).drop_last() =~= map_entries(s.drop_last(), f));
        lemma_map_entries_index(s.drop_last(), f, k);
    }
}

/// What `NameMap::insert` does to mapped entries.
pub proof fn lemma_map_insert<V, W>(s: Seq<(String, V)>, t: Seq<(String, V)>, name: String, v: V, f: spec_fn(V) -> W)
    requires
        match key_index(s, name@) {
            Some(i) => t == s.update(i, (name, v)),
            None => t == s.push((name, v)),
        },
    ensures
        map_entries(t, f) == put_value(map_entries(s, f), name@, f(v)),
{
    lemma_map_entries_index(s, f, name@);
    lemma_key_index(s, name@);
    assert(map_entries(t, f) =~= put_value(map_entries(s, f), name@, f(v)));
}

/// What `NameMap::remove` does to mapped entries.
pub proof fn lemma_map_remove<V, W>(s: Seq<(String, V)>, t: Seq<(String, V)>, name: Seq<char>, f: spec_fn(V) -> W)
    requires
        match key_index(s, name) {
            Some(i) => t == s.remove(i),
            None => t == s,
        },
    ensures
        map_entries(t, f) == del_value(map_entries(s, f), name),
{
    lemma_map_entries_index(s, f, name);
    lemma_key_index(s, name);
    assert(map_entries(t, f) =~= del_value(map_entries(s, f), name));
}

/// What `NameMap::get` finds, through mapped entries.
pub proof fn lemma_map_lookup<V, W>(s: Seq<(String, V)>, f: spec_fn(V) -> W, k: Seq<char>)
    ensures
        value_of(map_entries(s, f), k) == match lookup(s, k) {
            Some(v) => Some(f(v)),
            None => None,
        },
{
    lemma_map_entries_index(s, f, k);
    lemma_key_index(s, k);
}


/// Where `index_of_key` finds a key, the entry there has that key.
pub proof fn lemma_index_of_key<V>(s: Seq<(Seq<char>, V)>, k: Seq<char>)
    ensures
        index_of_key(s, k) matches Some(i) ==> 0 <= i < s.len() && s[i].0 == k,
    decreases s.len(),
{
    if s.len() > 0 && s.last().0 != k {
        lemma_index_of_key(s.drop_last(), k);
    }
}

/// Changing the value of an entry, key kept, moves no key.
proof fn lemma_index_of_key_update<V>(s: Seq<(Seq<char>, V)>, i: int, k: Seq<char>, v: V, x: Seq<char>)
    requires
        0 <= i < s.len(),
        s[i].0 == k,
    ensures
        index_of_key(s.update(i, (k, v)), x) == index_of_key(s, x),
    decreases s.len(),
{
    let t = s.update(i, (k, v));
    if t.last().0 != x {
        if i < s.len() - 1 {
            assert(t.drop_last() =~= s.drop_last().update(i, (k, v)));
            lemma_index_of_key_update(s.drop_last(), i, k, v, x);
        } else {
            assert(t.drop_last() =~= s.drop_last());
        }
    }
}

/// Reading after `put_value`: the key written finds the value written,
/// every other key finds what it found before.
pub proof fn lemma_put_value_of<V>(s: Seq<(Seq<char>, V)>, k: Seq<char>, v: V, other: Seq<char>)
    ensures
        value_of(put_value(s, k, v), k) == Some(v),
        other != k ==> value_of(put_value(s, k, v), other) == value_of(s, other),
{
    lemma_index_of_key(s, k);
    lemma_index_of_key(s, other);
    match index_of_key(s, k) {
        Some(i) => {
            lemma_index_of_key_update(s, i, k, v, k);
            lemma_index_of_key_update(s, i, k, v, other);
        },
        None => {
            assert(s.push((k, v)).drop_last() =~= s);
        },
    }
}

} // verus!
